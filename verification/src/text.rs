//! Words of tune titles for text search: a text is lower-cased, transliterated to ASCII, and
//! split into tokens in several ways, whose union is the result.

use vstd::prelude::*;
use crate::chars::{is_whitespace, push_char, string_to_chars, unicode_whitespace};
use crate::collation::texts_equal;

verus! {

/// What `str::to_lowercase` gives for a text.
pub uninterp spec fn lowercase_text(s: Seq<char>) -> Seq<char>;

/// What `unidecode::unidecode` gives for a text: its transliteration to ASCII.
pub uninterp spec fn transliteration(s: Seq<char>) -> Seq<char>;

/// Whether a character has the Unicode Alphabetic property, as `char::is_alphabetic` says.
pub uninterp spec fn unicode_alphabetic(c: char) -> bool;

/// Whether a character is in a general category for numbers, as `char::is_numeric` says.
pub uninterp spec fn unicode_numeric(c: char) -> bool;

/// Calls `str::to_lowercase`, the lowercase equivalent of a text under Unicode's rules; what
/// that is, is left to the name `lowercase_text`.
#[verifier::external_body]
fn to_lowercase(s: &str) -> (r: String)
    ensures
        r@ == lowercase_text(s@),
{
    s.to_lowercase()
}

/// Calls `unidecode::unidecode`, which transliterates a text to ASCII character by character:
/// every character of the result is ASCII, and an ASCII text is its own transliteration. What
/// other characters become is left to the name `transliteration`.
#[verifier::external_body]
fn unidecode_text(s: &str) -> (r: String)
    ensures
        r@ == transliteration(s@),
        forall|k: int| 0 <= k < r@.len() ==> (r@[k] as u32) < 128,
        (forall|k: int| 0 <= k < s@.len() ==> (s@[k] as u32) < 128) ==> r@ == s@,
{
    unidecode::unidecode(s)
}

/// Calls `char::is_alphabetic`.
#[verifier::external_body]
fn is_alphabetic(c: char) -> (r: bool)
    ensures
        r == unicode_alphabetic(c),
{
    c.is_alphabetic()
}

/// Calls `char::is_numeric`.
#[verifier::external_body]
fn is_numeric(c: char) -> (r: bool)
    ensures
        r == unicode_numeric(c),
{
    c.is_numeric()
}

/// Calls `char::is_alphanumeric`, which holds where `is_alphabetic` or `is_numeric` does.
#[verifier::external_body]
fn is_alphanumeric(c: char) -> (r: bool)
    ensures
        r == (unicode_alphabetic(c) || unicode_numeric(c)),
{
    c.is_alphanumeric()
}

/// The characters that a text is split at.
#[derive(Clone, Copy)]
pub enum Separator {
    Whitespace,
    NonAlphanumeric,
    NonAlphabetic,
    NonNumeric,
}

/// Whether a character separates pieces.
pub open spec fn separates(sep: Separator, c: char) -> bool {
    match sep {
        Separator::Whitespace => unicode_whitespace(c),
        Separator::NonAlphanumeric => !(unicode_alphabetic(c) || unicode_numeric(c)),
        Separator::NonAlphabetic => !unicode_alphabetic(c),
        Separator::NonNumeric => !unicode_numeric(c),
    }
}

/// The pieces of a text between separators, empty ones included, as `str::split` gives them:
/// one more piece than separators.
pub open spec fn split_pieces(s: Seq<char>, sep: Separator) -> Seq<Seq<char>>
    decreases s.len(),
{
    if s.len() == 0 {
        seq![seq![]]
    } else {
        let front = split_pieces(s.drop_last(), sep);
        if separates(sep, s.last()) {
            front.push(seq![])
        } else {
            front.update(front.len() - 1, front.last().push(s.last()))
        }
    }
}

/// The pieces of each text, text after text.
pub open spec fn split_all(ts: Seq<Seq<char>>, sep: Separator) -> Seq<Seq<char>>
    decreases ts.len(),
{
    if ts.len() == 0 {
        seq![]
    } else {
        split_all(ts.drop_last(), sep) + split_pieces(ts.last(), sep)
    }
}

/// The texts that end in `s`, in order.
pub open spec fn ending_in_s(ts: Seq<Seq<char>>) -> Seq<Seq<char>>
    decreases ts.len(),
{
    if ts.len() == 0 {
        seq![]
    } else {
        ending_in_s(ts.drop_last()) + if ts.last().len() > 0 && ts.last().last() == 's' {
            seq![ts.last()]
        } else {
            seq![]
        }
    }
}

/// The candidate tokens of a text: the lower-cased text and its transliteration, split at
/// whitespace; those pieces, and then all so far, split further at what isn't alphanumeric,
/// at what isn't alphabetic and at what isn't numeric; then all that end in `s` once more.
pub open spec fn token_candidates(text: Seq<char>) -> Seq<Seq<char>> {
    let lower = lowercase_text(text);
    let preprocessed = lower + seq![' '] + transliteration(lower);
    let t1 = split_pieces(preprocessed, Separator::Whitespace);
    let t2 = t1 + split_all(t1, Separator::NonAlphanumeric);
    let t3 = t2 + split_all(t2, Separator::NonAlphabetic);
    let t4 = t3 + split_all(t3, Separator::NonNumeric);
    t4 + ending_in_s(t4)
}

proof fn lemma_split_pieces_nonempty(s: Seq<char>, sep: Separator)
    ensures
        split_pieces(s, sep).len() >= 1,
    decreases s.len(),
{
    if s.len() > 0 {
        lemma_split_pieces_nonempty(s.drop_last(), sep);
    }
}

/// Whether a character separates pieces.
fn is_separator(sep: Separator, c: char) -> (r: bool)
    ensures
        r == separates(sep, c),
{
    match sep {
        Separator::Whitespace => is_whitespace(c),
        Separator::NonAlphanumeric => !is_alphanumeric(c),
        Separator::NonAlphabetic => !is_alphabetic(c),
        Separator::NonNumeric => !is_numeric(c),
    }
}

/// Split a text at the separators, as `str::split` does.
fn split_text(s: &Vec<char>, sep: Separator) -> (r: Vec<Vec<char>>)
    ensures
        r@.map_values(|p: Vec<char>| p@) == split_pieces(s@, sep),
{
    let mut pieces: Vec<Vec<char>> = Vec::new();
    let mut current: Vec<char> = Vec::new();
    let mut k: usize = 0;
    assert(s@.take(0) =~= Seq::<char>::empty());
    while k < s.len()
        invariant
            k <= s@.len(),
            pieces@.map_values(|p: Vec<char>| p@).push(current@) == split_pieces(s@.take(k as int), sep),
        decreases s@.len() - k,
    {
        let c = s[k];
        let ghost before = pieces@.map_values(|p: Vec<char>| p@).push(current@);
        proof {
            assert(s@.take(k + 1).drop_last() =~= s@.take(k as int));
            lemma_split_pieces_nonempty(s@.take(k as int), sep);
        }
        if is_separator(sep, c) {
            let ghost old_pieces = pieces@;
            let finished = current;
            pieces.push(finished);
            current = Vec::new();
            assert(pieces@.map_values(|p: Vec<char>| p@).push(current@) =~= before.push(seq![]));
        } else {
            current.push(c);
            assert(pieces@.map_values(|p: Vec<char>| p@).push(current@) =~= before.update(
                before.len() - 1,
                before.last().push(c),
            ));
        }
        k += 1;
    }
    assert(s@.take(s@.len() as int) =~= s@);
    let ghost before = pieces@.map_values(|p: Vec<char>| p@);
    pieces.push(current);
    assert(pieces@.map_values(|p: Vec<char>| p@) =~= before.push(current@));
    pieces
}

/// Split each text at the separators, text after text, appending the pieces.
fn split_each(ts: &Vec<Vec<char>>, sep: Separator, out: &mut Vec<Vec<char>>)
    ensures
        final(out)@.map_values(|p: Vec<char>| p@) == old(out)@.map_values(|p: Vec<char>| p@)
            + split_all(ts@.map_values(|p: Vec<char>| p@), sep),
{
    let ghost all = ts@.map_values(|p: Vec<char>| p@);
    let ghost start = out@.map_values(|p: Vec<char>| p@);
    let mut k: usize = 0;
    assert(all.take(0) =~= Seq::<Seq<char>>::empty());
    assert(start + Seq::<Seq<char>>::empty() =~= start);
    while k < ts.len()
        invariant
            k <= ts@.len(),
            all == ts@.map_values(|p: Vec<char>| p@),
            out@.map_values(|p: Vec<char>| p@) == start + split_all(all.take(k as int), sep),
        decreases ts@.len() - k,
    {
        let pieces = split_text(&ts[k], sep);
        let ghost before = out@.map_values(|p: Vec<char>| p@);
        let mut j: usize = 0;
        while j < pieces.len()
            invariant
                j <= pieces@.len(),
                out@.map_values(|p: Vec<char>| p@) == before + pieces@.map_values(|p: Vec<char>| p@).take(
                    j as int,
                ),
            decreases pieces@.len() - j,
        {
            let ghost prev = out@;
            out.push(pieces[j].clone());
            assert(out@.map_values(|p: Vec<char>| p@) =~= prev.map_values(|p: Vec<char>| p@).push(
                pieces@[j as int]@,
            ));
            j += 1;
            assert(out@.map_values(|p: Vec<char>| p@) =~= before + pieces@.map_values(
                |p: Vec<char>| p@,
            ).take(j as int));
        }
        assert(all.take(k + 1).drop_last() =~= all.take(k as int));
        assert(all[k as int] == ts@[k as int]@);
        assert(pieces@.map_values(|p: Vec<char>| p@).take(pieces@.len() as int) =~= pieces@.map_values(
            |p: Vec<char>| p@,
        ));
        k += 1;
        assert(out@.map_values(|p: Vec<char>| p@) =~= start + split_all(all.take(k as int), sep));
    }
    assert(all.take(all.len() as int) =~= all);
}

/// The texts as character sequences.
pub open spec fn texts(v: Seq<Vec<char>>) -> Seq<Seq<char>> {
    v.map_values(|p: Vec<char>| p@)
}

/// The candidate tokens of a text, in the order they are found, with repeats and empty ones.
pub fn token_list(text: &str) -> (r: Vec<String>)
    ensures
        r@.map_values(|s: String| s@) == token_candidates(text@),
{
    // Produce a lower-case, with and without diacritics.
    let lowercase = to_lowercase(text);
    let ascii = unidecode_text(lowercase.as_str());
    let mut preprocessed = string_to_chars(lowercase.as_str());
    let ghost lower = preprocessed@;
    preprocessed.push(' ');
    let ascii_chars = string_to_chars(ascii.as_str());
    let mut k: usize = 0;
    let ghost with_space = preprocessed@;
    while k < ascii_chars.len()
        invariant
            k <= ascii_chars@.len(),
            preprocessed@ == with_space + ascii_chars@.take(k as int),
        decreases ascii_chars@.len() - k,
    {
        preprocessed.push(ascii_chars[k]);
        k += 1;
        assert(preprocessed@ =~= with_space + ascii_chars@.take(k as int));
    }
    assert(ascii_chars@.take(ascii_chars@.len() as int) =~= ascii_chars@);
    assert(preprocessed@ =~= lower + seq![' '] + transliteration(lower));
    // Always tokenize by whitespace.
    let mut tokenized = split_text(&preprocessed, Separator::Whitespace);
    let ghost t1 = texts(tokenized@);
    // Tokens that are a mix of alpha and numeric.
    let mut new: Vec<Vec<char>> = Vec::new();
    split_each(&tokenized, Separator::NonAlphanumeric, &mut new);
    tokenized.append(&mut new);
    let ghost t2 = texts(tokenized@);
    assert(t2 =~= t1 + split_all(t1, Separator::NonAlphanumeric));
    // Tokens that are only alpha.
    let mut new: Vec<Vec<char>> = Vec::new();
    split_each(&tokenized, Separator::NonAlphabetic, &mut new);
    tokenized.append(&mut new);
    let ghost t3 = texts(tokenized@);
    assert(t3 =~= t2 + split_all(t2, Separator::NonAlphabetic));
    // Tokens that are only numeric.
    let mut new: Vec<Vec<char>> = Vec::new();
    split_each(&tokenized, Separator::NonNumeric, &mut new);
    tokenized.append(&mut new);
    let ghost t4 = texts(tokenized@);
    assert(t4 =~= t3 + split_all(t3, Separator::NonNumeric));
    // Tokens ending in 's' are added again.
    let mut result: Vec<String> = Vec::new();
    let mut again: Vec<String> = Vec::new();
    let mut j: usize = 0;
    while j < tokenized.len()
        invariant
            j <= tokenized@.len(),
            t4 == texts(tokenized@),
            result@.map_values(|s: String| s@) == t4.take(j as int),
            again@.map_values(|s: String| s@) == ending_in_s(t4.take(j as int)),
        decreases tokenized@.len() - j,
    {
        let tok = &tokenized[j];
        let mut s = String::new();
        let mut i: usize = 0;
        while i < tok.len()
            invariant
                i <= tok@.len(),
                s@ == tok@.take(i as int),
            decreases tok@.len() - i,
        {
            push_char(&mut s, tok[i]);
            i += 1;
            assert(s@ =~= tok@.take(i as int));
        }
        assert(tok@.take(tok@.len() as int) =~= tok@);
        let ghost before = result@;
        let ghost before_again = again@;
        let ends_in_s = tok.len() > 0 && tok[tok.len() - 1] == 's';
        if ends_in_s {
            again.push(s.clone());
        }
        result.push(s);
        proof {
            assert(t4.take(j + 1) =~= t4.take(j as int).push(t4[j as int]));
            assert(t4[j as int] == tok@);
            assert(t4.take(j + 1).drop_last() =~= t4.take(j as int));
        }
        assert(result@.map_values(|s: String| s@) =~= t4.take(j + 1));
        assert(again@.map_values(|s: String| s@) =~= ending_in_s(t4.take(j + 1)));
        j += 1;
    }
    assert(t4.take(t4.len() as int) =~= t4);
    let ghost first = result@.map_values(|s: String| s@);
    let ghost second = again@.map_values(|s: String| s@);
    result.append(&mut again);
    assert(result@.map_values(|s: String| s@) =~= first + second);
    result
}

/// The texts of strings, each once.
pub open spec fn distinct_texts(v: Seq<String>) -> bool {
    forall|i: int, j: int| 0 <= i < j < v.len() ==> (#[trigger] v[i])@ != (#[trigger] v[j])@
}

/// Tokenize a text a number of different ways, all unioned: the non-empty candidate tokens,
/// each once, in the order of their first appearance.
pub fn tokenize(text: &str) -> (r: Vec<String>)
    ensures
        distinct_texts(r@),
        forall|i: int|
            0 <= i < r@.len() ==> (#[trigger] r@[i])@.len() > 0 && token_candidates(text@).contains(
                r@[i]@,
            ),
        forall|k: int|
            0 <= k < token_candidates(text@).len() && token_candidates(text@)[k].len() > 0
                ==> exists|i: int| 0 <= i < r@.len() && (#[trigger] r@[i])@ == token_candidates(
                text@,
            )[k],
{
    let tokens = token_list(text);
    let ghost cands = tokens@.map_values(|s: String| s@);
    let mut result: Vec<String> = Vec::new();
    // The characters of each token in the result, to compare new tokens against.
    let mut seen: Vec<Vec<char>> = Vec::new();
    let mut k: usize = 0;
    while k < tokens.len()
        invariant
            k <= tokens@.len(),
            cands == tokens@.map_values(|s: String| s@),
            cands == token_candidates(text@),
            seen@.len() == result@.len(),
            forall|i: int| 0 <= i < result@.len() ==> (#[trigger] seen@[i])@ == result@[i]@,
            distinct_texts(result@),
            forall|i: int|
                0 <= i < result@.len() ==> (#[trigger] result@[i])@.len() > 0 && cands.contains(
                    result@[i]@,
                ),
            forall|j: int|
                0 <= j < k && cands[j].len() > 0 ==> exists|i: int|
                    0 <= i < result@.len() && (#[trigger] result@[i])@ == cands[j],
        decreases tokens@.len() - k,
    {
        let tok = &tokens[k];
        assert(cands[k as int] == tok@);
        if !tok.as_str().is_empty() {
            let chars = string_to_chars(tok.as_str());
            let mut found = false;
            let mut i: usize = 0;
            while i < seen.len() && !found
                invariant
                    i <= seen@.len(),
                    chars@ == tok@,
                    seen@.len() == result@.len(),
                    forall|m: int| 0 <= m < result@.len() ==> (#[trigger] seen@[m])@ == result@[m]@,
                    found ==> exists|m: int| 0 <= m < result@.len() && (#[trigger] result@[m])@
                        == tok@,
                    !found ==> forall|m: int| 0 <= m < i ==> (#[trigger] seen@[m])@ != tok@,
                decreases seen@.len() - i + (if found { 0int } else { 1int }),
            {
                if texts_equal(&seen[i], &chars) {
                    assert(result@[i as int]@ == tok@);
                    found = true;
                } else {
                    i += 1;
                }
            }
            if !found {
                let ghost before = result@;
                let copy = tok.clone();
                result.push(copy);
                seen.push(chars);
                proof {
                    assert(result@[before.len() as int]@ == tok@);
                    assert(cands.contains(tok@)) by {
                        assert(cands[k as int] == tok@);
                    }
                    assert forall|a: int, b: int| 0 <= a < b < result@.len() implies (
                    #[trigger] result@[a])@ != (#[trigger] result@[b])@ by {
                        if b == before.len() {
                            assert(seen@[a]@ == result@[a]@);
                        } else {
                            assert(result@[a] == before[a] && result@[b] == before[b]);
                        }
                    }
                    assert forall|j: int| 0 <= j < k + 1 && cands[j].len() > 0 implies exists|m: int|
                        0 <= m < result@.len() && (#[trigger] result@[m])@ == cands[j] by {
                        if j < k {
                            let m = choose|m: int| 0 <= m < before.len() && (#[trigger] before[m])@
                                == cands[j];
                            assert(result@[m] == before[m]);
                        } else {
                            assert(result@[before.len() as int]@ == cands[j]);
                        }
                    }
                }
            }
        } else {
            assert(cands[k as int].len() == 0);
        }
        k += 1;
    }
    result
}

} // verus!
