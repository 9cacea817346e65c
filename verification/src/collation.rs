//! The order of texts: lexicographic by Unicode code point. It is the order of `String`, whose
//! UTF-8 bytes compare in the same order as the code points they encode.

use vstd::prelude::*;

verus! {

/// Whether text `a` comes before text `b`.
pub open spec fn text_lt(a: Seq<char>, b: Seq<char>) -> bool
    decreases a.len(),
{
    if a.len() == 0 {
        b.len() > 0
    } else if b.len() == 0 {
        false
    } else if a[0] != b[0] {
        a[0] < b[0]
    } else {
        text_lt(a.drop_first(), b.drop_first())
    }
}

/// Texts in order; equal ones may stand side by side.
pub open spec fn texts_sorted(s: Seq<Seq<char>>) -> bool {
    forall|i: int, j: int| 0 <= i < j < s.len() ==> !text_lt(#[trigger] s[j], #[trigger] s[i])
}

/// Character vectors as texts.
pub open spec fn char_texts(v: Seq<Vec<char>>) -> Seq<Seq<char>> {
    v.map_values(|t: Vec<char>| t@)
}

/// No text comes before itself.
pub proof fn lemma_text_lt_irreflexive(a: Seq<char>)
    ensures
        !text_lt(a, a),
    decreases a.len(),
{
    if a.len() > 0 {
        lemma_text_lt_irreflexive(a.drop_first());
    }
}

/// Of two different texts, one comes before the other.
pub proof fn lemma_text_lt_total(a: Seq<char>, b: Seq<char>)
    ensures
        a == b || text_lt(a, b) || text_lt(b, a),
    decreases a.len(),
{
    if a.len() == 0 || b.len() == 0 {
        if a.len() == 0 && b.len() == 0 {
            assert(a =~= b);
        }
    } else if a[0] == b[0] {
        lemma_text_lt_total(a.drop_first(), b.drop_first());
        assert(a.drop_first().len() == a.len() - 1);
        assert(b.drop_first().len() == b.len() - 1);
        if a.drop_first() == b.drop_first() {
            assert(a.len() == b.len());
            assert(a =~= b) by {
                assert forall|k: int| 0 <= k < a.len() implies a[k] == b[k] by {
                    if k > 0 {
                        assert(a[k] == a.drop_first()[k - 1]);
                        assert(b[k] == b.drop_first()[k - 1]);
                    }
                }
            }
        }
    }
}

/// The order is transitive.
pub proof fn lemma_text_lt_transitive(a: Seq<char>, b: Seq<char>, c: Seq<char>)
    requires
        text_lt(a, b),
        text_lt(b, c),
    ensures
        text_lt(a, c),
    decreases a.len(),
{
    if a.len() > 0 && b.len() > 0 && c.len() > 0 && a[0] == b[0] && b[0] == c[0] {
        lemma_text_lt_transitive(a.drop_first(), b.drop_first(), c.drop_first());
    }
}

/// Whether text `a` comes before text `b`.
pub fn text_less(a: &Vec<char>, b: &Vec<char>) -> (r: bool)
    ensures
        r == text_lt(a@, b@),
{
    let mut i: usize = 0;
    assert(a@.skip(0) =~= a@);
    assert(b@.skip(0) =~= b@);
    while i < a.len() && i < b.len() && a[i] == b[i]
        invariant
            i <= a@.len(),
            i <= b@.len(),
            text_lt(a@.skip(i as int), b@.skip(i as int)) == text_lt(a@, b@),
        decreases a@.len() - i,
    {
        assert(a@.skip(i as int).drop_first() =~= a@.skip(i + 1));
        assert(b@.skip(i as int).drop_first() =~= b@.skip(i + 1));
        i += 1;
    }
    if i == a.len() {
        i < b.len()
    } else if i == b.len() {
        false
    } else {
        assert(a@.skip(i as int)[0] == a@[i as int]);
        assert(b@.skip(i as int)[0] == b@[i as int]);
        a[i] < b[i]
    }
}

/// Whether two texts are the same.
pub fn texts_equal(a: &Vec<char>, b: &Vec<char>) -> (r: bool)
    ensures
        r == (a@ == b@),
{
    if a.len() != b.len() {
        return false;
    }
    let mut i: usize = 0;
    while i < a.len()
        invariant
            a@.len() == b@.len(),
            i <= a@.len(),
            forall|k: int| 0 <= k < i ==> a@[k] == b@[k],
        decreases a@.len() - i,
    {
        if a[i] != b[i] {
            return false;
        }
        i += 1;
    }
    assert(a@ =~= b@);
    true
}

/// Insert a text into sorted texts, after those that do not come after it; the position is
/// returned.
pub fn insert_sorted(s: &mut Vec<Vec<char>>, x: Vec<char>) -> (pos: usize)
    requires
        texts_sorted(char_texts(old(s)@)),
    ensures
        pos <= old(s)@.len(),
        char_texts(final(s)@) == char_texts(old(s)@).insert(pos as int, x@),
        texts_sorted(char_texts(final(s)@)),
{
    let ghost t = char_texts(s@);
    let mut pos: usize = 0;
    while pos < s.len() && !text_less(&x, &s[pos])
        invariant
            pos <= s@.len(),
            t == char_texts(s@),
            forall|k: int| 0 <= k < pos ==> !text_lt(x@, #[trigger] t[k]),
        decreases s@.len() - pos,
    {
        pos += 1;
    }
    let ghost xv = x@;
    s.insert(pos, x);
    proof {
        let u = char_texts(s@);
        assert(u =~= t.insert(pos as int, xv));
        assert forall|i: int, j: int| 0 <= i < j < u.len() implies !text_lt(
            #[trigger] u[j],
            #[trigger] u[i],
        ) by {
            if j < pos {
                assert(u[i] == t[i] && u[j] == t[j]);
            } else if j == pos {
                assert(u[i] == t[i]);
                assert(!text_lt(xv, t[i]));
            } else if i == pos {
                // x comes before the text at pos, and that text comes no later than any after it.
                assert(u[j] == t[j - 1]);
                assert(pos < t.len());
                assert(text_lt(xv, t[pos as int]));
                if text_lt(t[j - 1], xv) {
                    lemma_text_lt_transitive(t[j - 1], xv, t[pos as int]);
                    if j - 1 > pos {
                        assert(!text_lt(t[j - 1], t[pos as int]));
                    } else {
                        lemma_text_lt_irreflexive(t[pos as int]);
                    }
                }
            } else if i < pos {
                assert(u[i] == t[i] && u[j] == t[j - 1]);
            } else {
                assert(u[i] == t[i - 1] && u[j] == t[j - 1]);
            }
        }
    }
    pos
}

} // verus!
