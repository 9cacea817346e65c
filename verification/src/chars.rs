//! Character-level helpers over std's Unicode tables.

use vstd::prelude::*;

verus! {

/// What `char::to_uppercase` yields first for a character.
pub uninterp spec fn uppercase_first(c: char) -> Option<char>;

/// Whether a character has the Unicode White_Space property, as `char::is_whitespace` says.
pub uninterp spec fn unicode_whitespace(c: char) -> bool;

/// ASCII lowercase letters.
pub open spec fn is_ascii_lower(c: char) -> bool {
    'a' <= c <= 'z'
}

/// ASCII digits.
pub open spec fn is_ascii_digit(c: char) -> bool {
    '0' <= c <= '9'
}

/// The value of an ASCII digit.
pub open spec fn digit_value(c: char) -> int {
    c as int - '0' as int
}

/// The music sharp, flat and natural signs, which have no case.
pub open spec fn is_music_sign(c: char) -> bool {
    c == '\u{266F}' || c == '\u{266D}' || c == '\u{266E}'
}

/// The first uppercase character of a character: ASCII lowercase letters become their
/// uppercase letters, other ASCII characters and the music signs stay as they are, and the
/// rest go by the Unicode tables.
pub open spec fn upper_key(c: char) -> char {
    if (c as u32) < 128 && is_ascii_lower(c) {
        ((c as u32) - 32) as char
    } else if (c as u32) < 128 || is_music_sign(c) {
        c
    } else {
        uppercase_first(c)->0
    }
}

/// Two characters compare equal ignoring case, by their first uppercase character.
pub open spec fn same_ignoring_case(a: char, b: char) -> bool {
    upper_key(a) == upper_key(b)
}

/// Calls `char::to_uppercase` and takes the first character it yields. The iterator always
/// yields at least one character; ASCII lowercase letters map to their uppercase letters,
/// every other ASCII character maps to itself, and so do the music sharp, flat and natural
/// signs, which have no uppercase mapping. What other characters map to is left to the name
/// `uppercase_first`.
#[verifier::external_body]
pub(crate) fn first_uppercase(c: char) -> (r: Option<char>)
    ensures
        r == uppercase_first(c),
        r is Some,
        (c as u32) < 128 && is_ascii_lower(c) ==> r == Some(((c as u32) - 32) as char),
        (c as u32) < 128 && !is_ascii_lower(c) ==> r == Some(c),
        is_music_sign(c) ==> r == Some(c),
{
    c.to_uppercase().next()
}

/// Calls `char::is_whitespace`. Among ASCII characters exactly the space and the controls
/// from tab to carriage return are whitespace; other characters are left to the name
/// `unicode_whitespace`.
#[verifier::external_body]
pub(crate) fn is_whitespace(c: char) -> (r: bool)
    ensures
        r == unicode_whitespace(c),
        (c as u32) < 128 ==> (r <==> (c == ' ' || ('\t' <= c <= '\r'))),
{
    c.is_whitespace()
}

/// Calls `String::push`, which appends one character.
#[verifier::external_body]
pub(crate) fn push_char(s: &mut String, c: char)
    ensures
        final(s)@ == old(s)@.push(c),
{
    s.push(c);
}

/// Calls `String::push_str`, which appends a string slice.
#[verifier::external_body]
pub(crate) fn push_str(s: &mut String, t: &str)
    ensures
        final(s)@ == old(s)@ + t@,
{
    s.push_str(t);
}

/// A string holding the given characters.
pub fn string_from_chars(cs: &[char]) -> (r: String)
    ensures
        r@ == cs@,
{
    let mut s = String::new();
    let mut k: usize = 0;
    while k < cs.len()
        invariant
            k <= cs.len(),
            s@ == cs@.subrange(0, k as int),
        decreases cs.len() - k,
    {
        push_char(&mut s, cs[k]);
        k += 1;
        assert(s@ =~= cs@.subrange(0, k as int));
    }
    assert(cs@.subrange(0, cs@.len() as int) =~= cs@);
    s
}

/// Index of the first character from `i` on that is not whitespace (or the end).
pub open spec fn trim_start_index(s: Seq<char>, i: int) -> int
    decreases s.len() - i,
{
    if 0 <= i < s.len() && unicode_whitespace(s[i]) {
        trim_start_index(s, i + 1)
    } else {
        i
    }
}

/// Index just after the last character before `j` that is not whitespace (or `lo`).
pub open spec fn trim_end_index(s: Seq<char>, lo: int, j: int) -> int
    decreases j - lo,
{
    if lo < j && unicode_whitespace(s[j - 1]) {
        trim_end_index(s, lo, j - 1)
    } else {
        j
    }
}

/// A sequence with leading and trailing whitespace removed, as `str::trim` does.
pub open spec fn trimmed(s: Seq<char>) -> Seq<char> {
    let a = trim_start_index(s, 0);
    s.subrange(a, trim_end_index(s, a, s.len() as int))
}

/// The characters with leading and trailing whitespace removed.
pub fn trim_chars(cs: &[char]) -> (r: String)
    ensures
        r@ == trimmed(cs@),
{
    let mut a: usize = 0;
    while a < cs.len() && is_whitespace(cs[a])
        invariant
            a <= cs.len(),
            trim_start_index(cs@, a as int) == trim_start_index(cs@, 0),
        decreases cs.len() - a,
    {
        a += 1;
    }
    let mut b: usize = cs.len();
    while a < b && is_whitespace(cs[b - 1])
        invariant
            a <= b <= cs.len(),
            a as int == trim_start_index(cs@, 0),
            trim_end_index(cs@, a as int, b as int) == trim_end_index(cs@, a as int, cs@.len() as int),
        decreases b - a,
    {
        b -= 1;
    }
    let mut s = String::new();
    let mut k: usize = a;
    while k < b
        invariant
            a <= k <= b <= cs.len(),
            s@ == cs@.subrange(a as int, k as int),
        decreases b - k,
    {
        push_char(&mut s, cs[k]);
        k += 1;
        assert(s@ =~= cs@.subrange(a as int, k as int));
    }
    s
}


/// The ASCII digit for a value below ten.
pub open spec fn digit_char(d: int) -> char {
    ('0' as int + d) as char
}

/// The decimal representation of a natural number, without leading zeros.
pub open spec fn decimal_string(n: nat) -> Seq<char>
    decreases n,
{
    if n < 10 {
        seq![digit_char(n as int)]
    } else {
        decimal_string(n / 10).push(digit_char((n % 10) as int))
    }
}

/// The decimal representation of a u32, as its `to_string` writes it.
pub fn u32_to_string(n: u32) -> (r: String)
    ensures
        r@ == decimal_string(n as nat),
{
    // Collect the digits from the least significant end.
    let mut digits: Vec<char> = Vec::new();
    let mut m: u32 = n;
    let ghost mut rest: Seq<char> = Seq::empty();
    loop
        invariant_except_break
            decimal_string(n as nat) == decimal_string(m as nat) + rest,
            digits@ == rest.reverse(),
        ensures
            decimal_string(n as nat) == rest,
            digits@ == rest.reverse(),
        decreases m,
    {
        let d = m % 10;
        let c = char_of_digit(d);
        if m < 10 {
            proof {
                assert(decimal_string(m as nat) + rest =~= seq![c] + rest);
                rest = seq![c] + rest;
                assert(rest.reverse() =~= digits@.push(c));
            }
            digits.push(c);
            break;
        }
        proof {
            assert(decimal_string(m as nat) == decimal_string((m / 10) as nat).push(c));
            assert(decimal_string(m as nat) + rest =~= decimal_string((m / 10) as nat) + (seq![c] + rest));
            rest = seq![c] + rest;
            assert(rest.reverse() =~= digits@.push(c));
        }
        digits.push(c);
        m = m / 10;
    }
    let mut s = String::new();
    let mut k: usize = digits.len();
    while k > 0
        invariant
            k <= digits@.len(),
            digits@ == rest.reverse(),
            decimal_string(n as nat) == rest,
            s@ == rest.subrange(0, (digits@.len() - k) as int),
        decreases k,
    {
        k -= 1;
        push_char(&mut s, digits[k]);
        assert(s@ =~= rest.subrange(0, (digits@.len() - k) as int));
    }
    assert(s@ =~= rest);
    s
}

/// The ASCII digit for a value below ten.
fn char_of_digit(d: u32) -> (c: char)
    requires
        d < 10,
    ensures
        c == digit_char(d as int),
{
    if d == 0 {
        '0'
    } else if d == 1 {
        '1'
    } else if d == 2 {
        '2'
    } else if d == 3 {
        '3'
    } else if d == 4 {
        '4'
    } else if d == 5 {
        '5'
    } else if d == 6 {
        '6'
    } else if d == 7 {
        '7'
    } else if d == 8 {
        '8'
    } else {
        '9'
    }
}


/// The characters of a string, in order.
pub fn string_to_chars(s: &str) -> (r: Vec<char>)
    ensures
        r@ == s@,
{
    broadcast use vstd::string::axiom_spec_iter;

    let mut result: Vec<char> = Vec::new();
    for c in it: s.chars()
        invariant
            it.seq() == s@,
            result@ == s@.take(it.index() as int),
    {
        result.push(c);
        assert(result@ =~= s@.take(it.index() + 1));
    }
    assert(s@.take(s@.len() as int) =~= s@);
    result
}


/// The value of a sequence of decimal digits.
pub open spec fn digits_value(s: Seq<char>) -> nat
    decreases s.len(),
{
    if s.len() == 0 {
        0
    } else {
        digits_value(s.drop_last()) * 10 + (s.last() as int - '0' as int) as nat
    }
}

/// The digits of an unsigned number: the text after an optional `+`.
pub open spec fn unsigned_digits(s: Seq<char>) -> Seq<char> {
    if s.len() > 0 && s[0] == '+' {
        s.drop_first()
    } else {
        s
    }
}

/// What `str::parse::<u32>` accepts: an optional `+`, then one or more decimal digits whose
/// value fits a u32.
pub open spec fn parsed_u32(s: Seq<char>) -> Option<u32> {
    let digits = unsigned_digits(s);
    if digits.len() > 0 && (forall|k: int| 0 <= k < digits.len() ==> is_ascii_digit(#[trigger] digits[k]))
        && digits_value(digits) <= u32::MAX {
        Some(digits_value(digits) as u32)
    } else {
        None
    }
}

proof fn lemma_digits_value_grows(s: Seq<char>, k: int)
    requires
        0 <= k <= s.len(),
        forall|j: int| 0 <= j < s.len() ==> is_ascii_digit(#[trigger] s[j]),
    ensures
        digits_value(s.take(k)) <= digits_value(s),
    decreases s.len() - k,
{
    if k < s.len() {
        lemma_digits_value_grows(s, k + 1);
        assert(s.take(k + 1).drop_last() =~= s.take(k));
    } else {
        assert(s.take(k) =~= s);
    }
}

/// Parse an unsigned decimal number as `str::parse::<u32>` does.
pub fn parse_u32(s: &[char]) -> (r: Option<u32>)
    ensures
        r == parsed_u32(s@),
{
    let mut k: usize = 0;
    if s.len() > 0 && s[0] == '+' {
        k = 1;
    }
    let ghost digits = unsigned_digits(s@);
    assert(digits =~= s@.skip(k as int));
    if k >= s.len() {
        return None;
    }
    let start = k;
    let mut value: u64 = 0;
    while k < s.len()
        invariant
            start <= k <= s@.len(),
            start < s@.len(),
            digits == s@.skip(start as int),
            digits == unsigned_digits(s@),
            forall|j: int| start <= j < k ==> is_ascii_digit(#[trigger] s@[j]),
            value == digits_value(s@.subrange(start as int, k as int)),
            value <= u32::MAX,
        decreases s@.len() - k,
    {
        let c = s[k];
        if !('0' <= c && c <= '9') {
            assert(!is_ascii_digit(digits[k - start]));
            return None;
        }
        assert(s@.subrange(start as int, k + 1).drop_last() =~= s@.subrange(start as int, k as int));
        value = value * 10 + ((c as u32) - ('0' as u32)) as u64;
        k += 1;
        if value > u32::MAX as u64 {
            proof {
                if forall|m: int| 0 <= m < digits.len() ==> is_ascii_digit(#[trigger] digits[m]) {
                    assert(digits.take(k - start) =~= s@.subrange(start as int, k as int));
                    lemma_digits_value_grows(digits, k - start);
                }
            }
            return None;
        }
    }
    assert(s@.subrange(start as int, k as int) =~= digits);
    Some(value as u32)
}

/// What `str::parse::<usize>` accepts: an optional `+`, then one or more decimal digits whose
/// value fits a usize.
pub open spec fn parsed_usize(s: Seq<char>) -> Option<usize> {
    let digits = unsigned_digits(s);
    if digits.len() > 0 && (forall|k: int| 0 <= k < digits.len() ==> is_ascii_digit(#[trigger] digits[k]))
        && digits_value(digits) <= usize::MAX {
        Some(digits_value(digits) as usize)
    } else {
        None
    }
}

/// Parse an unsigned decimal number as `str::parse::<usize>` does.
pub fn parse_usize(s: &[char]) -> (r: Option<usize>)
    ensures
        r == parsed_usize(s@),
{
    let mut k: usize = 0;
    if s.len() > 0 && s[0] == '+' {
        k = 1;
    }
    let ghost digits = unsigned_digits(s@);
    assert(digits =~= s@.skip(k as int));
    if k >= s.len() {
        return None;
    }
    let start = k;
    let mut value: u128 = 0;
    while k < s.len()
        invariant
            start <= k <= s@.len(),
            start < s@.len(),
            digits == s@.skip(start as int),
            digits == unsigned_digits(s@),
            forall|j: int| start <= j < k ==> is_ascii_digit(#[trigger] s@[j]),
            value == digits_value(s@.subrange(start as int, k as int)),
            value <= usize::MAX,
        decreases s@.len() - k,
    {
        let c = s[k];
        if !('0' <= c && c <= '9') {
            assert(!is_ascii_digit(digits[k - start]));
            return None;
        }
        assert(s@.subrange(start as int, k + 1).drop_last() =~= s@.subrange(start as int, k as int));
        value = value * 10 + ((c as u32) - ('0' as u32)) as u128;
        k += 1;
        if value > usize::MAX as u128 {
            proof {
                if forall|m: int| 0 <= m < digits.len() ==> is_ascii_digit(#[trigger] digits[m]) {
                    assert(digits.take(k - start) =~= s@.subrange(start as int, k as int));
                    lemma_digits_value_grows(digits, k - start);
                }
            }
            return None;
        }
    }
    assert(s@.subrange(start as int, k as int) =~= digits);
    Some(value as usize)
}


/// The decimal representation of an integer, with a minus sign where it is negative.
pub open spec fn signed_decimal_string(n: int) -> Seq<char> {
    if n < 0 {
        seq!['-'] + decimal_string((-n) as nat)
    } else {
        decimal_string(n as nat)
    }
}

/// The decimal representation of an i32, as its `to_string` writes it.
pub fn i32_to_string(n: i32) -> (r: String)
    ensures
        r@ == signed_decimal_string(n as int),
{
    if n < 0 {
        let magnitude: u32 = (-(n as i64)) as u32;
        let digits = u32_to_string(magnitude);
        let mut r = String::new();
        push_char(&mut r, '-');
        push_str(&mut r, digits.as_str());
        assert(r@ =~= signed_decimal_string(n as int));
        r
    } else {
        u32_to_string(n as u32)
    }
}

/// The decimal representation of a number is all digits, and they denote it.
pub proof fn lemma_decimal_digits(n: nat)
    ensures
        decimal_string(n).len() > 0,
        forall|k: int| 0 <= k < decimal_string(n).len() ==> is_ascii_digit(#[trigger] decimal_string(n)[k]),
        digits_value(decimal_string(n)) == n,
    decreases n,
{
    let d = (n % 10) as int;
    assert(digit_char(d) as int == '0' as int + d);
    if n >= 10 {
        lemma_decimal_digits(n / 10);
        let s = decimal_string(n);
        assert(s.drop_last() =~= decimal_string(n / 10));
        assert(s.last() == digit_char(d));
        assert(forall|k: int| 0 <= k < s.len() - 1 ==> s[k] == decimal_string(n / 10)[k]);
        assert(digits_value(s.drop_last()) == n / 10);
        assert((s.last() as int - '0' as int) as nat == n % 10);
        assert(digits_value(s) == digits_value(s.drop_last()) * 10 + (s.last() as int - '0' as int) as nat);
        assert(n == (n / 10) * 10 + n % 10);
    } else {
        let s = decimal_string(n);
        assert(s.drop_last() =~= Seq::<char>::empty());
        assert(n % 10 == n);
        assert(digits_value(s.drop_last()) == 0);
        assert((s.last() as int - '0' as int) as nat == n);
    }
}

/// Law: a number printed in decimal reads back as itself.
pub proof fn law_decimal_round_trip(n: u32)
    ensures
        parsed_u32(decimal_string(n as nat)) == Some(n),
{
    lemma_decimal_digits(n as nat);
    let s = decimal_string(n as nat);
    assert(is_ascii_digit(s[0]));
    assert(unsigned_digits(s) == s);
}

} // verus!
