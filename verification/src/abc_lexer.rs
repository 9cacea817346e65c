//! ABC Lexer
//! Transform strings of ABC into a sequence of lexed tokens.
//! Tokens hold newly allocated strings that have an independent lifetime to the input.
//! When lex_* and read_* functions return errors, they leave the context in the most helpful
//! state so that the next token has a good chance at understanding it: e.g. they don't bomb
//! out half way through the time signature.
//! lex_* functions are relatively context-free and return a top-level token wrapped in a
//! LexResult. They are called where the token is expected, and raise an error when an
//! unexpected character was found.
//! read_* functions are helpers, often represent optional branches, and generally return an
//! Option. They are called speculatively.
//! A Context is a lightweight immutable pointer into a char slice.
//!
//! Each function's contract is stated over spec functions named `scan_*`, which together make
//! up the grammar that the lexer recognises over the input characters.

use vstd::prelude::*;

use crate::chars::{
    decimal_string, digit_value, push_str, u32_to_string, first_uppercase, is_ascii_digit, push_char, same_ignoring_case, trim_chars,
    trimmed,
};
use crate::music::{
    Accidental, Barline, DiatonicPitchClass, FractionalDuration, Mode, Note, Pitch, PitchClass,
    mode_text,
};

verus! {

/// Which bit of the tune are we in?
#[derive(Debug, PartialEq, Eq, Structural, Clone, Copy)]
pub enum TuneSection {
    Header,
    Body,
}

/// Context required to lex an ABC input: the characters, their number, the current offset
/// and the section of the tune. Contexts are immutable values.
#[derive(Debug, PartialEq, Clone, Copy)]
pub struct Context<'a> {
    /// The ABC tune content as a slice of characters, so we can peek.
    pub c: &'a [char],
    /// Length of the input.
    pub l: usize,
    /// The current index into the input.
    pub i: usize,
    pub tune_section: TuneSection,
}

impl<'a> Context<'a> {
    /// The recorded length is the length of the input, which leaves room to step past its end.
    pub open spec fn wf(&self) -> bool {
        self.l == self.c@.len() && self.l < usize::MAX
    }

    /// The same context at another offset.
    pub open spec fn at(self, i: int) -> Context<'a> {
        Context { c: self.c, l: self.l, i: i as usize, tune_section: self.tune_section }
    }

    pub fn new(c: &'a [char]) -> (r: Context<'a>)
        requires
            c@.len() < usize::MAX,
        ensures
            r.wf(),
            r.c == c,
            r.i == 0,
            r.tune_section == TuneSection::Header,
    {
        let l = c.len();
        Context { c, l, i: 0, tune_section: TuneSection::Header }
    }

    /// Are there this many characters available?
    pub fn has(&self, chars: usize) -> (r: bool)
        ensures
            r == (self.i + chars <= self.l),
    {
        self.i <= self.l && chars <= self.l - self.i
    }

    /// Move to the body section.
    pub fn in_body(&self) -> (r: Context<'a>)
        ensures
            r == (Context { c: self.c, l: self.l, i: self.i, tune_section: TuneSection::Body }),
    {
        Context { c: self.c, l: self.l, i: self.i, tune_section: TuneSection::Body }
    }

    /// Skip this many characters.
    pub fn skip(self, amount: usize) -> (r: Context<'a>)
        requires
            self.i + amount <= usize::MAX,
        ensures
            r == self.at(self.i + amount),
    {
        Context { c: self.c, l: self.l, i: self.i + amount, tune_section: self.tune_section }
    }

    /// Take the first character, if there is one.
    pub fn first(&self) -> (r: Option<(Context<'a>, char)>)
        requires
            self.wf(),
        ensures
            r == if self.i + 1 <= self.l {
                Some((self.at(self.i + 1), self.c@[self.i as int]))
            } else {
                None
            },
    {
        if !self.has(1) {
            None
        } else {
            Some((self.skip(1), self.c[self.i]))
        }
    }

    /// Peek at the first character, if there is one, but don't move on.
    pub fn peek_first(&self) -> (r: Option<(Context<'a>, char)>)
        requires
            self.wf(),
        ensures
            r == if self.i + 1 <= self.l {
                Some((*self, self.c@[self.i as int]))
            } else {
                None
            },
    {
        if !self.has(1) {
            None
        } else {
            Some((*self, self.c[self.i]))
        }
    }

    /// Take the first n characters, if we have them.
    pub fn take(&self, n: usize) -> (r: Option<(Context<'a>, &'a [char])>)
        requires
            self.wf(),
        ensures
            r is Some <==> self.i + n <= self.l,
            r matches Some((ctx, taken)) ==> ctx == self.at(self.i + n) && taken@
                == self.c@.subrange(self.i as int, self.i + n),
    {
        if !self.has(n) {
            None
        } else {
            Some((self.skip(n), &self.c[self.i..self.i + n]))
        }
    }

    /// Skip any spaces at the offset.
    pub fn skip_whitespace(&self) -> (r: Context<'a>)
        requires
            self.wf(),
        ensures
            r == self.at(skip_spaces(self.c@, self.i as int)),
    {
        let mut context: Context<'a> = *self;
        loop
            invariant
                context.wf(),
                context == self.at(context.i as int),
                skip_spaces(self.c@, context.i as int) == skip_spaces(self.c@, self.i as int),
            decreases self.l + 1 - context.i,
        {
            match context.first() {
                Some((ctx, ' ')) => context = ctx,
                _ => return context,
            }
        }
    }

    /// Does the context start with the given string, ignoring case? If so, skip past it.
    pub fn starts_with_insensitive_eager(&self, prefix: &[char]) -> (r: (Context<'a>, bool))
        requires
            self.wf(),
        ensures
            r == if starts_at(self.c@, self.i as int, prefix@) {
                (self.at(self.i + prefix@.len()), true)
            } else {
                (*self, false)
            },
    {
        let len = prefix.len();
        if self.i > self.l || len > self.l - self.i {
            (*self, false)
        } else {
            let mut k: usize = 0;
            while k < len
                invariant
                    self.i + len <= self.l,
                    len == prefix@.len(),
                    self.l == self.c@.len(),
                    k <= len,
                    forall|m: int|
                        0 <= m < k ==> same_ignoring_case(self.c@[self.i + m], prefix@[m]),
                decreases len - k,
            {
                // If there is no match, return the context as it was.
                if first_uppercase(self.c[self.i + k]) != first_uppercase(prefix[k]) {
                    return (*self, false);
                }
                k += 1;
            }
            (self.skip(len), true)
        }
    }

    /// Skip an optional prefix.
    pub fn skip_optional_prefix(&self, prefix: &[char]) -> (r: Context<'a>)
        requires
            self.wf(),
        ensures
            r == if starts_at(self.c@, self.i as int, prefix@) {
                self.at(self.i + prefix@.len())
            } else {
                *self
            },
    {
        let (ctx, matched) = self.starts_with_insensitive_eager(prefix);
        if matched {
            ctx
        } else {
            *self
        }
    }

    /// The content from the offset onwards.
    pub fn rest(&self) -> (r: &'a [char])
        requires
            self.wf(),
            self.i <= self.l,
        ensures
            r@ == self.c@.subrange(self.i as int, self.l as int),
    {
        &self.c[self.i..self.l]
    }
}

/// The offset of the first character from `i` on that is not a space (or the end).
pub open spec fn skip_spaces(s: Seq<char>, i: int) -> int
    decreases s.len() - i,
{
    if 0 <= i < s.len() && s[i] == ' ' {
        skip_spaces(s, i + 1)
    } else {
        i
    }
}

/// The input starts, at offset `i`, with `prefix`, ignoring case.
pub open spec fn starts_at(s: Seq<char>, i: int, prefix: Seq<char>) -> bool {
    &&& 0 <= i
    &&& i + prefix.len() <= s.len()
    &&& forall|m: int| 0 <= m < prefix.len() ==> same_ignoring_case(s[i + m], prefix[m])
}

/// The offset of the first occurrence of `d` from `i` on.
pub open spec fn find_char(s: Seq<char>, i: int, d: char) -> Option<int>
    decreases s.len() - i,
{
    if i < 0 || i >= s.len() {
        None
    } else if s[i] == d {
        Some(i)
    } else {
        find_char(s, i + 1, d)
    }
}

/// The number of consecutive ASCII digits from offset `i`.
pub open spec fn digit_run(s: Seq<char>, i: int) -> nat
    decreases s.len() - i,
{
    if 0 <= i < s.len() && is_ascii_digit(s[i]) {
        1 + digit_run(s, i + 1)
    } else {
        0
    }
}

/// The decimal value of the `n` characters from offset `i`.
pub open spec fn decimal(s: Seq<char>, i: int, n: nat) -> int
    decreases n,
{
    if n == 0 {
        0
    } else {
        decimal(s, i, (n - 1) as nat) * 10 + digit_value(s[i + n - 1])
    }
}

/// Read until a delimiter character.
/// Return the context after the delimiter plus the content before it.
pub fn read_until<'a>(ctx: Context<'a>, delimiter: char) -> (r: Result<
    (Context<'a>, &'a [char]),
    Context<'a>,
>)
    requires
        ctx.wf(),
        ctx.i <= ctx.l,
    ensures
        match find_char(ctx.c@, ctx.i as int, delimiter) {
            Some(p) => r matches Ok((after, content)) && after == ctx.at(p + 1) && content@
                == ctx.c@.subrange(ctx.i as int, p),
            None => r == Err::<(Context<'a>, &'a [char]), Context<'a>>(ctx.at(ctx.l as int)),
        },
{
    let mut k: usize = ctx.i;
    while k < ctx.l
        invariant
            ctx.wf(),
            ctx.i <= k <= ctx.l,
            find_char(ctx.c@, k as int, delimiter) == find_char(ctx.c@, ctx.i as int, delimiter),
        decreases ctx.l - k,
    {
        if ctx.c[k] == delimiter {
            // Skip 1 for the delimiter character.
            return Ok((ctx.skip(k - ctx.i + 1), &ctx.c[ctx.i..k]));
        }
        k += 1;
    }
    // If there's no delimiter anywhere, that must mean it's the end of the ABC input.
    // Fast-forward to the end so the error message looks nice.
    let characters_remaining = ctx.l - ctx.i;
    Err(ctx.skip(characters_remaining))
}

/// The activity we were undertaking when something happened.
#[derive(Debug, PartialEq, Eq, Structural, Clone, Copy)]
pub enum During {
    Metre,
    /// General purpose header section.
    Header,
    KeySignature,
    DefaultNoteLenth,
}

/// The role that a number plays, for better error messages.
#[derive(Debug, PartialEq, Eq, Structural, Clone, Copy)]
pub enum NumberRole {
    UpperTimeSignature,
    LowerTimeSignature,
    NoteDurationNumerator,
    NoteDurationDenomenator,
    UpperDefaultNoteLength,
    LowerDefaultNoteLength,
    NTimeBar,
}

/// Types of errors. These are as specific as possible to give the best help.
#[derive(Debug, PartialEq, Eq, Structural, Clone, Copy)]
pub enum LexError {
    /// We expected to find a delimiter at some point after the current position but couldn't.
    ExpectedDelimiter(char),
    /// We expected a field type (e.g. "T") but didn't get one.
    ExpectedFieldType(char),
    /// We expected to find a colon character.
    ExpectedColon,
    /// We expected to find a number here.
    ExpectedNumber(NumberRole),
    /// During a metre declaration, expected to get slash.
    ExpectedSlashInMetre,
    /// Number is too long.
    NumberTooLong(NumberRole),
    /// Premature end of file. We expected something else here.
    PrematureEnd(During),
    /// In the tune header, we found a start of line that we couldn't recognise.
    UnexpectedHeaderLine,
    /// In the tune body, where we expect the start of a token, we got a character we didn't
    /// expect.
    UnexpectedBodyChar(char),
    /// Feature not implemented yet, with a marker value for tracking down the callsite.
    UnimplementedError(u32),
    UnrecognisedKeyNote,
    UnrecognisedBarline,
    UnrecognisedNote,
    ExpectedSlashInNoteLength,
}

/// The longest number that is read: longer ones would overflow a u32.
pub const MAX_NUMBER_CHARS: usize = 8;

/// Reading an unsigned number: on success the offset after it and its value; on failure the
/// offset to resume at, the offset of the error and the error.
/// A run of more than eight digits is too long.
pub open spec fn number_scan(s: Seq<char>, i: int, role: NumberRole) -> Result<
    (int, u32),
    (int, int, LexError),
> {
    let n = digit_run(s, i);
    if n > 8 {
        Err((i + n, i, LexError::NumberTooLong(role)))
    } else if n == 0 {
        Err((i, i, LexError::ExpectedNumber(role)))
    } else {
        Ok((i + n, decimal(s, i, n) as u32))
    }
}

/// The number result as contexts of the input.
pub open spec fn number_in<'a>(ctx: Context<'a>, r: Result<(int, u32), (int, int, LexError)>) -> Result<
    (Context<'a>, u32),
    (Context<'a>, usize, LexError),
> {
    match r {
        Ok((j, v)) => Ok((ctx.at(j), v)),
        Err((j, off, e)) => Err((ctx.at(j), off as usize, e)),
    }
}

/// Ten to the power n.
pub open spec fn pow10(n: nat) -> int
    decreases n,
{
    if n == 0 {
        1
    } else {
        10 * pow10((n - 1) as nat)
    }
}

proof fn lemma_digit_run_bound(s: Seq<char>, i: int)
    requires
        0 <= i,
    ensures
        i + digit_run(s, i) <= s.len() || digit_run(s, i) == 0,
        forall|m: int| i <= m < i + digit_run(s, i) ==> is_ascii_digit(s[m]),
        0 <= i + digit_run(s, i) < s.len() ==> !is_ascii_digit(s[i + digit_run(s, i)]),
    decreases s.len() - i,
{
    if 0 <= i < s.len() && is_ascii_digit(s[i]) {
        lemma_digit_run_bound(s, i + 1);
    }
}

/// Read an unsigned integer of up to eight digits.
/// Supply the role that the number plays for better error messages.
pub fn read_number<'a>(ctx: Context<'a>, role: NumberRole) -> (r: Result<
    (Context<'a>, u32),
    (Context<'a>, usize, LexError),
>)
    requires
        ctx.wf(),
        ctx.i <= ctx.l,
    ensures
        r == number_in(ctx, number_scan(ctx.c@, ctx.i as int, role)),
{
    let mut too_long = false;
    let mut value: u32 = 0;
    let mut length: usize = 0;
    let mut k: usize = ctx.i;
    let mut stopped = false;
    let ghost s = ctx.c@;
    let ghost i0 = ctx.i as int;

    proof {
        lemma_digit_run_bound(s, i0);
    }
    while k < ctx.l && !stopped
        invariant
            ctx.wf(),
            s == ctx.c@,
            i0 == ctx.i,
            ctx.i <= k <= ctx.l,
            length == k - ctx.i,
            forall|m: int| i0 <= m < k ==> is_ascii_digit(s[m]),
            too_long == (length > 8),
            stopped ==> k < ctx.l && !is_ascii_digit(s[k as int]),
            !too_long ==> length <= 8 && value == decimal(s, i0, length as nat) && value < pow10(
                length as nat,
            ),
            too_long ==> value <= 9,
        decreases ctx.l - k + (if stopped { 0int } else { 1int }),
    {
        let ch = ctx.c[k];
        if '0' <= ch && ch <= '9' {
            // Catch an over-long number before it overflows: keep reading to the end of the
            // digits so the context lands after them, but discard the value.
            if length >= MAX_NUMBER_CHARS {
                value = 0;
                too_long = true;
            }
            let d = (ch as u32) - ('0' as u32);
            proof {
                if !too_long {
                    lemma_pow10_mono(length as nat, 7);
                    assert(pow10(7) == 10000000) by {
                        reveal_with_fuel(pow10, 8);
                    }
                }
                assert(decimal(s, i0, (length + 1) as nat) == decimal(s, i0, length as nat) * 10
                    + digit_value(s[k as int]));
            }
            value = value * 10 + d;
            length += 1;
            k += 1;
        } else {
            stopped = true;
        }
    }
    proof {
        if stopped {
            assert(digit_run(s, i0) == length) by {
                lemma_digit_run_exact(s, i0, length as nat);
            }
        } else {
            assert(digit_run(s, i0) == length) by {
                lemma_digit_run_exact(s, i0, length as nat);
            }
        }
        if length == 8 {
            assert(pow10(8) == 100000000) by {
                reveal_with_fuel(pow10, 9);
            }
        }
    }

    if too_long {
        // Set the context to the end of the number, but report the error from its start.
        Err((ctx.skip(length), ctx.i, LexError::NumberTooLong(role)))
    } else if length == 0 {
        Err((ctx, ctx.i, LexError::ExpectedNumber(role)))
    } else {
        Ok((ctx.skip(length), value))
    }
}

/// Powers of ten grow with the exponent.
proof fn lemma_pow10_mono(n: nat, m: nat)
    requires
        n <= m,
    ensures
        1 <= pow10(n) <= pow10(m),
    decreases m,
{
    if n < m {
        lemma_pow10_mono(n, (m - 1) as nat);
    } else if n > 0 {
        lemma_pow10_mono((n - 1) as nat, (n - 1) as nat);
    }
}

/// A run of `n` digits ended by a non-digit or the end of input has length `n`.
proof fn lemma_digit_run_exact(s: Seq<char>, i: int, n: nat)
    requires
        0 <= i,
        i + n <= s.len(),
        forall|m: int| i <= m < i + n ==> is_ascii_digit(s[m]),
        i + n == s.len() || !is_ascii_digit(s[i + n]),
    ensures
        digit_run(s, i) == n,
    decreases n,
{
    if n > 0 {
        lemma_digit_run_exact(s, i + 1, (n - 1) as nat);
    }
}


/// The text header fields.
#[derive(Debug, PartialEq, Eq, Structural, Clone, Copy)]
pub enum TextField {
    Area,
    Book,
    Composer,
    Discography,
    Filename,
    Group,
    History,
    Information,
    Notes,
    Origin,
    Rhythm,
    Source,
    Title,
    Words,
    X,
    Transcription,
}

/// ABC Token. Shortened as it's used a lot.
#[derive(Debug, PartialEq, Clone)]
pub enum T {
    Newline,
    BeamBreak,
    // Text header fields.
    Area(String),
    Book(String),
    Composer(String),
    Discography(String),
    Filename(String),
    Group(String),
    History(String),
    Information(String),
    Notes(String),
    Origin(String),
    Rhythm(String),
    Source(String),
    Title(String),
    Words(String),
    X(String),
    Transcription(String),
    // More interesting header fields.
    Metre(u32, u32),
    KeySignature(PitchClass, Mode),
    DefaultNoteLength(FractionalDuration),
    Barline(Barline),
    Note(Note),
}

/// A token as a mathematical value: text fields hold their characters.
pub enum TokenView {
    Newline,
    BeamBreak,
    Text(TextField, Seq<char>),
    Metre(u32, u32),
    KeySignature(PitchClass, Mode),
    DefaultNoteLength(FractionalDuration),
    Barline(Barline),
    Note(Note),
}

impl View for T {
    type V = TokenView;

    open spec fn view(&self) -> TokenView {
        match self {
            T::Newline => TokenView::Newline,
            T::BeamBreak => TokenView::BeamBreak,
            T::Area(s) => TokenView::Text(TextField::Area, s@),
            T::Book(s) => TokenView::Text(TextField::Book, s@),
            T::Composer(s) => TokenView::Text(TextField::Composer, s@),
            T::Discography(s) => TokenView::Text(TextField::Discography, s@),
            T::Filename(s) => TokenView::Text(TextField::Filename, s@),
            T::Group(s) => TokenView::Text(TextField::Group, s@),
            T::History(s) => TokenView::Text(TextField::History, s@),
            T::Information(s) => TokenView::Text(TextField::Information, s@),
            T::Notes(s) => TokenView::Text(TextField::Notes, s@),
            T::Origin(s) => TokenView::Text(TextField::Origin, s@),
            T::Rhythm(s) => TokenView::Text(TextField::Rhythm, s@),
            T::Source(s) => TokenView::Text(TextField::Source, s@),
            T::Title(s) => TokenView::Text(TextField::Title, s@),
            T::Words(s) => TokenView::Text(TextField::Words, s@),
            T::X(s) => TokenView::Text(TextField::X, s@),
            T::Transcription(s) => TokenView::Text(TextField::Transcription, s@),
            T::Metre(n, d) => TokenView::Metre(*n, *d),
            T::KeySignature(p, m) => TokenView::KeySignature(*p, *m),
            T::DefaultNoteLength(f) => TokenView::DefaultNoteLength(*f),
            T::Barline(b) => TokenView::Barline(*b),
            T::Note(n) => TokenView::Note(*n),
        }
    }
}

/// The views of a sequence of tokens.
pub open spec fn token_views(ts: Seq<T>) -> Seq<TokenView> {
    ts.map_values(|t: T| t@)
}

/// A glorified Option type that allows encoding errors.
#[derive(Debug, PartialEq, Clone)]
pub enum LexResult<'a> {
    /// Tokens, with the context to continue from.
    T(Context<'a>, Vec<T>),
    /// Error contains a context and an offset of where the error occurred.
    /// The context's offset is used to resume, and points to the end of the troublesome bit.
    /// The error's offset indicates where the error happened, i.e. the start of the bother.
    Error(Context<'a>, usize, LexError),
    /// End of the input was reached. Not a token.
    Terminal,
}

/// One lexing step as a mathematical value: tokens with the offset and section to continue
/// from, or an error with the offset and section to continue from and the offset of the
/// error, or the end of the input.
pub enum Step {
    Tokens(int, TuneSection, Seq<TokenView>),
    Error(int, TuneSection, int, LexError),
    Terminal,
}

/// A step that lexed one token.
pub open spec fn token_step(j: int, sec: TuneSection, t: TokenView) -> Step {
    Step::Tokens(j, sec, seq![t])
}

/// A lex result over the input of `ctx` is the given step.
pub open spec fn lex_result_is<'a>(r: LexResult<'a>, ctx: Context<'a>, st: Step) -> bool {
    match (r, st) {
        (LexResult::T(c2, ts), Step::Tokens(j, sec, tv)) => c2 == (Context {
            c: ctx.c,
            l: ctx.l,
            i: j as usize,
            tune_section: sec,
        }) && 0 <= j <= usize::MAX && token_views(ts@) == tv,
        (LexResult::Error(c2, off, e), Step::Error(j, sec, o, e2)) => c2 == (Context {
            c: ctx.c,
            l: ctx.l,
            i: j as usize,
            tune_section: sec,
        }) && 0 <= j <= usize::MAX && off == o && e == e2,
        (LexResult::Terminal, Step::Terminal) => true,
        _ => false,
    }
}

impl<'a> LexResult<'a> {
    /// Build a lex result with a single token.
    pub fn t(ctx: Context<'a>, t: T) -> (r: LexResult<'a>)
        ensures
            r matches LexResult::T(c2, ts) && c2 == ctx && ts@ == seq![t] && token_views(ts@)
                == seq![t@],
    {
        let r = LexResult::T(ctx, vec![t]);
        assert(token_views(seq![t]) =~= seq![t@]);
        r
    }

    /// Build a lex result with a number of tokens.
    pub fn ts(ctx: Context<'a>, ts: Vec<T>) -> (r: LexResult<'a>)
        ensures
            r matches LexResult::T(c2, ts2) && c2 == ctx && ts2@ == ts@,
    {
        LexResult::T(ctx, ts)
    }
}

/// Default note length, e.g. "1/8", up to the delimiter.
pub open spec fn scan_note_length(s: Seq<char>, i: int, sec: TuneSection, delimiter: char) -> Step {
    match find_char(s, i, delimiter) {
        None => Step::Error(s.len() as int, sec, s.len() as int, LexError::PrematureEnd(During::Metre)),
        Some(p) => match number_scan(s, i, NumberRole::UpperDefaultNoteLength) {
            Err((_, off, e)) => Step::Error(p + 1, sec, off, e),
            Ok((j, numerator)) => if j >= s.len() {
                Step::Error(j, sec, j, LexError::ExpectedSlashInNoteLength)
            } else if s[j] == '/' {
                match number_scan(s, j + 1, NumberRole::LowerDefaultNoteLength) {
                    Err((_, off, e)) => Step::Error(p + 1, sec, off, e),
                    Ok((k, denomenator)) => token_step(
                        k + 1,
                        sec,
                        TokenView::DefaultNoteLength(FractionalDuration(numerator, denomenator)),
                    ),
                }
            } else {
                Step::Error(j + 1, sec, j + 1, LexError::ExpectedSlashInNoteLength)
            },
        },
    }
}

/// Metre declaration, e.g. "2/4" or "C|", up to the delimiter.
/// The shorthand forms leave the offset where the declaration started.
pub open spec fn scan_metre(s: Seq<char>, i: int, sec: TuneSection, delimiter: char) -> Step {
    match find_char(s, i, delimiter) {
        None => Step::Error(s.len() as int, sec, s.len() as int, LexError::PrematureEnd(During::Metre)),
        Some(p) => if s.subrange(i, p) == seq!['C'] {
            token_step(i, sec, TokenView::Metre(4, 4))
        } else if s.subrange(i, p) == seq!['C', '|'] {
            token_step(i, sec, TokenView::Metre(2, 4))
        } else {
            match number_scan(s, i, NumberRole::UpperTimeSignature) {
                Err((_, off, e)) => Step::Error(p + 1, sec, off, e),
                Ok((j, numerator)) => if j >= s.len() {
                    Step::Error(j, sec, j, LexError::ExpectedSlashInMetre)
                } else if s[j] == '/' {
                    match number_scan(s, j + 1, NumberRole::LowerTimeSignature) {
                        Err((_, off, e)) => Step::Error(p + 1, sec, off, e),
                        Ok((k, denomenator)) => token_step(
                            k + 1,
                            sec,
                            TokenView::Metre(numerator, denomenator),
                        ),
                    }
                } else {
                    Step::Error(j + 1, sec, j + 1, LexError::ExpectedSlashInMetre)
                },
            }
        },
    }
}

/// The diatonic pitch class named by an upper case letter.
pub open spec fn upper_letter(c: char) -> Option<DiatonicPitchClass> {
    if c == 'A' {
        Some(DiatonicPitchClass::A)
    } else if c == 'B' {
        Some(DiatonicPitchClass::B)
    } else if c == 'C' {
        Some(DiatonicPitchClass::C)
    } else if c == 'D' {
        Some(DiatonicPitchClass::D)
    } else if c == 'E' {
        Some(DiatonicPitchClass::E)
    } else if c == 'F' {
        Some(DiatonicPitchClass::F)
    } else if c == 'G' {
        Some(DiatonicPitchClass::G)
    } else {
        None
    }
}

/// The diatonic pitch class named by a lower case letter.
pub open spec fn lower_letter(c: char) -> Option<DiatonicPitchClass> {
    if c == 'a' {
        Some(DiatonicPitchClass::A)
    } else if c == 'b' {
        Some(DiatonicPitchClass::B)
    } else if c == 'c' {
        Some(DiatonicPitchClass::C)
    } else if c == 'd' {
        Some(DiatonicPitchClass::D)
    } else if c == 'e' {
        Some(DiatonicPitchClass::E)
    } else if c == 'f' {
        Some(DiatonicPitchClass::F)
    } else if c == 'g' {
        Some(DiatonicPitchClass::G)
    } else {
        None
    }
}

/// The accidental written after a key note, longest spellings first, ignoring case.
pub open spec fn scan_key_accidental(s: Seq<char>, i: int) -> Option<(int, Accidental)> {
    if starts_at(s, i, ['f', 'l', 'a', 't']@) {
        Some((i + 4, Accidental::Flat))
    } else if starts_at(s, i, ['s', 'h', 'a', 'r', 'p']@) {
        Some((i + 5, Accidental::Sharp))
    } else if starts_at(s, i, ['n', 'a', 't', 'u', 'r', 'a', 'l']@) {
        Some((i + 7, Accidental::Natural))
    } else if starts_at(s, i, ['f', 'f']@) {
        Some((i + 2, Accidental::DoubleFlat))
    } else if starts_at(s, i, ['s', 's']@) {
        Some((i + 2, Accidental::DoubleFlat))
    } else if starts_at(s, i, ['b', 'b']@) {
        Some((i + 2, Accidental::DoubleSharp))
    } else if starts_at(s, i, ['#', '#']@) {
        Some((i + 2, Accidental::DoubleSharp))
    } else if starts_at(s, i, ['♯', '♯']@) {
        Some((i + 2, Accidental::DoubleSharp))
    } else if starts_at(s, i, ['♭', '♭']@) {
        Some((i + 2, Accidental::DoubleFlat))
    } else if starts_at(s, i, ['f']@) {
        Some((i + 1, Accidental::Flat))
    } else if starts_at(s, i, ['s']@) {
        Some((i + 1, Accidental::Sharp))
    } else if starts_at(s, i, ['b']@) {
        Some((i + 1, Accidental::Flat))
    } else if starts_at(s, i, ['#']@) {
        Some((i + 1, Accidental::Sharp))
    } else if starts_at(s, i, ['♯']@) {
        Some((i + 1, Accidental::Sharp))
    } else if starts_at(s, i, ['♭']@) {
        Some((i + 1, Accidental::Flat))
    } else if starts_at(s, i, ['=']@) {
        Some((i + 1, Accidental::Natural))
    } else if starts_at(s, i, ['♮']@) {
        Some((i + 1, Accidental::Natural))
    } else {
        None
    }
}

/// A key note: an upper case letter and an optional accidental.
pub open spec fn scan_key_note(s: Seq<char>, i: int) -> Option<(int, PitchClass)> {
    if 0 <= i < s.len() && upper_letter(s[i]) is Some {
        let (j, accidental) = match scan_key_accidental(s, i + 1) {
            Some((j, a)) => (j, Some(a)),
            None => (i + 1, None),
        };
        Some((j, PitchClass { diatonic_pitch_class: upper_letter(s[i])->0, accidental }))
    } else {
        None
    }
}

/// A long-form mode name, ignoring case.
pub open spec fn scan_long_mode(s: Seq<char>, j: int) -> Option<(int, Mode)> {
    if starts_at(s, j, ['m', 'a', 'j', 'o', 'r']@) {
        Some((j + 5, Mode::Major))
    } else if starts_at(s, j, ['m', 'i', 'n', 'o', 'r']@) {
        Some((j + 5, Mode::Minor))
    } else if starts_at(s, j, ['l', 'y', 'd', 'i', 'a', 'n']@) {
        Some((j + 6, Mode::Lydian))
    } else if starts_at(s, j, ['i', 'o', 'n', 'i', 'a', 'n']@) {
        Some((j + 6, Mode::Ionian))
    } else if starts_at(s, j, ['m', 'i', 'x', 'o', 'l', 'y', 'd', 'i', 'a', 'n']@) {
        Some((j + 10, Mode::Mixolydian))
    } else if starts_at(s, j, ['d', 'o', 'r', 'i', 'a', 'n']@) {
        Some((j + 6, Mode::Dorian))
    } else if starts_at(s, j, ['a', 'e', 'o', 'l', 'i', 'a', 'n']@) {
        Some((j + 7, Mode::Aeolian))
    } else if starts_at(s, j, ['p', 'h', 'r', 'y', 'g', 'i', 'a', 'n']@) {
        Some((j + 8, Mode::Phrygian))
    } else if starts_at(s, j, ['l', 'o', 'c', 'r', 'i', 'a', 'n']@) {
        Some((j + 7, Mode::Locrian))
    } else {
        None
    }
}

/// A three-letter abbreviation of a mode, ignoring case.
pub open spec fn scan_short_mode(s: Seq<char>, j: int) -> Option<(int, Mode)> {
    if starts_at(s, j, ['m', 'a', 'j']@) {
        Some((j + 3, Mode::Major))
    } else if starts_at(s, j, ['m', 'i', 'n']@) {
        Some((j + 3, Mode::Minor))
    } else if starts_at(s, j, ['l', 'o', 'c']@) {
        Some((j + 3, Mode::Locrian))
    } else if starts_at(s, j, ['l', 'y', 'd']@) {
        Some((j + 3, Mode::Lydian))
    } else if starts_at(s, j, ['i', 'o', 'n']@) {
        Some((j + 3, Mode::Ionian))
    } else if starts_at(s, j, ['m', 'i', 'x']@) {
        Some((j + 3, Mode::Mixolydian))
    } else if starts_at(s, j, ['d', 'o', 'r']@) {
        Some((j + 3, Mode::Dorian))
    } else if starts_at(s, j, ['a', 'e', 'o']@) {
        Some((j + 3, Mode::Aeolian))
    } else if starts_at(s, j, ['p', 'h', 'r']@) {
        Some((j + 3, Mode::Phrygian))
    } else {
        None
    }
}

/// A mode after optional spaces, long forms before their abbreviations.
pub open spec fn scan_mode(s: Seq<char>, i: int) -> Option<(int, Mode)> {
    let j = skip_spaces(s, i);
    match scan_long_mode(s, j) {
        Some(found) => Some(found),
        None => scan_short_mode(s, j),
    }
}

/// An optional number: its value, and the offset after it (or where reading it stopped).
pub open spec fn scan_optional_number(s: Seq<char>, i: int) -> (int, Option<u32>) {
    match number_scan(s, i, NumberRole::NoteDurationNumerator) {
        Ok((j, v)) => (j, Some(v)),
        Err((j, _, _)) => (j, None),
    }
}

/// A note duration, which can be written with zero characters:
/// "" is 1, "/" is 1/2, "/d" is 1/d, "n/" and "n" are n, "n/d" is n/d.
pub open spec fn scan_fractional_duration(s: Seq<char>, i: int) -> (int, FractionalDuration) {
    let (j, numerator) = scan_optional_number(s, i);
    let (k, denomenator, has_slash) = if starts_at(s, j, ['/']@) {
        let (k, d) = scan_optional_number(s, j + 1);
        (k, d, true)
    } else {
        (j, None, false)
    };
    let f = match (numerator, denomenator, has_slash) {
        (None, None, true) => FractionalDuration(1, 2),
        (None, None, false) => FractionalDuration(1, 1),
        (None, Some(d), true) => FractionalDuration(1, d),
        (Some(n), None, true) => FractionalDuration(n, 1),
        (Some(n), Some(d), true) => FractionalDuration(n, d),
        (Some(n), None, false) => FractionalDuration(n, 1),
        _ => FractionalDuration(1, 1),
    };
    (k, f)
}

/// Key signature: a key note and an optional mode (major when absent), up to the delimiter.
pub open spec fn scan_key_signature(s: Seq<char>, i: int, sec: TuneSection, delimiter: char) -> Step {
    match find_char(s, i, delimiter) {
        None => Step::Error(
            s.len() as int,
            sec,
            s.len() as int,
            LexError::PrematureEnd(During::KeySignature),
        ),
        Some(p) => match scan_key_note(s, i) {
            Some((j, key_note)) => {
                let mode = match scan_mode(s, j) {
                    Some((_, m)) => m,
                    None => Mode::Major,
                };
                token_step(p + 1, sec, TokenView::KeySignature(key_note, mode))
            },
            None => Step::Error(i, sec, i, LexError::UnrecognisedKeyNote),
        },
    }
}

/// An n-time repeat number after a barline, e.g. "[2" or "2".
pub open spec fn scan_n_time(s: Seq<char>, i: int) -> (int, Option<u32>) {
    let j = if starts_at(s, i, ['[']@) {
        i + 1
    } else {
        i
    };
    match number_scan(s, j, NumberRole::NTimeBar) {
        Ok((k, n)) => (k, Some(n)),
        Err(_) => (j, None),
    }
}

/// A barline token.
pub open spec fn bar(repeat_before: bool, single: bool, repeat_after: bool, n_time: Option<u32>) -> TokenView {
    TokenView::Barline(Barline { repeat_before, single, repeat_after, n_time })
}

/// A barline followed by an optional n-time repeat number.
pub open spec fn bar_with_n_time(s: Seq<char>, j: int, sec: TuneSection, repeat_before: bool, single: bool, repeat_after: bool) -> Step {
    let (k, n) = scan_n_time(s, j);
    token_step(k, sec, bar(repeat_before, single, repeat_after, n))
}

/// Barlines, tried in order.
pub open spec fn scan_barline(s: Seq<char>, i: int, sec: TuneSection) -> Step {
    if starts_at(s, i, [':', '|', ':']@) {
        token_step(i + 3, sec, bar(true, true, true, None))
    } else if starts_at(s, i, [':', '|', '|', ':']@) {
        token_step(i + 4, sec, bar(true, false, true, None))
    } else if starts_at(s, i, [':', '|']@) {
        bar_with_n_time(s, i + 2, sec, true, true, false)
    } else if starts_at(s, i, ['|', '|', ':']@) {
        token_step(i + 3, sec, bar(false, true, true, None))
    } else if starts_at(s, i, ['|', ':']@) {
        token_step(i + 2, sec, bar(false, true, true, None))
    } else if starts_at(s, i, [':', '|', '|']@) {
        bar_with_n_time(s, i + 3, sec, true, false, false)
    } else if starts_at(s, i, ['|', '|']@) {
        bar_with_n_time(s, i + 2, sec, false, false, false)
    } else if starts_at(s, i, ['|', ']']@) {
        bar_with_n_time(s, i + 2, sec, false, false, false)
    } else if starts_at(s, i, [':', ':']@) {
        token_step(i + 2, sec, bar(true, true, true, None))
    } else if starts_at(s, i, ['|']@) {
        bar_with_n_time(s, i + 1, sec, false, true, false)
    } else {
        Step::Error(i, sec, i, LexError::UnrecognisedBarline)
    }
}

/// The accidental in front of a note.
pub open spec fn scan_note_accidental(s: Seq<char>, i: int) -> (int, Option<Accidental>) {
    if starts_at(s, i, ['^', '^']@) {
        (i + 2, Some(Accidental::DoubleSharp))
    } else if starts_at(s, i, ['_', '_']@) {
        (i + 2, Some(Accidental::DoubleFlat))
    } else if starts_at(s, i, ['^']@) {
        (i + 1, Some(Accidental::Sharp))
    } else if starts_at(s, i, ['_']@) {
        (i + 1, Some(Accidental::Flat))
    } else if starts_at(s, i, ['=']@) {
        (i + 1, Some(Accidental::Natural))
    } else {
        (i, None)
    }
}

/// The note letter: upper case letters are in octave 0, lower case ones in octave 1.
pub open spec fn scan_note_letter(s: Seq<char>, i: int) -> (int, Option<DiatonicPitchClass>, int) {
    if 0 <= i < s.len() && upper_letter(s[i]) is Some {
        (i + 1, upper_letter(s[i]), 0)
    } else if 0 <= i < s.len() && lower_letter(s[i]) is Some {
        (i + 1, lower_letter(s[i]), 1)
    } else {
        (i, None, 0)
    }
}

/// An optional octave mark: a comma lowers the octave, an apostrophe raises it.
pub open spec fn scan_octave(s: Seq<char>, i: int, octave: int) -> (int, int) {
    if 0 <= i < s.len() && s[i] == ',' {
        (i + 1, octave - 1)
    } else if 0 <= i < s.len() && s[i] == '\'' {
        (i + 1, octave + 1)
    } else {
        (i, octave)
    }
}

/// A note: accidental, letter, octave mark and duration.
pub open spec fn scan_note(s: Seq<char>, i: int, sec: TuneSection) -> Step {
    let (j1, accidental) = scan_note_accidental(s, i);
    let (j2, diatonic, octave) = scan_note_letter(s, j1);
    let (j3, octave) = scan_octave(s, j2, octave);
    let (k, duration) = scan_fractional_duration(s, j3);
    match diatonic {
        Some(d) => token_step(
            k,
            sec,
            TokenView::Note(
                Note(
                    Pitch {
                        pitch_class: PitchClass { diatonic_pitch_class: d, accidental },
                        octave: octave as i16,
                    },
                    duration,
                ),
            ),
        ),
        None => Step::Error(k, sec, k, LexError::UnrecognisedNote),
    }
}


/// The octave that an octave mark adds: a comma lowers by one, an apostrophe raises by one.
pub open spec fn mark_shift(s: Seq<char>, j: int) -> int {
    if 0 <= j < s.len() && s[j] == ',' {
        -1
    } else if 0 <= j < s.len() && s[j] == '\'' {
        1
    } else {
        0
    }
}

/// The note that a lexing step gives, if it gives one token, a note.
pub open spec fn lexed_note(st: Step) -> Option<Note> {
    match st {
        Step::Tokens(_, _, ts) => if ts.len() == 1 {
            match ts[0] {
                TokenView::Note(n) => Some(n),
                _ => None,
            }
        } else {
            None
        },
        _ => None,
    }
}

/// Law: the octave of a lexed note is set by its letter and its octave mark: an upper case
/// letter is in octave 0 and a lower case one in octave 1, and a comma after the letter puts
/// the note an octave lower, an apostrophe an octave higher. The letter names the pitch class.
pub proof fn law_note_octave(s: Seq<char>, i: int, sec: TuneSection)
    ensures
        match lexed_note(scan_note(s, i, sec)) {
            Some(n) => {
                let j = scan_note_accidental(s, i).0;
                &&& 0 <= j < s.len()
                &&& n.0.octave == (if 'a' <= s[j] <= 'z' {
                    1int
                } else {
                    0int
                }) + mark_shift(s, j + 1)
                &&& (n.0.pitch_class.diatonic_pitch_class == upper_letter(s[j])->0
                    || n.0.pitch_class.diatonic_pitch_class == lower_letter(s[j])->0)
            },
            None => true,
        },
{
}

/// Law: the three-letter abbreviation of a mode's name reads back as that mode, e.g. "Min" as
/// the minor mode.
pub proof fn law_mode_abbreviation_reads_back(m: Mode)
    requires
        m != Mode::Natural,
    ensures
        scan_mode(mode_text(m).take(3), 0) == Some((3int, m)),
{
    reveal_strlit("Lydian");
    reveal_strlit("Ionian");
    reveal_strlit("Mixolydian");
    reveal_strlit("Dorian");
    reveal_strlit("Aeolian");
    reveal_strlit("Phrygian");
    reveal_strlit("Locrian");
    reveal_strlit("Major");
    reveal_strlit("Minor");
    let s = mode_text(m).take(3);
    assert(s.len() == 3);
    assert(skip_spaces(s, 0) == 0);
    assert(scan_long_mode(s, 0) is None);
    assert(starts_at(s, 0, ['m', 'a', 'j']@) <==> m == Mode::Major);
    assert(starts_at(s, 0, ['m', 'i', 'n']@) <==> m == Mode::Minor);
    assert(starts_at(s, 0, ['l', 'o', 'c']@) <==> m == Mode::Locrian);
    assert(starts_at(s, 0, ['l', 'y', 'd']@) <==> m == Mode::Lydian);
    assert(starts_at(s, 0, ['i', 'o', 'n']@) <==> m == Mode::Ionian);
    assert(starts_at(s, 0, ['m', 'i', 'x']@) <==> m == Mode::Mixolydian);
    assert(starts_at(s, 0, ['d', 'o', 'r']@) <==> m == Mode::Dorian);
    assert(starts_at(s, 0, ['a', 'e', 'o']@) <==> m == Mode::Aeolian);
    assert(starts_at(s, 0, ['p', 'h', 'r']@) <==> m == Mode::Phrygian);
}

/// Law: the accidental in front of a note is read from its marks: `=` is a natural, `^` a
/// sharp and `_` a flat (followed by any other ASCII character or nothing), doubled signs are
/// double sharps and flats, and a note letter straight away has none.
pub proof fn law_note_accidental_marks(s: Seq<char>, i: int)
    requires
        0 <= i < s.len(),
    ensures
        s[i] == '=' ==> scan_note_accidental(s, i) == (i + 1, Some(Accidental::Natural)),
        s[i] == '^' && (i + 1 >= s.len() || ((s[i + 1] as u32) < 128 && s[i + 1] != '^')) ==> scan_note_accidental(s, i) == (
            i + 1,
            Some(Accidental::Sharp),
        ),
        s[i] == '_' && (i + 1 >= s.len() || ((s[i + 1] as u32) < 128 && s[i + 1] != '_')) ==> scan_note_accidental(s, i) == (
            i + 1,
            Some(Accidental::Flat),
        ),
        s[i] == '^' && i + 1 < s.len() && s[i + 1] == '^' ==> scan_note_accidental(s, i) == (
            i + 2,
            Some(Accidental::DoubleSharp),
        ),
        s[i] == '_' && i + 1 < s.len() && s[i + 1] == '_' ==> scan_note_accidental(s, i) == (
            i + 2,
            Some(Accidental::DoubleFlat),
        ),
        (upper_letter(s[i]) is Some || lower_letter(s[i]) is Some) ==> scan_note_accidental(s, i)
            == (i, None::<Accidental>),
{
}

/// Law: the name of a mode reads back as that mode: reading a mode from its name (as
/// `Mode::to_string` writes it) consumes the whole name and gives the same mode. The natural
/// mode has no name in key signatures.
pub proof fn law_mode_name_reads_back(m: Mode)
    requires
        m != Mode::Natural,
    ensures
        scan_mode(mode_text(m), 0) == Some((mode_text(m).len() as int, m)),
{
    reveal_strlit("Lydian");
    reveal_strlit("Ionian");
    reveal_strlit("Mixolydian");
    reveal_strlit("Dorian");
    reveal_strlit("Aeolian");
    reveal_strlit("Phrygian");
    reveal_strlit("Locrian");
    reveal_strlit("Major");
    reveal_strlit("Minor");
    let s = mode_text(m);
    assert(skip_spaces(s, 0) == 0);
    assert(!starts_at(s, 0, ['m', 'a', 'j', 'o', 'r']@) || m == Mode::Major);
    assert(!starts_at(s, 0, ['m', 'i', 'n', 'o', 'r']@) || m == Mode::Minor);
    assert(!starts_at(s, 0, ['l', 'y', 'd', 'i', 'a', 'n']@) || m == Mode::Lydian);
    assert(!starts_at(s, 0, ['i', 'o', 'n', 'i', 'a', 'n']@) || m == Mode::Ionian);
    assert(!starts_at(s, 0, ['m', 'i', 'x', 'o', 'l', 'y', 'd', 'i', 'a', 'n']@) || m
        == Mode::Mixolydian);
    assert(!starts_at(s, 0, ['d', 'o', 'r', 'i', 'a', 'n']@) || m == Mode::Dorian);
    assert(!starts_at(s, 0, ['a', 'e', 'o', 'l', 'i', 'a', 'n']@) || m == Mode::Aeolian);
    assert(!starts_at(s, 0, ['p', 'h', 'r', 'y', 'g', 'i', 'a', 'n']@) || m == Mode::Phrygian);
    assert(starts_at(s, 0, ['m', 'a', 'j', 'o', 'r']@) || m != Mode::Major);
    assert(starts_at(s, 0, ['m', 'i', 'n', 'o', 'r']@) || m != Mode::Minor);
    assert(starts_at(s, 0, ['l', 'y', 'd', 'i', 'a', 'n']@) || m != Mode::Lydian);
    assert(starts_at(s, 0, ['i', 'o', 'n', 'i', 'a', 'n']@) || m != Mode::Ionian);
    assert(starts_at(s, 0, ['m', 'i', 'x', 'o', 'l', 'y', 'd', 'i', 'a', 'n']@) || m
        != Mode::Mixolydian);
    assert(starts_at(s, 0, ['d', 'o', 'r', 'i', 'a', 'n']@) || m != Mode::Dorian);
    assert(starts_at(s, 0, ['a', 'e', 'o', 'l', 'i', 'a', 'n']@) || m != Mode::Aeolian);
    assert(starts_at(s, 0, ['p', 'h', 'r', 'y', 'g', 'i', 'a', 'n']@) || m != Mode::Phrygian);
    assert(starts_at(s, 0, ['l', 'o', 'c', 'r', 'i', 'a', 'n']@) || m != Mode::Locrian);
}

/// A found character lies within the input, at or after the start of the search, and no
/// earlier character from there matches.
pub proof fn lemma_find_char_bounds(s: Seq<char>, i: int, d: char)
    ensures
        find_char(s, i, d) matches Some(p) ==> 0 <= i <= p < s.len() && s[p] == d && forall|m: int|
            i <= m < p ==> s[m] != d,
        find_char(s, i, d) is None ==> forall|m: int| 0 <= i <= m < s.len() ==> s[m] != d,
    decreases s.len() - i,
{
    if !(i < 0 || i >= s.len()) && s[i] != d {
        lemma_find_char_bounds(s, i + 1, d);
    }
}

/// Bounds of a number reading: the offsets it returns stay within the input and everything
/// it passed over is a digit.
proof fn lemma_number_scan_bounds(s: Seq<char>, i: int, role: NumberRole)
    requires
        0 <= i <= s.len(),
    ensures
        match number_scan(s, i, role) {
            Ok((j, _)) => i < j <= s.len() && forall|m: int| i <= m < j ==> is_ascii_digit(s[m]),
            Err((j, off, _)) => off == i && i <= j <= s.len() && forall|m: int|
                i <= m < j ==> is_ascii_digit(s[m]),
        },
{
    lemma_digit_run_bound(s, i);
}

/// Lex a default note length, e.g. "1/8".
pub fn lex_note_length<'a>(ctx: Context<'a>, delimiter: char) -> (r: LexResult<'a>)
    requires
        ctx.wf(),
        ctx.i <= ctx.l,
    ensures
        lex_result_is(r, ctx, scan_note_length(ctx.c@, ctx.i as int, ctx.tune_section, delimiter)),
{
    proof {
        lemma_number_scan_bounds(ctx.c@, ctx.i as int, NumberRole::UpperDefaultNoteLength);
        lemma_find_char_bounds(ctx.c@, ctx.i as int, delimiter);
    }
    match read_until(ctx, delimiter) {
        Err(end) => LexResult::Error(end, end.i, LexError::PrematureEnd(During::Metre)),
        Ok((whole_line_ctx, _)) => {
            match read_number(ctx, NumberRole::UpperDefaultNoteLength) {
                Err((_, offset, err)) => LexResult::Error(whole_line_ctx, offset, err),
                Ok((ctx1, numerator)) => {
                    match ctx1.first() {
                        None => LexResult::Error(ctx1, ctx1.i, LexError::ExpectedSlashInNoteLength),
                        Some((ctx2, '/')) => {
                            proof {
                                lemma_number_scan_bounds(
                                    ctx.c@,
                                    ctx2.i as int,
                                    NumberRole::LowerDefaultNoteLength,
                                );
                            }
                            match read_number(ctx2, NumberRole::LowerDefaultNoteLength) {
                                Err((_, offset, err)) => LexResult::Error(
                                    whole_line_ctx,
                                    offset,
                                    err,
                                ),
                                Ok((ctx3, denomenator)) => {
                                    // Skip one character for the delimiter.
                                    LexResult::t(
                                        ctx3.skip(1),
                                        T::DefaultNoteLength(
                                            FractionalDuration(numerator, denomenator),
                                        ),
                                    )
                                },
                            }
                        },
                        Some((ctx2, _)) => LexResult::Error(
                            ctx2,
                            ctx2.i,
                            LexError::ExpectedSlashInNoteLength,
                        ),
                    }
                },
            }
        },
    }
}

/// Lex a metre declaration, e.g. "2/4" or "C|".
pub fn lex_metre<'a>(ctx: Context<'a>, delimiter: char) -> (r: LexResult<'a>)
    requires
        ctx.wf(),
        ctx.i <= ctx.l,
    ensures
        lex_result_is(r, ctx, scan_metre(ctx.c@, ctx.i as int, ctx.tune_section, delimiter)),
{
    proof {
        lemma_number_scan_bounds(ctx.c@, ctx.i as int, NumberRole::UpperTimeSignature);
        lemma_find_char_bounds(ctx.c@, ctx.i as int, delimiter);
    }
    // Read the whole line. This checks that the field is delimited, and gives a slice to
    // compare to literal values like "C|". The context after the line is where lexing
    // continues after an error.
    match read_until(ctx, delimiter) {
        Err(end) => LexResult::Error(end, end.i, LexError::PrematureEnd(During::Metre)),
        Ok((whole_line_ctx, content)) => {
            if content.len() == 1 && content[0] == 'C' {
                assert(content@ =~= seq!['C']);
                LexResult::t(ctx, T::Metre(4, 4))
            } else if content.len() == 2 && content[0] == 'C' && content[1] == '|' {
                assert(content@ =~= seq!['C', '|']);
                LexResult::t(ctx, T::Metre(2, 4))
            } else {
                // It's a numerical metre.
                match read_number(ctx, NumberRole::UpperTimeSignature) {
                    Err((_, offset, err)) => LexResult::Error(whole_line_ctx, offset, err),
                    Ok((ctx1, numerator)) => {
                        match ctx1.first() {
                            None => LexResult::Error(ctx1, ctx1.i, LexError::ExpectedSlashInMetre),
                            Some((ctx2, '/')) => {
                                proof {
                                    lemma_number_scan_bounds(
                                        ctx.c@,
                                        ctx2.i as int,
                                        NumberRole::LowerTimeSignature,
                                    );
                                }
                                match read_number(ctx2, NumberRole::LowerTimeSignature) {
                                    Err((_, offset, err)) => LexResult::Error(
                                        whole_line_ctx,
                                        offset,
                                        err,
                                    ),
                                    Ok((ctx3, denomenator)) => {
                                        // Skip one character for the delimiter.
                                        LexResult::t(ctx3.skip(1), T::Metre(numerator, denomenator))
                                    },
                                }
                            },
                            Some((ctx2, _)) => LexResult::Error(
                                ctx2,
                                ctx2.i,
                                LexError::ExpectedSlashInMetre,
                            ),
                        }
                    },
                }
            }
        },
    }
}


/// Read the accidental written after a key note, longest spellings first.
fn read_key_accidental<'a>(ctx: Context<'a>) -> (r: (Context<'a>, Option<Accidental>))
    requires
        ctx.wf(),
    ensures
        r == match scan_key_accidental(ctx.c@, ctx.i as int) {
            Some((j, a)) => (ctx.at(j), Some(a)),
            None => (ctx, None),
        },
{
    if let (ctx, true) = ctx.starts_with_insensitive_eager(&['f', 'l', 'a', 't']) {
        (ctx, Some(Accidental::Flat))
    } else if let (ctx, true) = ctx.starts_with_insensitive_eager(&['s', 'h', 'a', 'r', 'p']) {
        (ctx, Some(Accidental::Sharp))
    } else if let (ctx, true) = ctx.starts_with_insensitive_eager(
        &['n', 'a', 't', 'u', 'r', 'a', 'l'],
    ) {
        (ctx, Some(Accidental::Natural))
    } else if let (ctx, true) = ctx.starts_with_insensitive_eager(&['f', 'f']) {
        (ctx, Some(Accidental::DoubleFlat))
    } else if let (ctx, true) = ctx.starts_with_insensitive_eager(&['s', 's']) {
        (ctx, Some(Accidental::DoubleFlat))
    } else if let (ctx, true) = ctx.starts_with_insensitive_eager(&['b', 'b']) {
        (ctx, Some(Accidental::DoubleSharp))
    } else if let (ctx, true) = ctx.starts_with_insensitive_eager(&['#', '#']) {
        (ctx, Some(Accidental::DoubleSharp))
    } else if let (ctx, true) = ctx.starts_with_insensitive_eager(&['♯', '♯']) {
        (ctx, Some(Accidental::DoubleSharp))
    } else if let (ctx, true) = ctx.starts_with_insensitive_eager(&['♭', '♭']) {
        (ctx, Some(Accidental::DoubleFlat))
    } else if let (ctx, true) = ctx.starts_with_insensitive_eager(&['f']) {
        (ctx, Some(Accidental::Flat))
    } else if let (ctx, true) = ctx.starts_with_insensitive_eager(&['s']) {
        (ctx, Some(Accidental::Sharp))
    } else if let (ctx, true) = ctx.starts_with_insensitive_eager(&['b']) {
        (ctx, Some(Accidental::Flat))
    } else if let (ctx, true) = ctx.starts_with_insensitive_eager(&['#']) {
        (ctx, Some(Accidental::Sharp))
    } else if let (ctx, true) = ctx.starts_with_insensitive_eager(&['♯']) {
        (ctx, Some(Accidental::Sharp))
    } else if let (ctx, true) = ctx.starts_with_insensitive_eager(&['♭']) {
        (ctx, Some(Accidental::Flat))
    } else if let (ctx, true) = ctx.starts_with_insensitive_eager(&['=']) {
        (ctx, Some(Accidental::Natural))
    } else if let (ctx, true) = ctx.starts_with_insensitive_eager(&['♮']) {
        (ctx, Some(Accidental::Natural))
    } else {
        (ctx, None)
    }
}

/// Read a key note, e.g. "C", "Bf", "F Flat".
pub fn read_key_note<'a>(ctx: Context<'a>) -> (r: Option<(Context<'a>, PitchClass)>)
    requires
        ctx.wf(),
    ensures
        r == match scan_key_note(ctx.c@, ctx.i as int) {
            Some((j, p)) => Some((ctx.at(j), p)),
            None => None,
        },
{
    let (ctx1, diatonic) = match ctx.first() {
        Some((ctx1, 'A')) => (ctx1, Some(DiatonicPitchClass::A)),
        Some((ctx1, 'B')) => (ctx1, Some(DiatonicPitchClass::B)),
        Some((ctx1, 'C')) => (ctx1, Some(DiatonicPitchClass::C)),
        Some((ctx1, 'D')) => (ctx1, Some(DiatonicPitchClass::D)),
        Some((ctx1, 'E')) => (ctx1, Some(DiatonicPitchClass::E)),
        Some((ctx1, 'F')) => (ctx1, Some(DiatonicPitchClass::F)),
        Some((ctx1, 'G')) => (ctx1, Some(DiatonicPitchClass::G)),
        // If there's no key note, there is nothing to read.
        _ => (ctx, None),
    };

    match diatonic {
        // If there was a key note, try and read an accidental.
        Some(diatonic) => {
            let (ctx2, accidental) = read_key_accidental(ctx1);
            Some((ctx2, PitchClass { diatonic_pitch_class: diatonic, accidental: accidental }))
        },
        None => None,
    }
}

/// Read a long-form mode name.
fn read_long_mode<'a>(ctx: Context<'a>) -> (r: Option<(Context<'a>, Mode)>)
    requires
        ctx.wf(),
    ensures
        r == match scan_long_mode(ctx.c@, ctx.i as int) {
            Some((j, m)) => Some((ctx.at(j), m)),
            None => None,
        },
{
    if let (ctx, true) = ctx.starts_with_insensitive_eager(&['m', 'a', 'j', 'o', 'r']) {
        Some((ctx, Mode::Major))
    } else if let (ctx, true) = ctx.starts_with_insensitive_eager(&['m', 'i', 'n', 'o', 'r']) {
        Some((ctx, Mode::Minor))
    } else if let (ctx, true) = ctx.starts_with_insensitive_eager(&['l', 'y', 'd', 'i', 'a', 'n']) {
        Some((ctx, Mode::Lydian))
    } else if let (ctx, true) = ctx.starts_with_insensitive_eager(&['i', 'o', 'n', 'i', 'a', 'n']) {
        Some((ctx, Mode::Ionian))
    } else if let (ctx, true) = ctx.starts_with_insensitive_eager(
        &['m', 'i', 'x', 'o', 'l', 'y', 'd', 'i', 'a', 'n'],
    ) {
        Some((ctx, Mode::Mixolydian))
    } else if let (ctx, true) = ctx.starts_with_insensitive_eager(&['d', 'o', 'r', 'i', 'a', 'n']) {
        Some((ctx, Mode::Dorian))
    } else if let (ctx, true) = ctx.starts_with_insensitive_eager(
        &['a', 'e', 'o', 'l', 'i', 'a', 'n'],
    ) {
        Some((ctx, Mode::Aeolian))
    } else if let (ctx, true) = ctx.starts_with_insensitive_eager(
        &['p', 'h', 'r', 'y', 'g', 'i', 'a', 'n'],
    ) {
        Some((ctx, Mode::Phrygian))
    } else if let (ctx, true) = ctx.starts_with_insensitive_eager(
        &['l', 'o', 'c', 'r', 'i', 'a', 'n'],
    ) {
        Some((ctx, Mode::Locrian))
    } else {
        None
    }
}

/// Read a three-letter abbreviation of a mode.
fn read_short_mode<'a>(ctx: Context<'a>) -> (r: Option<(Context<'a>, Mode)>)
    requires
        ctx.wf(),
    ensures
        r == match scan_short_mode(ctx.c@, ctx.i as int) {
            Some((j, m)) => Some((ctx.at(j), m)),
            None => None,
        },
{
    if let (ctx, true) = ctx.starts_with_insensitive_eager(&['m', 'a', 'j']) {
        Some((ctx, Mode::Major))
    } else if let (ctx, true) = ctx.starts_with_insensitive_eager(&['m', 'i', 'n']) {
        Some((ctx, Mode::Minor))
    } else if let (ctx, true) = ctx.starts_with_insensitive_eager(&['l', 'o', 'c']) {
        Some((ctx, Mode::Locrian))
    } else if let (ctx, true) = ctx.starts_with_insensitive_eager(&['l', 'y', 'd']) {
        Some((ctx, Mode::Lydian))
    } else if let (ctx, true) = ctx.starts_with_insensitive_eager(&['i', 'o', 'n']) {
        Some((ctx, Mode::Ionian))
    } else if let (ctx, true) = ctx.starts_with_insensitive_eager(&['m', 'i', 'x']) {
        Some((ctx, Mode::Mixolydian))
    } else if let (ctx, true) = ctx.starts_with_insensitive_eager(&['d', 'o', 'r']) {
        Some((ctx, Mode::Dorian))
    } else if let (ctx, true) = ctx.starts_with_insensitive_eager(&['a', 'e', 'o']) {
        Some((ctx, Mode::Aeolian))
    } else if let (ctx, true) = ctx.starts_with_insensitive_eager(&['p', 'h', 'r']) {
        Some((ctx, Mode::Phrygian))
    } else {
        None
    }
}

/// Read a musical mode, after optional spaces.
/// Long forms are tried before their abbreviations, so that the context is not left
/// dangling in the middle of a word.
pub fn read_mode<'a>(ctx: Context<'a>) -> (r: Option<(Context<'a>, Mode)>)
    requires
        ctx.wf(),
    ensures
        r == match scan_mode(ctx.c@, ctx.i as int) {
            Some((j, m)) => Some((ctx.at(j), m)),
            None => None,
        },
{
    proof {
        lemma_skip_spaces_bounds(ctx.c@, ctx.i as int);
    }
    let ctx = ctx.skip_whitespace();
    match read_long_mode(ctx) {
        Some(found) => Some(found),
        None => read_short_mode(ctx),
    }
}

/// Skipping spaces moves forward but not past the end.
proof fn lemma_skip_spaces_bounds(s: Seq<char>, i: int)
    ensures
        i <= skip_spaces(s, i),
        0 <= i <= s.len() ==> skip_spaces(s, i) <= s.len(),
        i > s.len() ==> skip_spaces(s, i) == i,
    decreases s.len() - i,
{
    if 0 <= i < s.len() && s[i] == ' ' {
        lemma_skip_spaces_bounds(s, i + 1);
    }
}

/// A duration reading stays within the input.
proof fn lemma_fractional_duration_bounds(s: Seq<char>, i: int)
    requires
        0 <= i <= s.len(),
    ensures
        i <= scan_fractional_duration(s, i).0 <= s.len(),
{
    lemma_number_scan_bounds(s, i, NumberRole::NoteDurationNumerator);
    let j = scan_optional_number(s, i).0;
    if starts_at(s, j, ['/']@) {
        lemma_number_scan_bounds(s, j + 1, NumberRole::NoteDurationNumerator);
    }
}

/// Read an optional number that counts a note's duration.
fn read_optional_number<'a>(ctx: Context<'a>) -> (r: (Context<'a>, Option<u32>))
    requires
        ctx.wf(),
        ctx.i <= ctx.l,
    ensures
        r == ({
            let (j, v) = scan_optional_number(ctx.c@, ctx.i as int);
            (ctx.at(j), v)
        }),
{
    match read_number(ctx, NumberRole::NoteDurationNumerator) {
        Ok((ctx, val)) => (ctx, Some(val)),
        Err((ctx, _, _)) => (ctx, None),
    }
}

/// Read a fractional duration. This can be notated as zero characters.
pub fn read_fractional_duration<'a>(ctx: Context<'a>) -> (r: (Context<'a>, FractionalDuration))
    requires
        ctx.wf(),
        ctx.i <= ctx.l,
    ensures
        r == ({
            let (k, f) = scan_fractional_duration(ctx.c@, ctx.i as int);
            (ctx.at(k), f)
        }),
{
    proof {
        lemma_number_scan_bounds(ctx.c@, ctx.i as int, NumberRole::NoteDurationNumerator);
    }
    // Get a number, if present.
    let (ctx, numerator) = read_optional_number(ctx);

    // Read a slash, if there is one.
    let (ctx, denomenator, has_slash) = if let (ctx, true) = ctx.starts_with_insensitive_eager(
        &['/'],
    ) {
        // If there is a slash then read the denomenator (which can be empty).
        let (ctx, d) = read_optional_number(ctx);
        (ctx, d, true)
    } else {
        // No slash, so don't expect to read a denomenator.
        (ctx, None, false)
    };

    // Missing numbers mean different things in different places.
    let (numerator, denomenator) = match (numerator, denomenator, has_slash) {
        // e.g. "/". Special case, which means "1/2".
        (None, None, true) => (1, 2),
        // e.g. "". Default note length.
        (None, None, false) => (1, 1),
        // e.g. "/2". Divide by this amount.
        (None, Some(d), true) => (1, d),
        // e.g. "1/".
        (Some(n), None, true) => (n, 1),
        // e.g. "1/2".
        (Some(n), Some(d), true) => (n, d),
        // e.g. "2"
        (Some(n), None, false) => (n, 1),
        // A denominator without a slash is not read; use the standard note length.
        _ => (1, 1),
    };

    (ctx, FractionalDuration(numerator, denomenator))
}

/// Lex a key signature, e.g. "GFmaj".
pub fn lex_key_signature<'a>(ctx: Context<'a>, delimiter: char) -> (r: LexResult<'a>)
    requires
        ctx.wf(),
        ctx.i <= ctx.l,
    ensures
        lex_result_is(r, ctx, scan_key_signature(ctx.c@, ctx.i as int, ctx.tune_section, delimiter)),
{
    proof {
        lemma_find_char_bounds(ctx.c@, ctx.i as int, delimiter);
    }
    match read_until(ctx, delimiter) {
        Err(end) => LexResult::Error(end, end.i, LexError::PrematureEnd(During::KeySignature)),
        // The context after the line is where lexing continues.
        Ok((whole_line_ctx, _)) => {
            if let Some((ctx1, key_note)) = read_key_note(ctx) {
                // An absent mode is read as major.
                let mode = match read_mode(ctx1) {
                    Some((_, mode)) => mode,
                    None => Mode::Major,
                };
                // Skip to the end of the delimited sequence (line or bracket).
                LexResult::t(whole_line_ctx, T::KeySignature(key_note, mode))
            } else {
                LexResult::Error(ctx, ctx.i, LexError::UnrecognisedKeyNote)
            }
        },
    }
}

/// Read an n-time repeat, e.g. "[2" or "2" immediately following a barline.
pub fn read_n_time<'a>(ctx: Context<'a>) -> (r: (Context<'a>, Option<u32>))
    requires
        ctx.wf(),
        ctx.i <= ctx.l,
    ensures
        r == ({
            let (k, n) = scan_n_time(ctx.c@, ctx.i as int);
            (ctx.at(k), n)
        }),
{
    let ctx = ctx.skip_optional_prefix(&['[']);
    match read_number(ctx, NumberRole::NTimeBar) {
        Ok((ctx, number)) => (ctx, Some(number)),
        _ => (ctx, None),
    }
}

/// Lex a barline followed by an optional n-time repeat number.
fn lex_barline_with_n_time<'a>(
    ctx: Context<'a>,
    repeat_before: bool,
    single: bool,
    repeat_after: bool,
) -> (r: LexResult<'a>)
    requires
        ctx.wf(),
        ctx.i <= ctx.l,
    ensures
        lex_result_is(
            r,
            ctx,
            bar_with_n_time(ctx.c@, ctx.i as int, ctx.tune_section, repeat_before, single, repeat_after),
        ),
{
    proof {
        lemma_number_scan_bounds(ctx.c@, ctx.i as int, NumberRole::NTimeBar);
        if ctx.i < ctx.l {
            lemma_number_scan_bounds(ctx.c@, ctx.i + 1, NumberRole::NTimeBar);
        }
    }
    let (ctx, n_time) = read_n_time(ctx);
    LexResult::t(ctx, T::Barline(Barline { repeat_before, single, repeat_after, n_time }))
}

/// Lex a barline, where one is expected.
pub fn lex_barline<'a>(ctx: Context<'a>) -> (r: LexResult<'a>)
    requires
        ctx.wf(),
        ctx.i <= ctx.l,
    ensures
        lex_result_is(r, ctx, scan_barline(ctx.c@, ctx.i as int, ctx.tune_section)),
{
    if let (ctx, true) = ctx.starts_with_insensitive_eager(&[':', '|', ':']) {
        LexResult::t(
            ctx,
            T::Barline(Barline { repeat_before: true, single: true, repeat_after: true, n_time: None }),
        )
    } else if let (ctx, true) = ctx.starts_with_insensitive_eager(&[':', '|', '|', ':']) {
        LexResult::t(
            ctx,
            T::Barline(Barline { repeat_before: true, single: false, repeat_after: true, n_time: None }),
        )
    } else if let (ctx, true) = ctx.starts_with_insensitive_eager(&[':', '|']) {
        lex_barline_with_n_time(ctx, true, true, false)
    } else if let (ctx, true) = ctx.starts_with_insensitive_eager(&['|', '|', ':']) {
        LexResult::t(
            ctx,
            T::Barline(Barline { repeat_before: false, single: true, repeat_after: true, n_time: None }),
        )
    } else if let (ctx, true) = ctx.starts_with_insensitive_eager(&['|', ':']) {
        LexResult::t(
            ctx,
            T::Barline(Barline { repeat_before: false, single: true, repeat_after: true, n_time: None }),
        )
    } else if let (ctx, true) = ctx.starts_with_insensitive_eager(&[':', '|', '|']) {
        lex_barline_with_n_time(ctx, true, false, false)
    } else if let (ctx, true) = ctx.starts_with_insensitive_eager(&['|', '|']) {
        lex_barline_with_n_time(ctx, false, false, false)
    } else if let (ctx, true) = ctx.starts_with_insensitive_eager(&['|', ']']) {
        lex_barline_with_n_time(ctx, false, false, false)
    } else if let (ctx, true) = ctx.starts_with_insensitive_eager(&[':', ':']) {
        LexResult::t(
            ctx,
            T::Barline(Barline { repeat_before: true, single: true, repeat_after: true, n_time: None }),
        )
    } else if let (ctx, true) = ctx.starts_with_insensitive_eager(&['|']) {
        lex_barline_with_n_time(ctx, false, true, false)
    } else {
        LexResult::Error(ctx, ctx.i, LexError::UnrecognisedBarline)
    }
}

/// Read the accidental in front of a note.
fn read_note_accidental<'a>(ctx: Context<'a>) -> (r: (Context<'a>, Option<Accidental>))
    requires
        ctx.wf(),
    ensures
        r == ({
            let (j, a) = scan_note_accidental(ctx.c@, ctx.i as int);
            (ctx.at(j), a)
        }),
{
    if let (ctx, true) = ctx.starts_with_insensitive_eager(&['^', '^']) {
        (ctx, Some(Accidental::DoubleSharp))
    } else if let (ctx, true) = ctx.starts_with_insensitive_eager(&['_', '_']) {
        (ctx, Some(Accidental::DoubleFlat))
    } else if let (ctx, true) = ctx.starts_with_insensitive_eager(&['^']) {
        (ctx, Some(Accidental::Sharp))
    } else if let (ctx, true) = ctx.starts_with_insensitive_eager(&['_']) {
        (ctx, Some(Accidental::Flat))
    } else if let (ctx, true) = ctx.starts_with_insensitive_eager(&['=']) {
        (ctx, Some(Accidental::Natural))
    } else {
        (ctx, None)
    }
}

/// Read a note letter: upper case in octave 0, lower case in octave 1.
fn read_note_letter<'a>(ctx: Context<'a>) -> (r: (Context<'a>, Option<DiatonicPitchClass>, i16))
    requires
        ctx.wf(),
    ensures
        r == ({
            let (j, d, o) = scan_note_letter(ctx.c@, ctx.i as int);
            (ctx.at(j), d, o as i16)
        }),
{
    match ctx.first() {
        Some((c, 'A')) => (c, Some(DiatonicPitchClass::A), 0),
        Some((c, 'B')) => (c, Some(DiatonicPitchClass::B), 0),
        Some((c, 'C')) => (c, Some(DiatonicPitchClass::C), 0),
        Some((c, 'D')) => (c, Some(DiatonicPitchClass::D), 0),
        Some((c, 'E')) => (c, Some(DiatonicPitchClass::E), 0),
        Some((c, 'F')) => (c, Some(DiatonicPitchClass::F), 0),
        Some((c, 'G')) => (c, Some(DiatonicPitchClass::G), 0),
        Some((c, 'a')) => (c, Some(DiatonicPitchClass::A), 1),
        Some((c, 'b')) => (c, Some(DiatonicPitchClass::B), 1),
        Some((c, 'c')) => (c, Some(DiatonicPitchClass::C), 1),
        Some((c, 'd')) => (c, Some(DiatonicPitchClass::D), 1),
        Some((c, 'e')) => (c, Some(DiatonicPitchClass::E), 1),
        Some((c, 'f')) => (c, Some(DiatonicPitchClass::F), 1),
        Some((c, 'g')) => (c, Some(DiatonicPitchClass::G), 1),
        _ => (ctx, None, 0),
    }
}

/// Read an optional octave mark, which moves the octave down (comma) or up (apostrophe).
fn read_octave<'a>(ctx: Context<'a>, octave: i16) -> (r: (Context<'a>, i16))
    requires
        ctx.wf(),
        0 <= octave <= 1,
    ensures
        r == ({
            let (j, o) = scan_octave(ctx.c@, ctx.i as int, octave as int);
            (ctx.at(j), o as i16)
        }),
{
    match ctx.first() {
        Some((c, ',')) => (c, octave - 1),
        Some((c, '\'')) => (c, octave + 1),
        _ => (ctx, octave),
    }
}

/// Lex a note: an optional accidental, a letter, an optional octave mark and a duration.
pub fn lex_note<'a>(ctx: Context<'a>) -> (r: LexResult<'a>)
    requires
        ctx.wf(),
        ctx.i <= ctx.l,
    ensures
        lex_result_is(r, ctx, scan_note(ctx.c@, ctx.i as int, ctx.tune_section)),
{
    let (ctx1, accidental) = read_note_accidental(ctx);
    let (ctx2, diatonic, octave) = read_note_letter(ctx1);
    let (ctx3, octave) = read_octave(ctx2, octave);
    proof {
        lemma_fractional_duration_bounds(ctx.c@, ctx3.i as int);
    }

    // Duration has a few different representations, including zero characters.
    let (ctx4, duration) = read_fractional_duration(ctx3);

    if let Some(diatonic) = diatonic {
        LexResult::t(
            ctx4,
            T::Note(
                Note(
                    Pitch {
                        pitch_class: PitchClass {
                            diatonic_pitch_class: diatonic,
                            accidental: accidental,
                        },
                        octave: octave,
                    },
                    duration,
                ),
            ),
        )
    } else {
        LexResult::Error(ctx4, ctx4.i, LexError::UnrecognisedNote)
    }
}


/// The text header field that a header letter introduces.
pub open spec fn text_field_of(c: char) -> Option<TextField> {
    if c == 'A' {
        Some(TextField::Area)
    } else if c == 'B' {
        Some(TextField::Book)
    } else if c == 'C' {
        Some(TextField::Composer)
    } else if c == 'D' {
        Some(TextField::Discography)
    } else if c == 'F' {
        Some(TextField::Filename)
    } else if c == 'G' {
        Some(TextField::Group)
    } else if c == 'H' {
        Some(TextField::History)
    } else if c == 'I' {
        Some(TextField::Information)
    } else if c == 'N' {
        Some(TextField::Notes)
    } else if c == 'O' {
        Some(TextField::Origin)
    } else if c == 'R' {
        Some(TextField::Rhythm)
    } else if c == 'S' {
        Some(TextField::Source)
    } else if c == 'T' {
        Some(TextField::Title)
    } else if c == 'W' {
        Some(TextField::Words)
    } else if c == 'X' {
        Some(TextField::X)
    } else if c == 'Z' {
        Some(TextField::Transcription)
    } else {
        None
    }
}

/// The header letters of the fields that are not plain text.
pub open spec fn is_field_letter(c: char) -> bool {
    c == 'K' || c == 'L' || c == 'M' || c == 'P' || c == 'Q'
}

/// The characters that can start a note.
pub open spec fn is_note_start(c: char) -> bool {
    upper_letter(c) is Some || lower_letter(c) is Some || c == '^' || c == '_' || c == '='
}

/// A text header after its letter: a colon, then the trimmed rest of the line.
pub open spec fn scan_text_header(s: Seq<char>, i1: int, sec: TuneSection, f: TextField) -> Step {
    if i1 + 1 > s.len() {
        Step::Error(i1, sec, i1, LexError::PrematureEnd(During::Header))
    } else if s[i1] == ':' {
        match find_char(s, i1 + 1, '\n') {
            Some(p) => token_step(p + 1, sec, TokenView::Text(f, trimmed(s.subrange(i1 + 1, p)))),
            None => Step::Error(s.len() as int, sec, s.len() as int, LexError::ExpectedDelimiter('\n')),
        }
    } else {
        Step::Error(i1 + 1, sec, i1 + 1, LexError::ExpectedColon)
    }
}

/// A non-text header after its letter: a colon, optional spaces, then the field's value.
/// A key signature moves on to the tune body, even if it fails to lex.
pub open spec fn scan_field_header(s: Seq<char>, i1: int, sec: TuneSection, letter: char) -> Step {
    if i1 + 1 > s.len() {
        Step::Error(i1, sec, i1, LexError::PrematureEnd(During::Header))
    } else if s[i1] == ':' {
        let j = skip_spaces(s, i1 + 1);
        if letter == 'K' {
            scan_key_signature(s, j, TuneSection::Body, '\n')
        } else if letter == 'L' {
            scan_note_length(s, j, sec, '\n')
        } else if letter == 'M' {
            scan_metre(s, j, sec, '\n')
        } else if letter == 'P' {
            Step::Error(j, sec, j, LexError::UnimplementedError(3))
        } else {
            Step::Error(j, sec, j, LexError::UnimplementedError(4))
        }
    } else {
        Step::Error(i1 + 1, sec, i1 + 1, LexError::ExpectedColon)
    }
}

/// One token (or error) read at offset `i` in the given section.
pub open spec fn scan_read(s: Seq<char>, i: int, sec: TuneSection) -> Step {
    if !(0 <= i && i + 1 <= s.len()) {
        Step::Terminal
    } else {
        let c = s[i];
        match sec {
            TuneSection::Header => if text_field_of(c) is Some {
                scan_text_header(s, i + 1, sec, text_field_of(c)->0)
            } else if is_field_letter(c) {
                scan_field_header(s, i + 1, sec, c)
            } else {
                Step::Error(i + 1, sec, i + 1, LexError::UnexpectedHeaderLine)
            },
            TuneSection::Body => if c == ' ' {
                token_step(i + 1, sec, TokenView::BeamBreak)
            } else if c == '\n' {
                token_step(i + 1, sec, TokenView::Newline)
            } else if c == '|' || c == ':' {
                scan_barline(s, i, sec)
            } else if is_note_start(c) {
                scan_note(s, i, sec)
            } else {
                Step::Error(i, sec, i, LexError::UnexpectedBodyChar(c))
            },
        }
    }
}

/// Build the token of a text header field.
fn text_token(f: TextField, value: String) -> (r: T)
    ensures
        r@ == TokenView::Text(f, value@),
{
    match f {
        TextField::Area => T::Area(value),
        TextField::Book => T::Book(value),
        TextField::Composer => T::Composer(value),
        TextField::Discography => T::Discography(value),
        TextField::Filename => T::Filename(value),
        TextField::Group => T::Group(value),
        TextField::History => T::History(value),
        TextField::Information => T::Information(value),
        TextField::Notes => T::Notes(value),
        TextField::Origin => T::Origin(value),
        TextField::Rhythm => T::Rhythm(value),
        TextField::Source => T::Source(value),
        TextField::Title => T::Title(value),
        TextField::Words => T::Words(value),
        TextField::X => T::X(value),
        TextField::Transcription => T::Transcription(value),
    }
}

/// The text field introduced by a header letter.
fn text_field_for(c: char) -> (r: Option<TextField>)
    ensures
        r == text_field_of(c),
{
    match c {
        'A' => Some(TextField::Area),
        'B' => Some(TextField::Book),
        'C' => Some(TextField::Composer),
        'D' => Some(TextField::Discography),
        'F' => Some(TextField::Filename),
        'G' => Some(TextField::Group),
        'H' => Some(TextField::History),
        'I' => Some(TextField::Information),
        'N' => Some(TextField::Notes),
        'O' => Some(TextField::Origin),
        'R' => Some(TextField::Rhythm),
        'S' => Some(TextField::Source),
        'T' => Some(TextField::Title),
        'W' => Some(TextField::Words),
        'X' => Some(TextField::X),
        'Z' => Some(TextField::Transcription),
        _ => None,
    }
}

/// Lex a text header, after its letter.
fn lex_text_header<'a>(ctx: Context<'a>, field: TextField) -> (r: LexResult<'a>)
    requires
        ctx.wf(),
        ctx.i <= ctx.l,
    ensures
        lex_result_is(r, ctx, scan_text_header(ctx.c@, ctx.i as int, ctx.tune_section, field)),
{
    match ctx.first() {
        Some((ctx, ':')) => {
            proof {
                lemma_find_char_bounds(ctx.c@, ctx.i as int, '\n');
            }
            match read_until(ctx, '\n') {
                Ok((ctx, chars)) => {
                    // Strip whitespace including leading space and trailing newline.
                    let value = trim_chars(chars);
                    LexResult::t(ctx, text_token(field, value))
                },
                Err(ctx) => LexResult::Error(ctx, ctx.i, LexError::ExpectedDelimiter('\n')),
            }
        },
        // Not a colon.
        Some((ctx, _)) => LexResult::Error(ctx, ctx.i, LexError::ExpectedColon),
        // Unexpected end of input.
        None => LexResult::Error(ctx, ctx.i, LexError::PrematureEnd(During::Header)),
    }
}

/// Lex a non-text header, after its letter.
fn lex_field_header<'a>(ctx: Context<'a>, letter: char) -> (r: LexResult<'a>)
    requires
        ctx.wf(),
        ctx.i <= ctx.l,
        is_field_letter(letter),
    ensures
        lex_result_is(r, ctx, scan_field_header(ctx.c@, ctx.i as int, ctx.tune_section, letter)),
{
    match ctx.first() {
        Some((ctx, ':')) => {
            proof {
                lemma_skip_spaces_bounds(ctx.c@, ctx.i as int);
            }
            // Skip leading whitespace within the header.
            let ctx = ctx.skip_whitespace();
            if letter == 'K' {
                // K signals a switch to the body section, even if it fails to lex.
                let ctx = ctx.in_body();
                lex_key_signature(ctx, '\n')
            } else if letter == 'L' {
                lex_note_length(ctx, '\n')
            } else if letter == 'M' {
                lex_metre(ctx, '\n')
            } else if letter == 'P' {
                // Parts.
                LexResult::Error(ctx, ctx.i, LexError::UnimplementedError(3))
            } else {
                // Tempo.
                LexResult::Error(ctx, ctx.i, LexError::UnimplementedError(4))
            }
        },
        // Not a colon.
        Some((ctx, _)) => LexResult::Error(ctx, ctx.i, LexError::ExpectedColon),
        // Unexpected end of input.
        None => LexResult::Error(ctx, ctx.i, LexError::PrematureEnd(During::Header)),
    }
}

/// Try to read a single token and return a new context.
pub fn read<'a>(ctx: Context<'a>) -> (r: LexResult<'a>)
    requires
        ctx.wf(),
    ensures
        lex_result_is(r, ctx, scan_read(ctx.c@, ctx.i as int, ctx.tune_section)),
{
    match ctx.peek_first() {
        None => LexResult::Terminal,
        Some((ctx, first_char)) => {
            match ctx.tune_section {
                TuneSection::Header => {
                    // In the header the first character is always consumed.
                    let ctx = ctx.skip(1);
                    if let Some(field) = text_field_for(first_char) {
                        lex_text_header(ctx, field)
                    } else if first_char == 'K' || first_char == 'L' || first_char == 'M'
                        || first_char == 'P' || first_char == 'Q' {
                        lex_field_header(ctx, first_char)
                    } else {
                        // Anything else in the header is unrecognised.
                        LexResult::Error(ctx, ctx.i, LexError::UnexpectedHeaderLine)
                    }
                },
                TuneSection::Body => {
                    match first_char {
                        ' ' => LexResult::t(ctx.skip(1), T::BeamBreak),
                        '\n' => LexResult::t(ctx.skip(1), T::Newline),
                        '|' | ':' => lex_barline(ctx),
                        'a' | 'b' | 'c' | 'd' | 'e' | 'f' | 'g' | 'A' | 'B' | 'C' | 'D' | 'E'
                        | 'F' | 'G' | '^' | '_' | '=' => lex_note(ctx),
                        _ => LexResult::Error(ctx, ctx.i, LexError::UnexpectedBodyChar(first_char)),
                    }
                },
            }
        },
    }
}


/// Errors after which lexing resumes where the error left off, rather than skipping a
/// character: the metre errors, which already leave the context after the line.
pub open spec fn recovers_in_place(e: LexError) -> bool {
    ||| e == LexError::NumberTooLong(NumberRole::UpperTimeSignature)
    ||| e == LexError::NumberTooLong(NumberRole::LowerTimeSignature)
    ||| e == LexError::ExpectedNumber(NumberRole::LowerTimeSignature)
    ||| e == LexError::ExpectedNumber(NumberRole::UpperTimeSignature)
}

/// How many characters the lexer skips before reading again, after the previous result.
pub open spec fn skip_after(pending: Option<LexError>) -> int {
    match pending {
        Some(e) => if recovers_in_place(e) {
            0
        } else {
            1
        },
        None => 0,
    }
}

/// The offsets that a step leaves the input at, relative to where it started reading:
/// tokens always move on, errors never move back, and errors that recover in place move on.
pub open spec fn step_moves_on(st: Step, start: int, len: int) -> bool {
    match st {
        Step::Tokens(k, _, _) => start < k <= len,
        Step::Error(k, _, off, e) => start <= k <= len && 0 <= off <= len && (recovers_in_place(e)
            ==> start < k),
        Step::Terminal => true,
    }
}

/// A delimited field that starts with a number, a slash and a number ends no later than the
/// delimiter.
proof fn lemma_fraction_field_bounds(s: Seq<char>, i: int, r1: NumberRole, r2: NumberRole)
    requires
        0 <= i <= s.len(),
        find_char(s, i, '\n') is Some,
    ensures
        ({
            let p = find_char(s, i, '\n')->0;
            &&& i <= p < s.len()
            &&& number_scan(s, i, r1) matches Ok((j, _)) ==> (j <= p && (s[j] == '/' ==> (j < p
                && (number_scan(s, j + 1, r2) matches Ok((k, _)) ==> k <= p) && (number_scan(
                s,
                j + 1,
                r2,
            ) matches Err((_, off, _)) ==> off <= p))))
            &&& number_scan(s, i, r1) matches Err((_, off, _)) ==> off <= p
        }),
{
    lemma_find_char_bounds(s, i, '\n');
    let p = find_char(s, i, '\n')->0;
    lemma_number_scan_bounds(s, i, r1);
    if let Ok((j, _)) = number_scan(s, i, r1) {
        if j > p {
            assert(is_ascii_digit(s[p]));
        }
        if j < s.len() && s[j] == '/' {
            lemma_number_scan_bounds(s, j + 1, r2);
            if let Ok((k, _)) = number_scan(s, j + 1, r2) {
                if k > p {
                    assert(is_ascii_digit(s[p]));
                }
            }
        }
    }
}

proof fn lemma_note_length_moves_on(s: Seq<char>, i: int, sec: TuneSection)
    requires
        0 <= i <= s.len(),
    ensures
        step_moves_on(scan_note_length(s, i, sec, '\n'), i, s.len() as int),
        !(scan_note_length(s, i, sec, '\n') is Terminal),
{
    lemma_find_char_bounds(s, i, '\n');
    if find_char(s, i, '\n') is Some {
        lemma_fraction_field_bounds(
            s,
            i,
            NumberRole::UpperDefaultNoteLength,
            NumberRole::LowerDefaultNoteLength,
        );
        lemma_number_scan_bounds(s, i, NumberRole::UpperDefaultNoteLength);
    }
}

proof fn lemma_metre_moves_on(s: Seq<char>, i: int, sec: TuneSection)
    requires
        0 <= i <= s.len(),
    ensures
        match scan_metre(s, i, sec, '\n') {
            Step::Tokens(k, _, _) => i <= k <= s.len(),
            Step::Error(k, _, off, e) => i <= k <= s.len() && 0 <= off <= s.len() && (
            recovers_in_place(e) ==> i < k),
            Step::Terminal => false,
        },
{
    lemma_find_char_bounds(s, i, '\n');
    if find_char(s, i, '\n') is Some {
        lemma_fraction_field_bounds(
            s,
            i,
            NumberRole::UpperTimeSignature,
            NumberRole::LowerTimeSignature,
        );
        lemma_number_scan_bounds(s, i, NumberRole::UpperTimeSignature);
    }
}

proof fn lemma_key_signature_moves_on(s: Seq<char>, i: int, sec: TuneSection)
    requires
        0 <= i <= s.len(),
    ensures
        step_moves_on(scan_key_signature(s, i, sec, '\n'), i - 1, s.len() as int),
        !(scan_key_signature(s, i, sec, '\n') is Terminal),
{
    lemma_find_char_bounds(s, i, '\n');
}

proof fn lemma_n_time_bounds(s: Seq<char>, i: int)
    requires
        0 <= i <= s.len(),
    ensures
        i <= scan_n_time(s, i).0 <= s.len(),
{
    lemma_number_scan_bounds(s, i, NumberRole::NTimeBar);
    if starts_at(s, i, ['[']@) {
        lemma_number_scan_bounds(s, i + 1, NumberRole::NTimeBar);
    }
}

proof fn lemma_barline_moves_on(s: Seq<char>, i: int, sec: TuneSection)
    requires
        0 <= i < s.len(),
    ensures
        step_moves_on(scan_barline(s, i, sec), i - 1, s.len() as int),
        match scan_barline(s, i, sec) {
            Step::Tokens(k, _, _) => i < k,
            Step::Error(_, _, _, e) => !recovers_in_place(e),
            Step::Terminal => false,
        },
{
    if starts_at(s, i, [':', '|']@) {
        lemma_n_time_bounds(s, i + 2);
    }
    if starts_at(s, i, [':', '|', '|']@) {
        lemma_n_time_bounds(s, i + 3);
    }
    if starts_at(s, i, ['|', '|']@) {
        lemma_n_time_bounds(s, i + 2);
    }
    if starts_at(s, i, ['|', ']']@) {
        lemma_n_time_bounds(s, i + 2);
    }
    if starts_at(s, i, ['|']@) {
        lemma_n_time_bounds(s, i + 1);
    }
}

proof fn lemma_note_moves_on(s: Seq<char>, i: int, sec: TuneSection)
    requires
        0 <= i < s.len(),
    ensures
        step_moves_on(scan_note(s, i, sec), i - 1, s.len() as int),
        match scan_note(s, i, sec) {
            Step::Tokens(k, _, _) => i < k,
            Step::Error(_, _, _, e) => !recovers_in_place(e),
            Step::Terminal => false,
        },
{
    let (j1, _) = scan_note_accidental(s, i);
    let (j2, _, o) = scan_note_letter(s, j1);
    let (j3, _) = scan_octave(s, j2, o);
    lemma_fractional_duration_bounds(s, j3);
}

/// Each step read at an offset within the input moves on as `step_moves_on` describes.
pub proof fn lemma_read_moves_on(s: Seq<char>, j: int, sec: TuneSection)
    requires
        0 <= j,
    ensures
        step_moves_on(scan_read(s, j, sec), j, s.len() as int),
{
    if 0 <= j && j + 1 <= s.len() {
        let c = s[j];
        match sec {
            TuneSection::Header => {
                if text_field_of(c) is Some {
                    lemma_find_char_bounds(s, j + 2, '\n');
                } else if is_field_letter(c) {
                    if j + 2 <= s.len() && s[j + 1] == ':' {
                        let k = skip_spaces(s, j + 2);
                        lemma_skip_spaces_bounds(s, j + 2);
                        if c == 'K' {
                            lemma_key_signature_moves_on(s, k, TuneSection::Body);
                        } else if c == 'L' {
                            lemma_note_length_moves_on(s, k, sec);
                        } else if c == 'M' {
                            lemma_metre_moves_on(s, k, sec);
                        }
                    }
                }
            },
            TuneSection::Body => {
                if c == '|' || c == ':' {
                    lemma_barline_moves_on(s, j, sec);
                } else if is_note_start(c) {
                    lemma_note_moves_on(s, j, sec);
                }
            },
        }
    }
}

/// The results of a lexer from offset `i` in section `sec`, whose previous result was the
/// error `pending`, if any. After most errors it skips a character before reading again.
pub open spec fn lex_from(s: Seq<char>, i: int, sec: TuneSection, pending: Option<LexError>) -> Seq<
    Step,
>
    decreases (s.len() + 2 - i) * 2 + (if skip_after(pending) == 1 {
        0int
    } else {
        1int
    }),
    when 0 <= i <= s.len() + 1
{
    let j = i + skip_after(pending);
    let st = scan_read(s, j, sec);
    proof {
        lemma_read_moves_on(s, j, sec);
    }
    match st {
        Step::Tokens(k, sec2, _) => seq![st] + lex_from(s, k, sec2, None),
        Step::Error(k, sec2, _, e) => seq![st] + lex_from(s, k, sec2, Some(e)),
        Step::Terminal => seq![],
    }
}

/// All the results of lexing an ABC input from its start.
pub open spec fn lex_run(s: Seq<char>) -> Seq<Step> {
    lex_from(s, 0, TuneSection::Header, None)
}

/// The tokens of a sequence of steps, in order.
pub open spec fn tokens_of(steps: Seq<Step>) -> Seq<TokenView>
    decreases steps.len(),
{
    if steps.len() == 0 {
        seq![]
    } else {
        (match steps[0] {
            Step::Tokens(_, _, ts) => ts,
            _ => seq![],
        }) + tokens_of(steps.drop_first())
    }
}

/// The errors of a sequence of steps, in order: the offset to resume at, the section, the
/// offset of the error and the error.
pub open spec fn errors_of(steps: Seq<Step>) -> Seq<(int, TuneSection, int, LexError)>
    decreases steps.len(),
{
    if steps.len() == 0 {
        seq![]
    } else {
        (match steps[0] {
            Step::Error(k, sec, off, e) => seq![(k, sec, off, e)],
            _ => seq![],
        }) + errors_of(steps.drop_first())
    }
}

/// A lex result as a step.
pub open spec fn step_of<'a>(r: LexResult<'a>) -> Step {
    match r {
        LexResult::T(c, ts) => Step::Tokens(c.i as int, c.tune_section, token_views(ts@)),
        LexResult::Error(c, off, e) => Step::Error(c.i as int, c.tune_section, off as int, e),
        LexResult::Terminal => Step::Terminal,
    }
}

/// The contexts in a lex result are over the given input.
pub open spec fn result_over<'a>(r: LexResult<'a>, c: &'a [char]) -> bool {
    match r {
        LexResult::T(ctx, _) => ctx.c == c && ctx.wf(),
        LexResult::Error(ctx, _, _) => ctx.c == c && ctx.wf(),
        LexResult::Terminal => true,
    }
}

/// A stateful lexer for an ABC input.
pub struct Lexer<'a> {
    context: Context<'a>,
    // The last result's error, if it was one; used to try to skip over bad input.
    error: Option<LexError>,
}

impl<'a> Lexer<'a> {
    #[verifier::type_invariant]
    spec fn inv(&self) -> bool {
        self.context.wf() && self.context.i <= self.context.l + 1
    }

    /// The input.
    pub closed spec fn input(&self) -> &'a [char] {
        self.context.c
    }

    /// Nothing has been lexed yet.
    pub closed spec fn at_start(&self) -> bool {
        self.context.i == 0 && self.error is None && self.context.tune_section
            == TuneSection::Header
    }

    /// The results still to come.
    pub closed spec fn remaining(&self) -> Seq<Step> {
        lex_from(self.context.c@, self.context.i as int, self.context.tune_section, self.error)
    }

    pub fn new(content: &'a [char]) -> (r: Lexer<'a>)
        requires
            content@.len() < usize::MAX,
        ensures
            r.input() == content,
            r.at_start(),
            r.remaining() == lex_run(content@),
    {
        let context = Context::new(content);
        Lexer { context, error: None }
    }

    /// Skip into the body section, before anything was lexed.
    pub fn in_body(self) -> (r: Lexer<'a>)
        ensures
            r.input() == self.input(),
            self.at_start() ==> r.remaining() == lex_from(self.input()@, 0, TuneSection::Body, None),
    {
        proof {
            use_type_invariant(&self);
        }
        let error = self.error;
        let context = self.context.in_body();
        Lexer { context, error }
    }

    /// Collect all tokens, ignoring errors.
    pub fn collect_tokens(self) -> (r: Vec<T>)
        ensures
            token_views(r@) == tokens_of(self.remaining()),
    {
        let mut lexer = self;
        let mut result: Vec<T> = Vec::new();
        let ghost all = self.remaining();
        loop
            invariant
                all == self.remaining(),
                token_views(result@) + tokens_of(lexer.remaining()) == tokens_of(all),
            decreases lexer.remaining().len(),
        {
            let ghost before = lexer.remaining();
            match lexer.next() {
                None => {
                    assert(tokens_of(before) =~= Seq::<TokenView>::empty());
                    assert(token_views(result@) =~= tokens_of(all));
                    return result;
                },
                Some(LexResult::T(_, mut tokens)) => {
                    proof {
                        assert(before.drop_first() =~= lexer.remaining());
                        assert(token_views(result@ + tokens@) =~= token_views(result@) + token_views(tokens@));
                    }
                    result.append(&mut tokens);
                },
                Some(_) => {
                    proof {
                        assert(before.drop_first() =~= lexer.remaining());
                    }
                },
            }
        }
    }

    /// Collect all errors, with the context to resume at and the offset of each, ignoring
    /// tokens.
    pub fn collect_errors(self) -> (r: Vec<(Context<'a>, usize, LexError)>)
        ensures
            r@.map_values(|e: (Context<'a>, usize, LexError)| (e.0.i as int, e.0.tune_section, e.1 as int, e.2))
                == errors_of(self.remaining()),
            forall|k: int| 0 <= k < r@.len() ==> r@[k].0.c == self.input() && (#[trigger] r@[k]).0.wf(),
    {
        let mut lexer = self;
        let mut result: Vec<(Context<'a>, usize, LexError)> = Vec::new();
        let ghost all = self.remaining();
        loop
            invariant
                lexer.input() == self.input(),
                all == self.remaining(),
                result@.map_values(|e: (Context<'a>, usize, LexError)| (e.0.i as int, e.0.tune_section, e.1 as int, e.2))
                    + errors_of(lexer.remaining()) == errors_of(all),
                forall|k: int| 0 <= k < result@.len() ==> result@[k].0.c == self.input() && (#[trigger] result@[k]).0.wf(),
            decreases lexer.remaining().len(),
        {
            let ghost before = lexer.remaining();
            let ghost old_result = result@;
            match lexer.next() {
                None => {
                    assert(errors_of(before) =~= Seq::<(int, TuneSection, int, LexError)>::empty());
                    assert(result@.map_values(|e: (Context<'a>, usize, LexError)| (e.0.i as int, e.0.tune_section, e.1 as int, e.2))
                        =~= errors_of(all));
                    return result;
                },
                Some(LexResult::Error(ctx, offset, err)) => {
                    result.push((ctx, offset, err));
                    proof {
                        assert(before.drop_first() =~= lexer.remaining());
                        assert(result@.map_values(|e: (Context<'a>, usize, LexError)| (e.0.i as int, e.0.tune_section, e.1 as int, e.2))
                            =~= old_result.map_values(|e: (Context<'a>, usize, LexError)| (e.0.i as int, e.0.tune_section, e.1 as int, e.2))
                            + seq![(ctx.i as int, ctx.tune_section, offset as int, err)]);
                    }
                },
                Some(_) => {
                    proof {
                        assert(before.drop_first() =~= lexer.remaining());
                    }
                },
            }
        }
    }

    /// Collect all results, tokens and errors, in order.
    pub fn collect_results(self) -> (r: Vec<LexResult<'a>>)
        ensures
            r@.map_values(|x: LexResult<'a>| step_of(x)) == self.remaining(),
            forall|k: int| 0 <= k < r@.len() ==> result_over(#[trigger] r@[k], self.input()),
    {
        let mut lexer = self;
        let mut result: Vec<LexResult<'a>> = Vec::new();
        let ghost all = self.remaining();
        loop
            invariant
                lexer.input() == self.input(),
                all == self.remaining(),
                result@.map_values(|x: LexResult<'a>| step_of(x)) + lexer.remaining() == all,
                forall|k: int| 0 <= k < result@.len() ==> result_over(#[trigger] result@[k], self.input()),
            decreases lexer.remaining().len(),
        {
            let ghost before = lexer.remaining();
            let ghost old_result = result@;
            match lexer.next() {
                None => {
                    assert(result@.map_values(|x: LexResult<'a>| step_of(x)) + before =~= all);
                    assert(result@.map_values(|x: LexResult<'a>| step_of(x)) =~= all);
                    return result;
                },
                Some(res) => {
                    result.push(res);
                    proof {
                        assert(result@.map_values(|x: LexResult<'a>| step_of(x)) =~= old_result.map_values(|x: LexResult<'a>| step_of(x))
                            + seq![step_of(res)]);
                    }
                },
            }
        }
    }

    /// The next result, or None at the end of the input.
    pub fn next(&mut self) -> (r: Option<LexResult<'a>>)
        ensures
            final(self).input() == old(self).input(),
            r is None ==> old(self).remaining() == Seq::<Step>::empty() && final(self).remaining()
                == Seq::<Step>::empty(),
            r matches Some(res) ==> old(self).remaining() == seq![step_of(res)] + final(self).remaining()
                && result_over(res, old(self).input()) && !(res is Terminal),
    {
        proof {
            use_type_invariant(&*self);
        }
        let ghost s = self.context.c@;
        // If the last result was an error, skip over the input to try and resume.
        let skip_amount: usize = match self.error {
            // The errors returned by the metre recover by themselves, so no need to skip.
            Some(LexError::NumberTooLong(NumberRole::UpperTimeSignature))
            | Some(LexError::NumberTooLong(NumberRole::LowerTimeSignature))
            | Some(LexError::ExpectedNumber(NumberRole::LowerTimeSignature))
            | Some(LexError::ExpectedNumber(NumberRole::UpperTimeSignature)) => 0,
            // After any other error, skip one character.
            Some(_) => 1,
            None => 0,
        };
        assert(skip_amount == skip_after(self.error));

        if self.context.i > self.context.l {
            // Already past the end: nothing more to read.
            assert(scan_read(s, self.context.i + skip_amount, self.context.tune_section) is Terminal);
            let ctx = self.context;
            self.error = None;
            return None;
        }
        let ctx = self.context.skip(skip_amount);
        let result = read(ctx);
        proof {
            lemma_read_moves_on(s, ctx.i as int, ctx.tune_section);
        }
        self.error = None;
        self.context = ctx;

        match result {
            // Stop iteration at the end of the input.
            LexResult::Terminal => None,
            // If it's an error, return it and record it.
            LexResult::Error(context, offset, error) => {
                self.context = context;
                self.error = Some(error);
                Some(LexResult::Error(context, offset, error))
            },
            // Otherwise it's a token.
            LexResult::T(context, tokens) => {
                self.context = context;
                Some(LexResult::T(context, tokens))
            },
        }
    }
}


/// A run of `n` spaces.
pub open spec fn spaces(n: nat) -> Seq<char> {
    Seq::new(n, |_k: int| ' ')
}

/// A further line of a message: a newline, then the line indented by `indent` spaces.
pub open spec fn indented_line(indent: nat, line: Seq<char>) -> Seq<char> {
    seq!['\n'] + spaces(indent) + line
}

/// Further lines of a message, each after a newline and indented by `indent` spaces.
pub open spec fn indented_lines(indent: nat, lines: Seq<Seq<char>>) -> Seq<char>
    decreases lines.len(),
{
    if lines.len() == 0 {
        seq![]
    } else {
        indented_line(indent, lines[0]) + indented_lines(indent, lines.drop_first())
    }
}

/// Start a new line in a string buffer, indent it and append a line of text.
/// This is used for all subsequent lines in an error message (the first is already indented).
fn indent_and_append_line(indent: usize, buf: &mut String, string: &str)
    ensures
        final(buf)@ == old(buf)@ + indented_line(indent as nat, string@),
{
    push_char(buf, '\n');
    let ghost start = buf@;
    let mut k: usize = 0;
    while k < indent
        invariant
            k <= indent,
            buf@ == start + spaces(k as nat),
        decreases indent - k,
    {
        push_char(buf, ' ');
        k += 1;
        assert(buf@ =~= start + spaces(k as nat));
    }
    push_str(buf, string);
    assert(buf@ =~= old(buf)@ + indented_line(indent as nat, string@));
}

/// Indent and append a sequence of lines.
fn indent_and_append_lines(indent: usize, buf: &mut String, lines: &[&str])
    ensures
        final(buf)@ == old(buf)@ + indented_lines(indent as nat, lines@.map_values(|s: &str| s@)),
{
    let ghost all = lines@.map_values(|s: &str| s@);
    assert(all.subrange(0, all.len() as int) =~= all);
    assert(old(buf)@ + Seq::<char>::empty() =~= old(buf)@);
    let mut k: usize = 0;
    while k < lines.len()
        invariant
            k <= lines@.len(),
            all == lines@.map_values(|s: &str| s@),
            buf@ + indented_lines(indent as nat, all.subrange(k as int, all.len() as int)) == old(buf)@
                + indented_lines(indent as nat, all),
        decreases lines.len() - k,
    {
        let ghost before = buf@;
        indent_and_append_line(indent, buf, lines[k]);
        proof {
            let rest = all.subrange(k as int, all.len() as int);
            assert(rest.drop_first() =~= all.subrange(k + 1, all.len() as int));
            assert(indented_lines(indent as nat, rest) == indented_line(indent as nat, rest[0])
                + indented_lines(indent as nat, rest.drop_first()));
            assert(buf@ + indented_lines(indent as nat, all.subrange(k + 1, all.len() as int))
                =~= before + indented_lines(indent as nat, rest));
        }
        k += 1;
    }
    assert(all.subrange(lines@.len() as int, all.len() as int) =~= Seq::<Seq<char>>::empty());
    assert(buf@ + Seq::<char>::empty() =~= buf@);
}

/// The header fields listed when an unknown header is found.
pub open spec fn recognised_headers() -> Seq<Seq<char>> {
    [
        "Recognised headers:",
        "A: Geographical Area",
        "B: Book",
        "C: Composer",
        "D: Discography",
        "F: File Name",
        "G: Group",
        "H: History",
        "I: Information",
        "K: Key",
        "L: Default note length",
        "M: Meter",
        "N: Notes",
        "O: Geographical Origin",
        "P: Parts",
        "Q: Tempo",
        "R: Rhythm",
        "S: Source",
        "T: Title",
        "W: Words",
        "X: Tune number",
        "Z: Transcription note",
    ]@.map_values(|s: &str| s@)
}

/// What was expected of a number in each role.
pub open spec fn number_role_text(role: NumberRole) -> Seq<char> {
    match role {
        NumberRole::UpperTimeSignature => "I expected the first / upper part of a time signature."@,
        NumberRole::LowerTimeSignature => "I expected the second / lower part of a time signature."@,
        NumberRole::NoteDurationNumerator => "I expected to find a number for a note length."@,
        NumberRole::NoteDurationDenomenator => "I expected to find a number for a note length."@,
        NumberRole::UpperDefaultNoteLength => "I expected to find the first / upper part of a default note length."@,
        NumberRole::LowerDefaultNoteLength => "I expected to find the second / lower part of a default note length."@,
        NumberRole::NTimeBar => "I expected to find a n-time repeat bar."@,
    }
}

/// What was being read when the input ended.
pub open spec fn during_text(during: During) -> Seq<char> {
    match during {
        During::Metre => "I was in the middle of reading a time signature"@,
        During::Header => "I was in the middle of reading a header field."@,
        During::KeySignature => "I was in the middle of reading a key signature."@,
        During::DefaultNoteLenth => "I was in the middle of reading a default note length."@,
    }
}

/// The message for an error; lines after the first are indented by `indent`.
pub open spec fn error_text(e: LexError, indent: nat) -> Seq<char> {
    match e {
        LexError::ExpectedDelimiter(chr) => if chr == '\n' {
            "I expected to find a new-line here."@
        } else {
            "I expected to find the character '"@ + seq![chr] + "' here."@
        },
        LexError::ExpectedColon => "I expected to see a colon here."@,
        LexError::ExpectedFieldType(chr) => "I found a header of '"@ + seq![chr]
            + "' but I don't understand it."@ + indented_lines(indent, recognised_headers()),
        LexError::ExpectedNumber(role) => "I expected to find a number here."@ + indented_line(
            indent,
            number_role_text(role),
        ),
        LexError::ExpectedSlashInMetre => "I expected to find a slash for the time signature."@,
        LexError::NumberTooLong(_) => "This number is longer than I expected."@,
        LexError::PrematureEnd(during) => "I've got to the end of the ABC tune before I'm ready."@
            + indented_line(indent, during_text(during)),
        LexError::UnexpectedBodyChar(chr) => "I didn't expect to find the character '"@ + seq![chr]
            + "' here."@,
        LexError::UnexpectedHeaderLine => "I expected to find a header, but found something else."@,
        LexError::UnimplementedError(ident) => "I'm confused, sorry. Please email joe@afandian.com with your ABC and quote number '"@
            + decimal_string(ident as nat) + "' and I'll see if I can fix it."@,
        LexError::UnrecognisedKeyNote => "I expected to find a tonic for a key signature, but didn't understand this."@,
        LexError::ExpectedSlashInNoteLength => "I expected to find a slash character in a default note length."@,
        LexError::UnrecognisedBarline => "I couldn't understand this bar line."@,
        LexError::UnrecognisedNote => "I didn't understand how to read this note."@,
    }
}

impl LexError {
    /// Format the error to the string buffer.
    /// If more than one line is used, indent by this much.
    /// No newline is appended after the last line.
    pub fn format(&self, indent: usize, buf: &mut String)
        ensures
            final(buf)@ == old(buf)@ + error_text(*self, indent as nat),
    {
        match self {
            LexError::ExpectedDelimiter(chr) => {
                // Printing \n is confusing.
                if *chr == '\n' {
                    push_str(buf, "I expected to find a new-line here.");
                } else {
                    push_str(buf, "I expected to find the character '");
                    push_char(buf, *chr);
                    push_str(buf, "' here.");
                }
            },
            LexError::ExpectedColon => {
                push_str(buf, "I expected to see a colon here.");
            },
            LexError::ExpectedFieldType(chr) => {
                push_str(buf, "I found a header of '");
                push_char(buf, *chr);
                push_str(buf, "' but I don't understand it.");
                indent_and_append_lines(
                    indent,
                    buf,
                    &[
                        "Recognised headers:",
                        "A: Geographical Area",
                        "B: Book",
                        "C: Composer",
                        "D: Discography",
                        "F: File Name",
                        "G: Group",
                        "H: History",
                        "I: Information",
                        "K: Key",
                        "L: Default note length",
                        "M: Meter",
                        "N: Notes",
                        "O: Geographical Origin",
                        "P: Parts",
                        "Q: Tempo",
                        "R: Rhythm",
                        "S: Source",
                        "T: Title",
                        "W: Words",
                        "X: Tune number",
                        "Z: Transcription note",
                    ],
                );
            },
            LexError::ExpectedNumber(number_role) => {
                push_str(buf, "I expected to find a number here.");
                match number_role {
                    NumberRole::UpperTimeSignature => indent_and_append_line(
                        indent,
                        buf,
                        "I expected the first / upper part of a time signature.",
                    ),
                    NumberRole::LowerTimeSignature => indent_and_append_line(
                        indent,
                        buf,
                        "I expected the second / lower part of a time signature.",
                    ),
                    // Note durations are read where numbers are optional, so these two are
                    // not expected to occur; if they do, be polite.
                    NumberRole::NoteDurationNumerator => indent_and_append_line(
                        indent,
                        buf,
                        "I expected to find a number for a note length.",
                    ),
                    NumberRole::NoteDurationDenomenator => indent_and_append_line(
                        indent,
                        buf,
                        "I expected to find a number for a note length.",
                    ),
                    NumberRole::UpperDefaultNoteLength => indent_and_append_line(
                        indent,
                        buf,
                        "I expected to find the first / upper part of a default note length.",
                    ),
                    NumberRole::LowerDefaultNoteLength => indent_and_append_line(
                        indent,
                        buf,
                        "I expected to find the second / lower part of a default note length.",
                    ),
                    NumberRole::NTimeBar => indent_and_append_line(
                        indent,
                        buf,
                        "I expected to find a n-time repeat bar.",
                    ),
                }
            },
            LexError::ExpectedSlashInMetre => {
                push_str(buf, "I expected to find a slash for the time signature.");
            },
            LexError::NumberTooLong(_) => {
                push_str(buf, "This number is longer than I expected.");
            },
            LexError::PrematureEnd(during) => {
                push_str(buf, "I've got to the end of the ABC tune before I'm ready.");
                match during {
                    During::Metre => indent_and_append_line(
                        indent,
                        buf,
                        "I was in the middle of reading a time signature",
                    ),
                    During::Header => indent_and_append_line(
                        indent,
                        buf,
                        "I was in the middle of reading a header field.",
                    ),
                    During::KeySignature => indent_and_append_line(
                        indent,
                        buf,
                        "I was in the middle of reading a key signature.",
                    ),
                    During::DefaultNoteLenth => indent_and_append_line(
                        indent,
                        buf,
                        "I was in the middle of reading a default note length.",
                    ),
                }
            },
            LexError::UnexpectedBodyChar(chr) => {
                push_str(buf, "I didn't expect to find the character '");
                push_char(buf, *chr);
                push_str(buf, "' here.");
            },
            LexError::UnexpectedHeaderLine => {
                push_str(buf, "I expected to find a header, but found something else.");
            },
            LexError::UnimplementedError(ident) => {
                push_str(
                    buf,
                    "I'm confused, sorry. Please email joe@afandian.com with your ABC and quote number '",
                );
                let number = u32_to_string(*ident);
                push_str(buf, number.as_str());
                push_str(buf, "' and I'll see if I can fix it.");
            },
            LexError::UnrecognisedKeyNote => {
                push_str(
                    buf,
                    "I expected to find a tonic for a key signature, but didn't understand this.",
                );
            },
            LexError::ExpectedSlashInNoteLength => {
                push_str(buf, "I expected to find a slash character in a default note length.");
            },
            LexError::UnrecognisedBarline => {
                push_str(buf, "I couldn't understand this bar line.");
            },
            LexError::UnrecognisedNote => {
                push_str(buf, "I didn't understand how to read this note.");
            },
        }
        assert(buf@ =~= old(buf)@ + error_text(*self, indent as nat));
    }
}

/// The offset and the error of each collected lexer error.
pub open spec fn offsets_and_errors<'a>(v: Seq<(Context<'a>, usize, LexError)>) -> Seq<(int, LexError)> {
    v.map_values(|e: (Context<'a>, usize, LexError)| (e.1 as int, e.2))
}

/// The first error, in order, that occurred at offset `off`.
pub open spec fn first_error_at(errors: Seq<(int, LexError)>, off: int) -> Option<LexError>
    decreases errors.len(),
{
    if errors.len() == 0 {
        None
    } else {
        match first_error_at(errors.drop_last(), off) {
            Some(e) => Some(e),
            None => if errors.last().0 == off {
                Some(errors.last().1)
            } else {
                None
            },
        }
    }
}

/// How many errors at offsets `lo..=hi` came after an earlier error at the same offset. Only
/// the first error at an offset is shown.
pub open spec fn shadowed_count(errors: Seq<(int, LexError)>, lo: int, hi: int) -> nat
    decreases errors.len(),
{
    if errors.len() == 0 {
        0
    } else {
        shadowed_count(errors.drop_last(), lo, hi) + if lo <= errors.last().0 <= hi
            && first_error_at(errors.drop_last(), errors.last().0) is Some {
            1nat
        } else {
            0nat
        }
    }
}

/// For a line of `len` characters from offset `start`, its newline included, the error shown
/// under each character: the first that occurred there.
pub open spec fn error_slots(errors: Seq<(int, LexError)>, start: int, len: nat) -> Seq<
    Option<LexError>,
> {
    Seq::new(len, |j: int| first_error_at(errors, start + j))
}

/// The pointer marks: on the first row of a pyramid every error gets an up arrow; below it the
/// row's own error gets a corner and the errors to its left get a vertical bar.
pub open spec fn pointer_mark(first: bool, is_target: bool) -> char {
    if first {
        '\u{25B2}'
    } else if is_target {
        '\u{2517}'
    } else {
        '\u{2503}'
    }
}

/// A row of the pyramid of errors under a line, from slot `p` on, for the error `target`: a
/// space under each character without an error, a mark under each with one, and after the
/// mark of the target a space and its message, indented for the characters before it.
pub open spec fn pointer_row(
    slots: Seq<Option<LexError>>,
    target: LexError,
    first: bool,
    p: int,
    indent: nat,
) -> Seq<char>
    decreases slots.len() - p,
{
    if p < 0 || p >= slots.len() {
        seq![]
    } else {
        match slots[p] {
            None => seq![' '] + pointer_row(slots, target, first, p + 1, indent + 1),
            Some(e) => if e == target {
                seq![pointer_mark(first, true), ' '] + error_text(target, indent + 2)
            } else {
                seq![pointer_mark(first, false)] + pointer_row(
                    slots,
                    target,
                    first,
                    p + 1,
                    indent + 1,
                )
            },
        }
    }
}

/// The rows of the pyramid for the slots before `j`, from the last error on the line to the
/// first, each prefixed with an error marker and ended with a newline.
pub open spec fn pointer_rows(slots: Seq<Option<LexError>>, j: int, first: bool) -> Seq<char>
    decreases j,
{
    if j <= 0 || j > slots.len() {
        seq![]
    } else {
        match slots[j - 1] {
            None => pointer_rows(slots, j - 1, first),
            Some(e) => "!  "@ + pointer_row(slots, e, first, 0, 3) + seq!['\n'] + pointer_rows(
                slots,
                j - 1,
                false,
            ),
        }
    }
}

/// The report from the line that starts at `start`: each line (a missing last newline added),
/// then the pyramid of its errors, then the indent of the next line.
pub open spec fn report_from(input: Seq<char>, errors: Seq<(int, LexError)>, start: int) -> Seq<
    char,
>
    decreases input.len() - start,
{
    if start < 0 || start >= input.len() {
        seq![]
    } else {
        match find_char(input, start, '\n') {
            Some(nl) => {
                proof {
                    lemma_find_char_bounds(input, start, '\n');
                }
                let slots = error_slots(errors, start, (nl - start + 1) as nat);
                input.subrange(start, nl + 1) + pointer_rows(slots, slots.len() as int, true)
                    + "   "@ + report_from(input, errors, nl + 1)
            },
            None => {
                let slots = error_slots(errors, start, (input.len() - start + 1) as nat);
                input.subrange(start, input.len() as int) + seq!['\n'] + pointer_rows(
                    slots,
                    slots.len() as int,
                    true,
                ) + "   "@
            },
        }
    }
}

/// The whole report for an input and its errors.
pub open spec fn error_report(input: Seq<char>, errors: Seq<(int, LexError)>) -> Seq<char> {
    "   "@ + report_from(input, errors, 0)
}

/// The last offset under which errors can be shown: the end of the input where a newline is
/// added after the last line, else the last character.
pub open spec fn shown_end(input: Seq<char>) -> int {
    if input.len() > 0 && input.last() != '\n' {
        input.len() as int
    } else {
        input.len() - 1
    }
}

proof fn lemma_shadowed_split(errors: Seq<(int, LexError)>, lo: int, mid: int, hi: int)
    requires
        lo <= mid + 1,
        mid <= hi,
    ensures
        shadowed_count(errors, lo, mid) + shadowed_count(errors, mid + 1, hi) == shadowed_count(
            errors,
            lo,
            hi,
        ),
    decreases errors.len(),
{
    if errors.len() > 0 {
        lemma_shadowed_split(errors.drop_last(), lo, mid, hi);
    }
}

proof fn lemma_shadowed_empty(errors: Seq<(int, LexError)>, lo: int, hi: int)
    requires
        hi < lo,
    ensures
        shadowed_count(errors, lo, hi) == 0,
    decreases errors.len(),
{
    if errors.len() > 0 {
        lemma_shadowed_empty(errors.drop_last(), lo, hi);
    }
}

proof fn lemma_shadowed_monotonic(errors: Seq<(int, LexError)>, lo: int, hi: int, hi2: int)
    requires
        hi <= hi2,
    ensures
        shadowed_count(errors, lo, hi) <= shadowed_count(errors, lo, hi2),
    decreases errors.len(),
{
    if errors.len() > 0 {
        lemma_shadowed_monotonic(errors.drop_last(), lo, hi, hi2);
    }
}

proof fn lemma_shadowed_at_most(errors: Seq<(int, LexError)>, lo: int, hi: int)
    ensures
        shadowed_count(errors, lo, hi) <= errors.len(),
    decreases errors.len(),
{
    if errors.len() > 0 {
        lemma_shadowed_at_most(errors.drop_last(), lo, hi);
    }
}

/// The error slots of the line `start..=end`, and how many of its errors are shadowed.
fn line_slots<'a>(errors: &Vec<(Context<'a>, usize, LexError)>, start: usize, end: usize) -> (r: (
    Vec<Option<LexError>>,
    usize,
))
    requires
        start <= end < usize::MAX,
    ensures
        r.0@ == error_slots(offsets_and_errors(errors@), start as int, (end - start + 1) as nat),
        r.1 == shadowed_count(offsets_and_errors(errors@), start as int, end as int),
{
    let ghost errs = offsets_and_errors(errors@);
    let len = end - start + 1;
    let mut slots: Vec<Option<LexError>> = Vec::new();
    let mut k: usize = 0;
    while k < len
        invariant
            k <= len,
            slots@.len() == k,
            forall|j: int| 0 <= j < k ==> slots@[j] is None,
        decreases len - k,
    {
        slots.push(None);
        k += 1;
    }
    let mut shadowed: usize = 0;
    let mut m: usize = 0;
    assert(errs.take(0) =~= Seq::<(int, LexError)>::empty());
    while m < errors.len()
        invariant
            m <= errors@.len(),
            len == end - start + 1,
            start <= end,
            errs == offsets_and_errors(errors@),
            slots@.len() == len,
            forall|j: int|
                0 <= j < len ==> #[trigger] slots@[j] == first_error_at(errs.take(m as int), start + j),
            shadowed == shadowed_count(errs.take(m as int), start as int, end as int),
            shadowed <= m,
        decreases errors@.len() - m,
    {
        let off = errors[m].1;
        let err = errors[m].2;
        let ghost before = errs.take(m as int);
        let ghost after = errs.take(m + 1);
        assert(after.drop_last() =~= before);
        assert(after.last() == (off as int, err));
        if start <= off && off <= end {
            let idx = off - start;
            match slots[idx] {
                None => {
                    slots.set(idx, Some(err));
                },
                Some(_) => {
                    shadowed += 1;
                },
            }
        }
        m += 1;
        assert forall|j: int| 0 <= j < len implies #[trigger] slots@[j] == first_error_at(
            after,
            start + j,
        ) by {
            assert(first_error_at(after, start + j) == match first_error_at(before, start + j) {
                Some(e) => Some(e),
                None => if after.last().0 == start + j {
                    Some(after.last().1)
                } else {
                    None
                },
            });
        }
    }
    assert(errs.take(errors@.len() as int) =~= errs);
    assert forall|j: int| 0 <= j < len implies #[trigger] slots@[j] == error_slots(
        errs,
        start as int,
        len as nat,
    )[j] by {}
    assert(slots@ =~= error_slots(errs, start as int, len as nat));
    (slots, shadowed)
}

/// Append one row of the pyramid of errors under a line.
fn push_pointer_row(buf: &mut String, slots: &Vec<Option<LexError>>, target: LexError, first: bool)
    requires
        slots@.len() + 5 <= usize::MAX,
    ensures
        final(buf)@ == old(buf)@ + pointer_row(slots@, target, first, 0, 3),
{
    let mut p: usize = 0;
    let mut indent: usize = 3;
    assert(old(buf)@ + pointer_row(slots@, target, first, 0, 3) =~= old(buf)@ + pointer_row(
        slots@,
        target,
        first,
        0,
        3,
    ));
    while p < slots.len()
        invariant
            p <= slots@.len(),
            slots@.len() + 5 <= usize::MAX,
            indent == p + 3,
            buf@ + pointer_row(slots@, target, first, p as int, indent as nat) == old(buf)@
                + pointer_row(slots@, target, first, 0, 3),
        decreases slots@.len() - p,
    {
        let ghost before = buf@;
        match slots[p] {
            None => {
                push_char(buf, ' ');
                assert(before + pointer_row(slots@, target, first, p as int, indent as nat) =~= buf@
                    + pointer_row(slots@, target, first, p + 1, (indent + 1) as nat));
            },
            Some(e) => {
                if e == target {
                    let mark = if first {
                        '\u{25B2}'
                    } else {
                        '\u{2517}'
                    };
                    push_char(buf, mark);
                    push_char(buf, ' ');
                    target.format(indent + 2, buf);
                    assert(before + pointer_row(slots@, target, first, p as int, indent as nat)
                        =~= buf@);
                    return;
                }
                let mark = if first {
                    '\u{25B2}'
                } else {
                    '\u{2503}'
                };
                push_char(buf, mark);
                assert(before + pointer_row(slots@, target, first, p as int, indent as nat) =~= buf@
                    + pointer_row(slots@, target, first, p + 1, (indent + 1) as nat));
            },
        }
        p += 1;
        indent += 1;
    }
    assert(buf@ + Seq::<char>::empty() =~= buf@);
}

/// Append the pyramid of errors under a line.
fn push_pointer_rows(buf: &mut String, slots: &Vec<Option<LexError>>)
    requires
        slots@.len() + 5 <= usize::MAX,
    ensures
        final(buf)@ == old(buf)@ + pointer_rows(slots@, slots@.len() as int, true),
{
    let mut j: usize = slots.len();
    let mut first = true;
    assert(old(buf)@ + pointer_rows(slots@, j as int, first) =~= old(buf)@ + pointer_rows(
        slots@,
        slots@.len() as int,
        true,
    ));
    while j > 0
        invariant
            j <= slots@.len(),
            slots@.len() + 5 <= usize::MAX,
            buf@ + pointer_rows(slots@, j as int, first) == old(buf)@ + pointer_rows(
                slots@,
                slots@.len() as int,
                true,
            ),
        decreases j,
    {
        let ghost before = buf@;
        let ghost first_before = first;
        match slots[j - 1] {
            None => {},
            Some(err) => {
                push_str(buf, "!  ");
                push_pointer_row(buf, slots, err, first);
                push_char(buf, '\n');
                first = false;
            },
        }
        assert(before + pointer_rows(slots@, j as int, first_before) =~= buf@
            + pointer_rows(slots@, j - 1, first));
        j -= 1;
    }
    assert(buf@ + Seq::<char>::empty() =~= buf@);
}

/// Append the characters `from..to` of a slice.
fn push_chars(buf: &mut String, cs: &[char], from: usize, to: usize)
    requires
        from <= to <= cs@.len(),
    ensures
        final(buf)@ == old(buf)@ + cs@.subrange(from as int, to as int),
{
    let mut k: usize = from;
    assert(old(buf)@ + cs@.subrange(from as int, from as int) =~= old(buf)@);
    while k < to
        invariant
            from <= k <= to <= cs@.len(),
            buf@ == old(buf)@ + cs@.subrange(from as int, k as int),
        decreases to - k,
    {
        push_char(buf, cs[k]);
        k += 1;
        assert(buf@ =~= old(buf)@ + cs@.subrange(from as int, k as int));
    }
}

/// Lay out an ABC input with its lexer errors: each line of the input, indented, and under it
/// a pyramid of the errors on that line, each pointing at its character. Returns the number
/// of errors, how many were not shown because an earlier error was at the same character, and
/// the report.
#[verifier::rlimit(40)]
pub fn format_error_message<'a>(input: &[char], all_errors: Vec<(Context<'a>, usize, LexError)>) -> (r: (
    usize,
    u32,
    String,
))
    requires
        input@.len() + 8 <= usize::MAX,
        shadowed_count(offsets_and_errors(all_errors@), 0, shown_end(input@)) <= u32::MAX,
    ensures
        r.0 == all_errors@.len(),
        r.1 == shadowed_count(offsets_and_errors(all_errors@), 0, shown_end(input@)),
        r.2@ == error_report(input@, offsets_and_errors(all_errors@)),
{
    let ghost errs = offsets_and_errors(all_errors@);
    let mut buf = String::new();
    push_str(&mut buf, "   ");
    let mut num_unshown: u32 = 0;
    let mut start: usize = 0;
    proof {
        lemma_shadowed_empty(errs, 0, -1);
    }
    while start < input.len()
        invariant
            start <= input@.len() + 1,
            input@.len() + 8 <= usize::MAX,
            errs == offsets_and_errors(all_errors@),
            shadowed_count(errs, 0, shown_end(input@)) <= u32::MAX,
            buf@ + report_from(input@, errs, start as int) == error_report(input@, errs),
            num_unshown == shadowed_count(errs, 0, start - 1),
            start - 1 <= shown_end(input@),
            start > 0 ==> (start - 1 == shown_end(input@) && start > input@.len()) || (start
                <= input@.len() && input@[start - 1] == '\n'),
        decreases input@.len() + 1 - start,
    {
        let mut nl: usize = start;
        while nl < input.len() && input[nl] != '\n'
            invariant
                start <= nl <= input@.len(),
                find_char(input@, nl as int, '\n') == find_char(input@, start as int, '\n'),
                forall|m: int| start <= m < nl ==> input@[m] != '\n',
            decreases input@.len() - nl,
        {
            nl += 1;
        }
        let ghost before = buf@;
        let end: usize;
        if nl < input.len() {
            push_chars(&mut buf, input, start, nl + 1);
            end = nl;
        } else {
            push_chars(&mut buf, input, start, input.len());
            push_char(&mut buf, '\n');
            end = input.len();
            assert(input@.last() != '\n');
        }
        let ghost middle = buf@;
        let (slots, shadowed) = line_slots(&all_errors, start, end);
        push_pointer_rows(&mut buf, &slots);
        push_str(&mut buf, "   ");
        proof {
            lemma_shadowed_split(errs, 0, start - 1, end as int);
            lemma_shadowed_monotonic(errs, 0, end as int, shown_end(input@));
            let spec_slots = error_slots(errs, start as int, (end - start + 1) as nat);
            assert(slots@ == spec_slots);
            if nl < input.len() {
                assert(find_char(input@, start as int, '\n') == Some(nl as int));
                assert(report_from(input@, errs, start as int) == input@.subrange(
                    start as int,
                    nl + 1,
                ) + pointer_rows(spec_slots, spec_slots.len() as int, true) + "   "@
                    + report_from(input@, errs, nl + 1));
                assert(before + report_from(input@, errs, start as int) =~= buf@ + report_from(
                    input@,
                    errs,
                    nl + 1,
                ));
            } else {
                assert(find_char(input@, start as int, '\n') is None);
                assert(report_from(input@, errs, start as int) == input@.subrange(
                    start as int,
                    input@.len() as int,
                ) + seq!['\n'] + pointer_rows(spec_slots, spec_slots.len() as int, true) + "   "@);
                assert(report_from(input@, errs, end + 1) == Seq::<char>::empty());
                assert(before + report_from(input@, errs, start as int) =~= buf@ + report_from(
                    input@,
                    errs,
                    end + 1,
                ));
            }
        }
        num_unshown = num_unshown + shadowed as u32;
        start = end + 1;
    }
    assert(report_from(input@, errs, start as int) == Seq::<char>::empty());
    assert(buf@ + Seq::<char>::empty() =~= buf@);
    (all_errors.len(), num_unshown, buf)
}

/// The errors that lexing an input yields, each with its offset, in order.
pub open spec fn lex_errors(s: Seq<char>) -> Seq<(int, LexError)> {
    errors_of(lex_run(s)).map_values(|e: (int, TuneSection, int, LexError)| (e.2, e.3))
}

/// Lex an ABC input and lay it out with its errors (see `format_error_message`).
pub fn format_error_message_from_abc(input: &[char]) -> (r: (usize, u32, String))
    requires
        input@.len() + 8 <= usize::MAX,
        shadowed_count(lex_errors(input@), 0, shown_end(input@)) <= u32::MAX,
    ensures
        r.0 == lex_errors(input@).len(),
        r.1 == shadowed_count(lex_errors(input@), 0, shown_end(input@)),
        r.2@ == error_report(input@, lex_errors(input@)),
{
    let all_errors = Lexer::new(input).collect_errors();
    proof {
        let mapped = all_errors@.map_values(
            |e: (Context, usize, LexError)| (e.0.i as int, e.0.tune_section, e.1 as int, e.2),
        );
        assert(mapped.len() == all_errors@.len());
        assert forall|k: int| 0 <= k < all_errors@.len() implies #[trigger] offsets_and_errors(
            all_errors@,
        )[k] == lex_errors(input@)[k] by {
            assert(mapped[k] == errors_of(lex_run(input@))[k]);
        }
        assert(offsets_and_errors(all_errors@) =~= lex_errors(input@));
    }
    format_error_message(input, all_errors)
}

} // verus!

