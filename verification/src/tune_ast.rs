//! A tune's header fields and lexing errors, read from an ABC token stream.

use vstd::prelude::*;
use crate::abc_lexer::{LexError, LexResult, Lexer, Step, T, TextField, TokenView, errors_of, tokens_of};

verus! {

/// Vocabulary of header fields. These are similar but different to the various lexer tokens.
enum HeaderField {
    Area(String),
    Book(String),
    Composer(String),
    Discography(String),
    Filename(String),
    Group(String),
    History(String),
    Information(String),
    Notes(String),
    Origin(String),
    Rhythm(String),
    Source(String),
    Title(String),
    Words(String),
    X(String),
    Transcription(String),
    Metre(u32, u32),
}

/// A header field as the token it came from.
spec fn header_view(h: HeaderField) -> TokenView {
    match h {
        HeaderField::Area(s) => TokenView::Text(TextField::Area, s@),
        HeaderField::Book(s) => TokenView::Text(TextField::Book, s@),
        HeaderField::Composer(s) => TokenView::Text(TextField::Composer, s@),
        HeaderField::Discography(s) => TokenView::Text(TextField::Discography, s@),
        HeaderField::Filename(s) => TokenView::Text(TextField::Filename, s@),
        HeaderField::Group(s) => TokenView::Text(TextField::Group, s@),
        HeaderField::History(s) => TokenView::Text(TextField::History, s@),
        HeaderField::Information(s) => TokenView::Text(TextField::Information, s@),
        HeaderField::Notes(s) => TokenView::Text(TextField::Notes, s@),
        HeaderField::Origin(s) => TokenView::Text(TextField::Origin, s@),
        HeaderField::Rhythm(s) => TokenView::Text(TextField::Rhythm, s@),
        HeaderField::Source(s) => TokenView::Text(TextField::Source, s@),
        HeaderField::Title(s) => TokenView::Text(TextField::Title, s@),
        HeaderField::Words(s) => TokenView::Text(TextField::Words, s@),
        HeaderField::X(s) => TokenView::Text(TextField::X, s@),
        HeaderField::Transcription(s) => TokenView::Text(TextField::Transcription, s@),
        HeaderField::Metre(n, d) => TokenView::Metre(n, d),
    }
}

/// The header fields of a tune and the errors met in reading it, each with its offset.
pub struct TuneAst {
    headers: Vec<HeaderField>,
    errors: Vec<(usize, LexError)>,
}

/// A tune's header fields, as tokens, and its errors with their offsets.
pub struct TuneAstView {
    pub headers: Seq<TokenView>,
    pub errors: Seq<(int, LexError)>,
}

impl View for TuneAst {
    type V = TuneAstView;

    closed spec fn view(&self) -> TuneAstView {
        TuneAstView {
            headers: self.headers@.map_values(|h: HeaderField| header_view(h)),
            errors: self.errors@.map_values(|e: (usize, LexError)| (e.0 as int, e.1)),
        }
    }
}

/// Whether a token is a header field: a text field or a time signature.
pub open spec fn is_header(t: TokenView) -> bool {
    t is Text || t is Metre
}

/// The header fields among the tokens, in order.
pub open spec fn header_tokens(ts: Seq<TokenView>) -> Seq<TokenView>
    decreases ts.len(),
{
    if ts.len() == 0 {
        seq![]
    } else {
        (if is_header(ts[0]) {
            seq![ts[0]]
        } else {
            seq![]
        }) + header_tokens(ts.drop_first())
    }
}

/// The errors of lexing steps, each with the offset where it happened.
pub open spec fn step_errors(steps: Seq<Step>) -> Seq<(int, LexError)> {
    errors_of(steps).map_values(|e: (int, crate::abc_lexer::TuneSection, int, LexError)| (e.2, e.3))
}

proof fn lemma_header_tokens_concat(a: Seq<TokenView>, b: Seq<TokenView>)
    ensures
        header_tokens(a + b) == header_tokens(a) + header_tokens(b),
    decreases a.len(),
{
    if a.len() == 0 {
        assert(a + b =~= b);
        assert(header_tokens(a) + header_tokens(b) =~= header_tokens(b));
    } else {
        assert((a + b).drop_first() =~= a.drop_first() + b);
        lemma_header_tokens_concat(a.drop_first(), b);
        assert(header_tokens(a + b) =~= header_tokens(a) + header_tokens(b));
    }
}

impl TuneAst {
    pub fn new() -> (r: TuneAst)
        ensures
            r@.headers.len() == 0,
            r@.errors.len() == 0,
    {
        TuneAst { headers: Vec::new(), errors: Vec::new() }
    }

    fn add_header(&mut self, header_field: HeaderField)
        ensures
            final(self)@.headers == old(self)@.headers.push(header_view(header_field)),
            final(self)@.errors == old(self)@.errors,
    {
        self.headers.push(header_field);
        assert(self@.headers =~= old(self)@.headers.push(header_view(header_field)));
        assert(self@.errors =~= old(self)@.errors);
    }

    fn add_error(&mut self, index: usize, error: LexError)
        ensures
            final(self)@.headers == old(self)@.headers,
            final(self)@.errors == old(self)@.errors.push((index as int, error)),
    {
        self.errors.push((index, error));
        assert(self@.headers =~= old(self)@.headers);
        assert(self@.errors =~= old(self)@.errors.push((index as int, error)));
    }

    /// The number of errors met.
    pub fn num_errors(&self) -> (r: usize)
        ensures
            r == self@.errors.len(),
    {
        self.errors.len()
    }

    /// Record a token if it is a header field.
    fn add_token(&mut self, token: T)
        ensures
            final(self)@.headers == old(self)@.headers + header_tokens(seq![token@]),
            final(self)@.errors == old(self)@.errors,
    {
        let ghost t = token@;
        proof {
            assert(seq![t].drop_first() =~= Seq::<TokenView>::empty());
            assert(header_tokens(seq![t].drop_first()) == Seq::<TokenView>::empty());
            assert(header_tokens(seq![t]) =~= if is_header(t) {
                seq![t]
            } else {
                seq![]
            });
        }
        match token {
            T::Area(value) => self.add_header(HeaderField::Area(value)),
            T::Book(value) => self.add_header(HeaderField::Book(value)),
            T::Composer(value) => self.add_header(HeaderField::Composer(value)),
            T::Discography(value) => self.add_header(HeaderField::Discography(value)),
            T::Filename(value) => self.add_header(HeaderField::Filename(value)),
            T::Group(value) => self.add_header(HeaderField::Group(value)),
            T::History(value) => self.add_header(HeaderField::History(value)),
            T::Information(value) => self.add_header(HeaderField::Information(value)),
            T::Notes(value) => self.add_header(HeaderField::Notes(value)),
            T::Origin(value) => self.add_header(HeaderField::Origin(value)),
            T::Rhythm(value) => self.add_header(HeaderField::Rhythm(value)),
            T::Source(value) => self.add_header(HeaderField::Source(value)),
            T::Title(value) => self.add_header(HeaderField::Title(value)),
            T::Words(value) => self.add_header(HeaderField::Words(value)),
            T::X(value) => self.add_header(HeaderField::X(value)),
            T::Transcription(value) => self.add_header(HeaderField::Transcription(value)),
            T::Metre(numerator, denomenator) => {
                self.add_header(HeaderField::Metre(numerator, denomenator))
            },
            // Other tokens carry no header information.
            _ => {},
        }
        assert(self@.headers =~= old(self)@.headers + header_tokens(seq![t]));
    }
}

/// Read from a lexer into the AST: each header field among the tokens, and each error with
/// the offset where it happened. The contexts are not kept, so the AST is not tied to its
/// source.
pub fn read_from_lexer(lexer: Lexer, ast: &mut TuneAst)
    ensures
        final(ast)@.headers == old(ast)@.headers + header_tokens(tokens_of(lexer.remaining())),
        final(ast)@.errors == old(ast)@.errors + step_errors(lexer.remaining()),
{
    let ghost all = lexer.remaining();
    let mut source = lexer;
    loop
        invariant
            all == lexer.remaining(),
            ast@.headers + header_tokens(tokens_of(source.remaining())) == old(ast)@.headers
                + header_tokens(tokens_of(all)),
            ast@.errors + step_errors(source.remaining()) == old(ast)@.errors + step_errors(all),
        decreases source.remaining().len(),
    {
        let ghost before = source.remaining();
        let ghost headers_before = ast@.headers;
        let ghost errors_before = ast@.errors;
        match source.next() {
            None => {
                assert(tokens_of(before) =~= Seq::<TokenView>::empty());
                assert(header_tokens(tokens_of(before)) =~= Seq::<TokenView>::empty());
                assert(errors_of(before) =~= Seq::<(int, crate::abc_lexer::TuneSection, int, LexError)>::empty());
                assert(step_errors(before) =~= Seq::<(int, LexError)>::empty());
                assert(ast@.headers + Seq::<TokenView>::empty() =~= ast@.headers);
                assert(ast@.errors + Seq::<(int, LexError)>::empty() =~= ast@.errors);
                return ;
            },
            // On error keep only the offset: the context would tie the AST to its source.
            Some(LexResult::Error(ctx, offset, error)) => {
                ast.add_error(offset, error);
                proof {
                    let rest = source.remaining();
                    assert(before.drop_first() =~= rest);
                    assert(tokens_of(before) =~= tokens_of(rest));
                    assert(step_errors(before) =~= seq![(offset as int, error)] + step_errors(rest));
                    assert(ast@.errors + step_errors(rest) =~= errors_before + step_errors(before));
                }
            },
            Some(LexResult::T(ctx, tokens)) => {
                let ghost tv = crate::abc_lexer::token_views(tokens@);
                let ghost rest = source.remaining();
                proof {
                    assert(before.drop_first() =~= rest);
                    assert(tokens_of(before) == tv + tokens_of(rest));
                    assert(step_errors(before) =~= step_errors(rest));
                    lemma_header_tokens_concat(tv, tokens_of(rest));
                    assert(tv.take(0) =~= Seq::<TokenView>::empty());
                    assert(headers_before + header_tokens(tv.take(0)) =~= headers_before);
                }
                for token in it: tokens
                    invariant
                        tv == it.seq().map_values(|t: T| t@),
                        ast@.headers == headers_before + header_tokens(tv.take(it.index() as int)),
                        ast@.errors == errors_before,
                {
                    let ghost j = it.index() as int;
                    ast.add_token(token);
                    proof {
                        assert(tv.take(j + 1) =~= tv.take(j) + seq![token@]);
                        lemma_header_tokens_concat(tv.take(j), seq![token@]);
                        assert(ast@.headers =~= headers_before + header_tokens(tv.take(j + 1)));
                    }
                }
                proof {
                    assert(tv.take(tv.len() as int) =~= tv);
                    assert(ast@.headers + header_tokens(tokens_of(rest)) =~= headers_before
                        + header_tokens(tokens_of(before)));
                }
            },
            Some(LexResult::Terminal) => {},
        }
    }
}

} // verus!
