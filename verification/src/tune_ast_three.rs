//! A tune as its prelude, the header fields up to the key signature, and its voices, each a
//! sequence of tokens whose note durations are resolved against the default note length.

use vstd::prelude::*;
use crate::abc_lexer::{Lexer, T, TokenView, token_views, tokens_of};
use crate::music::{FractionalDuration, Note, product, product_fits, reduced};

verus! {

/// A tune read from ABC tokens.
#[derive(Debug)]
pub struct Tune {
    /// All the entities that fall outside of the tune structure, i.e. occur in the tune header.
    pub prelude: Vec<T>,
    pub voices: Vec<Vec<T>>,
}

/// A tune as mathematical values.
#[verifier::ext_equal]
pub struct TuneView {
    pub prelude: Seq<TokenView>,
    pub voices: Seq<Seq<TokenView>>,
}

impl View for Tune {
    type V = TuneView;

    open spec fn view(&self) -> TuneView {
        TuneView {
            prelude: token_views(self.prelude@),
            voices: self.voices@.map_values(|v: Vec<T>| token_views(v@)),
        }
    }
}

/// The default note length before any `L:` field.
pub open spec fn initial_note_length() -> FractionalDuration {
    FractionalDuration(1, 4)
}

/// The tokens with each note's duration multiplied by the default note length in force, and
/// the default note length fields themselves dropped.
pub open spec fn resolve_tokens(ts: Seq<TokenView>, note_length: FractionalDuration) -> Seq<
    TokenView,
>
    decreases ts.len(),
{
    if ts.len() == 0 {
        seq![]
    } else {
        match ts[0] {
            TokenView::DefaultNoteLength(f) => resolve_tokens(ts.drop_first(), f),
            TokenView::Note(n) => seq![TokenView::Note(Note(n.0, reduced(product(n.1, note_length))))]
                + resolve_tokens(ts.drop_first(), note_length),
            t => seq![t] + resolve_tokens(ts.drop_first(), note_length),
        }
    }
}

/// Every note's duration can be multiplied by the default note length in force without
/// overflow.
pub open spec fn durations_fit(ts: Seq<TokenView>, note_length: FractionalDuration) -> bool
    decreases ts.len(),
{
    if ts.len() == 0 {
        true
    } else {
        match ts[0] {
            TokenView::DefaultNoteLength(f) => durations_fit(ts.drop_first(), f),
            TokenView::Note(n) => product_fits(n.1, note_length) && durations_fit(
                ts.drop_first(),
                note_length,
            ),
            _ => durations_fit(ts.drop_first(), note_length),
        }
    }
}

/// The index of the first key signature.
pub open spec fn first_key_signature(ts: Seq<TokenView>) -> Option<int>
    decreases ts.len(),
{
    if ts.len() == 0 {
        None
    } else if ts[0] is KeySignature {
        Some(0)
    } else {
        match first_key_signature(ts.drop_first()) {
            Some(k) => Some(k + 1),
            None => None,
        }
    }
}

/// The tune read from tokens: the resolved tokens up to and including the first key signature
/// are the prelude and the rest is the one voice. Without a key signature the prelude is empty.
pub open spec fn tune_of(ts: Seq<TokenView>) -> TuneView {
    let r = resolve_tokens(ts, initial_note_length());
    match first_key_signature(r) {
        Some(k) => TuneView { prelude: r.take(k + 1), voices: seq![r.skip(k + 1)] },
        None => TuneView { prelude: seq![], voices: seq![r] },
    }
}

impl Tune {
    pub fn new() -> (r: Tune)
        ensures
            r.prelude@.len() == 0,
            r.voices@.len() == 0,
    {
        Tune { prelude: Vec::new(), voices: Vec::new() }
    }
}

proof fn lemma_first_key_signature_concat(a: Seq<TokenView>, b: Seq<TokenView>)
    ensures
        first_key_signature(a + b) == match first_key_signature(a) {
            Some(k) => Some(k),
            None => match first_key_signature(b) {
                Some(k) => Some(k + a.len()),
                None => None,
            },
        },
    decreases a.len(),
{
    if a.len() > 0 {
        assert((a + b).drop_first() =~= a.drop_first() + b);
        lemma_first_key_signature_concat(a.drop_first(), b);
    } else {
        assert(a + b =~= b);
    }
}

/// Read the tokens of a lexer into a tune: the tokens up to and including the first key
/// signature form the prelude, the rest the one voice. Each note's duration is resolved
/// against the default note length in force, which `L:` fields change; they produce no entity.
pub fn read_from_lexer(lexer: Lexer) -> (r: Tune)
    requires
        durations_fit(tokens_of(lexer.remaining()), initial_note_length()),
    ensures
        r@ == tune_of(tokens_of(lexer.remaining())),
{
    let ghost ts = tokens_of(lexer.remaining());
    let ghost resolved = resolve_tokens(ts, initial_note_length());
    let tokens = lexer.collect_tokens();
    let ghost all = tokens@;
    let mut tune = Tune::new();
    let mut finished_prelude = false;
    let mut current_sequence: Vec<T> = Vec::new();
    // The base note length. This can change during the tune.
    let mut note_length = FractionalDuration(1, 4);
    assert(ts.skip(0) =~= ts);
    for token in it: tokens
        invariant
            it.seq() == all,
            token_views(all) == ts,
            resolved == resolve_tokens(ts, initial_note_length()),
            durations_fit(ts.skip(it.index() as int), note_length),
            (if finished_prelude {
                token_views(tune.prelude@) + token_views(current_sequence@)
            } else {
                token_views(current_sequence@)
            }) + resolve_tokens(ts.skip(it.index() as int), note_length) == resolved,
            !finished_prelude ==> tune.prelude@.len() == 0 && first_key_signature(
                token_views(current_sequence@),
            ) is None,
            finished_prelude ==> token_views(tune.prelude@).len() > 0 && first_key_signature(
                token_views(tune.prelude@),
            ) == Some(tune.prelude@.len() - 1),
            tune.voices@.len() == 0,
    {
        let ghost m = it.index() as int;
        let ghost rest = ts.skip(m);
        let ghost before = if finished_prelude {
            token_views(tune.prelude@) + token_views(current_sequence@)
        } else {
            token_views(current_sequence@)
        };
        let ghost old_current = token_views(current_sequence@);
        let ghost old_length = note_length;
        assert(rest[0] == token@);
        assert(rest.drop_first() =~= ts.skip(m + 1));
        match token {
            T::KeySignature(pitch_class, mode) => {
                current_sequence.push(T::KeySignature(pitch_class, mode));
                proof {
                    assert(token_views(current_sequence@) =~= old_current + seq![token@]);
                    lemma_first_key_signature_concat(old_current, seq![token@]);
                }
                // K marks the end of the prelude.
                if !finished_prelude {
                    tune.prelude = current_sequence;
                    finished_prelude = true;
                    current_sequence = Vec::new();
                }
            },
            // The "L:" token doesn't produce an entity, it just updates the running status.
            T::DefaultNoteLength(new_note_length) => {
                note_length = new_note_length;
            },
            T::Note(note) => {
                current_sequence.push(T::Note(note.resolve_duration(note_length)));
            },
            token => {
                current_sequence.push(token);
            },
        }
        proof {
            let after = if finished_prelude {
                token_views(tune.prelude@) + token_views(current_sequence@)
            } else {
                token_views(current_sequence@)
            };
            assert(after + resolve_tokens(ts.skip(m + 1), note_length) =~= before
                + resolve_tokens(rest, old_length));
            if !finished_prelude {
                let added = token_views(current_sequence@).subrange(
                    old_current.len() as int,
                    token_views(current_sequence@).len() as int,
                );
                assert(token_views(current_sequence@) =~= old_current + added);
                if added.len() > 0 {
                    assert(added.drop_first() =~= Seq::<TokenView>::empty());
                    assert(first_key_signature(added.drop_first()) is None);
                }
                lemma_first_key_signature_concat(old_current, added);
            }
        }
    }
    proof {
        assert(ts.skip(ts.len() as int) =~= Seq::<TokenView>::empty());
    }
    let ghost current = token_views(current_sequence@);
    let ghost prelude = token_views(tune.prelude@);
    tune.voices.push(current_sequence);
    proof {
        if finished_prelude {
            assert(resolved =~= prelude + current);
            lemma_first_key_signature_concat(prelude, current);
            assert(resolved.take(prelude.len() as int) =~= prelude);
            assert(resolved.skip(prelude.len() as int) =~= current);
            assert(tune@.prelude =~= tune_of(ts).prelude);
            assert(tune@.voices =~= tune_of(ts).voices);
        } else {
            assert(resolved =~= current);
            assert(tune@.prelude =~= tune_of(ts).prelude);
            assert(tune@.voices =~= tune_of(ts).voices);
        }
        assert(tune@ =~= tune_of(ts));
    }
    tune
}

} // verus!
