//! A tune as a hierarchical structure of sections of bars, with the entities for which
//! sequence matters (notes, changes of metadata) apart from those that span them (such as
//! phrase marks). So far only the prelude, the entities up to the key signature, is read.

use vstd::prelude::*;
use crate::abc_lexer::{Lexer, T, TextField, TokenView, token_views, tokens_of};
use crate::music::{Mode, Note, PitchClass};
use crate::tune_ast_three::{durations_fit, initial_note_length, tune_of};

verus! {

/// A tune as a hierarchy of sections.
#[derive(Debug)]
pub struct Tune<'a> {
    /// All the entities that fall outside of the tune structure, i.e. occur in the tune header.
    pub prelude: Vec<SequentialEntity>,
    /// The repeat structure stores the sequential entities.
    pub sections: Vec<Section>,
    /// All non-sequential entities live in an a parallel structure.
    pub non_sequential_entities: Vec<NonSequentialEntity<'a>>,
}

impl<'a> Tune<'a> {
    pub fn new() -> (r: Tune<'a>)
        ensures
            r.prelude@.len() == 0,
            r.sections@.len() == 0,
            r.non_sequential_entities@.len() == 0,
    {
        Tune { prelude: Vec::new(), sections: Vec::new(), non_sequential_entities: Vec::new() }
    }
}

/// A bar has a number of parts (voices), each a sequence of entities.
#[derive(Debug)]
pub struct Bar {
    sequences: Vec<Vec<SequentialEntity>>,
}

impl Bar {
    /// The number of parts of the bar.
    pub closed spec fn num_parts(&self) -> nat {
        self.sequences@.len()
    }

    pub fn new() -> (r: Bar)
        ensures
            r.num_parts() == 0,
    {
        Bar { sequences: Vec::new() }
    }
}

/// A section: its bars, and those of its n-time endings.
#[derive(Debug)]
pub struct Section {
    pub repeat: bool,
    pub main: Vec<Bar>,
    pub n_time_bars: Vec<Vec<Bar>>,
}

impl Section {
    pub fn new() -> (r: Section)
        ensures
            !r.repeat,
            r.main@.len() == 0,
            r.n_time_bars@.len() == 0,
    {
        Section { repeat: false, main: Vec::new(), n_time_bars: Vec::new() }
    }
}

/// Something for which sequence is important. This includes changes in metadata, which can
/// happen out of alignment with the bar structure.
#[derive(Debug)]
pub enum SequentialEntity {
    Note(Note),
    // Metadata
    Area(String),
    Book(String),
    Composer(String),
    Discography(String),
    Filename(String),
    Group(String),
    History(String),
    Information(String),
    Notes(String),
    Origin(String),
    Source(String),
    Title(String),
    Words(String),
    X(String),
    Transcription(String),
    Metre(u32, u32),
    KeySignature(PitchClass, Mode),
    GuitarChord,
}

/// Something that spans sequential entities.
#[derive(Debug)]
pub enum NonSequentialEntity<'a> {
    /// A phrase mark spans from one sequential entity to another.
    PhraseMark(&'a SequentialEntity, &'a SequentialEntity),
}

/// Where in a section bars go.
#[derive(Debug)]
pub enum SectionMode {
    Main,
    NTimeBar(u32),
}

/// A sequential entity as the token it comes from; a guitar chord comes from none.
pub open spec fn entity_token(e: SequentialEntity) -> Option<TokenView> {
    match e {
        SequentialEntity::Note(n) => Some(TokenView::Note(n)),
        SequentialEntity::Area(s) => Some(TokenView::Text(TextField::Area, s@)),
        SequentialEntity::Book(s) => Some(TokenView::Text(TextField::Book, s@)),
        SequentialEntity::Composer(s) => Some(TokenView::Text(TextField::Composer, s@)),
        SequentialEntity::Discography(s) => Some(TokenView::Text(TextField::Discography, s@)),
        SequentialEntity::Filename(s) => Some(TokenView::Text(TextField::Filename, s@)),
        SequentialEntity::Group(s) => Some(TokenView::Text(TextField::Group, s@)),
        SequentialEntity::History(s) => Some(TokenView::Text(TextField::History, s@)),
        SequentialEntity::Information(s) => Some(TokenView::Text(TextField::Information, s@)),
        SequentialEntity::Notes(s) => Some(TokenView::Text(TextField::Notes, s@)),
        SequentialEntity::Origin(s) => Some(TokenView::Text(TextField::Origin, s@)),
        SequentialEntity::Source(s) => Some(TokenView::Text(TextField::Source, s@)),
        SequentialEntity::Title(s) => Some(TokenView::Text(TextField::Title, s@)),
        SequentialEntity::Words(s) => Some(TokenView::Text(TextField::Words, s@)),
        SequentialEntity::X(s) => Some(TokenView::Text(TextField::X, s@)),
        SequentialEntity::Transcription(s) => Some(TokenView::Text(TextField::Transcription, s@)),
        SequentialEntity::Metre(n, d) => Some(TokenView::Metre(n, d)),
        SequentialEntity::KeySignature(p, m) => Some(TokenView::KeySignature(p, m)),
        SequentialEntity::GuitarChord => None,
    }
}

/// Whether a token becomes a sequential entity: notes, text fields other than the rhythm,
/// time and key signatures.
pub open spec fn makes_entity(t: TokenView) -> bool {
    match t {
        TokenView::Note(_) => true,
        TokenView::Text(f, _) => f != TextField::Rhythm,
        TokenView::Metre(_, _) => true,
        TokenView::KeySignature(_, _) => true,
        _ => false,
    }
}

/// The tokens that become sequential entities, in order.
pub open spec fn entity_tokens(ts: Seq<TokenView>) -> Seq<TokenView>
    decreases ts.len(),
{
    if ts.len() == 0 {
        seq![]
    } else {
        entity_tokens(ts.drop_last()) + if makes_entity(ts.last()) {
            seq![ts.last()]
        } else {
            seq![]
        }
    }
}

/// The entities as the tokens they come from.
pub open spec fn entity_views(es: Seq<SequentialEntity>) -> Seq<Option<TokenView>> {
    es.map_values(|e: SequentialEntity| entity_token(e))
}

/// Tokens, each as present.
pub open spec fn present(ts: Seq<TokenView>) -> Seq<Option<TokenView>> {
    ts.map_values(|t: TokenView| Some(t))
}

/// The sequential entity that a token becomes, if any.
fn to_entity(token: T) -> (r: Option<SequentialEntity>)
    ensures
        match r {
            Some(e) => makes_entity(token@) && entity_token(e) == Some(token@),
            None => !makes_entity(token@),
        },
{
    match token {
        T::Note(note) => Some(SequentialEntity::Note(note)),
        T::Area(value) => Some(SequentialEntity::Area(value)),
        T::Book(value) => Some(SequentialEntity::Book(value)),
        T::Composer(value) => Some(SequentialEntity::Composer(value)),
        T::Discography(value) => Some(SequentialEntity::Discography(value)),
        T::Filename(value) => Some(SequentialEntity::Filename(value)),
        T::Group(value) => Some(SequentialEntity::Group(value)),
        T::History(value) => Some(SequentialEntity::History(value)),
        T::Information(value) => Some(SequentialEntity::Information(value)),
        T::Notes(value) => Some(SequentialEntity::Notes(value)),
        T::Origin(value) => Some(SequentialEntity::Origin(value)),
        T::Source(value) => Some(SequentialEntity::Source(value)),
        T::Title(value) => Some(SequentialEntity::Title(value)),
        T::Words(value) => Some(SequentialEntity::Words(value)),
        T::X(value) => Some(SequentialEntity::X(value)),
        T::Transcription(value) => Some(SequentialEntity::Transcription(value)),
        T::Metre(numerator, denomenator) => Some(SequentialEntity::Metre(numerator, denomenator)),
        T::KeySignature(pitch_class, mode) => Some(SequentialEntity::KeySignature(pitch_class, mode)),
        // Bar structure is not read yet; rhythm fields, beam breaks and line ends make no entity.
        _ => None,
    }
}

/// Read from a lexer into a tune. The prelude holds the entities up to and including the first
/// key signature, notes with their durations resolved against the default note length in
/// force; without a key signature it is empty. Nothing after the prelude is kept yet.
pub fn read_from_lexer<'a>(lexer: Lexer<'a>) -> (r: Tune<'a>)
    requires
        durations_fit(tokens_of(lexer.remaining()), initial_note_length()),
    ensures
        entity_views(r.prelude@) == present(
            entity_tokens(tune_of(tokens_of(lexer.remaining())).prelude),
        ),
        r.sections@.len() == 0,
        r.non_sequential_entities@.len() == 0,
{
    let read = crate::tune_ast_three::read_from_lexer(lexer);
    let ghost ts = token_views(read.prelude@);
    let mut tune = Tune::new();
    assert(ts.take(0) =~= Seq::<TokenView>::empty());
    for token in it: read.prelude
        invariant
            ts == it.seq().map_values(|t: T| t@),
            entity_views(tune.prelude@) == present(entity_tokens(ts.take(it.index() as int))),
            tune.sections@.len() == 0,
            tune.non_sequential_entities@.len() == 0,
    {
        let ghost j = it.index() as int;
        let ghost before = tune.prelude@;
        let ghost t = token@;
        if let Some(entity) = to_entity(token) {
            tune.prelude.push(entity);
        }
        proof {
            assert(ts.take(j + 1).drop_last() =~= ts.take(j));
            assert(ts[j] == t);
            let prev = entity_tokens(ts.take(j));
            let added = if makes_entity(t) {
                seq![t]
            } else {
                seq![]
            };
            assert(entity_tokens(ts.take(j + 1)) == prev + added);
            assert(present(prev + added) =~= present(prev) + present(added));
            if makes_entity(t) {
                assert(entity_views(tune.prelude@) =~= entity_views(before).push(Some(t)));
                assert(present(added) =~= seq![Some(t)]);
            } else {
                assert(present(added) =~= Seq::<Option<TokenView>>::empty());
            }
            assert(entity_views(tune.prelude@) =~= present(entity_tokens(ts.take(j + 1))));
        }
    }
    assert(ts.take(ts.len() as int) =~= ts);
    tune
}

} // verus!
