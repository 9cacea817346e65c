//! Typesetting of tunes onto staves. Which glyphs go on which stave is decided here; laying
//! them out and drawing them works in floating point and lives with the program.

use vstd::prelude::*;
use crate::abc_lexer::{T, TokenView, token_views};
use crate::music::{
    Barline, Clef, ClefShape, DiatonicPitchClass, DurationClass, DurationGlyph, Pitch, PitchClass,
    degree_of, diatonic_position, glyph_run, glyph_run_ok,
};
use crate::tune_ast_three::Tune;

verus! {

/// A typesetter.
pub struct Typesetting {}

impl Typesetting {
    pub fn new() -> (r: Typesetting)
        ensures
            r == (Typesetting {}),
    {
        Typesetting {}
    }
}

/// What is drawn for an entity on a stave.
#[derive(Debug, PartialEq, Eq, Structural, Clone, Copy)]
pub enum Glyph {
    SingleBar,
    DoubleBar,
    EndBar,
    OpenRepeat,
    CloseRepeat,
    /// Note head of (position-on-stave). If the duration has no glyph, there is none.
    NoteHead(i32, Option<DurationGlyph>),
    Clef(Clef),
    BeamBreak,
}

impl Glyph {
    /// Whether the glyph belongs in the front matter of a stave: the clef, and any kind of
    /// barline (even weird things that shouldn't be there, like a close repeat).
    pub fn is_front_matter(&self) -> (r: bool)
        ensures
            r == !(*self is NoteHead || *self is BeamBreak),
    {
        match self {
            Glyph::Clef(_) => true,
            Glyph::SingleBar | Glyph::DoubleBar | Glyph::EndBar | Glyph::OpenRepeat
            | Glyph::CloseRepeat => true,
            Glyph::NoteHead(_, _) => false,
            Glyph::BeamBreak => false,
        }
    }

    /// Whether the glyph belongs in the end matter of a stave: any kind of barline.
    pub fn is_end_matter(&self) -> (r: bool)
        ensures
            r == (*self is SingleBar || *self is DoubleBar || *self is EndBar
                || *self is OpenRepeat || *self is CloseRepeat),
    {
        match self {
            Glyph::SingleBar | Glyph::DoubleBar | Glyph::EndBar | Glyph::OpenRepeat
            | Glyph::CloseRepeat => true,
            _ => false,
        }
    }
}

/// The clef of every stave.
pub open spec fn treble_clef() -> Clef {
    Clef {
        shape: ClefShape::Treble,
        centre: 2,
        pitch: Pitch {
            pitch_class: PitchClass { diatonic_pitch_class: DiatonicPitchClass::G, accidental: None },
            octave: 0,
        },
    }
}

/// The glyph of a barline: a close repeat where it repeats what comes before, else an open
/// repeat where it repeats what follows, else a double or a single bar.
pub open spec fn barline_glyph(b: Barline) -> Glyph {
    if b.repeat_before {
        Glyph::CloseRepeat
    } else if b.repeat_after {
        Glyph::OpenRepeat
    } else if !b.single {
        Glyph::DoubleBar
    } else {
        Glyph::SingleBar
    }
}

/// The position on the stave of a pitch: its diatonic distance from the clef's pitch, from
/// the clef's centre.
pub open spec fn stave_position(clef: Clef, p: Pitch) -> int {
    diatonic_position(p) - diatonic_position(clef.pitch) + clef.centre
}

/// Notes that can be placed on a stave and given a glyph without overflow.
pub open spec fn note_fits_stave(t: TokenView) -> bool {
    match t {
        TokenView::Note(n) => -4000 <= n.0.octave <= 4000 && glyph_run_ok(n.1, 0),
        _ => true,
    }
}

/// The staves of a sequence of tokens: each starts with a treble clef and a new line starts a
/// new one; barlines, notes and beam breaks each add a glyph to the current stave, and
/// other tokens add nothing.
pub open spec fn staves_of(ts: Seq<TokenView>) -> Seq<Seq<Glyph>>
    decreases ts.len(),
{
    if ts.len() == 0 {
        seq![seq![Glyph::Clef(treble_clef())]]
    } else {
        let s = staves_of(ts.drop_last());
        let add_glyph = |g: Glyph| s.update(s.len() - 1, s.last().push(g));
        match ts.last() {
            TokenView::Newline => s.push(seq![Glyph::Clef(treble_clef())]),
            TokenView::Barline(b) => add_glyph(barline_glyph(b)),
            TokenView::Note(n) => add_glyph(
                Glyph::NoteHead(
                    stave_position(treble_clef(), n.0) as i32,
                    glyph_run(n.1, 0, None),
                ),
            ),
            TokenView::BeamBreak => add_glyph(Glyph::BeamBreak),
            _ => s,
        }
    }
}

/// The tokens of the voices, voice after voice.
pub open spec fn voice_tokens(vs: Seq<Seq<TokenView>>) -> Seq<TokenView>
    decreases vs.len(),
{
    if vs.len() == 0 {
        seq![]
    } else {
        voice_tokens(vs.drop_last()) + vs.last()
    }
}

proof fn lemma_staves_nonempty(ts: Seq<TokenView>)
    ensures
        staves_of(ts).len() >= 1,
    decreases ts.len(),
{
    if ts.len() > 0 {
        lemma_staves_nonempty(ts.drop_last());
    }
}

/// The glyph of a barline.
fn glyph_of_barline(b: Barline) -> (r: Glyph)
    ensures
        r == barline_glyph(b),
{
    if b.repeat_before {
        Glyph::CloseRepeat
    } else if b.repeat_after {
        Glyph::OpenRepeat
    } else if !b.single {
        Glyph::DoubleBar
    } else {
        Glyph::SingleBar
    }
}

/// The glyphs of each stave of a tune, from its voices: each stave starts with a treble clef,
/// and a new line starts a new stave. (Key and time signatures are not drawn yet.)
pub fn stave_glyphs(ast: &Tune) -> (r: Vec<Vec<Glyph>>)
    requires
        forall|k: int|
            0 <= k < voice_tokens(ast@.voices).len() ==> note_fits_stave(
                #[trigger] voice_tokens(ast@.voices)[k],
            ),
    ensures
        r@.map_values(|s: Vec<Glyph>| s@) == staves_of(voice_tokens(ast@.voices)),
{
    let ghost vs = ast@.voices;
    let ghost all = voice_tokens(vs);
    let current_clef = Clef::treble();
    let mut staves: Vec<Vec<Glyph>> = Vec::new();
    let mut current_stave: Vec<Glyph> = Vec::new();
    current_stave.push(Glyph::Clef(current_clef));
    assert(staves@.map_values(|s: Vec<Glyph>| s@).push(current_stave@) =~= staves_of(
        voice_tokens(vs.take(0)),
    ));
    let mut i: usize = 0;
    while i < ast.voices.len()
        invariant
            vs == ast@.voices,
            all == voice_tokens(vs),
            forall|k: int| 0 <= k < all.len() ==> note_fits_stave(#[trigger] all[k]),
            current_clef == treble_clef(),
            i <= vs.len(),
            staves@.map_values(|s: Vec<Glyph>| s@).push(current_stave@) == staves_of(
                voice_tokens(vs.take(i as int)),
            ),
        decreases vs.len() - i,
    {
        let voice = &ast.voices[i];
        let ghost done = voice_tokens(vs.take(i as int));
        let ghost v = vs[i as int];
        proof {
            assert(vs.take(i + 1).drop_last() =~= vs.take(i as int));
            assert(voice_tokens(vs.take(i + 1)) == done + v);
            lemma_voice_tokens_prefix(vs, i + 1);
            assert(v == token_views(voice@));
        }
        let mut j: usize = 0;
        assert(done + v.take(0) =~= done);
        while j < voice.len()
            invariant
                v == token_views(voice@),
                done + v == voice_tokens(vs.take(i + 1)),
                voice_tokens(vs.take(i + 1)).len() <= all.len(),
                forall|k: int| 0 <= k < voice_tokens(vs.take(i + 1)).len() ==> voice_tokens(
                    vs.take(i + 1),
                )[k] == all[k],
                forall|k: int| 0 <= k < all.len() ==> note_fits_stave(#[trigger] all[k]),
                current_clef == treble_clef(),
                j <= v.len(),
                staves@.map_values(|s: Vec<Glyph>| s@).push(current_stave@) == staves_of(
                    done + v.take(j as int),
                ),
            decreases v.len() - j,
        {
            let ghost prefix = done + v.take(j as int);
            let ghost t = v[j as int];
            proof {
                assert((done + v.take(j + 1)).drop_last() =~= prefix);
                assert((done + v.take(j + 1)).last() == t);
                lemma_staves_nonempty(prefix);
                assert(note_fits_stave(all[done.len() + j]));
                assert(all[done.len() + j] == (done + v)[done.len() + j]);
                assert((done + v)[done.len() + j] == t);
            }
            let ghost before = staves@.map_values(|s: Vec<Glyph>| s@).push(current_stave@);
            match &voice[j] {
                T::Newline => {
                    let finished = current_stave;
                    staves.push(finished);
                    current_stave = Vec::new();
                    current_stave.push(Glyph::Clef(current_clef));
                    assert(staves@.map_values(|s: Vec<Glyph>| s@).push(current_stave@) =~= before.push(
                        seq![Glyph::Clef(treble_clef())],
                    ));
                },
                T::Barline(barline) => {
                    current_stave.push(glyph_of_barline(*barline));
                    assert(staves@.map_values(|s: Vec<Glyph>| s@).push(current_stave@) =~= before.update(
                        before.len() - 1,
                        before.last().push(barline_glyph(*barline)),
                    ));
                },
                T::Note(note) => {
                    let pitch = note.0;
                    let clef_interval = current_clef.pitch.interval_to(pitch);
                    let position = clef_interval.pitch_classes + current_clef.centre;
                    let glyph = note.1.to_glyph();
                    current_stave.push(Glyph::NoteHead(position, glyph));
                    assert(staves@.map_values(|s: Vec<Glyph>| s@).push(current_stave@) =~= before.update(
                        before.len() - 1,
                        before.last().push(Glyph::NoteHead(position, glyph)),
                    ));
                },
                // Beam break manifests as a zero-width entity. Just like in ABC.
                T::BeamBreak => {
                    current_stave.push(Glyph::BeamBreak);
                    assert(staves@.map_values(|s: Vec<Glyph>| s@).push(current_stave@) =~= before.update(
                        before.len() - 1,
                        before.last().push(Glyph::BeamBreak),
                    ));
                },
                _ => {},
            }
            j += 1;
        }
        assert(v.take(v.len() as int) =~= v);
        i += 1;
    }
    assert(vs.take(vs.len() as int) =~= vs);
    let ghost before = staves@.map_values(|s: Vec<Glyph>| s@);
    staves.push(current_stave);
    assert(staves@.map_values(|s: Vec<Glyph>| s@) =~= before.push(current_stave@));
    staves
}

proof fn lemma_voice_tokens_prefix(vs: Seq<Seq<TokenView>>, n: int)
    requires
        0 <= n <= vs.len(),
    ensures
        voice_tokens(vs.take(n)).len() <= voice_tokens(vs).len(),
        forall|k: int| 0 <= k < voice_tokens(vs.take(n)).len() ==> voice_tokens(vs.take(n))[k]
            == voice_tokens(vs)[k],
    decreases vs.len() - n,
{
    if n < vs.len() {
        lemma_voice_tokens_prefix(vs, n + 1);
        assert(vs.take(n + 1).drop_last() =~= vs.take(n));
        assert(voice_tokens(vs.take(n + 1)) == voice_tokens(vs.take(n)) + vs.take(n + 1).last());
    } else {
        assert(vs.take(n) =~= vs);
    }
}

} // verus!
