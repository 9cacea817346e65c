//! Melodic representations of a tune: its sequence of pitches and of intervals between them.

use vstd::prelude::*;
use crate::abc_lexer::{T, TokenView};
use crate::music::{midi_of, midi_in_range};
use crate::tune_ast_three::Tune;

verus! {

/// A monophonic sequence of pitches, as MIDI note numbers.
pub struct PitchSequence {
    pub pitches: Vec<u8>,
}

/// A sequence of intervals between consecutive pitches, in semitones.
pub struct IntervalSequence {
    pub intervals: Vec<i16>,
}

/// The MIDI note numbers of the notes among the tokens, in order.
pub open spec fn note_pitches(ts: Seq<TokenView>) -> Seq<u8>
    decreases ts.len(),
{
    if ts.len() == 0 {
        seq![]
    } else {
        note_pitches(ts.drop_last()) + match ts.last() {
            TokenView::Note(n) => seq![midi_of(n.0) as u8],
            _ => seq![],
        }
    }
}

/// The MIDI note numbers of the notes of each voice, voice after voice.
pub open spec fn voice_pitches(vs: Seq<Seq<TokenView>>) -> Seq<u8>
    decreases vs.len(),
{
    if vs.len() == 0 {
        seq![]
    } else {
        voice_pitches(vs.drop_last()) + note_pitches(vs.last())
    }
}

/// Every note among the tokens has a MIDI note number that fits a byte.
pub open spec fn notes_in_midi_range(ts: Seq<TokenView>) -> bool {
    forall|k: int|
        0 <= k < ts.len() ==> (#[trigger] ts[k] matches TokenView::Note(n) ==> midi_in_range(n.0))
}

/// Every note of every voice has a MIDI note number that fits a byte.
pub open spec fn voices_in_midi_range(vs: Seq<Seq<TokenView>>) -> bool {
    forall|k: int| 0 <= k < vs.len() ==> notes_in_midi_range(#[trigger] vs[k])
}

/// The intervals between consecutive pitches.
pub open spec fn intervals_of(pitches: Seq<u8>) -> Seq<i16> {
    if pitches.len() == 0 {
        seq![]
    } else {
        Seq::new(
            (pitches.len() - 1) as nat,
            |k: int| (pitches[k + 1] as int - pitches[k] as int) as i16,
        )
    }
}

impl PitchSequence {
    /// Convert to a monophonic sequence of pitches as MIDI pitch: the notes of each voice in
    /// turn. Repeat bars, key signature and mode are not applied.
    pub fn from_ast(ast: &Tune) -> (r: PitchSequence)
        requires
            voices_in_midi_range(ast@.voices),
        ensures
            r.pitches@ == voice_pitches(ast@.voices),
    {
        let ghost vs = ast@.voices;
        let mut pitches: Vec<u8> = Vec::new();
        let mut i: usize = 0;
        while i < ast.voices.len()
            invariant
                vs == ast@.voices,
                voices_in_midi_range(vs),
                i <= vs.len(),
                pitches@ == voice_pitches(vs.take(i as int)),
            decreases vs.len() - i,
        {
            let voice = &ast.voices[i];
            let ghost v = vs[i as int];
            assert(v == ast.voices@[i as int]@.map_values(|t: T| t@));
            assert(notes_in_midi_range(v));
            let ghost before = pitches@;
            let mut j: usize = 0;
            assert(v.take(0) =~= Seq::<TokenView>::empty());
            while j < voice.len()
                invariant
                    v == voice@.map_values(|t: T| t@),
                    notes_in_midi_range(v),
                    j <= voice@.len(),
                    pitches@ == before + note_pitches(v.take(j as int)),
                decreases voice@.len() - j,
            {
                assert(v.take(j + 1).drop_last() =~= v.take(j as int));
                assert(v[j as int] == voice@[j as int]@);
                match &voice[j] {
                    T::Note(note) => {
                        assert(v[j as int] matches TokenView::Note(n) && n == *note);
                        pitches.push(note.0.midi_pitch());
                    },
                    _ => {},
                }
                j += 1;
                assert(pitches@ =~= before + note_pitches(v.take(j as int)));
            }
            assert(v.take(voice@.len() as int) =~= v);
            assert(vs.take(i + 1).drop_last() =~= vs.take(i as int));
            i += 1;
        }
        assert(vs.take(vs.len() as int) =~= vs);
        PitchSequence { pitches }
    }

    pub fn from_pitches(pitches: &Vec<u8>) -> (r: PitchSequence)
        ensures
            r.pitches@ == pitches@,
    {
        let copy = pitches.clone();
        assert(copy@ =~= pitches@);
        PitchSequence { pitches: copy }
    }
}

impl IntervalSequence {
    /// The intervals between consecutive pitches of a sequence.
    pub fn from_pitch_sequence(pitches: &PitchSequence) -> (r: IntervalSequence)
        ensures
            r.intervals@ == intervals_of(pitches.pitches@),
    {
        let ghost p = pitches.pitches@;
        let mut intervals: Vec<i16> = Vec::new();
        let mut last: i16 = 0;
        let mut first = true;
        let mut k: usize = 0;
        while k < pitches.pitches.len()
            invariant
                p == pitches.pitches@,
                k <= p.len(),
                first <==> k == 0,
                k > 0 ==> last == p[k - 1] as i16,
                intervals@ == intervals_of(p.take(k as int)),
            decreases p.len() - k,
        {
            let pitch = pitches.pitches[k];
            if first {
                first = false;
            } else {
                let interval = (pitch as i16) - last;
                intervals.push(interval);
            }
            last = pitch as i16;
            k += 1;
            assert(intervals@ =~= intervals_of(p.take(k as int)));
        }
        assert(p.take(p.len() as int) =~= p);
        IntervalSequence { intervals }
    }
}

} // verus!
