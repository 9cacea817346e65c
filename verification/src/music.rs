//! Musical vocabulary: pitches, intervals, durations and their glyphs.

use vstd::prelude::*;
use crate::chars::{push_char, push_str};
use vstd::arithmetic::div_mod::{lemma_small_mod, lemma_fundamental_div_mod, lemma_mod_multiples_basic};

verus! {

/// Number of diatonic pitch classes in a scale.
pub const NOTES_IN_SCALE: i16 = 7;

#[derive(Debug, PartialEq, Eq, Structural, Clone, Copy)]
pub enum DiatonicPitchClass {
    A,
    B,
    C,
    D,
    E,
    F,
    G,
}

/// The scale degree of a diatonic pitch class, counted from C.
pub open spec fn degree_of(d: DiatonicPitchClass) -> int {
    match d {
        DiatonicPitchClass::C => 0,
        DiatonicPitchClass::D => 1,
        DiatonicPitchClass::E => 2,
        DiatonicPitchClass::F => 3,
        DiatonicPitchClass::G => 4,
        DiatonicPitchClass::A => 5,
        DiatonicPitchClass::B => 6,
    }
}

impl DiatonicPitchClass {
    pub fn to_degree(&self) -> (r: i16)
        ensures
            r == degree_of(*self),
    {
        match self {
            DiatonicPitchClass::C => 0,
            DiatonicPitchClass::D => 1,
            DiatonicPitchClass::E => 2,
            DiatonicPitchClass::F => 3,
            DiatonicPitchClass::G => 4,
            DiatonicPitchClass::A => 5,
            DiatonicPitchClass::B => 6,
        }
    }
}


#[derive(Debug, PartialEq, Eq, Structural, Clone, Copy)]
pub enum Accidental {
    Sharp,
    Flat,
    Natural,
    DoubleSharp,
    DoubleFlat,
}

/// How many semitones an accidental raises (or lowers) a pitch.
pub open spec fn semitones_of(a: Accidental) -> int {
    match a {
        Accidental::Sharp => 1,
        Accidental::Flat => -1,
        Accidental::Natural => 0,
        Accidental::DoubleSharp => 2,
        Accidental::DoubleFlat => -2,
    }
}

impl Accidental {
    pub fn semitones(&self) -> (r: i16)
        ensures
            r == semitones_of(*self),
    {
        match self {
            Accidental::Sharp => 1,
            Accidental::Flat => -1,
            Accidental::Natural => 0,
            Accidental::DoubleSharp => 2,
            Accidental::DoubleFlat => -2,
        }
    }
}

/// Musical mode.
/// Some of these are synonyms, but what was written is recorded.
#[derive(Debug, PartialEq, Eq, Structural, Clone, Copy)]
pub enum Mode {
    Natural,
    Lydian,
    Ionian,
    Mixolydian,
    Dorian,
    Aeolian,
    Phrygian,
    Locrian,
    Major,
    Minor,
}

#[derive(Debug, PartialEq, Eq, Structural, Clone, Copy)]
pub enum ClefShape {
    Treble,
}

impl ClefShape {
    /// The pitch class that this clef shape marks on the stave.
    pub fn pitch(&self) -> (r: PitchClass)
        ensures
            r == (PitchClass { diatonic_pitch_class: DiatonicPitchClass::G, accidental: None }),
    {
        match self {
            ClefShape::Treble => PitchClass {
                diatonic_pitch_class: DiatonicPitchClass::G,
                accidental: None,
            },
        }
    }
}

#[derive(Debug, PartialEq, Eq, Structural, Clone, Copy)]
pub struct Clef {
    pub shape: ClefShape,
    /// Position on the stave relative to the middle line.
    pub centre: i32,
    pub pitch: Pitch,
}

impl Clef {
    /// A treble clef: G on the second line.
    pub fn treble() -> (r: Clef)
        ensures
            r == (Clef {
                shape: ClefShape::Treble,
                centre: 2,
                pitch: Pitch {
                    pitch_class: PitchClass {
                        diatonic_pitch_class: DiatonicPitchClass::G,
                        accidental: None,
                    },
                    octave: 0,
                },
            }),
    {
        Clef {
            shape: ClefShape::Treble,
            centre: 2,
            pitch: Pitch {
                pitch_class: PitchClass {
                    diatonic_pitch_class: DiatonicPitchClass::G,
                    accidental: None,
                },
                octave: 0,
            },
        }
    }
}

#[derive(Debug, PartialEq, Eq, Structural, Clone, Copy)]
pub struct PitchClass {
    pub diatonic_pitch_class: DiatonicPitchClass,
    pub accidental: Option<Accidental>,
}

/// Semitones contributed by an optional accidental.
pub open spec fn accidental_offset(a: Option<Accidental>) -> int {
    match a {
        None => 0,
        Some(acc) => semitones_of(acc),
    }
}

/// Interval as a number of diatonic steps and an accidental.
/// Note that "unison" is written "1" in music but is 0 here.
#[derive(Debug, PartialEq, Eq, Structural, Clone, Copy)]
pub struct Interval {
    pub pitch_classes: i32,
    pub accidental_semitones: i16,
}

#[derive(Debug, PartialEq, Eq, Structural, Clone, Copy)]
pub struct Pitch {
    pub pitch_class: PitchClass,
    pub octave: i16,
}

/// Absolute diatonic position of a pitch: degree plus seven per octave.
pub open spec fn diatonic_position(p: Pitch) -> int {
    degree_of(p.pitch_class.diatonic_pitch_class) + 7 * p.octave
}

/// Semitones above C of each diatonic pitch class.
pub open spec fn chromatic_of(d: DiatonicPitchClass) -> int {
    match d {
        DiatonicPitchClass::C => 0,
        DiatonicPitchClass::D => 2,
        DiatonicPitchClass::E => 4,
        DiatonicPitchClass::F => 5,
        DiatonicPitchClass::G => 7,
        DiatonicPitchClass::A => 9,
        DiatonicPitchClass::B => 11,
    }
}

/// MIDI note number of a pitch; octave 0 starts at middle C (60).
pub open spec fn midi_of(p: Pitch) -> int {
    60 + 12 * p.octave + chromatic_of(p.pitch_class.diatonic_pitch_class)
        + accidental_offset(p.pitch_class.accidental)
}

/// The pitch has a MIDI note number that fits a byte.
pub open spec fn midi_in_range(p: Pitch) -> bool {
    0 <= midi_of(p) <= 255
}

impl Pitch {
    /// How many diatonic degrees and accidental semitones from this pitch to another.
    /// If this occurs in a key signature, the key signature must be applied first.
    pub fn interval_to(&self, other: Pitch) -> (r: Interval)
        requires
            i16::MIN <= 7 * self.octave <= i16::MAX,
            i16::MIN <= 7 * other.octave <= i16::MAX,
            i16::MIN <= 7 * self.octave + degree_of(self.pitch_class.diatonic_pitch_class)
                <= i16::MAX,
            i16::MIN <= 7 * other.octave + degree_of(other.pitch_class.diatonic_pitch_class)
                <= i16::MAX,
            i16::MIN <= diatonic_position(other) - diatonic_position(*self) <= i16::MAX,
        ensures
            r.pitch_classes == diatonic_position(other) - diatonic_position(*self),
            r.accidental_semitones == accidental_offset(other.pitch_class.accidental)
                - accidental_offset(self.pitch_class.accidental),
    {
        let degrees = (other.pitch_class.diatonic_pitch_class.to_degree() + NOTES_IN_SCALE
            * other.octave) - (self.pitch_class.diatonic_pitch_class.to_degree() + NOTES_IN_SCALE
            * self.octave);

        let other_acc: i16 = match other.pitch_class.accidental {
            None => 0,
            Some(accidental) => accidental.semitones(),
        };
        let self_acc: i16 = match self.pitch_class.accidental {
            None => 0,
            Some(accidental) => accidental.semitones(),
        };
        let accidental = other_acc - self_acc;

        Interval { pitch_classes: degrees as i32, accidental_semitones: accidental }
    }

    /// The MIDI note number of this pitch, with octave 0 holding middle C.
    /// The MIDI note number of this pitch, as a wide integer: middle C is 60.
    pub fn midi_value(&self) -> (r: i32)
        ensures
            r == midi_of(*self),
    {
        let base: i32 = match self.pitch_class.diatonic_pitch_class {
            DiatonicPitchClass::C => 0,
            DiatonicPitchClass::D => 2,
            DiatonicPitchClass::E => 4,
            DiatonicPitchClass::F => 5,
            DiatonicPitchClass::G => 7,
            DiatonicPitchClass::A => 9,
            DiatonicPitchClass::B => 11,
        };
        let acc: i32 = match self.pitch_class.accidental {
            None => 0,
            Some(accidental) => accidental.semitones() as i32,
        };
        60 + 12 * (self.octave as i32) + base + acc
    }

    /// The MIDI note number of this pitch, which must fit a byte.
    pub fn midi_pitch(&self) -> (r: u8)
        requires
            midi_in_range(*self),
        ensures
            r == midi_of(*self),
    {
        self.midi_value() as u8
    }
}

/// A barline, with its repeat marks and an optional n-time repeat number.
#[derive(Debug, PartialEq, Eq, Structural, Clone, Copy)]
pub struct Barline {
    pub repeat_before: bool,
    pub single: bool,
    pub repeat_after: bool,
    pub n_time: Option<u32>,
}

/// Time signature.
#[derive(Debug, PartialEq, Eq, Structural, Clone, Copy)]
pub struct Metre(pub u32, pub u32);


/// The duration class of a notehead, i.e. its shape.
#[derive(Debug, PartialEq, Eq, Structural, Clone, Copy)]
pub enum DurationClass {
    Semibreve,
    Minim,
    Crotchet,
    Quaver,
    Semiquaver,
    Demisemiquaver,
}

/// The denominator of each class's duration: the class lasts 1/2^k.
pub open spec fn class_denominator(c: DurationClass) -> nat {
    match c {
        DurationClass::Semibreve => 1,
        DurationClass::Minim => 2,
        DurationClass::Crotchet => 4,
        DurationClass::Quaver => 8,
        DurationClass::Semiquaver => 16,
        DurationClass::Demisemiquaver => 32,
    }
}

/// The duration classes in order of decreasing duration.
pub open spec fn class_at(j: int) -> DurationClass {
    if j <= 0 {
        DurationClass::Semibreve
    } else if j == 1 {
        DurationClass::Minim
    } else if j == 2 {
        DurationClass::Crotchet
    } else if j == 3 {
        DurationClass::Quaver
    } else if j == 4 {
        DurationClass::Semiquaver
    } else {
        DurationClass::Demisemiquaver
    }
}

impl DurationClass {
    pub fn duration(&self) -> (r: FractionalDuration)
        ensures
            r.0 == 1,
            r.1 == class_denominator(*self),
    {
        match self {
            DurationClass::Semibreve => FractionalDuration(1, 1),
            DurationClass::Minim => FractionalDuration(1, 2),
            DurationClass::Crotchet => FractionalDuration(1, 4),
            DurationClass::Quaver => FractionalDuration(1, 8),
            DurationClass::Semiquaver => FractionalDuration(1, 16),
            DurationClass::Demisemiquaver => FractionalDuration(1, 32),
        }
    }
}

fn class_at_index(j: usize) -> (r: DurationClass)
    requires
        j < 6,
    ensures
        r == class_at(j as int),
{
    if j == 0 {
        DurationClass::Semibreve
    } else if j == 1 {
        DurationClass::Minim
    } else if j == 2 {
        DurationClass::Crotchet
    } else if j == 3 {
        DurationClass::Quaver
    } else if j == 4 {
        DurationClass::Semiquaver
    } else {
        DurationClass::Demisemiquaver
    }
}

/// A duration as notated: a notehead shape and a number of dots.
#[derive(Debug, PartialEq, Eq, Structural, Clone, Copy)]
pub struct DurationGlyph {
    pub shape: DurationClass,
    pub dots: u32,
}

/// A duration as a fraction (numerator, denominator) of the default duration.
#[derive(Debug, PartialEq, Eq, Structural, Clone, Copy)]
pub struct FractionalDuration(pub u32, pub u32);

/// `d` divides both `a` and `b`.
pub open spec fn is_common_divisor(d: int, a: int, b: int) -> bool {
    d >= 1 && a % d == 0 && b % d == 0
}

/// `g` is the greatest common divisor of `a` and `b`.
pub open spec fn is_gcd(g: int, a: int, b: int) -> bool {
    &&& is_common_divisor(g, a, b)
    &&& forall|d: int| d > g ==> !is_common_divisor(d, a, b)
}

/// The greatest common divisor of two numbers that are not both zero.
pub open spec fn gcd(a: int, b: int) -> int {
    choose|g: int| is_gcd(g, a, b)
}

/// A fraction in lowest terms; (0, 0) stays as it is.
pub open spec fn reduced(f: FractionalDuration) -> FractionalDuration {
    if f.0 == 0 && f.1 == 0 {
        f
    } else {
        let g = gcd(f.0 as int, f.1 as int);
        FractionalDuration((f.0 as int / g) as u32, (f.1 as int / g) as u32)
    }
}

/// Two fractions denote the same rational number (cross-multiplication).
pub open spec fn same_value(x: FractionalDuration, y: FractionalDuration) -> bool {
    x.0 * y.1 == y.0 * x.1
}

/// The unreduced product of two fractions.
pub open spec fn product(x: FractionalDuration, y: FractionalDuration) -> FractionalDuration {
    FractionalDuration((x.0 * y.0) as u32, (x.1 * y.1) as u32)
}

/// The products that multiplying two fractions computes fit in a u32.
pub open spec fn product_fits(x: FractionalDuration, y: FractionalDuration) -> bool {
    x.0 * y.0 <= u32::MAX && x.1 * y.1 <= u32::MAX
}

/// The unreduced difference of two fractions over the product of the denominators.
pub open spec fn difference(x: FractionalDuration, y: FractionalDuration) -> FractionalDuration {
    FractionalDuration((x.0 * y.1 - y.0 * x.1) as u32, (x.1 * y.1) as u32)
}

/// The cross products and the product of the denominators that subtracting two fractions
/// computes fit in a u32.
pub open spec fn cross_fits(x: FractionalDuration, y: FractionalDuration) -> bool {
    cross_products_fit(x, y) && x.1 * y.1 <= u32::MAX
}

/// The two cross products of two durations fit in u32.
pub open spec fn cross_products_fit(x: FractionalDuration, y: FractionalDuration) -> bool {
    x.0 * y.1 <= u32::MAX && y.0 * x.1 <= u32::MAX
}

/// `x` is at least `y`, compared by cross-multiplication.
pub open spec fn at_least(x: FractionalDuration, y: FractionalDuration) -> bool {
    x.0 * y.1 >= y.0 * x.1
}

/// A gcd, where one exists, is unique.
proof fn lemma_gcd_unique(g: int, a: int, b: int)
    requires
        is_gcd(g, a, b),
    ensures
        gcd(a, b) == g,
{
    let h = gcd(a, b);
    assert(is_gcd(h, a, b));
    if h > g {
        assert(!is_common_divisor(h, a, b));
    } else if h < g {
        assert(!is_common_divisor(g, a, b));
    }
}

/// Numbers below the modulus are their own remainder.
proof fn lemma_mod_small(x: int, d: int)
    requires
        0 <= x < d,
    ensures
        x % d == x,
{
    lemma_small_mod(x as nat, d as nat);
}

impl FractionalDuration {
    /// Multiply this fractional duration by another and reduce the result.
    /// Used to resolve a duration against a standard duration.
    pub fn multiply(self, other: FractionalDuration) -> (r: FractionalDuration)
        requires
            product_fits(self, other),
        ensures
            r == reduced(product(self, other)),
    {
        let vulgar = FractionalDuration(self.0 * other.0, self.1 * other.1);
        vulgar.reduce()
    }

    /// Subtract another duration, which must not exceed this one, and reduce the result.
    pub fn subtract(self, other: FractionalDuration) -> (r: FractionalDuration)
        requires
            cross_fits(self, other),
            at_least(self, other),
        ensures
            r == reduced(difference(self, other)),
    {
        let self_numerator = self.0 * other.1;
        let other_numerator = other.0 * self.1;
        let denomenator = self.1 * other.1;

        FractionalDuration(self_numerator - other_numerator, denomenator).reduce()
    }

    /// Reduce this fraction to its simplest form.
    pub fn reduce(self) -> (r: FractionalDuration)
        ensures
            r == reduced(self),
    {
        let max = if self.0 >= self.1 { self.0 } else { self.1 };
        let mut i = max;
        while i >= 1
            invariant
                i <= max,
                max == self.0 || max == self.1,
                self.0 <= max && self.1 <= max,
                forall|d: int| i < d <= max ==> !is_common_divisor(d, self.0 as int, self.1 as int),
            decreases i,
        {
            if (self.0 % i == 0) && (self.1 % i) == 0 {
                proof {
                    assert forall|d: int| d > i implies !is_common_divisor(d, self.0 as int, self.1 as int) by {
                        if d > max {
                            if self.0 == max {
                                lemma_mod_small(self.0 as int, d);
                            } else {
                                lemma_mod_small(self.1 as int, d);
                            }
                        }
                    }
                    lemma_gcd_unique(i as int, self.0 as int, self.1 as int);
                }
                return FractionalDuration(self.0 / i, self.1 / i);
            }
            i -= 1;
        }
        // Only a (0, 0) fraction has no divisor to find.
        assert(max == 0) by {
            if max >= 1 {
                assert(is_common_divisor(1, self.0 as int, self.1 as int));
            }
        }
        self
    }

    /// Is this duration greater than or equal to the other one?
    pub fn gte(&self, other: &FractionalDuration) -> (r: bool)
        requires
            cross_products_fit(*self, *other),
        ensures
            r == at_least(*self, *other),
    {
        let self_numerator = self.0 * other.1;
        let other_numerator = other.0 * self.1;
        self_numerator >= other_numerator
    }
}

/// The zero duration in lowest terms.
pub open spec fn zero_duration() -> FractionalDuration {
    FractionalDuration(0, 1)
}

/// Half of a duration, as `multiply` by 1/2 computes it.
pub open spec fn halved(d: FractionalDuration) -> FractionalDuration {
    reduced(product(d, FractionalDuration(1, 2)))
}

/// Dotting: starting from `this`, take away `dur`, then half of it, and so on, at most five
/// times, stopping as soon as nothing is left or what is left is shorter than the next dot.
/// Gives what is left and the number of dots.
pub open spec fn dots_run(this: FractionalDuration, dur: FractionalDuration, dots: nat, k: nat) -> (
    FractionalDuration,
    nat,
)
    decreases 5 - k,
{
    if k >= 5 || !at_least(this, dur) {
        (this, dots)
    } else {
        let t = reduced(difference(this, dur));
        if reduced(t) == zero_duration() {
            (t, dots)
        } else {
            dots_run(t, halved(dur), dots + 1, k + 1)
        }
    }
}

/// Every step of `dots_run` stays within u32 arithmetic.
pub open spec fn dots_run_ok(this: FractionalDuration, dur: FractionalDuration, k: nat) -> bool
    decreases 5 - k,
{
    if k >= 5 {
        true
    } else {
        let t = reduced(difference(this, dur));
        &&& cross_fits(this, dur)
        &&& (at_least(this, dur) ==> (reduced(t) == zero_duration() || (product_fits(
            dur,
            FractionalDuration(1, 2),
        ) && dots_run_ok(t, halved(dur), k + 1))))
    }
}

/// The duration of the j-th duration class, 1/2^j.
pub open spec fn class_duration(j: int) -> FractionalDuration {
    FractionalDuration(1, class_denominator(class_at(j)) as u32)
}

/// Glyph search: for each duration class from the longest, while something is left of `this`,
/// a class that fits takes its dotted share and becomes the current glyph.
pub open spec fn glyph_run(this: FractionalDuration, j: nat, result: Option<DurationGlyph>) -> Option<
    DurationGlyph,
>
    decreases 6 - j,
{
    if j >= 6 {
        result
    } else if reduced(this) == zero_duration() {
        result
    } else {
        let d = class_duration(j as int);
        if at_least(this, d) {
            let (t, n) = dots_run(this, d, 0, 0);
            glyph_run(t, j + 1, Some(DurationGlyph { shape: class_at(j as int), dots: n as u32 }))
        } else {
            glyph_run(this, j + 1, result)
        }
    }
}

/// The glyph search never overflows.
pub open spec fn glyph_run_ok(this: FractionalDuration, j: nat) -> bool
    decreases 6 - j,
{
    if j >= 6 {
        true
    } else if reduced(this) == zero_duration() {
        true
    } else {
        let d = class_duration(j as int);
        &&& cross_fits(this, d)
        &&& if at_least(this, d) {
            dots_run_ok(this, d, 0) && glyph_run_ok(dots_run(this, d, 0, 0).0, j + 1)
        } else {
            glyph_run_ok(this, j + 1)
        }
    }
}

/// The most dots a glyph can carry before giving up.
pub const MAX_DOTS: u32 = 4;

impl FractionalDuration {
    /// Transform this duration into a notehead glyph, e.g. 3/8 becomes a dotted crotchet.
    /// For each duration class from the longest, while something is left of the duration, a
    /// class that fits takes its dotted share and becomes the current glyph; the last such
    /// glyph is the result.
    pub fn to_glyph(&self) -> (r: Option<DurationGlyph>)
        requires
            glyph_run_ok(*self, 0),
        ensures
            r == glyph_run(*self, 0, None),
    {
        // Start with self's duration, keep chipping away until there's nothing left to represent.
        let mut this = *self;
        let mut result: Option<DurationGlyph> = None;
        let mut j: usize = 0;
        let mut finished = false;

        while j < 6 && !finished
            invariant
                j <= 6,
                glyph_run_ok(this, j as nat),
                finished ==> reduced(this) == zero_duration(),
                glyph_run(this, j as nat, result) == glyph_run(*self, 0, None),
            decreases 6 - j,
        {
            if this.reduce() == FractionalDuration(0, 1) {
                finished = true;
            } else {
                let duration_class = class_at_index(j);
                let mut duration = duration_class.duration();
                let mut num_dots: u32 = 0;
                assert(duration == class_duration(j as int));

                if this.gte(&duration) {
                    let ghost start = this;
                    let ghost start_dur = duration;
                    let mut k: u32 = 0;
                    let mut dotted = false;
                    while k < MAX_DOTS + 1 && !dotted
                        invariant
                            k <= 5,
                            num_dots == k,
                            dotted ==> dots_run(start, start_dur, 0, 0) == (this, num_dots as nat),
                            !dotted ==> dots_run(this, duration, num_dots as nat, k as nat)
                                == dots_run(start, start_dur, 0, 0),
                            !dotted ==> dots_run_ok(this, duration, k as nat),
                            !dotted && k == 5 ==> dots_run(start, start_dur, 0, 0) == (this, num_dots as nat),
                        decreases 5 - k + (if dotted { 0int } else { 1int }),
                    {
                        if !this.gte(&duration) {
                            // What is left is shorter than another dot.
                            dotted = true;
                        } else {
                            this = this.subtract(duration);
                            if this.reduce() == FractionalDuration(0, 1) {
                                dotted = true;
                            } else {
                                // Halve the duration for another dot.
                                duration = duration.multiply(FractionalDuration(1, 2));
                                num_dots += 1;
                                k += 1;
                                assert(k == 5 ==> dots_run(this, duration, num_dots as nat, k as nat)
                                    == (this, num_dots as nat));
                            }
                        }
                    }
                    result = Some(DurationGlyph { shape: duration_class, dots: num_dots });
                }
            }
            j += 1;
        }
        result
    }
}

/// Below a bound `n` above which no common divisor exists, a gcd exists.
proof fn lemma_gcd_exists_below(a: int, b: int, n: int)
    requires
        0 <= a,
        0 <= b,
        n >= 1,
        forall|d: int| d > n ==> !is_common_divisor(d, a, b),
    ensures
        is_gcd(gcd(a, b), a, b),
    decreases n,
{
    if is_common_divisor(n, a, b) {
        assert(is_gcd(n, a, b));
    } else if n == 1 {
        assert(is_common_divisor(1, a, b));
    } else {
        lemma_gcd_exists_below(a, b, n - 1);
    }
}

/// Two numbers that are not both zero have a greatest common divisor.
pub proof fn lemma_gcd_exists(a: int, b: int)
    requires
        0 <= a,
        0 <= b,
        a != 0 || b != 0,
    ensures
        is_gcd(gcd(a, b), a, b),
{
    let m = if a >= b { a } else { b };
    assert forall|d: int| d > m implies !is_common_divisor(d, a, b) by {
        if a >= b {
            lemma_mod_small(a, d);
        } else {
            lemma_mod_small(b, d);
        }
    }
    lemma_gcd_exists_below(a, b, m);
}

/// Splits a number into its quotient and the divisor when the divisor divides it.
proof fn lemma_exact_division(x: int, g: int)
    requires
        g >= 1,
        x % g == 0,
    ensures
        x == g * (x / g),
        0 <= x ==> 0 <= x / g <= x,
{
    lemma_fundamental_div_mod(x, g);
    if 0 <= x {
        assert(0 <= x / g <= x) by (nonlinear_arith)
            requires
                x == g * (x / g),
                g >= 1,
                0 <= x,
        ;
    }
}

/// Law: reducing a fraction keeps the number it denotes.
pub proof fn law_reduce_keeps_value(f: FractionalDuration)
    ensures
        same_value(reduced(f), f),
{
    if !(f.0 == 0 && f.1 == 0) {
        let a = f.0 as int;
        let b = f.1 as int;
        lemma_gcd_exists(a, b);
        let g = gcd(a, b);
        lemma_exact_division(a, g);
        lemma_exact_division(b, g);
        let x = a / g;
        let y = b / g;
        assert(x * b == a * y) by (nonlinear_arith)
            requires
                a == g * x,
                b == g * y,
        ;
    }
}

/// Law: a reduced fraction (other than 0/0) is in lowest terms: its only common divisor is 1.
pub proof fn law_reduce_lowest_terms(f: FractionalDuration)
    requires
        f.0 != 0 || f.1 != 0,
    ensures
        is_gcd(1, reduced(f).0 as int, reduced(f).1 as int),
{
    let a = f.0 as int;
    let b = f.1 as int;
    lemma_gcd_exists(a, b);
    let g = gcd(a, b);
    lemma_exact_division(a, g);
    lemma_exact_division(b, g);
    let x = a / g;
    let y = b / g;
    assert(reduced(f).0 == x && reduced(f).1 == y);
    assert(is_common_divisor(1, x, y));
    assert forall|d: int| d > 1 implies !is_common_divisor(d, x, y) by {
        if is_common_divisor(d, x, y) {
            lemma_exact_division(x, d);
            lemma_exact_division(y, d);
            let p = x / d;
            let q = y / d;
            assert(a == p * (g * d) && b == q * (g * d)) by (nonlinear_arith)
                requires
                    a == g * x,
                    b == g * y,
                    x == d * p,
                    y == d * q,
            ;
            assert(g * d > g) by (nonlinear_arith)
                requires
                    g >= 1,
                    d > 1,
            ;
            lemma_mod_multiples_basic(p, g * d);
            lemma_mod_multiples_basic(q, g * d);
            assert(is_common_divisor(g * d, a, b));
        }
    }
}

/// Law: multiplying durations is commutative.
pub proof fn law_multiply_commutative(x: FractionalDuration, y: FractionalDuration)
    ensures
        product_fits(x, y) == product_fits(y, x),
        reduced(product(x, y)) == reduced(product(y, x)),
{
    assert(x.0 * y.0 == y.0 * x.0 && x.1 * y.1 == y.1 * x.1) by (nonlinear_arith);
    assert(product(x, y) == product(y, x));
}

/// Law: the result of `multiply` denotes the product of the two fractions.
pub proof fn law_multiply_value(x: FractionalDuration, y: FractionalDuration)
    requires
        product_fits(x, y),
    ensures
        same_value(reduced(product(x, y)), product(x, y)),
{
    law_reduce_keeps_value(product(x, y));
}

/// A note: a pitch and a duration.
#[derive(Debug, PartialEq, Eq, Structural, Clone, Copy)]
pub struct Note(pub Pitch, pub FractionalDuration);

impl Note {
    /// Adjust this note's duration by multiplying by a base duration.
    pub fn resolve_duration(&self, base_duration: FractionalDuration) -> (r: Note)
        requires
            product_fits(self.1, base_duration),
        ensures
            r.0 == self.0,
            r.1 == reduced(product(self.1, base_duration)),
    {
        Note(self.0, self.1.multiply(base_duration))
    }
}


/// The letter of a diatonic pitch class.
pub open spec fn letter_of(d: DiatonicPitchClass) -> char {
    match d {
        DiatonicPitchClass::A => 'A',
        DiatonicPitchClass::B => 'B',
        DiatonicPitchClass::C => 'C',
        DiatonicPitchClass::D => 'D',
        DiatonicPitchClass::E => 'E',
        DiatonicPitchClass::F => 'F',
        DiatonicPitchClass::G => 'G',
    }
}

/// How an accidental is written after the letter of a pitch class.
pub open spec fn accidental_text(a: Option<Accidental>) -> Seq<char> {
    match a {
        None => seq![],
        Some(Accidental::Sharp) => "#"@,
        Some(Accidental::Flat) => "b"@,
        Some(Accidental::Natural) => "="@,
        Some(Accidental::DoubleSharp) => "##"@,
        Some(Accidental::DoubleFlat) => "bb"@,
    }
}

/// The name of a pitch class: its letter, then its accidental.
pub open spec fn pitch_class_text(p: PitchClass) -> Seq<char> {
    seq![letter_of(p.diatonic_pitch_class)] + accidental_text(p.accidental)
}

/// The name of a mode.
pub open spec fn mode_text(m: Mode) -> Seq<char> {
    match m {
        Mode::Natural => "Natural"@,
        Mode::Lydian => "Lydian"@,
        Mode::Ionian => "Ionian"@,
        Mode::Mixolydian => "Mixolydian"@,
        Mode::Dorian => "Dorian"@,
        Mode::Aeolian => "Aeolian"@,
        Mode::Phrygian => "Phrygian"@,
        Mode::Locrian => "Locrian"@,
        Mode::Major => "Major"@,
        Mode::Minor => "Minor"@,
    }
}

/// A pitch with the letter and octave of `p` and the accidental `a`.
pub open spec fn with_accidental(p: Pitch, a: Option<Accidental>) -> Pitch {
    Pitch {
        pitch_class: PitchClass { diatonic_pitch_class: p.pitch_class.diatonic_pitch_class, accidental: a },
        octave: p.octave,
    }
}

/// Law: accidentals move a pitch by semitones: a natural sign leaves it where the plain letter
/// is, a sharp raises it by one, a flat lowers it by one, and the double signs by two.
pub proof fn law_accidentals_shift_pitch(p: Pitch)
    ensures
        midi_of(with_accidental(p, Some(Accidental::Natural))) == midi_of(with_accidental(p, None)),
        midi_of(with_accidental(p, Some(Accidental::Sharp))) == midi_of(with_accidental(p, None)) + 1,
        midi_of(with_accidental(p, Some(Accidental::Flat))) == midi_of(with_accidental(p, None)) - 1,
        midi_of(with_accidental(p, Some(Accidental::DoubleSharp))) == midi_of(with_accidental(p, None))
            + 2,
        midi_of(with_accidental(p, Some(Accidental::DoubleFlat))) == midi_of(with_accidental(p, None))
            - 2,
{
}

/// Law: an octave is twelve semitones: the same pitch class one octave up has a MIDI number
/// twelve higher.
pub proof fn law_octave_is_twelve_semitones(p: Pitch, q: Pitch)
    requires
        q.pitch_class == p.pitch_class,
        q.octave == p.octave + 1,
    ensures
        midi_of(q) == midi_of(p) + 12,
{
}

/// Law: different modes have different names.
pub proof fn law_mode_names_differ(m1: Mode, m2: Mode)
    requires
        m1 != m2,
    ensures
        mode_text(m1) != mode_text(m2),
{
    reveal_strlit("Natural");
    reveal_strlit("Lydian");
    reveal_strlit("Ionian");
    reveal_strlit("Mixolydian");
    reveal_strlit("Dorian");
    reveal_strlit("Aeolian");
    reveal_strlit("Phrygian");
    reveal_strlit("Locrian");
    reveal_strlit("Major");
    reveal_strlit("Minor");
    let a = mode_text(m1);
    let b = mode_text(m2);
    if a.len() == b.len() {
        // Names of one length differ in their first or second letter.
        if a[0] == b[0] {
            assert(a[1] != b[1]);
        }
    }
}

impl PitchClass {
    /// The name of the pitch class, e.g. `G` or `F#`.
    pub fn to_string(&self) -> (r: String)
        ensures
            r@ == pitch_class_text(*self),
    {
        let mut r = String::new();
        let letter = match self.diatonic_pitch_class {
            DiatonicPitchClass::A => 'A',
            DiatonicPitchClass::B => 'B',
            DiatonicPitchClass::C => 'C',
            DiatonicPitchClass::D => 'D',
            DiatonicPitchClass::E => 'E',
            DiatonicPitchClass::F => 'F',
            DiatonicPitchClass::G => 'G',
        };
        push_char(&mut r, letter);
        match self.accidental {
            None => {},
            Some(Accidental::Sharp) => push_str(&mut r, "#"),
            Some(Accidental::Flat) => push_str(&mut r, "b"),
            Some(Accidental::Natural) => push_str(&mut r, "="),
            Some(Accidental::DoubleSharp) => push_str(&mut r, "##"),
            Some(Accidental::DoubleFlat) => push_str(&mut r, "bb"),
        }
        assert(r@ =~= pitch_class_text(*self));
        r
    }
}

impl Mode {
    /// The name of the mode, e.g. `Dorian`.
    pub fn to_string(&self) -> (r: String)
        ensures
            r@ == mode_text(*self),
    {
        let name = match self {
            Mode::Natural => "Natural",
            Mode::Lydian => "Lydian",
            Mode::Ionian => "Ionian",
            Mode::Mixolydian => "Mixolydian",
            Mode::Dorian => "Dorian",
            Mode::Aeolian => "Aeolian",
            Mode::Phrygian => "Phrygian",
            Mode::Locrian => "Locrian",
            Mode::Major => "Major",
            Mode::Minor => "Minor",
        };
        let mut r = String::new();
        push_str(&mut r, name);
        assert(r@ =~= mode_text(*self));
        r
    }
}


/// The number of beams (or tails) of a note of a duration class.
pub open spec fn beams_of(c: DurationClass) -> u32 {
    match c {
        DurationClass::Quaver => 1,
        DurationClass::Semiquaver => 2,
        DurationClass::Demisemiquaver => 3,
        _ => 0,
    }
}

impl DurationClass {
    /// The number of beams (or tails) of a note of this class: none above a quaver.
    pub fn beams(&self) -> (r: u32)
        ensures
            r == beams_of(*self),
    {
        match self {
            DurationClass::Quaver => 1,
            DurationClass::Semiquaver => 2,
            DurationClass::Demisemiquaver => 3,
            _ => 0,
        }
    }
}

} // verus!
