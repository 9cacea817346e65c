//! Tests of the music types.

use abctool::music::{
    Accidental, DiatonicPitchClass, DurationClass, DurationGlyph, FractionalDuration, Interval,
    Pitch, PitchClass,
};

#[test]
fn fractional_duration_multiply() {
    assert_eq!(
        FractionalDuration(1, 1).multiply(FractionalDuration(1, 4)),
        FractionalDuration(1, 4),
        "Resolving duration of 1 in 1/4 gives 1/4"
    );

    assert_eq!(
        FractionalDuration(2, 1).multiply(FractionalDuration(1, 4)),
        FractionalDuration(1, 2),
        "Resolving duration of 1 in 1/4 gives simplified 1/2"
    );

    assert_eq!(
        FractionalDuration(3, 1).multiply(FractionalDuration(1, 4)),
        FractionalDuration(3, 4),
        "Resolving dotted crotchet gives dotted crotchet (can't simplify further)."
    );

    assert_eq!(
        FractionalDuration(1, 8).multiply(FractionalDuration(1, 2)),
        FractionalDuration(1, 2).multiply(FractionalDuration(1, 8)),
        "Multiply is commutative."
    );
}

#[test]
fn fractional_duration_multiply_test() {
    assert_eq!(FractionalDuration(1, 1).reduce(), FractionalDuration(1, 1));
    assert_eq!(FractionalDuration(2, 2).reduce(), FractionalDuration(1, 1));
    assert_eq!(
        FractionalDuration(16, 16).reduce(),
        FractionalDuration(1, 1)
    );
    assert_eq!(FractionalDuration(2, 4).reduce(), FractionalDuration(1, 2));
    assert_eq!(FractionalDuration(2, 6).reduce(), FractionalDuration(1, 3));
}

#[test]
fn duration_to_glyph_simple_test() {
    // Simple durations.
    assert_eq!(
        FractionalDuration(1, 1).to_glyph(),
        Some(DurationGlyph {
            shape: DurationClass::Semibreve,
            dots: 0,
        })
    );
    assert_eq!(
        FractionalDuration(1, 2).to_glyph(),
        Some(DurationGlyph {
            shape: DurationClass::Minim,
            dots: 0,
        })
    );
    assert_eq!(
        FractionalDuration(1, 4).to_glyph(),
        Some(DurationGlyph {
            shape: DurationClass::Crotchet,
            dots: 0,
        })
    );
    assert_eq!(
        FractionalDuration(1, 8).to_glyph(),
        Some(DurationGlyph {
            shape: DurationClass::Quaver,
            dots: 0,
        })
    );
    assert_eq!(
        FractionalDuration(1, 16).to_glyph(),
        Some(DurationGlyph {
            shape: DurationClass::Semiquaver,
            dots: 0,
        })
    );
    assert_eq!(
        FractionalDuration(1, 32).to_glyph(),
        Some(DurationGlyph {
            shape: DurationClass::Demisemiquaver,
            dots: 0,
        })
    );
}

#[test]
fn duration_to_glyph_dotted_test() {
    assert_eq!(
        FractionalDuration(3, 2).to_glyph(),
        Some(DurationGlyph {
            shape: DurationClass::Semibreve,
            dots: 1,
        })
    );
    assert_eq!(
        FractionalDuration(3, 4).to_glyph(),
        Some(DurationGlyph {
            shape: DurationClass::Minim,
            dots: 1,
        })
    );
    assert_eq!(
        FractionalDuration(3, 8).to_glyph(),
        Some(DurationGlyph {
            shape: DurationClass::Crotchet,
            dots: 1,
        })
    );
    assert_eq!(
        FractionalDuration(3, 16).to_glyph(),
        Some(DurationGlyph {
            shape: DurationClass::Quaver,
            dots: 1,
        })
    );
    assert_eq!(
        FractionalDuration(3, 32).to_glyph(),
        Some(DurationGlyph {
            shape: DurationClass::Semiquaver,
            dots: 1,
        })
    );
    assert_eq!(
        FractionalDuration(3, 64).to_glyph(),
        Some(DurationGlyph {
            shape: DurationClass::Demisemiquaver,
            dots: 1,
        })
    );

    // Two dots
    assert_eq!(
        FractionalDuration(7, 4).to_glyph(),
        Some(DurationGlyph {
            shape: DurationClass::Semibreve,
            dots: 2,
        })
    );
    assert_eq!(
        FractionalDuration(7, 8).to_glyph(),
        Some(DurationGlyph {
            shape: DurationClass::Minim,
            dots: 2,
        })
    );
    assert_eq!(
        FractionalDuration(7, 16).to_glyph(),
        Some(DurationGlyph {
            shape: DurationClass::Crotchet,
            dots: 2,
        })
    );
    assert_eq!(
        FractionalDuration(7, 32).to_glyph(),
        Some(DurationGlyph {
            shape: DurationClass::Quaver,
            dots: 2,
        })
    );

    assert_eq!(
        FractionalDuration(7, 64).to_glyph(),
        Some(DurationGlyph {
            shape: DurationClass::Semiquaver,
            dots: 2,
        })
    );

    // A double-dotted semiquaver should be enough for anyone.
    assert_eq!(
        FractionalDuration(7, 128).to_glyph(),
        Some(DurationGlyph {
            shape: DurationClass::Demisemiquaver,
            dots: 2,
        })
    );
}

#[test]
fn pitch_minus_as_degrees_test() {
    assert_eq!(
        Pitch {
            pitch_class: PitchClass {
                diatonic_pitch_class: DiatonicPitchClass::G,
                accidental: None,
            },
            octave: 0,
        }.interval_to(Pitch {
            pitch_class: PitchClass {
                diatonic_pitch_class: DiatonicPitchClass::G,
                accidental: None,
            },
            octave: 0,
        }),
        Interval {
            pitch_classes: 0,
            accidental_semitones: 0,
        },
        "Note should have zero distance to itself"
    );

    assert_eq!(
        Pitch {
            pitch_class: PitchClass {
                diatonic_pitch_class: DiatonicPitchClass::G,
                accidental: None,
            },
            octave: 0,
        }.interval_to(Pitch {
            pitch_class: PitchClass {
                diatonic_pitch_class: DiatonicPitchClass::G,
                accidental: None,
            },
            octave: 1,
        }),
        Interval {
            pitch_classes: 7,
            accidental_semitones: 0,
        },
        "Note should have 7 distance to itself in the next octave"
    );

    assert_eq!(
        Pitch {
            pitch_class: PitchClass {
                diatonic_pitch_class: DiatonicPitchClass::G,
                accidental: None,
            },
            octave: 0,
        }.interval_to(Pitch {
            pitch_class: PitchClass {
                diatonic_pitch_class: DiatonicPitchClass::G,
                accidental: None,
            },
            octave: -1,
        }),
        Interval {
            pitch_classes: -7,
            accidental_semitones: 0,
        },
        "Note should have -7 distance to itself in the previous octave"
    );

    assert_eq!(
        Pitch {
            pitch_class: PitchClass {
                diatonic_pitch_class: DiatonicPitchClass::G,
                accidental: None,
            },
            octave: 0,
        }.interval_to(Pitch {
            pitch_class: PitchClass {
                diatonic_pitch_class: DiatonicPitchClass::A,
                accidental: Some(Accidental::Sharp),
            },
            octave: 0,
        }),
        Interval {
            pitch_classes: 1,
            accidental_semitones: 1,
        },
        "Augmented first."
    );


}

#[test]
fn duration_glyph_search_results() {
    // Two whole notes: the semibreve takes five dots' worth and a semiquaver the rest, which
    // is the last glyph found.
    assert_eq!(
        FractionalDuration(2, 1).to_glyph(),
        Some(DurationGlyph {
            shape: DurationClass::Semiquaver,
            dots: 0,
        })
    );
    assert_eq!(FractionalDuration(1, 64).to_glyph(), None);
    assert_eq!(
        FractionalDuration(15, 16).to_glyph(),
        Some(DurationGlyph {
            shape: DurationClass::Minim,
            dots: 3,
        })
    );
    assert_eq!(
        FractionalDuration(6, 16).to_glyph(),
        Some(DurationGlyph {
            shape: DurationClass::Crotchet,
            dots: 1,
        })
    );
}

#[test]
fn gte_compares_cross_products() {
    assert!(FractionalDuration(1, 1).gte(&FractionalDuration(1, 1)));
    assert!(FractionalDuration(2, 4).gte(&FractionalDuration(1, 2)));
    assert!(!FractionalDuration(1, 2).gte(&FractionalDuration(3, 4)));
    assert!(FractionalDuration(70000, 1).gte(&FractionalDuration(1, 70000)));
}

#[test]
fn midi_pitch_above_the_fifth_octave() {
    let pitch = Pitch {
        pitch_class: PitchClass {
            diatonic_pitch_class: DiatonicPitchClass::C,
            accidental: None,
        },
        octave: 6,
    };
    assert_eq!(pitch.midi_value(), 132);
    assert_eq!(pitch.midi_pitch(), 132);
    let low = Pitch {
        pitch_class: PitchClass {
            diatonic_pitch_class: DiatonicPitchClass::B,
            accidental: Some(Accidental::Sharp),
        },
        octave: -6,
    };
    assert_eq!(low.midi_value(), 0);
    let too_high = Pitch {
        pitch_class: PitchClass {
            diatonic_pitch_class: DiatonicPitchClass::G,
            accidental: None,
        },
        octave: 17,
    };
    assert_eq!(too_high.midi_value(), 271);
}
