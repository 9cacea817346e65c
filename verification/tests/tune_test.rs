//! Tests of reading tunes, their features, pitches and intervals.

use abctool::representations::{asts_to_features_s, intervals_to_binary_vsm};
use abctool::abc_lexer::{Lexer, T};
use abctool::features::{extract_all_features, key_signature, rhythm, time_signature};
use abctool::music::{DiatonicPitchClass, FractionalDuration, Mode, Note, Pitch, PitchClass};
use abctool::pitch::{IntervalSequence, PitchSequence};
use abctool::representations::{
    abc_to_ast, ast_to_features, ast_to_pitches, ast_to_pitches_s, pitches_to_intervals,
    pitches_to_intervals_s,
};
use abctool::tune_ast::{self, TuneAst};
use abctool::tune_ast_three::{self, Tune};
use abctool::tune_ast_two::{self, SequentialEntity};
use std::collections::HashMap;

fn chars(s: &str) -> Vec<char> {
    s.chars().collect()
}

fn pairs(v: &[(&str, &str)]) -> Vec<(String, String)> {
    v.iter().map(|(a, b)| (a.to_string(), b.to_string())).collect()
}

const JIG: &str = "X:1\nT:Road\nM:6/8\nL:1/8\nR:jig\nK:GDor\nG2A B/c/d|\n";

#[test]
fn tune_prelude_ends_at_key() {
    let input = chars(JIG);
    let tune = tune_ast_three::read_from_lexer(Lexer::new(&input));
    assert_eq!(tune.prelude.len(), 5);
    assert!(matches!(tune.prelude[4], T::KeySignature(_, Mode::Dorian)));
    assert_eq!(tune.voices.len(), 1);
}

#[test]
fn tune_resolves_durations_against_default_length() {
    let input = chars(JIG);
    let tune = tune_ast_three::read_from_lexer(Lexer::new(&input));
    let durations: Vec<FractionalDuration> = tune.voices[0]
        .iter()
        .filter_map(|t| match t {
            T::Note(Note(_, d)) => Some(*d),
            _ => None,
        })
        .collect();
    assert_eq!(
        durations,
        vec![
            FractionalDuration(1, 4),
            FractionalDuration(1, 8),
            FractionalDuration(1, 16),
            FractionalDuration(1, 16),
            FractionalDuration(1, 8),
        ]
    );
    // The L: field itself is not kept.
    assert!(!tune.prelude.iter().any(|t| matches!(t, T::DefaultNoteLength(_))));
}

#[test]
fn tune_without_key_has_empty_prelude() {
    let input = chars("T:Only a title\n");
    let tune = tune_ast_three::read_from_lexer(Lexer::new(&input));
    assert_eq!(tune.prelude.len(), 0);
    assert_eq!(tune.voices, vec![vec![T::Title("Only a title".to_string())]]);
    let empty = Tune::new();
    assert!(empty.prelude.is_empty() && empty.voices.is_empty());
}

#[test]
fn features_of_a_tune() {
    let tune = abc_to_ast(&JIG.to_string());
    assert_eq!(
        extract_all_features(&tune),
        pairs(&[
            ("key", "G"),
            ("mode", "Dorian"),
            ("key-signature", "G-Dorian"),
            ("metre", "6/8"),
            ("metre-beats", "6"),
            ("rhythm", "jig"),
        ])
    );
    assert_eq!(ast_to_features(&tune), extract_all_features(&tune));
    let mut keys = vec![("x".to_string(), "y".to_string())];
    key_signature(&tune, &mut keys);
    assert_eq!(keys.len(), 4);
    let mut times = vec![];
    time_signature(&tune, &mut times);
    assert_eq!(times, pairs(&[("metre", "6/8"), ("metre-beats", "6")]));
    let mut rhythms = vec![];
    rhythm(&tune, &mut rhythms);
    assert_eq!(rhythms, pairs(&[("rhythm", "jig")]));
}

#[test]
fn pitch_class_and_mode_names() {
    let p = PitchClass {
        diatonic_pitch_class: DiatonicPitchClass::F,
        accidental: Some(abctool::music::Accidental::Sharp),
    };
    assert_eq!(p.to_string(), "F#");
    assert_eq!(Mode::Mixolydian.to_string(), "Mixolydian");
}

#[test]
fn pitches_and_intervals() {
    let tune = abc_to_ast(&"K:C\nCEG c".to_string());
    let pitches = ast_to_pitches(&tune);
    assert_eq!(pitches, vec![60, 64, 67, 72]);
    assert_eq!(pitches_to_intervals(&pitches), vec![4, 3, 5]);
    assert_eq!(pitches_to_intervals(&vec![]), Vec::<i16>::new());
    assert_eq!(pitches_to_intervals(&vec![70]), Vec::<i16>::new());
    let seq = PitchSequence::from_pitches(&vec![72, 60]);
    assert_eq!(IntervalSequence::from_pitch_sequence(&seq).intervals, vec![-12]);
    assert_eq!(PitchSequence::from_ast(&tune).pitches, pitches);
}

#[test]
fn pitches_by_tune_id() {
    let mut tunes = HashMap::new();
    tunes.insert(3u32, abc_to_ast(&"K:C\nCD".to_string()));
    tunes.insert(9u32, abc_to_ast(&"K:C\nc".to_string()));
    let pitches = ast_to_pitches_s(&tunes);
    assert_eq!(pitches.len(), 2);
    assert_eq!(pitches[&3], vec![60, 62]);
    assert_eq!(pitches[&9], vec![72]);
    let intervals = pitches_to_intervals_s(&pitches);
    assert_eq!(intervals[&3], vec![2]);
    assert_eq!(intervals[&9], Vec::<i16>::new());
}

#[test]
fn header_ast_collects_headers_and_errors() {
    let input = chars("T:Title\nM:6/\nC:Composer\nM:2/4\nK:G\n");
    let mut ast = TuneAst::new();
    tune_ast::read_from_lexer(Lexer::new(&input), &mut ast);
    assert_eq!(ast.num_errors(), 1);
    let mut again = TuneAst::new();
    tune_ast::read_from_lexer(Lexer::new(&chars("T:A\n")), &mut again);
    assert_eq!(again.num_errors(), 0);
}

#[test]
fn sequential_prelude() {
    let input = chars("T:Road\nR:reel\nK:D\nABc|\n");
    let tune = tune_ast_two::read_from_lexer(Lexer::new(&input));
    assert_eq!(tune.prelude.len(), 2);
    assert!(matches!(&tune.prelude[0], SequentialEntity::Title(t) if t == "Road"));
    assert!(matches!(tune.prelude[1], SequentialEntity::KeySignature(_, Mode::Major)));
    assert!(tune.sections.is_empty());
    assert!(tune.non_sequential_entities.is_empty());
    let section = tune_ast_two::Section::new();
    assert!(!section.repeat && section.main.is_empty() && section.n_time_bars.is_empty());
    let _bar = tune_ast_two::Bar::new();
    let _pitch = Pitch {
        pitch_class: PitchClass {
            diatonic_pitch_class: DiatonicPitchClass::A,
            accidental: None,
        },
        octave: 0,
    };
}

#[test]
fn models_of_many_tunes() {
    let mut intervals = HashMap::new();
    intervals.insert(2u32, vec![1i16, 2, 3, 4, 5, 6]);
    intervals.insert(5u32, vec![1i16, 2, 3]);
    let vsm = intervals_to_binary_vsm(&intervals);
    assert_eq!(vsm.vsm.get_top_id(), 5);
    assert_eq!(vsm.vsm.get_bit_capacity(), 16127);
    assert_eq!(vsm.vsm.term_count(), 2);
    assert_eq!(vsm.vsm.exact_term_ids(2).len(), 2);
    assert!(vsm.vsm.exact_term_ids(5).is_empty());

    let mut tunes = HashMap::new();
    tunes.insert(1u32, abc_to_ast(&JIG.to_string()));
    tunes.insert(3u32, abc_to_ast(&"K:D\nAB".to_string()));
    let features = asts_to_features_s(&tunes);
    assert_eq!(features.vsm.get_top_id(), 3);
    assert_eq!(features.vsm.get_bit_capacity(), 512);
    assert_eq!(features.vsm.exact_term_ids(1).len(), 6);
    assert_eq!(features.vsm.exact_term_ids(3).len(), 3);
    let all: HashMap<String, Vec<String>> = features.all_features().into_iter().collect();
    assert_eq!(all["key"], vec!["D".to_string(), "G".to_string()]);
    assert_eq!(all["mode"], vec!["Dorian".to_string(), "Major".to_string()]);
}
