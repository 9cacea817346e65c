//! Features of a tune for search and faceting: its key, time signature and rhythm, each as a
//! pair of feature type and value.

use vstd::prelude::*;
use crate::abc_lexer::{T, TextField, TokenView, token_views};
use crate::chars::{decimal_string, push_str, u32_to_string};
use crate::music::{mode_text, pitch_class_text};
use crate::tune_ast_three::{Tune, TuneView};

verus! {

/// The kinds of feature read from a tune.
#[derive(Clone, Copy)]
pub enum FeatureKind {
    KeySignature,
    TimeSignature,
    Rhythm,
}

/// Features as pairs of character sequences.
pub open spec fn feature_views(v: Seq<(String, String)>) -> Seq<(Seq<char>, Seq<char>)> {
    v.map_values(|p: (String, String)| (p.0@, p.1@))
}

/// The features of one kind that a token gives: a key signature gives its key, mode and both
/// together; a time signature gives itself and its number of beats; a rhythm field gives its
/// text.
pub open spec fn token_features(kind: FeatureKind, t: TokenView) -> Seq<(Seq<char>, Seq<char>)> {
    match kind {
        FeatureKind::KeySignature => match t {
            TokenView::KeySignature(p, m) => seq![
                ("key"@, pitch_class_text(p)),
                ("mode"@, mode_text(m)),
                ("key-signature"@, pitch_class_text(p) + "-"@ + mode_text(m)),
            ],
            _ => seq![],
        },
        FeatureKind::TimeSignature => match t {
            TokenView::Metre(n, d) => seq![
                ("metre"@, decimal_string(n as nat) + "/"@ + decimal_string(d as nat)),
                ("metre-beats"@, decimal_string(n as nat)),
            ],
            _ => seq![],
        },
        FeatureKind::Rhythm => match t {
            TokenView::Text(TextField::Rhythm, v) => seq![("rhythm"@, v)],
            _ => seq![],
        },
    }
}

/// The features of one kind that a sequence of tokens gives, in order.
pub open spec fn sequence_features(kind: FeatureKind, ts: Seq<TokenView>) -> Seq<
    (Seq<char>, Seq<char>),
>
    decreases ts.len(),
{
    if ts.len() == 0 {
        seq![]
    } else {
        sequence_features(kind, ts.drop_last()) + token_features(kind, ts.last())
    }
}

/// The features of one kind that the voices give, voice after voice.
pub open spec fn voices_features(kind: FeatureKind, vs: Seq<Seq<TokenView>>) -> Seq<
    (Seq<char>, Seq<char>),
>
    decreases vs.len(),
{
    if vs.len() == 0 {
        seq![]
    } else {
        voices_features(kind, vs.drop_last()) + sequence_features(kind, vs.last())
    }
}

/// The features of one kind of a tune: from its prelude, then from its voices.
pub open spec fn tune_features(kind: FeatureKind, t: TuneView) -> Seq<(Seq<char>, Seq<char>)> {
    sequence_features(kind, t.prelude) + voices_features(kind, t.voices)
}

/// All the features of a tune: key, then time signature, then rhythm.
pub open spec fn all_tune_features(t: TuneView) -> Seq<(Seq<char>, Seq<char>)> {
    tune_features(FeatureKind::KeySignature, t) + tune_features(FeatureKind::TimeSignature, t)
        + tune_features(FeatureKind::Rhythm, t)
}

/// Append a feature.
fn push_feature(result: &mut Vec<(String, String)>, feature_type: &str, value: String)
    ensures
        feature_views(final(result)@) == feature_views(old(result)@).push((feature_type@, value@)),
{
    let ghost before = result@;
    result.push((feature_type.to_owned(), value));
    assert(feature_views(result@) =~= feature_views(before).push((feature_type@, value@)));
}

/// Append the features of one kind that a token gives.
fn push_token_features(kind: FeatureKind, token: &T, result: &mut Vec<(String, String)>)
    ensures
        feature_views(final(result)@) == feature_views(old(result)@) + token_features(kind, token@),
{
    let ghost before = feature_views(result@);
    match kind {
        FeatureKind::KeySignature => match token {
            T::KeySignature(pitch_class, mode) => {
                push_feature(result, "key", pitch_class.to_string());
                push_feature(result, "mode", mode.to_string());
                let mut both = pitch_class.to_string();
                push_str(&mut both, "-");
                let mode_name = mode.to_string();
                push_str(&mut both, mode_name.as_str());
                push_feature(result, "key-signature", both);
            },
            _ => {},
        },
        FeatureKind::TimeSignature => match token {
            T::Metre(numerator, denominator) => {
                let mut metre = u32_to_string(*numerator);
                push_str(&mut metre, "/");
                let lower = u32_to_string(*denominator);
                push_str(&mut metre, lower.as_str());
                push_feature(result, "metre", metre);
                push_feature(result, "metre-beats", u32_to_string(*numerator));
            },
            _ => {},
        },
        FeatureKind::Rhythm => match token {
            // Not normalised: the text as supplied in the ABC.
            T::Rhythm(value) => {
                push_feature(result, "rhythm", value.clone());
            },
            _ => {},
        },
    }
    assert(feature_views(result@) =~= before + token_features(kind, token@));
}

/// Append the features of one kind that a sequence of tokens gives.
fn push_sequence_features(kind: FeatureKind, tokens: &Vec<T>, result: &mut Vec<(String, String)>)
    ensures
        feature_views(final(result)@) == feature_views(old(result)@) + sequence_features(
            kind,
            token_views(tokens@),
        ),
{
    let ghost ts = token_views(tokens@);
    let ghost before = feature_views(result@);
    let mut k: usize = 0;
    assert(ts.take(0) =~= Seq::<TokenView>::empty());
    assert(before + Seq::<(Seq<char>, Seq<char>)>::empty() =~= before);
    while k < tokens.len()
        invariant
            ts == token_views(tokens@),
            k <= tokens@.len(),
            feature_views(result@) == before + sequence_features(kind, ts.take(k as int)),
        decreases tokens@.len() - k,
    {
        push_token_features(kind, &tokens[k], result);
        assert(ts.take(k + 1).drop_last() =~= ts.take(k as int));
        assert(ts[k as int] == tokens@[k as int]@);
        k += 1;
        assert(feature_views(result@) =~= before + sequence_features(kind, ts.take(k as int)));
    }
    assert(ts.take(ts.len() as int) =~= ts);
}

/// Append the features of one kind of a tune: from its prelude, then from its voices.
fn push_tune_features(kind: FeatureKind, ast: &Tune, result: &mut Vec<(String, String)>)
    ensures
        feature_views(final(result)@) == feature_views(old(result)@) + tune_features(kind, ast@),
{
    let ghost before = feature_views(result@);
    let ghost vs = ast@.voices;
    push_sequence_features(kind, &ast.prelude, result);
    let ghost after_prelude = feature_views(result@);
    let mut i: usize = 0;
    assert(vs.take(0) =~= Seq::<Seq<TokenView>>::empty());
    assert(after_prelude + Seq::<(Seq<char>, Seq<char>)>::empty() =~= after_prelude);
    while i < ast.voices.len()
        invariant
            vs == ast@.voices,
            i <= vs.len(),
            feature_views(result@) == after_prelude + voices_features(kind, vs.take(i as int)),
        decreases vs.len() - i,
    {
        push_sequence_features(kind, &ast.voices[i], result);
        assert(vs.take(i + 1).drop_last() =~= vs.take(i as int));
        assert(vs[i as int] == token_views(ast.voices@[i as int]@));
        i += 1;
        assert(feature_views(result@) =~= after_prelude + voices_features(kind, vs.take(i as int)));
    }
    assert(vs.take(vs.len() as int) =~= vs);
    assert(feature_views(result@) =~= before + tune_features(kind, ast@));
}

/// Append the key features of a tune: for each key signature, its key, its mode, and both
/// as `key-mode`.
pub fn key_signature(ast: &Tune, result: &mut Vec<(String, String)>)
    ensures
        feature_views(final(result)@) == feature_views(old(result)@) + tune_features(
            FeatureKind::KeySignature,
            ast@,
        ),
{
    push_tune_features(FeatureKind::KeySignature, ast, result);
}

/// Append the time signature features of a tune: for each time signature, itself as `n/d`
/// and its number of beats.
pub fn time_signature(ast: &Tune, result: &mut Vec<(String, String)>)
    ensures
        feature_views(final(result)@) == feature_views(old(result)@) + tune_features(
            FeatureKind::TimeSignature,
            ast@,
        ),
{
    push_tune_features(FeatureKind::TimeSignature, ast, result);
}

/// Append the rhythm features of a tune: the text of each rhythm field.
pub fn rhythm(ast: &Tune, result: &mut Vec<(String, String)>)
    ensures
        feature_views(final(result)@) == feature_views(old(result)@) + tune_features(
            FeatureKind::Rhythm,
            ast@,
        ),
{
    push_tune_features(FeatureKind::Rhythm, ast, result);
}

/// All the features of a tune: key, then time signature, then rhythm.
pub fn extract_all_features(ast: &Tune) -> (r: Vec<(String, String)>)
    ensures
        feature_views(r@) == all_tune_features(ast@),
{
    let mut result: Vec<(String, String)> = Vec::new();
    assert(feature_views(result@) =~= Seq::<(Seq<char>, Seq<char>)>::empty());
    key_signature(ast, &mut result);
    time_signature(ast, &mut result);
    rhythm(ast, &mut result);
    assert(feature_views(result@) =~= all_tune_features(ast@));
    result
}

} // verus!
