//! Conversions from one representation of a tune to another, intended to be chained: ABC text
//! to tune, tune to pitches, pitches to intervals, tune to features.

use vstd::prelude::*;
use std::collections::HashMap;
use crate::abc_lexer::{Lexer, lex_run, tokens_of};
use crate::chars::string_to_chars;
use crate::features::{all_tune_features, extract_all_features, feature_views};
use crate::tune_ast_three::TuneView;
use crate::pitch::{IntervalSequence, PitchSequence, intervals_of, voice_pitches, voices_in_midi_range};
use crate::relations::{FeaturesBinaryVSM, IntervalWindowBinaryVSM, interval_windows, window_ids};
use vstd::std_specs::hash::obeys_key_model;
use crate::tune_ast_three::{Tune, durations_fit, initial_note_length, read_from_lexer, tune_of};

verus! {

/// Convert an ABC tune into a tune of tokens.
pub fn abc_to_ast(content: &String) -> (r: Tune)
    requires
        content@.len() < usize::MAX,
        durations_fit(tokens_of(lex_run(content@)), initial_note_length()),
    ensures
        r@ == tune_of(tokens_of(lex_run(content@))),
{
    let chars = string_to_chars(content.as_str());
    read_from_lexer(Lexer::new(chars.as_slice()))
}

/// The pitches of a tune, as MIDI note numbers.
pub fn ast_to_pitches(ast: &Tune) -> (r: Vec<u8>)
    requires
        voices_in_midi_range(ast@.voices),
    ensures
        r@ == voice_pitches(ast@.voices),
{
    PitchSequence::from_ast(ast).pitches
}

/// The intervals between consecutive pitches.
pub fn pitches_to_intervals(inputs: &Vec<u8>) -> (r: Vec<i16>)
    ensures
        r@ == intervals_of(inputs@),
{
    IntervalSequence::from_pitch_sequence(&PitchSequence::from_pitches(inputs)).intervals
}

/// The features of a tune, as pairs of feature type and value.
pub fn ast_to_features(ast: &Tune) -> (r: Vec<(String, String)>)
    ensures
        feature_views(r@) == all_tune_features(ast@),
{
    extract_all_features(ast)
}


/// The pitches of each tune, by tune ID.
pub fn ast_to_pitches_s(inputs: &HashMap<u32, Tune>) -> (r: HashMap<u32, Vec<u8>>)
    requires
        forall|id: u32| #[trigger] inputs@.contains_key(id) ==> voices_in_midi_range(inputs@[id]@.voices),
    ensures
        r@.dom() == inputs@.dom(),
        forall|id: u32| #[trigger] r@.contains_key(id) ==> r@[id]@ == voice_pitches(inputs@[id]@.voices),
{
    broadcast use vstd::std_specs::hash::group_hash_axioms;

    let mut result: HashMap<u32, Vec<u8>> = HashMap::new();
    for entry in it: inputs.iter()
        invariant
            forall|id: u32| #[trigger] inputs@.contains_key(id) ==> voices_in_midi_range(inputs@[id]@.voices),
            forall|k: int| 0 <= k < it.seq().len() ==> #[trigger] inputs@.contains_key(*it.seq()[k].0)
                && inputs@[*it.seq()[k].0] == *it.seq()[k].1,
            forall|id: u32| #[trigger] inputs@.contains_key(id) ==> exists|k: int|
                0 <= k < it.seq().len() && *it.seq()[k].0 == id,
            forall|id: u32| #[trigger] result@.contains_key(id) <==> exists|k: int|
                0 <= k < it.index() && *it.seq()[k].0 == id,
            forall|id: u32| #[trigger] result@.contains_key(id) ==> result@[id]@ == voice_pitches(inputs@[id]@.voices),
            it.index() == it.seq().len() ==> result@.dom() == inputs@.dom(),
    {
        let (id, content) = entry;
        let ghost j = it.index() as int;
        assert(inputs@.contains_key(*it.seq()[j].0));
        assert(inputs@.contains_key(*id));
        result.insert(*id, ast_to_pitches(content));
        proof {
            assert forall|t: u32| #[trigger] result@.contains_key(t) <==> exists|k: int|
                0 <= k < j + 1 && *it.seq()[k].0 == t by {
                if t == *id {
                    assert(*it.seq()[j].0 == t);
                }
            }
            assert forall|t: u32| j + 1 == it.seq().len() implies (#[trigger] result@.dom().contains(t)
                <==> inputs@.dom().contains(t)) by {}
            assert(j + 1 == it.seq().len() ==> result@.dom() =~= inputs@.dom());
        }
    }
    result
}

/// The intervals of each pitch sequence, by tune ID.
pub fn pitches_to_intervals_s(inputs: &HashMap<u32, Vec<u8>>) -> (r: HashMap<u32, Vec<i16>>)
    ensures
        r@.dom() == inputs@.dom(),
        forall|id: u32| #[trigger] r@.contains_key(id) ==> r@[id]@ == intervals_of(inputs@[id]@),
{
    broadcast use vstd::std_specs::hash::group_hash_axioms;

    let mut result: HashMap<u32, Vec<i16>> = HashMap::new();
    for entry in it: inputs.iter()
        invariant
            forall|k: int| 0 <= k < it.seq().len() ==> #[trigger] inputs@.contains_key(*it.seq()[k].0)
                && inputs@[*it.seq()[k].0] == *it.seq()[k].1,
            forall|id: u32| #[trigger] inputs@.contains_key(id) ==> exists|k: int|
                0 <= k < it.seq().len() && *it.seq()[k].0 == id,
            forall|id: u32| #[trigger] result@.contains_key(id) <==> exists|k: int|
                0 <= k < it.index() && *it.seq()[k].0 == id,
            forall|id: u32| #[trigger] result@.contains_key(id) ==> result@[id]@ == intervals_of(inputs@[id]@),
            it.index() == it.seq().len() ==> result@.dom() == inputs@.dom(),
    {
        let (id, content) = entry;
        let ghost j = it.index() as int;
        result.insert(*id, pitches_to_intervals(content));
        proof {
            assert forall|t: u32| #[trigger] result@.contains_key(t) <==> exists|k: int|
                0 <= k < j + 1 && *it.seq()[k].0 == t by {
                if t == *id {
                    assert(*it.seq()[j].0 == t);
                }
            }
            assert forall|t: u32| j + 1 == it.seq().len() implies (#[trigger] result@.dom().contains(t)
                <==> inputs@.dom().contains(t)) by {}
            assert(j + 1 == it.seq().len() ==> result@.dom() =~= inputs@.dom());
        }
    }
    result
}

/// Bits in each tune's bitfield of the interval-window model.
pub const INTERVAL_VSM_SIZE: usize = 16127;

/// The highest key of a map that has one.
fn max_key<V>(inputs: &HashMap<u32, V>) -> (r: u32)
    requires
        inputs@.len() > 0,
    ensures
        inputs@.contains_key(r),
        forall|k: u32| #[trigger] inputs@.contains_key(k) ==> k <= r,
{
    broadcast use vstd::std_specs::hash::group_hash_axioms;

    let mut max: u32 = 0;
    let ghost dom = inputs@.dom();
    for tune_id in it: inputs.keys()
        invariant
            it.seq().unref().to_set() == dom,
            dom == inputs@.dom(),
            forall|j: int| 0 <= j < it.index() ==> *#[trigger] it.seq()[j] <= max,
            max == 0 || dom.contains(max),
            it.index() == it.seq().len() ==> forall|k: u32| #[trigger] dom.contains(k) ==> k <= max,
    {
        let ghost j = it.index() as int;
        assert(it.seq().unref()[j] == *tune_id);
        assert(it.seq().unref().to_set().contains(*tune_id));
        if *tune_id > max {
            max = *tune_id;
        }
        assert forall|k: u32| j + 1 == it.seq().len() && #[trigger] dom.contains(k) implies k
            <= max by {
            assert(it.seq().unref().to_set().contains(k));
            assert(exists|i: int| 0 <= i < it.seq().len() && *it.seq()[i] == k);
        }
    }
    proof {
        assert(dom.finite());
        if max == 0 && !dom.contains(0) {
            let k = dom.choose();
            assert(dom.contains(k));
            assert(k <= max);
        }
    }
    max
}

/// Every window of each tune's intervals is a term, recorded in that tune's document.
pub open spec fn windows_recorded(
    m: Map<u32, Vec<i16>>,
    terms: Map<[i16; 5], usize>,
    exact: Seq<Set<usize>>,
) -> bool {
    forall|id: u32, w: [i16; 5]|
        #![trigger m.contains_key(id), terms.contains_key(w)]
        #![trigger m.contains_key(id), terms[w]]
        m.contains_key(id) && interval_windows(m[id]@).contains(w@) ==> terms.contains_key(w)
            && exact[id as int].contains(terms[w])
}

/// Each document holds exactly the term IDs of its own tune's windows, and the document of an
/// ID that is no tune's is empty.
pub open spec fn windows_exact(
    m: Map<u32, Vec<i16>>,
    terms: Map<[i16; 5], usize>,
    exact: Seq<Set<usize>>,
) -> bool {
    forall|id: u32|
        (id as int) < exact.len() ==> #[trigger] exact[id as int] == if m.contains_key(id) {
            window_ids(terms, interval_windows(m[id]@))
        } else {
            Set::<usize>::empty()
        }
}

/// The term IDs of windows stay the same when the terms only grow and the windows all have
/// terms already.
proof fn lemma_window_ids_stable(
    t1: Map<[i16; 5], usize>,
    t2: Map<[i16; 5], usize>,
    ws: Seq<Seq<i16>>,
)
    requires
        forall|w: [i16; 5]| #[trigger] t1.contains_key(w) ==> t2.contains_key(w) && t2[w] == t1[w],
        forall|w: [i16; 5]| ws.contains(w@) ==> #[trigger] t1.contains_key(w),
    ensures
        window_ids(t1, ws) == window_ids(t2, ws),
{
    assert forall|x: usize| window_ids(t2, ws).contains(x) implies window_ids(t1, ws).contains(x) by {
        let w = choose|w: [i16; 5]| #[trigger] t2.contains_key(w) && ws.contains(w@) && t2[w] == x;
        assert(t1.contains_key(w));
    }
    assert forall|x: usize| window_ids(t1, ws).contains(x) implies window_ids(t2, ws).contains(x) by {
        let w = choose|w: [i16; 5]| #[trigger] t1.contains_key(w) && ws.contains(w@) && t1[w] == x;
        assert(t2.contains_key(w));
    }
    assert(window_ids(t1, ws) =~= window_ids(t2, ws));
}

/// The interval-window model of the interval sequences of tunes, by tune ID: sized for the
/// highest ID, with each window of each sequence added to its tune's document.
pub fn intervals_to_binary_vsm(inputs: &HashMap<u32, Vec<i16>>) -> (r: IntervalWindowBinaryVSM)
    requires
        inputs@.len() > 0,
        forall|id: u32| #[trigger] inputs@.contains_key(id) ==> (INTERVAL_VSM_SIZE / 64 + 1) * (id
            + 1) <= usize::MAX,
    ensures
        r.vsm.wf(),
        r.vsm.bit_capacity() == INTERVAL_VSM_SIZE,
        inputs@.contains_key(r.vsm.top_id() as u32),
        forall|id: u32| #[trigger] inputs@.contains_key(id) ==> id <= r.vsm.top_id(),
        obeys_key_model::<[i16; 5]>() ==> windows_recorded(inputs@, r.vsm.terms(), r.vsm.exact_terms()),
        r.vsm.exact_terms().len() == r.vsm.top_id() + 1,
        obeys_key_model::<[i16; 5]>() ==> windows_exact(inputs@, r.vsm.terms(), r.vsm.exact_terms()),
{
    broadcast use vstd::std_specs::hash::group_hash_axioms;

    let top_id = max_key(inputs);
    let mut result = IntervalWindowBinaryVSM::new(INTERVAL_VSM_SIZE, top_id as usize);
    for entry in it: inputs.iter()
        invariant
            forall|k: int| 0 <= k < it.seq().len() ==> #[trigger] inputs@.contains_key(*it.seq()[k].0)
                && inputs@[*it.seq()[k].0] == *it.seq()[k].1,
            inputs@.contains_key(top_id),
            forall|id: u32| #[trigger] inputs@.contains_key(id) ==> id <= top_id,
            result.vsm.wf(),
            result.vsm.top_id() == top_id,
            result.vsm.bit_capacity() == INTERVAL_VSM_SIZE,
            result.vsm.exact_terms().len() == top_id + 1,
            forall|id: u32| #[trigger] inputs@.contains_key(id) ==> exists|k: int|
                0 <= k < it.seq().len() && *it.seq()[k].0 == id,
            obeys_key_model::<[i16; 5]>() ==> forall|j: int, w: [i16; 5]|
                #![trigger it.seq()[j], result.vsm.terms().contains_key(w)]
                0 <= j < it.index() && interval_windows(it.seq()[j].1@).contains(w@)
                    ==> result.vsm.terms().contains_key(w) && result.vsm.exact_terms()[
                    *it.seq()[j].0 as int].contains(result.vsm.terms()[w]),
            obeys_key_model::<[i16; 5]>() ==> forall|id: u32|
                (id as int) <= top_id ==> #[trigger] result.vsm.exact_terms()[id as int] == if exists|k: int|
                    0 <= k < it.index() && *it.seq()[k].0 == id {
                    window_ids(result.vsm.terms(), interval_windows(inputs@[id]@))
                } else {
                    Set::<usize>::empty()
                },
            it.index() == it.seq().len() && obeys_key_model::<[i16; 5]>() ==> windows_exact(
                inputs@,
                result.vsm.terms(),
                result.vsm.exact_terms(),
            ),
            it.index() == it.seq().len() && obeys_key_model::<[i16; 5]>() ==> forall|id: u32, w: [i16; 5]|
                #![trigger inputs@.contains_key(id), result.vsm.terms().contains_key(w)]
                #![trigger inputs@.contains_key(id), result.vsm.terms()[w]]
                inputs@.contains_key(id) && interval_windows(inputs@[id]@).contains(w@)
                    ==> result.vsm.terms().contains_key(w) && result.vsm.exact_terms()[
                id as int].contains(result.vsm.terms()[w]),
    {
        let (id, content) = entry;
        let ghost i = it.index() as int;
        let ghost before = result;
        assert(inputs@.contains_key(*it.seq()[i].0));
        result.add(*id as usize, content);
        proof {
            if obeys_key_model::<[i16; 5]>() {
                assert forall|j: int, w: [i16; 5]|
                    #![trigger it.seq()[j], result.vsm.terms().contains_key(w)]
                    0 <= j < i + 1 && interval_windows(it.seq()[j].1@).contains(w@) implies
                    result.vsm.terms().contains_key(w) && result.vsm.exact_terms()[
                    *it.seq()[j].0 as int].contains(result.vsm.terms()[w]) by {
                    if j < i {
                        assert(before.vsm.terms().contains_key(w));
                        let d = *it.seq()[j].0 as int;
                        assert(inputs@.contains_key(*it.seq()[j].0));
                        assert(before.vsm.exact_terms()[d].contains(before.vsm.terms()[w]));
                        if d != *id as int {
                        } else {
                            assert(before.vsm.exact_terms()[d].subset_of(result.vsm.exact_terms()[d]));
                        }
                    }
                }
                assert forall|t: u32, w: [i16; 5]|
                    #![trigger inputs@.contains_key(t), result.vsm.terms().contains_key(w)]
                    #![trigger inputs@.contains_key(t), result.vsm.terms()[w]]
                    i + 1 == it.seq().len() && inputs@.contains_key(t) && interval_windows(
                        inputs@[t]@,
                    ).contains(w@) implies result.vsm.terms().contains_key(w)
                        && result.vsm.exact_terms()[t as int].contains(result.vsm.terms()[w]) by {
                    let j = choose|j: int| 0 <= j < it.seq().len() && *it.seq()[j].0 == t;
                    assert(inputs@[*it.seq()[j].0] == *it.seq()[j].1);
                    assert(0 <= j < i + 1);
                    assert(interval_windows(it.seq()[j].1@).contains(w@));
                    assert(result.vsm.terms().contains_key(w));
                }
                let id0 = *id;
                let w0 = interval_windows(inputs@[id0]@);
                assert(inputs@[id0] == *content);
                assert forall|d: u32|
                    (d as int) <= top_id implies #[trigger] result.vsm.exact_terms()[d as int] == if exists|k: int|
                        0 <= k < i + 1 && *it.seq()[k].0 == d {
                        window_ids(result.vsm.terms(), interval_windows(inputs@[d]@))
                    } else {
                        Set::<usize>::empty()
                    } by {
                    let was = exists|k: int| 0 <= k < i && *it.seq()[k].0 == d;
                    let wd = interval_windows(inputs@[d]@);
                    if was {
                        let k = choose|k: int| 0 <= k < i && *it.seq()[k].0 == d;
                        assert(inputs@[*it.seq()[k].0] == *it.seq()[k].1);
                        assert forall|w: [i16; 5]| wd.contains(w@) implies #[trigger] before.vsm.terms().contains_key(w) by {
                            assert(interval_windows(it.seq()[k].1@).contains(w@));
                        }
                        lemma_window_ids_stable(before.vsm.terms(), result.vsm.terms(), wd);
                    }
                    if d == id0 {
                        assert(*it.seq()[i].0 == d);
                        if was {
                            assert(result.vsm.exact_terms()[d as int] =~= window_ids(result.vsm.terms(), wd));
                        } else {
                            assert(result.vsm.exact_terms()[d as int] =~= window_ids(result.vsm.terms(), wd));
                        }
                    } else {
                        assert(result.vsm.exact_terms()[d as int] == before.vsm.exact_terms()[d as int]);
                        if !was {
                            assert(!(exists|k: int| 0 <= k < i + 1 && *it.seq()[k].0 == d));
                        }
                    }
                }
                {
                    assert forall|d: u32|
                        i + 1 == it.seq().len() && (d as int) < result.vsm.exact_terms().len() implies #[trigger] result.vsm.exact_terms()[d as int]
                        == if inputs@.contains_key(d) {
                            window_ids(result.vsm.terms(), interval_windows(inputs@[d]@))
                        } else {
                            Set::<usize>::empty()
                        } by {
                        if inputs@.contains_key(d) {
                            let k = choose|k: int| 0 <= k < it.seq().len() && *it.seq()[k].0 == d;
                        } else if exists|k: int| 0 <= k < i + 1 && *it.seq()[k].0 == d {
                            let k = choose|k: int| 0 <= k < i + 1 && *it.seq()[k].0 == d;
                            assert(inputs@.contains_key(*it.seq()[k].0));
                        }
                    }
                }
            }
        }
    }
    proof {
        if obeys_key_model::<[i16; 5]>() {
            assert(windows_recorded(inputs@, result.vsm.terms(), result.vsm.exact_terms()));
        }
    }
    result
}

/// Bits in each tune's bitfield of the features model: the features are few, so that each
/// gets a bit of its own.
pub const FEATURES_SIZE: usize = 512;

/// Each of the features is a term, recorded in document `id`.
pub open spec fn features_recorded(
    id: u32,
    fs: Seq<(Seq<char>, Seq<char>)>,
    terms: Map<(String, String), usize>,
    exact: Seq<Set<usize>>,
) -> bool {
    forall|k: int| #![trigger fs[k]] 0 <= k < fs.len() ==> feature_recorded(id, fs[k], terms, exact)
}

/// A feature is a term, recorded in document `id`.
pub open spec fn feature_recorded(
    id: u32,
    f: (Seq<char>, Seq<char>),
    terms: Map<(String, String), usize>,
    exact: Seq<Set<usize>>,
) -> bool {
    exists|p: (String, String)|
        #![trigger terms.contains_key(p)]
        terms.contains_key(p) && p.0@ == f.0 && p.1@ == f.1 && exact[id as int].contains(terms[p])
}

/// The features of each tune are terms, recorded in the tune's document.
pub open spec fn all_features_recorded(
    m: Map<u32, Tune>,
    terms: Map<(String, String), usize>,
    exact: Seq<Set<usize>>,
) -> bool {
    forall|id: u32| #[trigger] m.contains_key(id) ==> features_recorded(
        id,
        all_tune_features(m[id]@),
        terms,
        exact,
    )
}

/// Recorded features stay recorded when terms keep their IDs and the document only grows.
proof fn lemma_features_stay_recorded(
    id: u32,
    fs: Seq<(Seq<char>, Seq<char>)>,
    terms: Map<(String, String), usize>,
    exact: Seq<Set<usize>>,
    terms2: Map<(String, String), usize>,
    exact2: Seq<Set<usize>>,
)
    requires
        features_recorded(id, fs, terms, exact),
        forall|p: (String, String)| #[trigger] terms.contains_key(p) ==> terms2.contains_key(p)
            && terms2[p] == terms[p],
        exact[id as int].subset_of(exact2[id as int]),
    ensures
        features_recorded(id, fs, terms2, exact2),
{
    assert forall|k: int| 0 <= k < fs.len() implies #[trigger] feature_recorded(
        id,
        fs[k],
        terms2,
        exact2,
    ) by {
        let f = fs[k];
        assert(feature_recorded(id, f, terms, exact));
        let p = choose|p: (String, String)|
            terms.contains_key(p) && p.0@ == f.0 && p.1@ == f.1 && exact[id as int].contains(
                terms[p],
            );
        assert(terms2.contains_key(p));
    }
}

/// Document `id` may hold term `t`: `id` is a tune, and `t` is the ID of one of its own
/// features.
pub open spec fn holds_own_feature(
    m: Map<u32, Tune>,
    terms: Map<(String, String), usize>,
    id: u32,
    t: usize,
) -> bool {
    &&& m.contains_key(id)
    &&& exists|p: (String, String)|
        #![trigger terms.contains_key(p)]
        terms.contains_key(p) && terms[p] == t && all_tune_features(m[id]@).contains((p.0@, p.1@))
}

/// Each document holds only the term IDs of its own tune's features; the document of an ID
/// that is no tune's is empty.
pub open spec fn features_only_own(
    m: Map<u32, Tune>,
    terms: Map<(String, String), usize>,
    exact: Seq<Set<usize>>,
) -> bool {
    forall|id: u32, t: usize|
        (id as int) < exact.len() && #[trigger] exact[id as int].contains(t) ==> holds_own_feature(
            m,
            terms,
            id,
            t,
        )
}

/// A term held for a tune's own feature stays so when terms keep their IDs.
proof fn lemma_own_feature_stays(
    m: Map<u32, Tune>,
    t1: Map<(String, String), usize>,
    t2: Map<(String, String), usize>,
    id: u32,
    t: usize,
)
    requires
        holds_own_feature(m, t1, id, t),
        forall|p: (String, String)| #[trigger] t1.contains_key(p) ==> t2.contains_key(p) && t2[p]
            == t1[p],
    ensures
        holds_own_feature(m, t2, id, t),
{
    let p = choose|p: (String, String)|
        #![trigger t1.contains_key(p)]
        t1.contains_key(p) && t1[p] == t && all_tune_features(m[id]@).contains((p.0@, p.1@));
    assert(t2.contains_key(p));
}

/// The features model of tunes, by tune ID: sized for the highest ID, with the features of
/// each tune added to its document.
pub fn asts_to_features_s(inputs: &HashMap<u32, Tune>) -> (r: FeaturesBinaryVSM)
    requires
        inputs@.len() > 0,
        forall|id: u32| #[trigger] inputs@.contains_key(id) ==> (FEATURES_SIZE / 64 + 1) * (id + 1)
            <= usize::MAX,
    ensures
        r.vsm.wf(),
        r.vsm.bit_capacity() == FEATURES_SIZE,
        inputs@.contains_key(r.vsm.top_id() as u32),
        forall|id: u32| #[trigger] inputs@.contains_key(id) ==> id <= r.vsm.top_id(),
        obeys_key_model::<(String, String)>() ==> all_features_recorded(
            inputs@,
            r.vsm.terms(),
            r.vsm.exact_terms(),
        ),
        r.vsm.exact_terms().len() == r.vsm.top_id() + 1,
        obeys_key_model::<(String, String)>() ==> features_only_own(
            inputs@,
            r.vsm.terms(),
            r.vsm.exact_terms(),
        ),
{
    broadcast use vstd::std_specs::hash::group_hash_axioms;

    let top_id = max_key(inputs);
    let mut vsm = FeaturesBinaryVSM::new(FEATURES_SIZE, top_id as usize);
    for entry in it: inputs.iter()
        invariant
            forall|k: int| 0 <= k < it.seq().len() ==> #[trigger] inputs@.contains_key(*it.seq()[k].0)
                && inputs@[*it.seq()[k].0] == *it.seq()[k].1,
            forall|id: u32| #[trigger] inputs@.contains_key(id) ==> exists|k: int|
                0 <= k < it.seq().len() && *it.seq()[k].0 == id,
            inputs@.contains_key(top_id),
            forall|id: u32| #[trigger] inputs@.contains_key(id) ==> id <= top_id,
            vsm.vsm.wf(),
            vsm.vsm.top_id() == top_id,
            vsm.vsm.bit_capacity() == FEATURES_SIZE,
            vsm.vsm.exact_terms().len() == top_id + 1,
            obeys_key_model::<(String, String)>() ==> forall|j: int|
                0 <= j < it.index() ==> features_recorded(
                    *it.seq()[j].0,
                    all_tune_features((#[trigger] it.seq()[j]).1@),
                    vsm.vsm.terms(),
                    vsm.vsm.exact_terms(),
                ),
            it.index() == it.seq().len() && obeys_key_model::<(String, String)>()
                ==> all_features_recorded(inputs@, vsm.vsm.terms(), vsm.vsm.exact_terms()),
            obeys_key_model::<(String, String)>() ==> forall|d: u32, t: usize|
                (d as int) <= top_id && #[trigger] vsm.vsm.exact_terms()[d as int].contains(t) ==> (exists|k: int|
                    0 <= k < it.index() && *it.seq()[k].0 == d) && holds_own_feature(
                    inputs@,
                    vsm.vsm.terms(),
                    d,
                    t,
                ),
            it.index() == it.seq().len() && obeys_key_model::<(String, String)>() ==> features_only_own(
                inputs@,
                vsm.vsm.terms(),
                vsm.vsm.exact_terms(),
            ),
    {
        let (id, content) = entry;
        let ghost i = it.index() as int;
        let ghost start = vsm;
        assert(inputs@.contains_key(*it.seq()[i].0));
        let features = ast_to_features(content);
        let ghost fs = features@;
        assert(inputs@[*id] == *content);
        for f in it2: features
            invariant
                it2.seq() == fs,
                inputs@.contains_key(*id),
                inputs@[*id] == *content,
                obeys_key_model::<(String, String)>() ==> forall|t: usize|
                    #[trigger] vsm.vsm.exact_terms()[*id as int].contains(t) ==> start.vsm.exact_terms()[
                    *id as int].contains(t) || holds_own_feature(inputs@, vsm.vsm.terms(), *id, t),
                feature_views(fs) == all_tune_features(content@),
                *id <= top_id,
                vsm.vsm.wf(),
                vsm.vsm.top_id() == top_id,
                vsm.vsm.bit_capacity() == FEATURES_SIZE,
                vsm.vsm.exact_terms().len() == top_id + 1,
                forall|d: int| 0 <= d < top_id + 1 && d != *id
                    ==> #[trigger] vsm.vsm.exact_terms()[d] == start.vsm.exact_terms()[d],
                start.vsm.exact_terms()[*id as int].subset_of(vsm.vsm.exact_terms()[*id as int]),
                obeys_key_model::<(String, String)>() ==> forall|p: (String, String)|
                    #[trigger] start.vsm.terms().contains_key(p) ==> vsm.vsm.terms().contains_key(p)
                        && vsm.vsm.terms()[p] == start.vsm.terms()[p],
                obeys_key_model::<(String, String)>() ==> forall|k: int|
                    0 <= k < it2.index() ==> vsm.vsm.terms().contains_key(#[trigger] fs[k])
                        && vsm.vsm.exact_terms()[*id as int].contains(vsm.vsm.terms()[fs[k]]),
        {
            let ghost before = vsm;
            let ghost k = it2.index() as int;
            let (feature_type, value) = f;
            vsm.add(*id as usize, feature_type, value);
            proof {
                assert(fs[k] == (feature_type, value));
                if obeys_key_model::<(String, String)>() {
                    assert forall|p: (String, String)| #[trigger] before.vsm.terms().contains_key(p)
                        implies vsm.vsm.terms().contains_key(p) && vsm.vsm.terms()[p]
                        == before.vsm.terms()[p] by {}
                    assert forall|q: int| 0 <= q < k + 1 implies vsm.vsm.terms().contains_key(
                        #[trigger] fs[q],
                    ) && vsm.vsm.exact_terms()[*id as int].contains(vsm.vsm.terms()[fs[q]]) by {
                        if q < k {
                            assert(before.vsm.terms().contains_key(fs[q]));
                        }
                    }
                    let p = (feature_type, value);
                    assert(feature_views(fs)[k] == (p.0@, p.1@));
                    assert(all_tune_features(content@).contains((p.0@, p.1@)));
                    assert(vsm.vsm.terms().contains_key(p));
                    assert forall|t: usize|
                        #[trigger] vsm.vsm.exact_terms()[*id as int].contains(t) implies start.vsm.exact_terms()[
                        *id as int].contains(t) || holds_own_feature(inputs@, vsm.vsm.terms(), *id, t) by {
                        if t == vsm.vsm.terms()[p] {
                            assert(holds_own_feature(inputs@, vsm.vsm.terms(), *id, t));
                        } else {
                            assert(before.vsm.exact_terms()[*id as int].contains(t));
                            if !start.vsm.exact_terms()[*id as int].contains(t) {
                                lemma_own_feature_stays(inputs@, before.vsm.terms(), vsm.vsm.terms(), *id, t);
                            }
                        }
                    }
                }
            }
        }
        proof {
            if obeys_key_model::<(String, String)>() {
                let ghost afs = all_tune_features(content@);
                assert forall|k: int| 0 <= k < afs.len() implies #[trigger] feature_recorded(
                    *id,
                    afs[k],
                    vsm.vsm.terms(),
                    vsm.vsm.exact_terms(),
                ) by {
                    assert(feature_views(fs)[k] == afs[k]);
                    assert(vsm.vsm.terms().contains_key(fs[k]));
                }
                assert(features_recorded(*id, afs, vsm.vsm.terms(), vsm.vsm.exact_terms()));
                assert forall|j: int| 0 <= j < i + 1 implies features_recorded(
                    *it.seq()[j].0,
                    all_tune_features((#[trigger] it.seq()[j]).1@),
                    vsm.vsm.terms(),
                    vsm.vsm.exact_terms(),
                ) by {
                    if j < i {
                        let d = *it.seq()[j].0;
                        assert(inputs@.contains_key(d));
                        lemma_features_stay_recorded(
                            d,
                            all_tune_features(it.seq()[j].1@),
                            start.vsm.terms(),
                            start.vsm.exact_terms(),
                            vsm.vsm.terms(),
                            vsm.vsm.exact_terms(),
                        );
                    }
                }
                assert forall|d: u32, t: usize|
                    (d as int) <= top_id && #[trigger] vsm.vsm.exact_terms()[d as int].contains(t) implies (exists|k: int|
                        0 <= k < i + 1 && *it.seq()[k].0 == d) && holds_own_feature(
                        inputs@,
                        vsm.vsm.terms(),
                        d,
                        t,
                    ) by {
                    if d == *id {
                        assert(*it.seq()[i].0 == d);
                        if start.vsm.exact_terms()[d as int].contains(t) {
                            lemma_own_feature_stays(inputs@, start.vsm.terms(), vsm.vsm.terms(), d, t);
                        }
                    } else {
                        assert(vsm.vsm.exact_terms()[d as int] == start.vsm.exact_terms()[d as int]);
                        lemma_own_feature_stays(inputs@, start.vsm.terms(), vsm.vsm.terms(), d, t);
                    }
                }
                assert forall|d: u32, t: usize|
                    i + 1 == it.seq().len() && (d as int) < vsm.vsm.exact_terms().len()
                        && #[trigger] vsm.vsm.exact_terms()[d as int].contains(t) implies holds_own_feature(
                        inputs@,
                        vsm.vsm.terms(),
                        d,
                        t,
                    ) by {
                    assert((d as int) <= top_id);
                }
                assert forall|t: u32| i + 1 == it.seq().len() && #[trigger] inputs@.contains_key(t)
                    implies features_recorded(
                    t,
                    all_tune_features(inputs@[t]@),
                    vsm.vsm.terms(),
                    vsm.vsm.exact_terms(),
                ) by {
                    let j = choose|j: int| 0 <= j < it.seq().len() && *it.seq()[j].0 == t;
                    assert(inputs@[*it.seq()[j].0] == *it.seq()[j].1);
                    assert(features_recorded(
                        *it.seq()[j].0,
                        all_tune_features(it.seq()[j].1@),
                        vsm.vsm.terms(),
                        vsm.vsm.exact_terms(),
                    ));
                }
            }
        }
    }
    vsm
}

} // verus!
