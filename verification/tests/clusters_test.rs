//! Tests of clusters' stored form and queries, and of the binary vector space models.

use abctool::relations::{
    count_bits, count_ones, BinaryVSM, Clusters, FeaturesBinaryVSM, IntervalWindowBinaryVSM,
    GROWTH_OVERHEAD,
};
use std::collections::{HashMap, HashSet};

#[test]
fn clusters_round_trip_through_bytes() {
    let mut clusters = Clusters::with_max_id(5);
    clusters.add(1, 3);
    clusters.add(4, 3);
    let bytes = clusters.to_bytes();
    assert_eq!(bytes.len(), 6 * 8);
    // Tune 1 names its group; tune 0 is in none.
    assert_eq!(&bytes[8..16], &[1, 0, 0, 0, 0, 0, 0, 0]);
    assert_eq!(&bytes[0..7], &[0xFF; 7]);
    let back = Clusters::from_bytes(&bytes);
    assert_eq!(back.len(), 6);
    for a in 0..6 {
        // The unassigned marker does not survive: its top byte is stored shifted by four.
        if a == 1 || a == 3 || a == 4 {
            assert_eq!(back.get(a), clusters.get(a));
        }
    }
    assert_eq!(back.get_groups(), vec![vec![1, 3, 4]]);
}

#[test]
fn unassigned_marker_is_stored_with_a_shifted_top_byte() {
    let clusters = Clusters::with_max_id(0);
    let bytes = clusters.to_bytes();
    assert_eq!(bytes, vec![0xFF, 0xFF, 0xFF, 0xFF, 0xFF, 0xFF, 0xFF, 0xF0]);
    let back = Clusters::from_bytes(&bytes);
    assert_eq!(back.get(0), Some(0xF0FF_FFFF_FFFF_FFFF));
}

#[test]
fn clusters_from_bytes_ignores_trailing_bytes() {
    let bytes = [2, 0, 0, 0, 0, 0, 0, 0, 9, 9, 9];
    let clusters = Clusters::from_bytes(&bytes);
    assert_eq!(clusters.len(), 1);
    assert_eq!(clusters.get(0), Some(2));
}

#[test]
fn cluster_queries() {
    let mut clusters = Clusters::new();
    assert_eq!(clusters.len(), GROWTH_OVERHEAD);
    assert_eq!(clusters.num_groups(), 0);
    clusters.add(2, 5);
    clusters.add(7, 8);
    clusters.add(8, 9);
    assert_eq!(clusters.num_groups(), 2);
    assert_eq!(clusters.group_ids(), vec![2, 7]);
    assert_eq!(clusters.get_members(2), vec![2, 5]);
    assert_eq!(clusters.get_members(7), vec![7, 8, 9]);
    assert_eq!(clusters.get(9), Some(7));
    assert_eq!(clusters.get(3), None);
    assert_eq!(clusters.get(1_000_000), None);
    assert_eq!(clusters.next_ungrouped_after(1), Some(3));
    assert_eq!(clusters.next_ungrouped_after(6), Some(10));
    // Joining two groups names the result after its lowest member.
    clusters.add(9, 5);
    assert_eq!(clusters.group_ids(), vec![2]);
    assert_eq!(clusters.get_members(2), vec![2, 5, 7, 8, 9]);
}

#[test]
fn cluster_groups_are_named_by_their_lowest_member() {
    let mut clusters = Clusters::new();
    clusters.add(2, 1);
    assert_eq!(clusters.get(2), Some(1));
    assert_eq!(clusters.group_ids(), vec![1]);
    // A lower tune joining a group renames the whole group.
    clusters.add(2, 0);
    assert_eq!(clusters.get(1), Some(0));
    assert_eq!(clusters.get_members(0), vec![0, 1, 2]);
    // A higher tune joining keeps the name.
    clusters.add(7, 1);
    assert_eq!(clusters.get(7), Some(0));
    assert_eq!(clusters.group_ids(), vec![0]);
    // Tunes left out keep their place.
    assert_eq!(clusters.get(3), None);
}

#[test]
fn cluster_add_keeps_old_groups_and_joins_the_pair() {
    let mut clusters = Clusters::with_max_id(20);
    clusters.add(3, 4);
    clusters.add(10, 11);
    clusters.add(15, 16);
    clusters.add(11, 4);
    assert_eq!(clusters.get_groups(), vec![vec![3, 4, 10, 11], vec![15, 16]]);
    for t in [3, 4, 10, 11].iter() {
        assert_eq!(clusters.get(*t), Some(3));
    }
    assert_eq!(clusters.get(15), clusters.get(16));
    assert_ne!(clusters.get(15), clusters.get(3));
}

#[test]
fn cluster_add_trivial_pairs_change_nothing() {
    let mut clusters = Clusters::with_max_id(3);
    clusters.add(2, 2);
    clusters.add(usize::MAX, 1);
    assert_eq!(clusters.num_groups(), 0);
    assert_eq!(clusters.len(), 4);
}

#[test]
fn cluster_add_grows_to_cover_the_ids() {
    let mut clusters = Clusters::with_max_id(3);
    clusters.add(1, 10);
    assert_eq!(clusters.len(), 10 + 1 + GROWTH_OVERHEAD);
    assert_eq!(clusters.get(10), Some(1));
    assert_eq!(clusters.next_ungrouped_after(9), Some(11));
}

#[test]
fn binary_vsm_terms_and_bits() {
    let mut vsm: BinaryVSM<String> = BinaryVSM::new(64, 2);
    assert_eq!(vsm.get_bit_capacity(), 64);
    assert_eq!(vsm.get_word_capacity(), 2);
    assert_eq!(vsm.get_top_id(), 2);
    assert_eq!(vsm.get_term_id("a".to_string()), 0);
    assert_eq!(vsm.get_term_id("b".to_string()), 1);
    assert_eq!(vsm.get_term_id("a".to_string()), 0);
    assert_eq!(vsm.term_count(), 2);
    assert_eq!(vsm.get_word_bit(70), (1, 6));
    assert_eq!(vsm.term_for_id(1), Some(&"b".to_string()));
    assert_eq!(vsm.term_for_id(5), None);

    vsm.add(1, "b".to_string());
    vsm.add(1, "c".to_string());
    // Tune 1's words are words 2 and 3; terms 1 and 2 set bits 1 and 2 of word 2.
    assert_eq!(vsm.word_at(2), 0b110);
    assert_eq!(vsm.word_at(0), 0);
    assert_eq!(vsm.word_at(3), 0);
    assert!(vsm.exact_term_ids(1).contains(&1) && vsm.exact_term_ids(1).contains(&2));
    assert!(vsm.exact_term_ids(0).is_empty());
    assert_eq!(vsm.term_ids().get("c"), Some(&2));

    // A tune beyond the top is ignored.
    vsm.add(3, "d".to_string());
    assert_eq!(vsm.term_count(), 3);
    assert_eq!(vsm.term_ids().get("d"), None);
}

#[test]
fn binary_vsm_wraps_term_ids_to_the_bitfield() {
    let mut vsm: BinaryVSM<u32> = BinaryVSM::new(2, 0);
    vsm.add(0, 10);
    vsm.add(0, 11);
    vsm.add(0, 12);
    // Term 2 wraps to bit 0.
    assert_eq!(vsm.word_at(0), 0b11);
    assert_eq!(vsm.exact_term_ids(0).len(), 3);
}

#[test]
fn interval_windows_are_terms() {
    assert_eq!(
        IntervalWindowBinaryVSM::intervals_to_terms(&[1, 2, 3, 4, 5, 6]),
        vec![[1, 2, 3, 4, 5], [2, 3, 4, 5, 6]]
    );
    assert!(IntervalWindowBinaryVSM::intervals_to_terms(&[1, 2, 3, 4]).is_empty());
    let mut vsm = IntervalWindowBinaryVSM::new(128, 1);
    vsm.add(1, &vec![1, 2, 3, 4, 5, 6, 1, 2, 3, 4, 5]);
    // Seven windows, of which one repeats.
    assert_eq!(vsm.vsm.term_count(), 6);
    assert_eq!(vsm.vsm.exact_term_ids(1).len(), 6);
}

#[test]
fn features_are_terms() {
    let mut vsm = FeaturesBinaryVSM::new(64, 0);
    vsm.add(0, "key".to_string(), "G".to_string());
    vsm.add(0, "mode".to_string(), "Major".to_string());
    vsm.add(0, "key".to_string(), "G".to_string());
    assert_eq!(vsm.vsm.term_count(), 2);
    assert_eq!(vsm.vsm.word_at(0), 0b11);
}

#[test]
fn all_features_grouped_by_type_in_order() {
    let mut vsm = FeaturesBinaryVSM::new(64, 2);
    vsm.add(0, "mode".to_string(), "Major".to_string());
    vsm.add(1, "key".to_string(), "G".to_string());
    vsm.add(2, "key".to_string(), "D".to_string());
    vsm.add(2, "mode".to_string(), "Dorian".to_string());
    vsm.add(1, "key".to_string(), "A".to_string());
    let all: HashMap<String, Vec<String>> = vsm.all_features().into_iter().collect();
    assert_eq!(vsm.all_features().len(), 2);
    assert_eq!(all["key"], vec!["A".to_string(), "D".to_string(), "G".to_string()]);
    assert_eq!(all["mode"], vec!["Dorian".to_string(), "Major".to_string()]);
    assert!(FeaturesBinaryVSM::new(64, 0).all_features().is_empty());
}

#[test]
fn facets_count_the_documents_holding_each_feature() {
    let mut vsm = FeaturesBinaryVSM::new(64, 3);
    vsm.add(0, "key".to_string(), "G".to_string());
    vsm.add(1, "key".to_string(), "G".to_string());
    vsm.add(2, "key".to_string(), "D".to_string());
    vsm.add(1, "mode".to_string(), "Major".to_string());
    vsm.add(3, "key".to_string(), "A".to_string());
    let facets: HashMap<String, Vec<(String, u32)>> =
        vsm.facet_features_for_resultset(&vec![0, 1, 2]).into_iter().collect();
    assert_eq!(vsm.facet_features_for_resultset(&vec![0, 1, 2]).len(), 2);
    assert_eq!(facets["key"], vec![("G".to_string(), 2), ("D".to_string(), 1)]);
    assert_eq!(facets["mode"], vec![("Major".to_string(), 1)]);
    assert!(vsm.facet_features_for_resultset(&vec![]).is_empty());
    // Every facet is a known feature.
    let all: HashMap<String, Vec<String>> = vsm.all_features().into_iter().collect();
    for (feature_type, entries) in facets.iter() {
        for (value, _) in entries {
            assert!(all[feature_type].contains(value));
        }
    }
    // Counted by position: a document given twice counts twice.
    assert_eq!(vsm.vsm.term_counts(&vec![2, 2, 3]), vec![0, 2, 0, 1]);
}

#[test]
fn bits_are_counted() {
    for x in [0u64, 1, 0b1011, u64::MAX, 1 << 63, 0x8000_0000_0000_0001] {
        assert_eq!(count_ones(x), x.count_ones());
    }
    assert_eq!(count_bits(&[0b11, u64::MAX, 0]), 66);
    assert_eq!(count_bits(&[]), 0);
}

#[test]
fn query_and_overlaps() {
    let mut vsm: BinaryVSM<String> = BinaryVSM::new(70, 2);
    vsm.add(0, "a".to_string());
    vsm.add(1, "a".to_string());
    vsm.add(1, "b".to_string());
    for i in 0..70 {
        vsm.add(2, format!("t{}", i));
    }
    // Terms a and b have IDs 0 and 1; unknown terms are ignored.
    let (words, ids) = vsm.query_terms(&["b".to_string(), "zz".to_string(), "a".to_string()]);
    assert_eq!(words, vec![0b11, 0]);
    assert_eq!(ids, [0usize, 1].into_iter().collect::<HashSet<usize>>());
    assert_eq!(vsm.words_of(1), vec![0b11, 0]);
    // Documents below the top ID: what they share with the query, and what they hold.
    assert_eq!(vsm.bitfield_overlaps(&words), vec![(1, 1), (2, 2)]);
    assert_eq!(vsm.exact_overlap(&ids, 0), 1);
    assert_eq!(vsm.exact_overlap(&ids, 1), 2);
    assert_eq!(vsm.exact_overlap(&ids, 2), 0);
    // Document 2 holds 70 terms, IDs 2 to 71, which wrap round the 70 bits.
    assert_eq!(count_bits(&vsm.words_of(2)), 70);
    assert_eq!(vsm.exact_term_ids(2).len(), 70);
}

#[test]
fn interval_window_add_records_exactly_the_window_ids() {
    let mut vsm = IntervalWindowBinaryVSM::new(128, 2);
    vsm.add(0, &vec![1, 2, 3, 4, 5, 6]);
    vsm.add(1, &vec![2, 3, 4, 5, 6, 7]);
    let mut first: Vec<usize> = vsm.vsm.exact_term_ids(0).iter().cloned().collect();
    first.sort();
    assert_eq!(first, vec![0, 1]);
    let mut second: Vec<usize> = vsm.vsm.exact_term_ids(1).iter().cloned().collect();
    second.sort();
    assert_eq!(second, vec![1, 2]);
    // A sequence too short for a window changes nothing.
    vsm.add(2, &vec![1, 2, 3, 4]);
    assert!(vsm.vsm.exact_term_ids(2).is_empty());
    assert_eq!(vsm.vsm.term_count(), 3);
}

#[test]
fn extended_clusters_keep_lowest_member_names() {
    let mut other = Clusters::with_max_id(12);
    other.add(9, 4);
    other.add(12, 11);
    let mut clusters = Clusters::with_max_id(12);
    clusters.add(11, 6);
    clusters.extend(other);
    assert_eq!(clusters.group_ids(), vec![4, 6]);
    assert_eq!(clusters.get_members(6), vec![6, 11, 12]);
    assert_eq!(clusters.get(9), Some(4));
    // A tune that names no group has no members.
    assert!(clusters.get_members(9).is_empty());
    assert_eq!(clusters.get(5), None);
}
