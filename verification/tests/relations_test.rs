//! Tests of tune clusters.

use abctool::relations::Clusters;

#[test]
fn extend_groups_test() {
    // Three chunks.
    // A: (1, 2, 3) and (4, 5, 6) and (7, 8, 9)
    // B: (3, 4) and (10, 11, 12), (13, 14)
    // C: (6, 12)

    let a = vec![(1, 2), (2, 3), (4, 5), (4, 6), (7, 8), (8, 9)];
    let b = vec![(3, 4), (10, 11), (11, 12), (13, 14)];
    let c = vec![(6, 12)];

    let mut groups_a = Clusters::with_max_id(15);
    for (x, y) in a {
        groups_a.add(x, y);
    }
    let mut groups_b = Clusters::with_max_id(15);
    for (x, y) in b {
        groups_b.add(x, y);
    }
    let mut groups_c = Clusters::with_max_id(15);
    for (x, y) in c {
        groups_c.add(x, y);
    }

    // Check that all groups were built properly.
    assert_eq!(
        groups_a.get_groups(),
        vec![
            vec![1usize, 2usize, 3usize],
            vec![4usize, 5usize, 6usize],
            vec![7usize, 8usize, 9usize],
        ]
    );
    assert_eq!(
        groups_b.get_groups(),
        vec![
            vec![3usize, 4usize],
            vec![10usize, 11usize, 12usize],
            vec![13usize, 14usize],
        ]
    );
    assert_eq!(groups_c.get_groups(), vec![vec![6usize, 12usize]]);

    // Now merge them one by one
    let mut groups_all = Clusters::with_max_id(15);

    // Starting with an empty group.
    assert_eq!(groups_all.get_groups(), vec![] as Vec<Vec<usize>>);

    // Extend empty with A, should equal A.
    groups_all.extend(groups_a);
    assert_eq!(
        groups_all.get_groups(),
        vec![
            vec![1usize, 2usize, 3usize],
            vec![4usize, 5usize, 6usize],
            vec![7usize, 8usize, 9usize],
        ]
    );

    // Further extend with B.
    // The (1, 2, 3) and (3, 4) and (4, 5, 6) should have merged into (1, 2, 3, 4, 5, 6)
    // (7, 8, 9) and (10, 11, 12) and (13, 14) should be separate.
    groups_all.extend(groups_b);
    assert_eq!(
        groups_all.get_groups(),
        vec![
            vec![1usize, 2usize, 3usize, 4usize, 5usize, 6usize],
            vec![7usize, 8usize, 9usize],
            vec![10usize, 11usize, 12usize],
            vec![13usize, 14usize],
        ]
    );

    // Further extend with C, which should connect groups.
    // (1, 2, 3, 4, 5, 6, 10, 11, 12) with (13, 14) still separate
    groups_all.extend(groups_c);
    assert_eq!(
        groups_all.get_groups(),
        vec![
            vec![1usize, 2usize, 3usize, 4usize, 5usize, 6usize, 10usize, 11usize, 12usize,],
            vec![7usize, 8usize, 9usize],
            vec![13usize, 14usize],
        ]
    );
}

#[test]
fn join_groups_test() {
    let mut groups = Clusters::new();

    assert_eq!(
        groups.get_groups(),
        vec![] as Vec<Vec<usize>>,
        "Empty Clusters returns empty groups."
    );

    groups.add(1, 1);

    assert_eq!(
        groups.get_groups(),
        vec![] as Vec<Vec<usize>>,
        "Adding group self to self results in nothing."
    );

    // Add 1 -> 2

    groups.add(1, 2);

    assert_eq!(
        groups.get_groups(),
        vec![vec![1usize, 2usize]],
        "Adding 1->2 results in one with id of first."
    );

    // Add 3 -> 4

    groups.add(3, 4);

    assert_eq!(
        groups.get_groups(),
        vec![vec![1usize, 2usize], vec![3usize, 4usize]],
        "Adding unrelated pair results in a second group."
    );

    // Add 5 -> 6
    groups.add(5, 6);

    assert_eq!(
        groups.get_groups(),
        vec![
            vec![1usize, 2usize],
            vec![3usize, 4usize],
            vec![5usize, 6usize],
        ],
        "Adding unrelated pair results in a second group."
    );

    groups.add(2, 5);

    assert_eq!(
        groups.get_groups(),
        vec![vec![1usize, 2usize, 5usize, 6usize], vec![3usize, 4usize]],
        "Connecting two groups reduces the number of groups."
    );
    // Now unify the two remaining groups into one.
    groups.add(2, 4);

    assert_eq!(
        groups.get_groups(),
        vec![vec![1usize, 2usize, 3usize, 4usize, 5usize, 6usize]],
        "Connecting two groups reduces the number of groups."
    );
}
