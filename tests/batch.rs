use grouper::batch::reorganize_batch_groups;
use grouper::group::Group;

fn block(ids: &[&str]) -> Group {
    let mut g = Group::new();
    g.members = ids.iter().map(|s| s.to_string()).collect();
    g
}

fn contents(groups: &[Group]) -> Vec<Vec<String>> {
    groups.iter().map(|g| g.members.clone()).collect()
}

fn expected(groups: &[&[&str]]) -> Vec<Vec<String>> {
    groups.iter().map(|g| g.iter().map(|s| s.to_string()).collect()).collect()
}

#[test]
fn test_reorganize_batch_groups_preserves_groups() {
    let mut group1 = Group::new();
    group1.members = vec!["A".to_string(), "B".to_string(), "C".to_string()];

    let mut group2 = Group::new();
    group2.members = vec!["D".to_string(), "E".to_string()];

    let groups = vec![group1, group2];
    let result = reorganize_batch_groups(groups);

    assert_eq!(result.len(), 2);
    assert_eq!(result[0].members.len(), 3);
    assert_eq!(result[1].members.len(), 2);
}

#[test]
fn test_reorganize_batch_groups_merges_singleton() {
    let mut group1 = Group::new();
    group1.members = vec!["A".to_string(), "B".to_string()];

    let mut group2 = Group::new();
    group2.members = vec!["C".to_string()];

    let groups = vec![group1, group2];
    let result = reorganize_batch_groups(groups);

    // The group of one joins the group before it.
    assert_eq!(result.len(), 1);
    assert_eq!(result[0].members.len(), 3);
    assert!(result[0].members.contains(&"A".to_string()));
    assert!(result[0].members.contains(&"B".to_string()));
    assert!(result[0].members.contains(&"C".to_string()));
}

#[test]
fn test_reorganize_batch_groups_singleton_at_start() {
    let mut group1 = Group::new();
    group1.members = vec!["A".to_string()];

    let mut group2 = Group::new();
    group2.members = vec!["B".to_string(), "C".to_string()];

    let groups = vec![group1, group2];
    let result = reorganize_batch_groups(groups);

    // The group of one at the start joins the group after it.
    assert_eq!(result.len(), 1);
    assert_eq!(result[0].members.len(), 3);
}

#[test]
fn test_reorganize_batch_groups_multiple_singletons() {
    let mut group1 = Group::new();
    group1.members = vec!["A".to_string(), "B".to_string()];

    let mut group2 = Group::new();
    group2.members = vec!["C".to_string()];

    let mut group3 = Group::new();
    group3.members = vec!["D".to_string()];

    let groups = vec![group1, group2, group3];
    let result = reorganize_batch_groups(groups);

    // [A, B] is kept; the two groups of one form [C, D].
    assert_eq!(result.len(), 2);
    assert_eq!(result[0].members.len(), 2);
    assert!(result[0].members.contains(&"A".to_string()));
    assert!(result[0].members.contains(&"B".to_string()));
    assert_eq!(result[1].members.len(), 2);
    assert!(result[1].members.contains(&"C".to_string()));
    assert!(result[1].members.contains(&"D".to_string()));
}

#[test]
fn test_reorganize_batch_groups_splits_large_group() {
    let mut group1 = Group::new();
    group1.members = vec!["A".to_string(), "B".to_string(), "C".to_string(), "D".to_string()];

    let groups = vec![group1];
    let result = reorganize_batch_groups(groups);

    // Four become two and two.
    assert_eq!(result.len(), 2);
    assert_eq!(result[0].members.len(), 2);
    assert_eq!(result[1].members.len(), 2);
}

#[test]
fn test_reorganize_batch_groups_splits_five_person_group() {
    let mut group1 = Group::new();
    group1.members = vec![
        "A".to_string(),
        "B".to_string(),
        "C".to_string(),
        "D".to_string(),
        "E".to_string(),
    ];

    let groups = vec![group1];
    let result = reorganize_batch_groups(groups);

    // Five become three and two.
    assert_eq!(result.len(), 2);
    assert_eq!(result[0].members.len(), 3);
    assert_eq!(result[1].members.len(), 2);
}

#[test]
fn test_reorganize_batch_groups_splits_seven_person_group() {
    let mut group1 = Group::new();
    group1.members = vec![
        "A".to_string(),
        "B".to_string(),
        "C".to_string(),
        "D".to_string(),
        "E".to_string(),
        "F".to_string(),
        "G".to_string(),
    ];

    let groups = vec![group1];
    let result = reorganize_batch_groups(groups);

    // Seven become three, two and two.
    assert_eq!(result.len(), 3);
    let sizes: Vec<usize> = result.iter().map(|g| g.members.len()).collect();
    assert_eq!(sizes, vec![3, 2, 2]);
}

#[test]
fn test_reorganize_batch_groups_no_single_person_groups() {
    for total in 2..=20 {
        let mut group = Group::new();
        for i in 0..total {
            group.members.push(format!("S{:03}", i));
        }
        let groups = vec![group];
        let result = reorganize_batch_groups(groups);

        for g in &result {
            assert!(
                g.members.len() >= 2,
                "Group with {} members found for total {}",
                g.members.len(),
                total
            );
            assert!(
                g.members.len() <= 3,
                "Group with {} members found for total {}",
                g.members.len(),
                total
            );
        }

        let total_after: usize = result.iter().map(|g| g.members.len()).sum();
        assert_eq!(total_after, total, "Total members should be preserved");
    }
}

#[test]
fn batch_full_groups_come_back_unchanged() {
    let result = reorganize_batch_groups(vec![block(&["a", "b", "c"]), block(&["d", "e", "f"])]);
    assert_eq!(contents(&result), expected(&[&["a", "b", "c"], &["d", "e", "f"]]));
}

#[test]
fn batch_seven_split_in_order() {
    let result = reorganize_batch_groups(vec![block(&["a", "b", "c", "d", "e", "f", "g"])]);
    assert_eq!(contents(&result), expected(&[&["a", "b", "c"], &["d", "e"], &["f", "g"]]));
}

#[test]
fn batch_pair_then_two_singletons() {
    let result = reorganize_batch_groups(vec![block(&["a", "b"]), block(&["c"]), block(&["d"])]);
    assert_eq!(contents(&result), expected(&[&["a", "b"], &["c", "d"]]));
}

#[test]
fn batch_singleton_joins_front_of_next_pair() {
    let result = reorganize_batch_groups(vec![block(&["a"]), block(&["b", "c"])]);
    assert_eq!(contents(&result), expected(&[&["a", "b", "c"]]));
}

#[test]
fn batch_singleton_before_full_group_is_resplit() {
    // The lone member waits past the full group, makes it four, and the four
    // are split as two and two.
    let result = reorganize_batch_groups(vec![block(&["a"]), block(&["b", "c", "d"])]);
    assert_eq!(contents(&result), expected(&[&["b", "c"], &["d", "a"]]));
}

#[test]
fn batch_singleton_between_full_groups() {
    let result = reorganize_batch_groups(vec![
        block(&["a", "b", "c"]),
        block(&["d"]),
        block(&["e", "f", "g"]),
    ]);
    assert_eq!(contents(&result), expected(&[&["a", "b", "c"], &["e", "f"], &["g", "d"]]));
}

#[test]
fn batch_three_singletons() {
    let result = reorganize_batch_groups(vec![block(&["a"]), block(&["b"]), block(&["c"])]);
    assert_eq!(contents(&result), expected(&[&["a", "b", "c"]]));
}

#[test]
fn batch_single_identifier_gives_no_group() {
    let result = reorganize_batch_groups(vec![block(&["a"])]);
    assert!(result.is_empty());
}

#[test]
fn batch_empty_input() {
    let result = reorganize_batch_groups(Vec::new());
    assert!(result.is_empty());
}

#[test]
fn batch_ten_is_three_three_two_two() {
    let ids: Vec<String> = (0..10).map(|i| format!("m{}", i)).collect();
    let mut g = Group::new();
    g.members = ids.clone();
    let result = reorganize_batch_groups(vec![g]);
    let sizes: Vec<usize> = result.iter().map(|g| g.members.len()).collect();
    assert_eq!(sizes, vec![3, 3, 2, 2]);
    let flat: Vec<String> = result.iter().flat_map(|g| g.members.clone()).collect();
    assert_eq!(flat, ids);
}

#[test]
fn batch_mixed_blocks_keep_every_member() {
    let groups = vec![
        block(&["a"]),
        block(&["b", "c", "d", "e"]),
        block(&["f"]),
        block(&["g"]),
        block(&["h", "i"]),
        block(&["j"]),
    ];
    let result = reorganize_batch_groups(groups);
    let mut flat: Vec<String> = result.iter().flat_map(|g| g.members.clone()).collect();
    flat.sort();
    let want: Vec<String> = "abcdefghij".chars().map(|c| c.to_string()).collect();
    assert_eq!(flat, want);
    for g in &result {
        assert!(g.members.len() >= 2 && g.members.len() <= 3);
    }
}

#[test]
fn batch_empty_group_is_dropped() {
    let result = reorganize_batch_groups(vec![block(&["a", "b"]), block(&[])]);
    assert_eq!(contents(&result), expected(&[&["a", "b"]]));
}

#[test]
fn batch_lone_member_after_empty_group_joins_earlier_group() {
    let result = reorganize_batch_groups(vec![block(&["a", "b"]), block(&[]), block(&["c"])]);
    assert_eq!(contents(&result), expected(&[&["a", "b", "c"]]));
}

#[test]
fn batch_empty_group_and_single_identifier_give_no_group() {
    let result = reorganize_batch_groups(vec![block(&[]), block(&["a"])]);
    assert!(result.is_empty());
}
