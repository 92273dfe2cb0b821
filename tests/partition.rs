use grouper::group::Group;
use grouper::partition::{group_singletons, split_into_small_groups};

fn strings(ids: &[&str]) -> Vec<String> {
    ids.iter().map(|s| s.to_string()).collect()
}

fn contents(groups: &[Group]) -> Vec<Vec<String>> {
    groups.iter().map(|g| g.members.clone()).collect()
}

#[test]
fn split_empty_gives_nothing() {
    assert!(split_into_small_groups(Vec::new()).is_empty());
}

#[test]
fn split_one_gives_one_group() {
    assert_eq!(contents(&split_into_small_groups(strings(&["a"]))), vec![strings(&["a"])]);
}

#[test]
fn split_four_is_two_and_two() {
    let result = split_into_small_groups(strings(&["a", "b", "c", "d"]));
    assert_eq!(contents(&result), vec![strings(&["a", "b"]), strings(&["c", "d"])]);
}

#[test]
fn split_eight_is_three_three_two() {
    let result = split_into_small_groups(strings(&["a", "b", "c", "d", "e", "f", "g", "h"]));
    assert_eq!(
        contents(&result),
        vec![strings(&["a", "b", "c"]), strings(&["d", "e", "f"]), strings(&["g", "h"])]
    );
}

#[test]
fn group_singletons_takes_all_of_two_or_more() {
    let mut pending = strings(&["a", "b", "c", "d", "e"]);
    let result = group_singletons(&mut pending);
    assert!(pending.is_empty());
    assert_eq!(contents(&result), vec![strings(&["a", "b", "c"]), strings(&["d", "e"])]);
}

#[test]
fn group_singletons_leaves_a_lone_one() {
    let mut pending = strings(&["a"]);
    let result = group_singletons(&mut pending);
    assert!(result.is_empty());
    assert_eq!(pending, strings(&["a"]));
}

#[test]
fn group_singletons_four_is_two_and_two() {
    let mut pending = strings(&["a", "b", "c", "d"]);
    let result = group_singletons(&mut pending);
    assert!(pending.is_empty());
    assert_eq!(contents(&result), vec![strings(&["a", "b"]), strings(&["c", "d"])]);
}
