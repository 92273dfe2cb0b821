use grouper::intake::{Intake, LineOutcome};

fn strings(ids: &[&str]) -> Vec<String> {
    ids.iter().map(|s| s.to_string()).collect()
}

#[test]
fn interactive_closes_group_at_three() {
    let mut intake = Intake::new(false);
    assert!(matches!(intake.accept_line("S001"), LineOutcome::Added(s) if s == "S001"));
    assert!(matches!(intake.accept_line("S002"), LineOutcome::Added(_)));
    assert!(matches!(intake.accept_line("S003"), LineOutcome::Completed(s) if s == "S003"));
    assert_eq!(intake.group_count(), 1);
    assert_eq!(intake.groups[0].members, strings(&["S001", "S002", "S003"]));
    assert!(intake.current.members.is_empty());
}

#[test]
fn line_is_trimmed() {
    let mut intake = Intake::new(false);
    assert!(matches!(intake.accept_line("  S001 \t"), LineOutcome::Added(s) if s == "S001"));
    assert_eq!(intake.current.members, strings(&["S001"]));
}

#[test]
fn blank_line_in_interactive_mode_is_ignored() {
    let mut intake = Intake::new(false);
    intake.accept_line("S001");
    assert!(matches!(intake.accept_line("   "), LineOutcome::Blank));
    assert_eq!(intake.group_count(), 0);
    assert_eq!(intake.current.members, strings(&["S001"]));
}

#[test]
fn batch_blank_lines_close_groups() {
    let mut intake = Intake::new(true);
    for line in ["a", "b", "c", "d", "", "", "e"] {
        intake.accept_line(line);
    }
    assert_eq!(intake.group_count(), 1);
    assert_eq!(intake.groups[0].members, strings(&["a", "b", "c", "d"]));
    let groups = intake.finish();
    assert_eq!(groups.len(), 2);
    assert_eq!(groups[1].members, strings(&["e"]));
}

#[test]
fn batch_blank_line_without_open_group_is_blank() {
    let mut intake = Intake::new(true);
    assert!(matches!(intake.accept_line(""), LineOutcome::Blank));
    intake.accept_line("a");
    assert!(matches!(intake.accept_line(""), LineOutcome::GroupClosed));
}

#[test]
fn delete_from_current_group() {
    let mut intake = Intake::new(false);
    intake.accept_line("S001");
    intake.accept_line("S002");
    assert!(matches!(
        intake.accept_line("delete:S001"),
        LineOutcome::RemovedFromCurrent(s) if s == "S001"
    ));
    assert_eq!(intake.current.members, strings(&["S002"]));
}

#[test]
fn delete_is_case_insensitive_and_trims_identifier() {
    let mut intake = Intake::new(false);
    intake.accept_line("S001");
    assert!(matches!(
        intake.accept_line("  DeLeTe:  S001  "),
        LineOutcome::RemovedFromCurrent(s) if s == "S001"
    ));
    assert!(intake.current.members.is_empty());
}

#[test]
fn delete_from_closed_group() {
    let mut intake = Intake::new(false);
    for line in ["a", "b", "c", "d", "e", "f", "g"] {
        intake.accept_line(line);
    }
    assert!(matches!(
        intake.accept_line("delete:e"),
        LineOutcome::RemovedFromGroup(s, 1) if s == "e"
    ));
    assert_eq!(intake.groups[1].members, strings(&["d", "f"]));
    assert_eq!(intake.current.members, strings(&["g"]));
}

#[test]
fn delete_of_unknown_identifier() {
    let mut intake = Intake::new(false);
    intake.accept_line("a");
    assert!(matches!(intake.accept_line("delete:zz"), LineOutcome::NotFound(s) if s == "zz"));
    assert_eq!(intake.current.members, strings(&["a"]));
}

#[test]
fn delete_removes_first_of_duplicates() {
    let mut intake = Intake::new(true);
    for line in ["x", "y", "x"] {
        intake.accept_line(line);
    }
    intake.accept_line("delete:x");
    assert_eq!(intake.current.members, strings(&["y", "x"]));
}

#[test]
fn line_that_only_resembles_delete_is_an_identifier() {
    let mut intake = Intake::new(true);
    assert!(matches!(intake.accept_line("delete"), LineOutcome::Added(s) if s == "delete"));
    assert!(matches!(intake.accept_line("deletes:x"), LineOutcome::Added(_)));
}

#[test]
fn close_group_reports_size() {
    let mut intake = Intake::new(false);
    assert_eq!(intake.close_group(), None);
    intake.accept_line("a");
    intake.accept_line("b");
    assert_eq!(intake.close_group(), Some(2));
    assert_eq!(intake.group_count(), 1);
    assert!(intake.current.members.is_empty());
}

#[test]
fn batch_group_emptied_by_delete_is_dropped_when_reorganised() {
    let mut intake = Intake::new(true);
    for line in ["a", "b", "", "X", "", "c", "delete:X"] {
        intake.accept_line(line);
    }
    let groups = intake.finish();
    assert_eq!(groups.len(), 3);
    assert!(groups[1].members.is_empty());
    let result = grouper::batch::reorganize_batch_groups(groups);
    assert_eq!(result.len(), 1);
    assert_eq!(result[0].members, strings(&["a", "b", "c"]));
}
