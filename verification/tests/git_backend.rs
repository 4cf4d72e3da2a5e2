use cutback::git_backend::{commit_message, entry_from, temp_name, STORE_DIR};

#[test]
fn commit_body_survives_the_round_trip() {
    let message = commit_message("subject line", "first detail\nsecond detail");
    let entry = entry_from("0123456789abcdef0123456789abcdef01234567", &message, 1_700_000_000);
    assert_eq!(entry.subject, "subject line");
    assert_eq!(entry.body, "first detail\nsecond detail");
}

#[test]
fn a_message_without_a_body_is_the_subject() {
    assert_eq!(commit_message("first save", ""), "first save");
    let entry = entry_from("0123456789abcdef0123456789abcdef01234567", "first save\n", 5);
    assert_eq!(entry.subject, "first save");
    assert_eq!(entry.body, "");
    assert_eq!(entry.seconds_since_epoch, 5);
}

#[test]
fn entries_carry_a_short_id() {
    let entry = entry_from("12c916cdeadbeef", "x", 0);
    assert_eq!(entry.id, "12c916cdeadbeef");
    assert_eq!(entry.short_id, "12c916c");
}

#[test]
fn the_first_blank_line_splits_subject_from_body() {
    let entry = entry_from("abcdefg", "  head  \n\n body one\n\nbody two \n", 0);
    assert_eq!(entry.subject, "head");
    assert_eq!(entry.body, "body one\n\nbody two");
}

#[test]
fn restores_write_through_a_hidden_temporary_file() {
    assert_eq!(temp_name(Some("holiday.kdenlive")), ".holiday.kdenlive.cutback-tmp");
    assert_eq!(temp_name(None), ".project.cutback-tmp");
    assert_eq!(STORE_DIR, ".cutback");
}
