use cutback::cli::{
    branch_line, check_found, clock_text, display_name, has_project_extension, is_yes, join, log_line, pick_project,
    relative_time_at, revisions_to_compare,
};
use cutback::git_backend::entry_from;

#[test]
fn recent_saves_read_as_just_now() {
    assert_eq!(relative_time_at(1000, 1000), "    just now");
    assert_eq!(relative_time_at(1000, 1059), "    just now");
    assert_eq!(relative_time_at(1059, 1000), "    just now");
}

#[test]
fn ages_count_whole_units() {
    assert_eq!(relative_time_at(60, 0), "1 minute ago");
    assert_eq!(relative_time_at(1200, 0), "20 minutes ago");
    assert_eq!(relative_time_at(3600, 0), "  1 hour ago");
    assert_eq!(relative_time_at(86_400 * 3, 0), "  3 days ago");
    assert_eq!(relative_time_at(2_592_000 * 2, 0), "2 months ago");
    assert_eq!(relative_time_at(i64::MAX, -5), "3558399705576 months ago");
}

#[test]
fn diff_defaults_to_the_last_two_saves() {
    let recent = vec!["newest".to_string(), "older".to_string()];
    assert_eq!(
        revisions_to_compare(None, None, &recent),
        Ok(("older".to_string(), "newest".to_string()))
    );
    assert_eq!(
        revisions_to_compare(Some("abc".to_string()), None, &recent),
        Ok(("abc~1".to_string(), "abc".to_string()))
    );
    assert_eq!(
        revisions_to_compare(Some("a".to_string()), Some("b".to_string()), &recent),
        Ok(("a".to_string(), "b".to_string()))
    );
    assert_eq!(
        revisions_to_compare(None, None, &vec!["only".to_string()]),
        Err("only one save recorded so far, nothing to compare it against".to_string())
    );
    assert_eq!(
        revisions_to_compare(None, Some("x".to_string()), &vec![]),
        Err("no history yet. Run 'cutback watch' and save in Kdenlive".to_string())
    );
}

#[test]
fn a_directory_with_no_project_says_so() {
    let err = check_found("empty", &vec![], 0).unwrap_err();
    assert!(err.contains("no .kdenlive file"), "{err}");
    assert!(check_found("dir", &vec!["one.kdenlive".to_string()], 1).is_ok());
}

#[test]
fn a_directory_with_two_projects_asks_which_one() {
    let names = vec!["one.kdenlive".to_string(), "two.kdenlive".to_string()];
    assert_eq!(
        check_found("ambiguous", &names, 2),
        Err("ambiguous holds several projects (one.kdenlive, two.kdenlive). Pass one with -C <path>".to_string())
    );
}

#[test]
fn projects_are_called_by_their_file_name() {
    assert_eq!(display_name("/home/you/videos/holiday.kdenlive"), "holiday.kdenlive");
    assert_eq!(display_name("holiday.kdenlive"), "holiday.kdenlive");
    assert_eq!(display_name("/"), "/");
}

#[test]
fn confirmation_takes_y_or_yes() {
    assert!(is_yes("y\n"));
    assert!(is_yes("  YES "));
    assert!(!is_yes("no"));
    assert!(!is_yes(""));
}

#[test]
fn branch_lines_mark_the_current_branch() {
    assert_eq!(branch_line("main", "main"), "* main");
    assert_eq!(branch_line("alt-cut", "main"), "  alt-cut");
}

#[test]
fn log_lines_put_id_time_and_subject_side_by_side() {
    let entry = entry_from("12c916cdeadbeef", "Changed gain", 0);
    assert_eq!(log_line(&entry, "    just now"), "12c916c      just now  Changed gain");
}

#[test]
fn joining_puts_the_separator_between() {
    let parts = vec!["a".to_string(), "b".to_string(), "c".to_string()];
    assert_eq!(join(&parts, "\n"), "a\nb\nc");
    assert_eq!(join(&vec![], ", "), "");
}

#[test]
fn project_files_are_told_by_their_extension() {
    assert!(has_project_extension("holiday.kdenlive"));
    assert!(has_project_extension("a.b.kdenlive"));
    assert!(has_project_extension("..kdenlive"));
    assert!(!has_project_extension(".kdenlive"));
    assert!(!has_project_extension("holiday.kdenlive.bak"));
    assert!(!has_project_extension("holiday.mlt"));
    assert!(!has_project_extension("kdenlive"));
}

#[test]
fn the_one_project_in_a_directory_is_picked() {
    let names = vec!["notes.txt".to_string(), "film.kdenlive".to_string(), ".kdenlive".to_string()];
    assert_eq!(pick_project("dir", &names), Ok("film.kdenlive".to_string()));
}

#[test]
fn several_projects_are_named_in_order() {
    let names = vec!["two.kdenlive".to_string(), "x.png".to_string(), "one.kdenlive".to_string()];
    assert_eq!(
        pick_project("ambiguous", &names),
        Err("ambiguous holds several projects (one.kdenlive, two.kdenlive). Pass one with -C <path>".to_string())
    );
}

#[test]
fn a_directory_without_projects_is_refused() {
    let names = vec!["notes.txt".to_string()];
    assert_eq!(
        pick_project("empty", &names),
        Err("no .kdenlive file in empty. Pass the project file with -C <path>".to_string())
    );
}

#[test]
fn durations_read_like_a_clock() {
    assert_eq!(clock_text(0), "0:00");
    assert_eq!(clock_text(7), "0:07");
    assert_eq!(clock_text(65), "1:05");
    assert_eq!(clock_text(599), "9:59");
    assert_eq!(clock_text(3599), "59:59");
    assert_eq!(clock_text(3600), "1:00:00");
    assert_eq!(clock_text(3725), "1:02:05");
    assert_eq!(clock_text(36000 + 61), "10:01:01");
}
