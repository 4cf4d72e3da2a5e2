use cutback::watcher::{is_completed_save, is_project_file, Happening, COALESCE_WINDOW_MS};

fn paths(ps: &[&str]) -> Vec<String> {
    ps.iter().map(|p| p.to_string()).collect()
}

#[test]
fn a_rename_into_place_is_a_completed_save() {
    let file = "/work/p.kdenlive";
    assert!(is_completed_save(Happening::RenamedTo, &paths(&["/work/p.kdenlive"]), file));
    assert!(is_completed_save(Happening::CreatedFile, &paths(&["/work/p.kdenlive"]), file));
    assert!(is_completed_save(Happening::ClosedAfterWrite, &paths(&["/work/p.kdenlive"]), file));
    assert!(!is_completed_save(Happening::Other, &paths(&["/work/p.kdenlive"]), file));
}

#[test]
fn ignores_other_files_in_the_directory() {
    let file = "/work/p.kdenlive";
    for other in ["/work/p.kdenlive.audio", "/work/other.kdenlive", "/work/.p.kdenlive.lock"] {
        assert!(!is_completed_save(Happening::RenamedTo, &paths(&[other]), file), "{other}");
    }
    assert!(!is_completed_save(Happening::RenamedTo, &paths(&[]), file));
}

#[test]
fn the_project_is_recognised_by_name_too() {
    assert!(is_project_file("/link/to/work/p.kdenlive", "/work/p.kdenlive"));
    assert!(is_project_file("/work//p.kdenlive", "/work/p.kdenlive"));
    assert!(!is_project_file("/work/q.kdenlive", "/work/p.kdenlive"));
    assert_eq!(COALESCE_WINDOW_MS, 300);
}
