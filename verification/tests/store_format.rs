use warpdir::errors::WarpError;
use warpdir::registry::Registry;
use warpdir::store::{load, rc_path, save};

#[test]
fn load_then_save_round_trips_the_pairs() {
    let (r, bad) = load("a:/x\nb:/y\nc:/z\n");
    assert!(bad.is_empty());
    let text = save(&r);
    let (r2, bad2) = load(&text);
    assert!(bad2.is_empty());
    assert_eq!(r2.len(), 3);
    for (name, path) in [("a", "/x"), ("b", "/y"), ("c", "/z")] {
        match r2.resolve(name) {
            Ok(p) => assert_eq!(p, path),
            Err(_) => panic!("a pair was lost in the round trip"),
        }
    }
}

#[test]
fn malformed_line_is_skipped_and_reported() {
    let (r, bad) = load("good:/a\nnocolon\nalso:/b");
    assert_eq!(bad, vec!["nocolon".to_string()]);
    assert_eq!(r.len(), 2);
    assert_eq!(r.resolve("good").unwrap(), "/a");
    assert_eq!(r.resolve("also").unwrap(), "/b");
}

#[test]
fn later_duplicate_name_wins() {
    let (r, bad) = load("a:/first\na:/second\n");
    assert!(bad.is_empty());
    assert_eq!(r.len(), 1);
    assert_eq!(r.resolve("a").unwrap(), "/second");
}

#[test]
fn only_the_first_colon_splits_a_line() {
    let (r, bad) = load("n:/a:b\n");
    assert!(bad.is_empty());
    assert_eq!(r.resolve("n").unwrap(), "/a:b");
}

#[test]
fn empty_text_loads_the_empty_registry() {
    let (r, bad) = load("");
    assert!(bad.is_empty());
    assert_eq!(r.len(), 0);
}

#[test]
fn final_line_without_terminator_still_counts() {
    let (r, bad) = load("a:/x\nb:/y");
    assert!(bad.is_empty());
    assert_eq!(r.len(), 2);
    assert_eq!(r.resolve("b").unwrap(), "/y");
}

#[test]
fn empty_lines_are_malformed_and_skipped() {
    let (r, bad) = load("a:/x\n\nb:/y\n");
    assert_eq!(bad, vec![String::new()]);
    assert_eq!(r.len(), 2);
}

#[test]
fn add_on_empty_registry_writes_one_record() {
    let mut r = Registry::new();
    assert!(r.add("x", "/a/b").is_ok());
    assert_eq!(save(&r), "x:/a/b\n");
    let before = save(&r);
    match r.add("x", "/elsewhere") {
        Err(WarpError::PointExists(name, path)) => {
            assert_eq!(name, "x");
            assert_eq!(path, "/a/b");
        }
        _ => panic!("expected PointExists"),
    }
    assert_eq!(save(&r), before);
}

#[test]
fn clean_removes_points_whose_path_is_missing() {
    let (mut r, bad) = load("proj:/home/u/proj\nold:/tmp/gone");
    assert!(bad.is_empty());
    // The caller's existence sweep found /tmp/gone missing; its names
    // are reported, then removed in one batch.
    assert_eq!(r.names_for_path("/tmp/gone"), vec!["old".to_string()]);
    let missing = vec!["/tmp/gone".to_string()];
    r.remove_paths(&missing);
    assert_eq!(save(&r), "proj:/home/u/proj\n");
}

#[test]
fn dry_run_clean_computes_the_same_report_without_saving() {
    // A dry run performs the sweep and the report but never the
    // mutation: the loaded registry and its serialised form stand.
    let (r, _) = load("proj:/home/u/proj\nold:/tmp/gone");
    let before = save(&r);
    assert_eq!(r.names_for_path("/tmp/gone"), vec!["old".to_string()]);
    assert_eq!(save(&r), before);
}

#[test]
fn rc_path_prefers_the_override() {
    match rc_path(Some("/tmp/custom-rc".to_string())) {
        Ok(p) => assert_eq!(p, "/tmp/custom-rc"),
        Err(_) => panic!("an override must be taken as given"),
    }
}

#[test]
fn rc_path_without_override_falls_under_home() {
    match rc_path(None) {
        Ok(p) => assert!(p.ends_with("/.warprc")),
        Err(e) => assert!(matches!(e, WarpError::NoHomeDir)),
    }
}
