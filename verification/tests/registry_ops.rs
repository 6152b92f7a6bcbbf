use warpdir::errors::WarpError;
use warpdir::registry::Registry;

#[test]
fn add_then_resolve_returns_added_path() {
    let mut r = Registry::new();
    assert!(r.add("x", "/a/b").is_ok());
    match r.resolve("x") {
        Ok(p) => assert_eq!(p, "/a/b"),
        Err(_) => panic!("expected the path just added"),
    }
}

#[test]
fn add_existing_name_is_rejected_and_changes_nothing() {
    let mut r = Registry::new();
    assert!(r.add("x", "/a/b").is_ok());
    let before = warpdir::store::save(&r);
    match r.add("x", "/somewhere/else") {
        Err(WarpError::PointExists(name, path)) => {
            assert_eq!(name, "x");
            assert_eq!(path, "/a/b");
        }
        _ => panic!("expected PointExists"),
    }
    assert_eq!(warpdir::store::save(&r), before);
    match r.resolve("x") {
        Ok(p) => assert_eq!(p, "/a/b"),
        Err(_) => panic!("the original binding must survive"),
    }
}

#[test]
fn remove_then_resolve_fails_with_no_such_point() {
    let mut r = Registry::new();
    assert!(r.add("x", "/a/b").is_ok());
    match r.remove("x") {
        Ok(p) => assert_eq!(p, "/a/b"),
        Err(_) => panic!("expected the removed path"),
    }
    match r.resolve("x") {
        Err(WarpError::NoSuchPoint(name)) => assert_eq!(name, "x"),
        _ => panic!("expected NoSuchPoint"),
    }
}

#[test]
fn resolve_on_empty_registry_fails_with_no_such_point() {
    let r = Registry::new();
    match r.resolve("x") {
        Err(WarpError::NoSuchPoint(name)) => assert_eq!(name, "x"),
        _ => panic!("expected NoSuchPoint"),
    }
    assert_eq!(warpdir::store::save(&r), "");
}

#[test]
fn remove_missing_name_fails_and_changes_nothing() {
    let mut r = Registry::new();
    assert!(r.add("a", "/p").is_ok());
    let before = warpdir::store::save(&r);
    match r.remove("b") {
        Err(WarpError::NoSuchPoint(name)) => assert_eq!(name, "b"),
        _ => panic!("expected NoSuchPoint"),
    }
    assert_eq!(warpdir::store::save(&r), before);
}

#[test]
fn names_for_path_lists_every_alias_in_order() {
    let mut r = Registry::new();
    assert!(r.add("one", "/shared").is_ok());
    assert!(r.add("elsewhere", "/other").is_ok());
    assert!(r.add("two", "/shared").is_ok());
    assert_eq!(r.names_for_path("/shared"), vec!["one".to_string(), "two".to_string()]);
    assert_eq!(r.names_for_path("/other"), vec!["elsewhere".to_string()]);
    assert!(r.names_for_path("/nowhere").is_empty());
}

#[test]
fn distinct_paths_keeps_first_appearance_order() {
    let mut r = Registry::new();
    assert!(r.add("one", "/shared").is_ok());
    assert!(r.add("elsewhere", "/other").is_ok());
    assert!(r.add("two", "/shared").is_ok());
    assert_eq!(r.distinct_paths(), vec!["/shared".to_string(), "/other".to_string()]);
}

#[test]
fn remove_paths_removes_exactly_the_missing_ones() {
    let mut r = Registry::new();
    assert!(r.add("keep", "/still/here").is_ok());
    assert!(r.add("gone1", "/tmp/gone").is_ok());
    assert!(r.add("keep2", "/also/here").is_ok());
    assert!(r.add("gone2", "/tmp/gone").is_ok());
    let missing = vec!["/tmp/gone".to_string()];
    r.remove_paths(&missing);
    assert_eq!(warpdir::store::save(&r), "keep:/still/here\nkeep2:/also/here\n");
}

#[test]
fn remove_paths_with_nothing_missing_changes_nothing() {
    let mut r = Registry::new();
    assert!(r.add("a", "/p").is_ok());
    assert!(r.add("b", "/q").is_ok());
    let before = warpdir::store::save(&r);
    let missing: Vec<String> = Vec::new();
    r.remove_paths(&missing);
    assert_eq!(warpdir::store::save(&r), before);
}

#[test]
fn upsert_overwrites_an_existing_binding() {
    let mut r = Registry::new();
    assert!(r.add("x", "/old").is_ok());
    r.upsert("x".to_string(), "/new".to_string());
    match r.resolve("x") {
        Ok(p) => assert_eq!(p, "/new"),
        Err(_) => panic!("expected the overwritten path"),
    }
    assert_eq!(r.len(), 1);
}

#[test]
fn completion_line_joins_names_with_spaces() {
    let mut r = Registry::new();
    assert_eq!(r.completion_line(), "");
    assert!(r.add("alpha", "/a").is_ok());
    assert_eq!(r.completion_line(), "alpha");
    assert!(r.add("beta", "/b").is_ok());
    assert_eq!(r.completion_line(), "alpha beta");
}

#[test]
fn error_messages_name_the_point() {
    let e = WarpError::NoSuchPoint("x".to_string());
    assert_eq!(e.message(), "no warp point named 'x'");
    let e = WarpError::PointExists("x".to_string(), "/a/b".to_string());
    assert_eq!(e.message(), "warp point exists 'x -> /a/b'");
    let e = WarpError::NoHomeDir;
    assert!(!e.message().is_empty());
}
