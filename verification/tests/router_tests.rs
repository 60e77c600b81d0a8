use matchit::InsertError;
use matchit::MatchError;
use matchit::Router;

#[test]
fn round_trip_static() {
    let mut router = Router::new();
    router.insert("/", 0u32).unwrap();
    router.insert("/home", 1u32).unwrap();
    router.insert("/home/about", 2u32).unwrap();
    router.insert("/contact", 3u32).unwrap();

    for (path, want) in [("/", 0u32), ("/home", 1), ("/home/about", 2), ("/contact", 3)] {
        let m = router.at(path).unwrap();
        assert_eq!(*m.value, want);
        assert!(m.params.is_empty());
        assert_eq!(m.params.len(), 0);
    }
}

#[test]
fn param_extraction() {
    let mut router = Router::new();
    router.insert("/users/{id}", "user").unwrap();

    let m = router.at("/users/42").unwrap();
    assert_eq!(*m.value, "user");
    assert_eq!(m.params.get("id"), Some("42"));
    assert_eq!(m.params.len(), 1);
    assert_eq!(m.params.get("other"), None);
}

#[test]
fn catch_all() {
    let mut router = Router::new();
    router.insert("/files/{*rest}", 7u32).unwrap();

    let m = router.at("/files/a/b/c").unwrap();
    assert_eq!(*m.value, 7);
    assert_eq!(m.params.get("rest"), Some("a/b/c"));
    assert_eq!(m.params.len(), 1);
}

#[test]
fn catch_all_empty_remainder_rejected() {
    // policy: a catch-all must consume at least one character
    let mut router = Router::new();
    router.insert("/files/{*rest}", 7u32).unwrap();
    assert!(router.at("/files/").is_err());
    assert!(router.at("/files").is_err());
    assert!(router.at("/files/x").is_ok());
}

#[test]
fn priority_independence_from_insertion_order() {
    let mut a = Router::new();
    a.insert("/users/{id}", "param").unwrap();
    a.insert("/users/new", "static").unwrap();

    let mut b = Router::new();
    b.insert("/users/new", "static").unwrap();
    b.insert("/users/{id}", "param").unwrap();

    for router in [&a, &b] {
        let m = router.at("/users/new").unwrap();
        assert_eq!(*m.value, "static");
        assert!(m.params.is_empty());

        let m = router.at("/users/42").unwrap();
        assert_eq!(*m.value, "param");
        assert_eq!(m.params.get("id"), Some("42"));
    }
}

#[test]
fn conflict_rejection_leaves_tree_unchanged() {
    let mut router = Router::new();
    router.insert("/a/{id}", 1u32).unwrap();

    let err = router.insert("/a/{name}", 2u32).unwrap_err();
    assert_eq!(err, InsertError::Conflict);

    // previously registered routes still match
    let m = router.at("/a/7").unwrap();
    assert_eq!(*m.value, 1);
    assert_eq!(m.params.get("id"), Some("7"));

    // a subsequent valid insert still succeeds
    router.insert("/b/{name}", 3u32).unwrap();
    assert_eq!(*router.at("/b/x").unwrap().value, 3);
    assert_eq!(router.check_priorities(), Ok(2));
}

#[test]
fn duplicate_route_is_conflict() {
    let mut router = Router::new();
    router.insert("/dup", 1u32).unwrap();
    assert_eq!(router.insert("/dup", 2u32), Err(InsertError::Conflict));
    assert_eq!(*router.at("/dup").unwrap().value, 1);
}

#[test]
fn malformed_patterns() {
    let mut router = Router::new();
    assert_eq!(router.insert("", 0u32), Err(InsertError::Malformed));
    assert_eq!(router.insert("/x/{*rest}/y", 0u32), Err(InsertError::Malformed));
    assert_eq!(router.insert("/x/{}", 0u32), Err(InsertError::Malformed));
    assert_eq!(router.insert("/x/{id", 0u32), Err(InsertError::Malformed));
    assert_eq!(router.insert("/x/a{id}", 0u32), Err(InsertError::Malformed));
    assert_eq!(router.check_priorities(), Ok(0));
}

#[test]
fn trailing_slash_hints() {
    let mut router = Router::new();
    router.insert("/foo", 1u32).unwrap();
    assert_eq!(router.at("/foo/").unwrap_err(), MatchError::NotFoundTrailingSlash);

    let mut router = Router::new();
    router.insert("/foo/", 1u32).unwrap();
    assert_eq!(router.at("/foo").unwrap_err(), MatchError::NotFoundTrailingSlash);

    let mut router: Router<u32> = Router::new();
    router.insert("/foo", 1u32).unwrap();
    assert_eq!(router.at("/bar").unwrap_err(), MatchError::NotFound);
}

#[test]
fn removal_and_compaction() {
    let mut router = Router::new();
    router.insert("/ab/cd", 1u32).unwrap();
    router.insert("/ab/ce", 2u32).unwrap();
    router.insert("/ab", 3u32).unwrap();

    assert_eq!(router.remove("/ab/ce"), Some(2));
    assert_eq!(router.at("/ab/ce").unwrap_err(), MatchError::NotFound);
    assert_eq!(*router.at("/ab/cd").unwrap().value, 1);
    assert_eq!(*router.at("/ab").unwrap().value, 3);
    assert_eq!(router.check_priorities(), Ok(2));

    assert_eq!(router.remove("/ab"), Some(3));
    assert_eq!(*router.at("/ab/cd").unwrap().value, 1);
    assert_eq!(router.check_priorities(), Ok(1));
}

#[test]
fn idempotent_no_op_removal() {
    let mut router = Router::new();
    router.insert("/keep/{id}", 9u32).unwrap();

    assert_eq!(router.remove("/never/registered"), None);
    assert_eq!(router.remove("/keep/{other}"), None);
    assert_eq!(router.remove("/keep"), None);

    let m = router.at("/keep/1").unwrap();
    assert_eq!(*m.value, 9);
    assert_eq!(m.params.get("id"), Some("1"));
    assert_eq!(router.check_priorities(), Ok(1));
}

#[test]
fn node_splitting_keeps_routes() {
    let mut router = Router::new();
    router.insert("/users/new", 1u32).unwrap();
    // forces the shared prefix "/users/n" to split at "ew" / "ow"
    router.insert("/users/now", 2u32).unwrap();
    router.insert("/users", 3u32).unwrap();

    assert_eq!(*router.at("/users/new").unwrap().value, 1);
    assert_eq!(*router.at("/users/now").unwrap().value, 2);
    assert_eq!(*router.at("/users").unwrap().value, 3);
    assert_eq!(router.at("/users/no").unwrap_err(), MatchError::NotFound);
    assert_eq!(router.check_priorities(), Ok(3));
}

#[test]
fn backtracking_to_wildcard() {
    let mut router = Router::new();
    router.insert("/users/new", 1u32).unwrap();
    router.insert("/users/{id}", 2u32).unwrap();

    // the static branch "new" is tried first and fails mid-way,
    // so matching must fall back to the parameter
    let m = router.at("/users/newer").unwrap();
    assert_eq!(*m.value, 2);
    assert_eq!(m.params.get("id"), Some("newer"));
}

#[test]
fn params_in_path_order() {
    let mut router = Router::new();
    router.insert("/{a}/x/{b}/{c}", 0u32).unwrap();

    let m = router.at("/1/x/2/3").unwrap();
    let mut it = m.params.iter();
    assert_eq!(it.next(), Some(("a", "1")));
    assert_eq!(it.next(), Some(("b", "2")));
    assert_eq!(it.next(), Some(("c", "3")));
    assert_eq!(it.next(), None);
}

#[test]
fn audit_after_insert_remove_sequence() {
    let mut router = Router::new();
    router.insert("/a", 1u32).unwrap();
    router.insert("/a/b", 2u32).unwrap();
    router.insert("/a/{id}", 3u32).unwrap();
    router.insert("/c/{*rest}", 4u32).unwrap();
    assert_eq!(router.check_priorities(), Ok(4));

    assert_eq!(router.remove("/a/b"), Some(2));
    assert_eq!(router.remove("/missing"), None);
    assert_eq!(router.check_priorities(), Ok(3));

    assert_eq!(*router.at("/a").unwrap().value, 1);
    assert_eq!(*router.at("/a/b").unwrap().value, 3);
    assert_eq!(*router.at("/c/x/y").unwrap().value, 4);
}

#[test]
fn catch_all_conflicts_with_siblings() {
    let mut router = Router::new();
    router.insert("/files/new", 1u32).unwrap();
    assert_eq!(router.insert("/files/{*rest}", 2u32), Err(InsertError::Conflict));

    let mut router = Router::new();
    router.insert("/files/{*rest}", 2u32).unwrap();
    assert_eq!(router.insert("/files/new", 1u32), Err(InsertError::Conflict));
    assert_eq!(*router.at("/files/new").unwrap().value, 2);
}

#[test]
fn update_swaps_value_in_place() {
    let mut router = Router::new();
    router.insert("/counter/{id}", 1u32).unwrap();

    assert_eq!(router.update("/counter/{id}", 5u32), Some(1));
    assert_eq!(*router.at("/counter/9").unwrap().value, 5);

    // updating something never registered registers nothing
    assert_eq!(router.update("/other", 7u32), None);
    assert!(router.at("/other").is_err());
    assert_eq!(router.check_priorities(), Ok(1));
}

#[test]
fn root_slash_and_param_coexist() {
    let mut router = Router::new();
    router.insert("/", 0u32).unwrap();
    router.insert("/{id}", 1u32).unwrap();

    assert_eq!(*router.at("/").unwrap().value, 0);
    let m = router.at("/x").unwrap();
    assert_eq!(*m.value, 1);
    assert_eq!(m.params.get("id"), Some("x"));

    // removing the root route leaves a valueless pass-through node that
    // cannot be merged with its wildcard child
    assert_eq!(router.remove("/"), Some(0));
    assert!(router.at("/").is_err());
    assert_eq!(*router.at("/x").unwrap().value, 1);
    assert_eq!(router.check_priorities(), Ok(1));
}

#[test]
fn duplicate_parameter_names_bind_per_segment() {
    let mut router = Router::new();
    router.insert("/{a}/x/{a}", 0u32).unwrap();

    let m = router.at("/1/x/2").unwrap();
    assert_eq!(m.params.len(), 2);
    // lookup by name returns the leftmost binding
    assert_eq!(m.params.get("a"), Some("1"));
    let mut it = m.params.iter();
    assert_eq!(it.next(), Some(("a", "1")));
    assert_eq!(it.next(), Some(("a", "2")));
    assert_eq!(it.next(), None);
}
