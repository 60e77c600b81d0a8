use matchit::Params;

#[test]
fn heap_alloc() {
    let vec = vec![
        ("hello", "hello"),
        ("world", "world"),
        ("foo", "foo"),
        ("bar", "bar"),
        ("baz", "baz"),
    ];

    let mut params = Params::new();
    for (key, value) in vec.clone() {
        params.push(key, value);
        assert_eq!(params.get(key), Some(value));
    }

    let mut it = params.iter();
    for (key, value) in vec.clone() {
        assert_eq!(it.next(), Some((key, value)));
    }
    assert_eq!(it.next(), None);
}

#[test]
fn ignore_array_default() {
    let params = Params::new();
    assert!(params.get("").is_none());
}

#[test]
fn get_returns_first_match() {
    let mut params = Params::new();
    params.push("k", "first");
    params.push("k", "second");
    assert_eq!(params.get("k"), Some("first"));
    assert_eq!(params.len(), 2);
    assert!(!params.is_empty());
}

#[test]
fn truncate_drops_the_tail() {
    let mut params = Params::new();
    params.push("a", "1");
    params.push("b", "2");
    params.push("c", "3");
    params.truncate(1);
    assert_eq!(params.len(), 1);
    assert_eq!(params.get("a"), Some("1"));
    assert_eq!(params.get("b"), None);
    params.truncate(5);
    assert_eq!(params.len(), 1);
}
