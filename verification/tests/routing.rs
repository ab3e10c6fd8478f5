use drawbridge::{dispatch, Component, Dispatch, Namespace, RoutingTable};

#[test]
fn dispatch_tag_request() {
    match dispatch("/alice/myrepo/_tag/v1") {
        Dispatch::Forward { namespace, component, rewritten } => {
            assert_eq!(component, Component::Tag);
            assert_eq!(rewritten, "/_v1".to_string());
            assert_eq!(namespace, Namespace::from_str("alice/myrepo").unwrap());
        },
        other => panic!("expected a forward, got {:?}", other),
    }
}

#[test]
fn dispatch_tree_request_with_groups() {
    match dispatch("/alice/team/repo/_tree/path/to/x") {
        Dispatch::Forward { namespace, component, rewritten } => {
            assert_eq!(component, Component::Tree);
            assert_eq!(rewritten, "/_path/to/x".to_string());
            assert_eq!(namespace, Namespace::from_str("alice/team/repo").unwrap());
        },
        other => panic!("expected a forward, got {:?}", other),
    }
}

#[test]
fn dispatch_without_marker_is_not_found() {
    assert!(matches!(dispatch("/alice/myrepo"), Dispatch::NotFound));
    assert!(matches!(dispatch("/"), Dispatch::NotFound));
}

#[test]
fn dispatch_bad_namespace_is_bad_request() {
    assert!(matches!(
        drawbridge::dispatch("/_tree/x"),
        Dispatch::BadRequest(_)
    ));
    assert!(matches!(
        drawbridge::dispatch("/a//b/_tree/x"),
        Dispatch::BadRequest(_)
    ));
}

#[test]
fn dispatch_unknown_component_is_not_found() {
    assert!(matches!(
        drawbridge::dispatch("/alice/myrepo/_blob/v1"),
        Dispatch::NotFound
    ));
}

#[test]
fn routing_table_creates_each_key_once() {
    let mut table = RoutingTable::new();
    let h1 = table.get_or_create(Namespace::from_str("alice/repo").unwrap(), Component::Tag);
    let h2 = table.get_or_create(Namespace::from_str("alice/repo").unwrap(), Component::Tag);
    assert_eq!(h1, h2);

    let h3 = table.get_or_create(Namespace::from_str("alice/repo").unwrap(), Component::Tree);
    assert_ne!(h1, h3);

    let h4 = table.get_or_create(Namespace::from_str("bob/repo").unwrap(), Component::Tag);
    assert_ne!(h1, h4);
    assert_ne!(h3, h4);

    // the handles address shared state: a write through one handle is
    // seen through the other
    let mut stores: Vec<Vec<u8>> = vec![Vec::new(), Vec::new(), Vec::new()];
    stores[h1].push(7);
    assert_eq!(stores[h2], vec![7]);
}
