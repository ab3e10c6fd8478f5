use drawbridge::{Namespace, NamespaceError};

fn ns(owner: &str, groups: &[&str], name: &str) -> Namespace {
    Namespace::new(
        owner.to_string(),
        groups.iter().map(|g| g.to_string()).collect(),
        name.to_string(),
    )
    .unwrap()
}

#[test]
fn namespace_from_str() {
    assert!(Namespace::from_str("").is_err());
    assert!(Namespace::from_str(" ").is_err());
    assert!(Namespace::from_str("/").is_err());
    assert!(Namespace::from_str("name").is_err());
    assert!(Namespace::from_str("owner/").is_err());
    assert!(Namespace::from_str("/name").is_err());
    assert!(Namespace::from_str("owner//name").is_err());
    assert!(Namespace::from_str("owner/name/").is_err());
    assert!(Namespace::from_str("owner/group///name").is_err());
    assert!(Namespace::from_str("owner/g%roup/name").is_err());
    assert!(Namespace::from_str("owner/gяoup/name").is_err());
    assert!(Namespace::from_str("owner /group/name").is_err());
    assert!(Namespace::from_str("owner/gr☣up/name").is_err());
    assert!(Namespace::from_str("o.wner/group/name").is_err());

    assert_eq!(Namespace::from_str("owner/name").unwrap(), ns("owner", &[], "name"));
    assert_eq!(
        Namespace::from_str("owner/group/name").unwrap(),
        ns("owner", &["group"], "name")
    );
    assert_eq!(
        Namespace::from_str("owner/group/subgroup/name").unwrap(),
        ns("owner", &["group", "subgroup"], "name")
    );
    assert_eq!(
        Namespace::from_str("0WnEr/gr0up/subgr0up/-n4mE").unwrap(),
        ns("0WnEr", &["gr0up", "subgr0up"], "-n4mE")
    );
}

#[test]
fn namespace_round_trip_fields() {
    let parsed = Namespace::from_str("alice/team/sub/repo").unwrap();
    assert_eq!(parsed.owner().as_str(), "alice");
    assert_eq!(parsed.groups().to_vec(), vec!["team".to_string(), "sub".to_string()]);
    assert_eq!(parsed.name().as_str(), "repo");
}

#[test]
fn namespace_grouping_is_significant() {
    let a = Namespace::from_str("a/b/c").unwrap();
    let b = Namespace::from_str("a/b-c").unwrap();
    assert_ne!(a, b);
    let c = Namespace::from_str("a-b/c").unwrap();
    assert_ne!(a, c);
    assert_ne!(b, c);
}

#[test]
fn namespace_error_variants() {
    assert_eq!(Namespace::from_str("onlyowner").unwrap_err(), NamespaceError::MissingName);
    assert_eq!(Namespace::from_str("owner//name").unwrap_err(), NamespaceError::InvalidToken);
    assert_eq!(
        NamespaceError::MissingName.message(),
        "Repository name must be specified".to_string()
    );
    assert_eq!(NamespaceError::InvalidToken.message(), "Invalid namespace".to_string());
}
