use drawbridge::{Name, NameError};

#[test]
fn from_str() {
    assert!(Name::from_str("").is_err());
    assert!(Name::from_str(" ").is_err());
    assert!(Name::from_str("/").is_err());
    assert!(Name::from_str("/name").is_err());
    assert!(Name::from_str("name/").is_err());
    assert!(Name::from_str("/name/").is_err());
    assert!(Name::from_str("group//name").is_err());
    assert!(Name::from_str("group/subgroup///name").is_err());
    assert!(Name::from_str("group/subg%roup/name").is_err());
    assert!(Name::from_str("group/subgяoup/name").is_err());
    assert!(Name::from_str("group /subgroup/name").is_err());
    assert!(Name::from_str("group/subgr☣up/name").is_err());
    assert!(Name::from_str("gr.oup/subgroup/name").is_err());
    assert!(Name::from_str("group/name").is_err());
    assert!(Name::from_str("group/subgroup/name").is_err());
    assert!(Name::from_str("gr0uP/subgr0up/-n4mE").is_err());

    assert_eq!(Name::from_str("name").unwrap().as_str(), "name");
    assert_eq!(Name::from_str("-n4M3").unwrap().as_str(), "-n4M3");
}

#[test]
fn name_validate_and_errors() {
    assert!(Name::validate("repo-1").is_ok());
    assert_eq!(Name::validate("").unwrap_err(), NameError::Empty);
    assert_eq!(Name::validate("re po").unwrap_err(), NameError::InvalidCharacter);
    assert_eq!(NameError::Empty.message(), "empty repository name".to_string());
    assert_eq!(
        NameError::InvalidCharacter.message(),
        "invalid characters in repository name".to_string()
    );
    let n = Name::try_from("ok-name".to_string()).unwrap();
    assert_eq!(n.as_str(), "ok-name");
    let m = Name::from_str("ok-name").unwrap();
    assert_eq!(n, m);
}
