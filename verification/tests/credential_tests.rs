use mavacs_plus::credential::credential::{AttributeValue, Credential};

#[test]
fn test_credential_creation() {
    let cred = Credential::new(vec![
        AttributeValue::Integer(42),
        AttributeValue::String("test".to_string()),
    ]);

    assert_eq!(cred.len(), 2);
    assert!(!cred.is_empty());
}

#[test]
fn test_empty_credential() {
    let cred = Credential::new(vec![]);

    assert_eq!(cred.len(), 0);
    assert!(cred.is_empty());
}

#[test]
fn test_credential_get() {
    let cred = Credential::new(vec![
        AttributeValue::Integer(42),
        AttributeValue::UnsignedInteger(100),
        AttributeValue::String("hello".to_string()),
    ]);

    assert_eq!(cred.get(0), Some(&AttributeValue::Integer(42)));
    assert_eq!(cred.get(1), Some(&AttributeValue::UnsignedInteger(100)));
    assert_eq!(cred.get(2), Some(&AttributeValue::String("hello".to_string())));
    assert_eq!(cred.get(3), None);
}

#[test]
fn credential_reexported_at_module_root() {
    let cred = mavacs_plus::credential::Credential::new(vec![
        mavacs_plus::credential::AttributeValue::UnsignedInteger(7),
    ]);
    assert_eq!(cred.len(), 1);
    assert_eq!(cred.get(0), Some(&AttributeValue::UnsignedInteger(7)));
    assert_eq!(cred.get(usize::MAX), None);
}
