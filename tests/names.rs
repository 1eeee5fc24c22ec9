use storage_index::{IdxError, ObjectName, ObjectNameBuf};

#[test]
fn test_object_naming() {
    // check illegal object names don't work
    assert!(ObjectName::new("/").is_err());
    assert!(ObjectName::new("hello/world").is_err());
    assert!(ObjectName::new("foo.bar").is_ok());
    assert!(ObjectName::new("föö.bär").is_ok());
}

#[test]
fn test_valid_names() {
    assert!(ObjectName::new("hello_world").is_ok());
    assert!(ObjectName::new("2020-05-06_22:00+0200_Linsen_mit_Saiten").is_ok());
    assert!(ObjectName::new("äöüß").is_ok());
    assert!(ObjectName::new("space is ok").is_ok());

    assert!(ObjectName::new("/").is_err());
    assert!(ObjectName::new("\\").is_err());
    assert!(ObjectName::new("\n").is_err());
}

#[test]
fn control_codes_are_refused() {
    assert!(ObjectName::new("a\u{0}b").is_err());
    assert!(ObjectName::new("tab\there").is_err());
    assert!(ObjectName::new("del\u{7f}").is_err());
    assert!(ObjectName::new("c1\u{9f}").is_err());
    assert!(ObjectName::new("nbsp\u{a0}").is_ok());
    assert!(ObjectName::new("tilde~").is_ok());
}

#[test]
fn invalid_name_is_a_storage_error() {
    match ObjectName::new("a/b") {
        Err(IdxError::StorageError(m)) => {
            assert_eq!("The name given is not a valid object name: 'a/b'", m.0);
        }
        _ => panic!("expected a storage error"),
    }
    assert!(matches!(ObjectNameBuf::from_str("x\\y"), Err(IdxError::StorageError(_))));
}

#[test]
fn owned_name_round_trip() {
    for s in ["foo", "föö.bär", "space is ok", "", "2020-05-06_22:00+0200"] {
        let buf = ObjectNameBuf::from_str(s).unwrap();
        assert_eq!(s, buf.name().as_str());
        assert_eq!(s, buf.name().name());
        assert_eq!(ObjectName::new(s).unwrap(), buf.name());
    }
}

#[test]
fn empty_names() {
    assert_eq!("", ObjectName::empty().as_str());
    assert_eq!("", ObjectNameBuf::new().name().as_str());
    assert!(ObjectName::new("").is_ok());
}
