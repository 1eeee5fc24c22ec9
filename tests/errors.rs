use storage_index::{IdxError, IndexingError, Message};

#[test]
fn error_descriptions() {
    let e = IdxError::storage_error_msg("disk gone".to_string());
    assert_eq!("Storage error: disk gone", e.to_string());

    let e = IdxError::from(IndexingError::new("bad object".to_string()));
    assert_eq!("Indexing error: bad object", e.to_string());

    let json = serde_json::from_str::<u32>("not json").unwrap_err();
    let text = json.to_string();
    let e = IdxError::from(json);
    assert!(matches!(e, IdxError::JsonError(_)));
    assert_eq!(format!("JSON error: {}", text), e.to_string());
}

#[test]
fn storage_error_keeps_the_text() {
    match IdxError::storage_error("no such directory") {
        IdxError::StorageError(m) => assert_eq!("no such directory", m.to_string()),
        _ => panic!("expected a storage error"),
    }
    assert_eq!("plain", Message("plain".to_string()).to_string());
}
