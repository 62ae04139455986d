use kvs::{KvStore, KvsError};

#[test]
fn get_config_dir() {
    let mut store = KvStore::new();
    let answer = store.get("config_dir".to_string());
    assert!(matches!(answer, Ok(Some(ref value)) if value.is_empty()));
}

#[test]
fn set_is_accepted() {
    let mut store = KvStore::new();
    assert!(matches!(store.set("key".to_string(), "value".to_string()), Ok(())));
}

#[test]
fn get_answers_empty_string() {
    let mut store = KvStore::new();
    assert!(matches!(store.set("key".to_string(), "value".to_string()), Ok(())));
    match store.get("key".to_string()) {
        Ok(Some(value)) => assert_eq!(value, ""),
        other => panic!("unexpected answer: {:?}", other),
    }
}

#[test]
fn remove_is_accepted() {
    let mut store = KvStore::new();
    assert!(matches!(store.remove("absent".to_string()), Ok(())));
}

#[test]
fn io_error_converts() {
    let source = std::io::Error::new(std::io::ErrorKind::NotFound, "no such directory");
    match KvsError::from(source) {
        KvsError::Io(e) => assert_eq!(e.kind(), std::io::ErrorKind::NotFound),
        other => panic!("unexpected variant: {:?}", other),
    }
}

#[test]
fn json_error_converts() {
    let source = match serde_json::from_str::<serde_json::Value>("{") {
        Ok(value) => panic!("parsed: {:?}", value),
        Err(e) => e,
    };
    let line = source.line();
    match KvsError::from(source) {
        KvsError::Serde(e) => {
            assert!(e.is_eof());
            assert_eq!(e.line(), line);
        }
        other => panic!("unexpected variant: {:?}", other),
    }
}

#[test]
fn plain_variants_are_distinct() {
    assert!(matches!(KvsError::KeyNotFound, KvsError::KeyNotFound));
    assert!(!matches!(KvsError::UnexpectedCommandType, KvsError::KeyNotFound));
}
