use auto_rename_screenshots::mods::cliinput::{Command, CompressType};
use auto_rename_screenshots::mods::types::{IoErrorKind, PCHStdError};

#[test]
fn compress_type_words() {
    assert_eq!(CompressType::from_str("zip"), Ok(CompressType::Zip));
    assert_eq!(CompressType::from_str("7zip"), Ok(CompressType::_7Zip));
    assert_eq!(
        CompressType::from_str("no-compress"),
        Ok(CompressType::NoCompress)
    );
    assert_eq!(CompressType::from_str(""), Ok(CompressType::NoCompress));
    assert_eq!(CompressType::from_str("ZIP"), Ok(CompressType::NoCompress));
    assert_eq!(CompressType::from_str("zip "), Ok(CompressType::NoCompress));
}

#[test]
fn command_config_path_and_debug() {
    let add = Command::Add {
        debug: true,
        config: "./a.json".to_string(),
        data: None,
    };
    assert_eq!(add.config_path(), "./a.json");
    assert!(add.debug());
    let remove = Command::Remove {
        debug: false,
        config: "./b.json".to_string(),
        data: Some(vec!["x".to_string()]),
    };
    assert_eq!(remove.config_path(), "./b.json");
    assert!(!remove.debug());
    let rename = Command::Rename {
        debug: true,
        input: "./input".to_string(),
        output: "./output".to_string(),
        config: "./config.json".to_string(),
        compress_type: Some(CompressType::_7Zip),
    };
    assert_eq!(rename.config_path(), "./config.json");
    assert!(rename.debug());
}

#[test]
fn io_kinds_map_to_errors() {
    let cases = [
        (IoErrorKind::PermissionDenied, PCHStdError::PermissionDenied),
        (IoErrorKind::NotFound, PCHStdError::FileNotFound),
        (IoErrorKind::AlreadyExists, PCHStdError::FileAlreadyExists),
        (IoErrorKind::InvalidData, PCHStdError::InvalidData),
        (IoErrorKind::InvalidInput, PCHStdError::InvalidInput),
        (IoErrorKind::TimedOut, PCHStdError::TimedOut),
        (IoErrorKind::WriteZero, PCHStdError::WriteZero),
        (IoErrorKind::Interrupted, PCHStdError::Interrupted),
        (IoErrorKind::Other, PCHStdError::Other),
    ];
    for (kind, error) in cases {
        assert_eq!(PCHStdError::from_io_kind(kind), error);
    }
}

#[test]
fn compress_type_parses_through_from_str_trait() {
    assert_eq!("zip".parse::<CompressType>(), Ok(CompressType::Zip));
    assert_eq!("7zip".parse::<CompressType>(), Ok(CompressType::_7Zip));
    assert_eq!("rar".parse::<CompressType>(), Ok(CompressType::NoCompress));
}

#[test]
fn errors_convert_from_their_sources() {
    assert_eq!(
        PCHStdError::from(IoErrorKind::NotFound),
        PCHStdError::FileNotFound
    );
    assert_eq!(
        PCHStdError::from(IoErrorKind::Interrupted),
        PCHStdError::Interrupted
    );
    let json = serde_json::from_str::<Vec<String>>("not json").unwrap_err();
    assert_eq!(PCHStdError::from(json), PCHStdError::InvalidData);
    let strip = std::path::Path::new("a/b")
        .strip_prefix("c")
        .unwrap_err();
    assert_eq!(PCHStdError::from(strip), PCHStdError::WrongPath);
}
