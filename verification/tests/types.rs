use goldfish::entry_type::Type;

#[test]
fn validate_directory_uses_is_dir() {
    assert!(Type::Directory.validate(true, false));
    assert!(!Type::Directory.validate(false, true));
}

#[test]
fn validate_file_uses_is_file() {
    assert!(Type::File.validate(false, true));
    assert!(!Type::File.validate(true, false));
}

#[test]
fn from_str_directory_spellings() {
    assert_eq!(Type::from_str("d"), Some(Type::Directory));
    assert_eq!(Type::from_str("dir"), Some(Type::Directory));
    assert_eq!(Type::from_str("directory"), Some(Type::Directory));
}

#[test]
fn from_str_file_spellings() {
    assert_eq!(Type::from_str("f"), Some(Type::File));
    assert_eq!(Type::from_str("file"), Some(Type::File));
}

#[test]
fn from_str_rejects_unknown() {
    assert_eq!(Type::from_str(""), None);
    assert_eq!(Type::from_str("x"), None);
    assert_eq!(Type::from_str("Dir"), None);
    assert_eq!(Type::from_str("files"), None);
}
