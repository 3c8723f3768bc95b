use editorconfig_core::{get_error_message, get_version, ParseError, Version};

#[test]
fn get_error_message_parse_error() {
    let parse_err = ParseError::LineError(23);
    let parse_err_msg = get_error_message(parse_err).unwrap();
    assert_eq!(parse_err_msg, "Failed to parse file.");
}

#[test]
fn get_error_message_relative_path_error() {
    let relative_path_err_msg = get_error_message(ParseError::NotFullPathError).unwrap();
    assert_eq!(relative_path_err_msg, "Input file must be a full path name.");
}

#[test]
fn get_error_message_memory_error() {
    let memory_err_msg = get_error_message(ParseError::MemoryError).unwrap();
    assert_eq!(memory_err_msg, "Memory error.");
}

#[test]
fn get_error_message_version_error() {
    let version_err_msg = get_error_message(ParseError::VersionTooNewError).unwrap();
    assert_eq!(
        version_err_msg,
        "Required version is greater than the current version."
    );
}

#[test]
fn lib_get_version() {
    let version = get_version();

    assert!(version.major >= 0);
    assert!(version.minor >= 12);
    assert!(version.patch >= 5);
}

#[test]
fn copy_clone_versions() {
    let mut version = Version::new(0, 1, 2);
    let mut version_copy = version;
    let version_clone = version.clone();

    assert_eq!(version, version_copy);
    assert_eq!(version, version_clone);

    version.major = 1;
    assert_ne!(version, version_copy);
    assert_ne!(version, version_clone);

    version_copy.major = 1;
    assert_eq!(version_copy, version);
    assert_ne!(version_copy, version_clone);
}

#[test]
fn compare_versions() {
    assert!(Version::new(0, 0, 0) == Version::new(0, 0, 0));
    assert!(Version::new(0, 0, 0) <= Version::new(0, 0, 1));
    assert!(Version::new(0, 0, 1) <= Version::new(0, 1, 0));
    assert!(Version::new(0, 1, 0) <= Version::new(1, 0, 0));
}

#[test]
fn no_error_has_no_message() {
    assert!(get_error_message(ParseError::LineError(0)).is_none());
    assert!(get_error_message(ParseError::LineError(-5)).is_none());
}
