use minimal_http_server::storage::{
    is_allowed_extension, normalize_filename, validate_filename, StorageError,
};

#[test]
fn normalize_strips_every_directory_component() {
    assert_eq!(normalize_filename(b"/a/b/c.html"), b"c.html".to_vec());
    assert_eq!(normalize_filename(b"../../etc/passwd"), b"passwd".to_vec());
    assert_eq!(normalize_filename(b"plain.css"), b"plain.css".to_vec());
    assert_eq!(normalize_filename(b"/x.js"), b"x.js".to_vec());
}

#[test]
fn normalize_trims_surrounding_whitespace() {
    assert_eq!(normalize_filename(b"  name.css  "), b"name.css".to_vec());
    assert_eq!(normalize_filename(b"/a/ name.css \t"), b"name.css".to_vec());
}

#[test]
fn normalize_of_trailing_separator_is_empty() {
    assert_eq!(normalize_filename(b"/a/b/"), Vec::<u8>::new());
}

#[test]
fn normalized_name_never_holds_a_separator() {
    for raw in [
        b"/a/b/c.html".as_slice(),
        b"a//b//c.css".as_slice(),
        b"  /deep/path/x.js".as_slice(),
        b"none".as_slice(),
    ] {
        let name = normalize_filename(raw);
        assert!(!name.contains(&b'/'));
    }
}

#[test]
fn every_allowed_extension_is_accepted() {
    assert!(is_allowed_extension(b"a.jpg"));
    assert!(is_allowed_extension(b"a.jpeg"));
    assert!(is_allowed_extension(b"a.png"));
    assert!(is_allowed_extension(b"a.svg"));
    assert!(is_allowed_extension(b"a.html"));
    assert!(is_allowed_extension(b"a.js"));
    assert!(is_allowed_extension(b"a.css"));
}

#[test]
fn disallowed_extensions_are_rejected() {
    assert!(!is_allowed_extension(b"evil.exe"));
    assert!(!is_allowed_extension(b"archive.tar.gz"));
    assert!(!is_allowed_extension(b"noextension"));
    assert!(!is_allowed_extension(b""));
    assert!(!is_allowed_extension(b"upper.HTML"));
}

#[test]
fn validate_rejects_disallowed_names_with_invalid_name() {
    assert_eq!(validate_filename(b"evil.exe"), Err(StorageError::InvalidName));
    assert_eq!(validate_filename(b"/a/b/evil.exe"), Err(StorageError::InvalidName));
    assert_eq!(validate_filename(b"/a/b/"), Err(StorageError::InvalidName));
}

#[test]
fn validate_accepts_allowed_names_normalized() {
    assert_eq!(validate_filename(b"/a/b/c.html"), Ok(b"c.html".to_vec()));
    assert_eq!(validate_filename(b" style.css "), Ok(b"style.css".to_vec()));
}
