use engine::mega::link::{finish, parse, MegaLink};
use engine::Error;

#[test]
fn parses_folder() {
    let l = parse("https://mega.nz/folder/AbCd1234#someKeyValue").unwrap();
    assert_eq!(
        l,
        MegaLink::Folder {
            id: "AbCd1234".into(),
            key: "someKeyValue".into(),
            file: None,
        }
    );
}

#[test]
fn parses_file_in_folder() {
    let l = parse("https://mega.nz/folder/AbCd1234#someKey/file/XyZ987").unwrap();
    assert_eq!(
        l,
        MegaLink::Folder {
            id: "AbCd1234".into(),
            key: "someKey".into(),
            file: Some("XyZ987".into()),
        }
    );
}

#[test]
fn parses_standalone_file() {
    let l = parse("mega.nz/file/FileId01#fileKey").unwrap();
    assert_eq!(
        l,
        MegaLink::File {
            id: "FileId01".into(),
            key: "fileKey".into(),
        }
    );
}

#[test]
fn rejects_missing_key() {
    assert!(parse("https://mega.nz/folder/AbCd1234").is_err());
}

#[test]
fn missing_key_error_names_the_input() {
    let e = parse("https://mega.nz/folder/AbCd1234").unwrap_err();
    assert_eq!(
        e,
        Error::InvalidLink("missing '#' key: https://mega.nz/folder/AbCd1234".into())
    );
}

#[test]
fn rejects_unrecognized_path() {
    let e = parse("https://mega.nz/account#abc").unwrap_err();
    assert_eq!(
        e,
        Error::InvalidLink("unrecognized path: https://mega.nz/account#abc".into())
    );
}

#[test]
fn rejects_empty_key() {
    let e = parse("https://mega.nz/folder/AbCd1234#/").unwrap_err();
    assert_eq!(e, Error::InvalidLink("empty id or key".into()));
}

#[test]
fn accepts_old_host_and_surrounding_space() {
    let l = parse("  https://mega.co.nz/folder/Id9#Key9/  ").unwrap();
    assert_eq!(
        l,
        MegaLink::Folder {
            id: "Id9".into(),
            key: "Key9".into(),
            file: None,
        }
    );
}

#[test]
fn accepts_bare_path() {
    let l = parse("/file/Abc#Def").unwrap();
    assert_eq!(
        l,
        MegaLink::File {
            id: "Abc".into(),
            key: "Def".into(),
        }
    );
}

#[test]
fn finish_trims_slashes() {
    assert_eq!(
        finish("/id/", "//key").unwrap(),
        ("id".to_string(), "key".to_string())
    );
    assert!(finish("//", "key").is_err());
}

#[test]
fn parsed_parts_lose_their_slashes() {
    assert_eq!(
        parse("https://mega.nz/folder//id/#/key//file/h").unwrap(),
        MegaLink::Folder { id: "id".into(), key: "key".into(), file: Some("h".into()) }
    );
}
