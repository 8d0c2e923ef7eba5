use grep_bin::file::{filter_filetypes, has_filetype};

#[test]
fn keeps_files_with_listed_extensions() {
    let files = vec![
        "a/b.jpg".to_string(),
        "c.mp3".to_string(),
        "d".to_string(),
        "e.tar.gz".to_string(),
        ".hidden".to_string(),
    ];
    let r = filter_filetypes(files, &["jpg", "gz"]);
    assert_eq!(r, vec!["a/b.jpg".to_string(), "e.tar.gz".to_string()]);
}

#[test]
fn file_without_extension_matches_empty_type() {
    let r = filter_filetypes(vec!["d".to_string(), "x.exe".to_string()], &[""]);
    assert_eq!(r, vec!["d".to_string()]);
}

#[test]
fn filetype_lookup() {
    assert!(has_filetype("exe", &["jpg", "exe"]));
    assert!(!has_filetype("ex", &["jpg", "exe"]));
}
