use passero::store::{gpg_id_contents, list, recipients_for};

#[test]
fn list_keeps_visible_gpg_files_sorted_without_extension() {
    let files: Vec<String> = vec![
        "zeta.gpg".into(),
        "email/fastmail.gpg".into(),
        ".gpg-id".into(),
        ".git/objects/ab.gpg".into(),
        "notes.txt".into(),
        "email/.hidden.gpg".into(),
        "archive.tar.gpg".into(),
        "gpg".into(),
    ];
    assert_eq!(list(&files), vec!["archive.tar".to_string(), "email/fastmail".to_string(), "zeta".to_string()]);
}

#[test]
fn list_of_nothing_is_empty() {
    assert!(list(&Vec::new()).is_empty());
}

#[test]
fn recipients_are_trimmed_non_empty_lines() {
    assert_eq!(recipients_for("  ABCD \n\nEF01\r\n"), vec!["ABCD".to_string(), "EF01".to_string()]);
    assert!(recipients_for("").is_empty());
}

#[test]
fn gpg_id_file_has_one_id_per_line() {
    assert_eq!(gpg_id_contents(&vec!["A".to_string(), "B".to_string()]), "A\nB\n");
    assert_eq!(gpg_id_contents(&Vec::new()), "\n");
}

#[test]
fn written_gpg_id_reads_back() {
    let ids = vec!["ABCD".to_string(), "EF01".to_string()];
    assert_eq!(recipients_for(&gpg_id_contents(&ids)), ids);
}

#[test]
fn gpg_id_of_no_ids_is_a_line_feed() {
    assert_eq!(gpg_id_contents(&vec![]), "\n");
    assert!(recipients_for("\n").is_empty());
}
