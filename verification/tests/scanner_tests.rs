use local_rag_app::scanner::is_text_extension_lower;
use local_rag_app::scanner::{
    archive_dir, delete_dir, disambiguated_name, file_extension, file_stem, is_text_file, join_path,
    list_archived_files, list_deleted_files, list_pending_ingestions, move_destination,
    timestamp_text, LocalDateTime,
    text_files_by_recency, FileEntry, SourceFolderSnapshot,
};

fn s(x: &str) -> String {
    x.to_string()
}

fn entry(name: &str, is_file: bool, size: u64, modified: i128) -> FileEntry {
    FileEntry { name: name.to_string(), is_file, size_bytes: size, modified_nanos: modified }
}

#[test]
fn join_inserts_one_separator() {
    assert_eq!(join_path("/src", "a.txt"), "/src/a.txt");
    assert_eq!(join_path("/src/", "a.txt"), "/src/a.txt");
    assert_eq!(join_path("", "a.txt"), "a.txt");
    assert_eq!(join_path("/src", "/abs"), "/abs");
}

#[test]
fn managed_subfolders() {
    assert_eq!(archive_dir("/Users/me/docs"), "/Users/me/docs/archive");
    assert_eq!(delete_dir("/Users/me/docs"), "/Users/me/docs/delete");
    assert_eq!(archive_dir("/Users/me/docs/"), "/Users/me/docs/archive");
}

#[test]
fn extensions_follow_path_rules() {
    assert_eq!(file_extension("a.txt"), Some("txt".to_string()));
    assert_eq!(file_extension("a.tar.gz"), Some("gz".to_string()));
    assert_eq!(file_extension("a."), Some(String::new()));
    assert_eq!(file_extension("README"), None);
    assert_eq!(file_extension(".bashrc"), None);
    assert_eq!(file_extension(".."), None);
}

#[test]
fn stems_follow_path_rules() {
    assert_eq!(file_stem("a.txt"), "a");
    assert_eq!(file_stem("a.tar.gz"), "a.tar");
    assert_eq!(file_stem(".bashrc"), ".bashrc");
    assert_eq!(file_stem("README"), "README");
}

#[test]
fn text_files_by_extension_in_any_case() {
    assert!(is_text_file("notes.txt"));
    assert!(is_text_file("README.MD"));
    assert!(is_text_file("a.TxT"));
    assert!(!is_text_file("a.rs"));
    assert!(!is_text_file(".txt"));
    assert!(!is_text_file("txt"));
    assert!(!is_text_file("a.markdown"));
}

#[test]
fn disambiguated_names_keep_the_extension() {
    assert_eq!(disambiguated_name("a.txt", "20240101-120000"), "a-20240101-120000.txt");
    assert_eq!(disambiguated_name("README", "20240101-120000"), "README-20240101-120000");
    assert_eq!(disambiguated_name(".bashrc", "ts"), ".bashrc-ts");
    assert!(is_text_file(&disambiguated_name("Notes.MD", "20240101-120000")));
}

fn noon() -> LocalDateTime {
    LocalDateTime { year: 2024, month: 1, day: 2, hour: 12, minute: 3, second: 4 }
}

#[test]
fn move_destination_uses_own_name_when_free() {
    let existing = vec![s("b.txt")];
    assert_eq!(
        move_destination("/src/archive", "a.txt", &existing, &noon()),
        Some(s("/src/archive/a.txt"))
    );
}

#[test]
fn move_destination_adds_timestamp_when_taken() {
    let existing = vec![s("a.txt")];
    assert_eq!(
        move_destination("/src/archive", "a.txt", &existing, &noon()),
        Some(s("/src/archive/a-20240102-120304.txt"))
    );
}

#[test]
fn move_destination_never_replaces_a_file() {
    let existing = vec![s("a.txt"), s("a-20240102-120304.txt")];
    assert_eq!(move_destination("/src/archive", "a.txt", &existing, &noon()), None);
}

#[test]
fn timestamps_are_zero_padded() {
    assert_eq!(timestamp_text(&noon()), "20240102-120304");
    let t = LocalDateTime { year: 987, month: 12, day: 31, hour: 0, minute: 0, second: 60 };
    assert_eq!(timestamp_text(&t), "09871231-000060");
}

#[test]
fn timestamps_sign_years_out_of_four_digits() {
    let t = LocalDateTime { year: -44, month: 3, day: 15, hour: 9, minute: 5, second: 7 };
    assert_eq!(timestamp_text(&t), "-00440315-090507");
    let t = LocalDateTime { year: 12345, month: 1, day: 1, hour: 23, minute: 59, second: 59 };
    assert_eq!(timestamp_text(&t), "+123450101-235959");
}

#[test]
fn listing_is_text_files_newest_first_and_stable() {
    let es = vec![
        entry("old.txt", true, 10, 100),
        entry("image.png", true, 99, 500),
        entry("new.md", true, 20, 300),
        entry("dir.txt", false, 0, 900),
        entry("tie1.txt", true, 30, 200),
        entry("tie2.txt", true, 40, 200),
    ];
    let l = text_files_by_recency(&es);
    let names: Vec<&str> = l.iter().map(|(n, _)| n.as_str()).collect();
    assert_eq!(names, vec!["new.md", "tie1.txt", "tie2.txt", "old.txt"]);
    assert_eq!(l[0].1, 20);
}

#[test]
fn missing_subfolders_list_nothing() {
    let snap = SourceFolderSnapshot { root: vec![], archive: None, deleted: None };
    assert!(list_archived_files(&snap).is_empty());
    assert!(list_deleted_files(&snap).is_empty());
}

#[test]
fn archived_and_deleted_columns() {
    let snap = SourceFolderSnapshot {
        root: vec![],
        archive: Some(vec![entry("a.txt", true, 1, 5), entry("b.txt", true, 2, 7)]),
        deleted: Some(vec![entry("c.md", true, 3, 1)]),
    };
    assert_eq!(list_archived_files(&snap), vec![("b.txt".to_string(), 2), ("a.txt".to_string(), 1)]);
    assert_eq!(list_deleted_files(&snap), vec![("c.md".to_string(), 3)]);
}

#[test]
fn pending_files_are_root_text_files_sorted_by_name() {
    let snap = SourceFolderSnapshot {
        root: vec![
            entry("zeta.txt", true, 1, 1),
            entry("archive", false, 0, 1),
            entry("Alpha.md", true, 1, 9),
            entry("beta.TXT", true, 1, 5),
            entry("photo.jpg", true, 1, 5),
        ],
        archive: None,
        deleted: None,
    };
    assert_eq!(
        list_pending_ingestions("/docs", &snap),
        vec!["/docs/Alpha.md".to_string(), "/docs/beta.TXT".to_string(), "/docs/zeta.txt".to_string()]
    );
}

#[test]
fn lowercased_text_extensions() {
    assert!(is_text_extension_lower("txt"));
    assert!(is_text_extension_lower("md"));
    assert!(!is_text_extension_lower("TXT"));
    assert!(!is_text_extension_lower(""));
}
