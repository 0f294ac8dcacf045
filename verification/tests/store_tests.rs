use local_rag_app::update::package_kind_of_extension;
use local_rag_app::update::{find_app_bundle, is_app_bundle_name, update_package_kind, PackageItem, UpdatePackageKind};
use local_rag_app::vectordb::{file_name_filter, has_documents_table, result_rows, MissingColumn, ResultColumns};

#[test]
fn filter_doubles_quotes() {
    assert_eq!(file_name_filter("a.txt"), "file_name = 'a.txt'");
    assert_eq!(file_name_filter("it's.md"), "file_name = 'it''s.md'");
    assert_eq!(file_name_filter("'"), "file_name = ''''");
}

#[test]
fn documents_table_lookup() {
    assert!(has_documents_table(&vec!["x".to_string(), "documents".to_string()]));
    assert!(!has_documents_table(&vec!["Documents".to_string()]));
    assert!(!has_documents_table(&vec![]));
}

#[test]
fn package_kinds() {
    assert_eq!(update_package_kind("本地知识库助手.app.tar.gz"), Some(UpdatePackageKind::TarGz));
    assert_eq!(update_package_kind("App_0.2.0_universal.DMG"), Some(UpdatePackageKind::DiskImage));
    assert_eq!(update_package_kind("app.tgz"), Some(UpdatePackageKind::TarGz));
    assert_eq!(update_package_kind("app.zip"), None);
    assert_eq!(update_package_kind("dmg"), None);
}

#[test]
fn app_bundle_in_package() {
    assert!(is_app_bundle_name("本地知识库助手.app"));
    assert!(!is_app_bundle_name("x.APP"));
    let items = vec![
        PackageItem { name: "README.app".to_string(), is_dir: false },
        PackageItem { name: ".background".to_string(), is_dir: true },
        PackageItem { name: "Helper.app".to_string(), is_dir: true },
        PackageItem { name: "Other.app".to_string(), is_dir: true },
    ];
    assert_eq!(find_app_bundle(&items), Some("Helper.app".to_string()));
    assert_eq!(find_app_bundle(&vec![]), None);
}

#[test]
fn lowercased_package_extensions() {
    assert_eq!(package_kind_of_extension("dmg"), Some(UpdatePackageKind::DiskImage));
    assert_eq!(package_kind_of_extension("gz"), Some(UpdatePackageKind::TarGz));
    assert_eq!(package_kind_of_extension("tgz"), Some(UpdatePackageKind::TarGz));
    assert_eq!(package_kind_of_extension("DMG"), None);
}

fn columns() -> ResultColumns {
    ResultColumns {
        ids: Some(vec!["i1".to_string(), "i2".to_string()]),
        file_names: Some(vec!["a.md".to_string(), "b.txt".to_string()]),
        chunk_indices: Some(vec![0, 3]),
        chunk_texts: Some(vec!["one".to_string(), "two".to_string()]),
    }
}

#[test]
fn result_rows_read_each_column() {
    let rows = result_rows(&columns()).unwrap();
    assert_eq!(rows.len(), 2);
    assert_eq!(rows[1].id, "i2");
    assert_eq!(rows[1].file_name, "b.txt");
    assert_eq!(rows[1].chunk_index, 3);
    assert_eq!(rows[1].chunk_text, "two");
}

#[test]
fn result_rows_name_the_first_missing_column() {
    let mut c = columns();
    c.chunk_indices = None;
    c.chunk_texts = None;
    assert_eq!(result_rows(&c).unwrap_err(), MissingColumn::ChunkIndex);
    assert_eq!(MissingColumn::ChunkIndex.column_name(), "chunk_index");
    let mut c = columns();
    c.ids = None;
    c.file_names = None;
    assert_eq!(result_rows(&c).unwrap_err(), MissingColumn::Id);
    let mut c = columns();
    c.file_names = None;
    assert_eq!(result_rows(&c).unwrap_err(), MissingColumn::FileName);
    let mut c = columns();
    c.chunk_texts = None;
    assert_eq!(result_rows(&c).unwrap_err(), MissingColumn::ChunkText);
}
