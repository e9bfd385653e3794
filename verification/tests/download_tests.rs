use ilias_sync::download::decide_materialize;
use ilias_sync::download::resolve_download_path;
use ilias_sync::download::DownloadAction;
use ilias_sync::IlNode;
use ilias_sync::IlNodeType;
use ilias_sync::SyncError;
use ilias_sync::Tree;

fn tree_with_file(path: &str) -> Tree {
    Tree {
        nodes: vec![IlNode {
            uri: "goto.php?target=file_11".to_string(),
            title: "Blatt 1".to_string(),
            breed: IlNodeType::File { path: path.to_string(), version: 1, local: true },
            visible: true,
            children: None,
            id: 0,
            parent: 0,
        }],
    }
}

fn file_path(tree: &Tree) -> String {
    match &tree.nodes[0].breed {
        IlNodeType::File { path, .. } => path.clone(),
        other => panic!("expected a file, got {:?}", other),
    }
}

fn file_local(tree: &Tree) -> bool {
    match &tree.nodes[0].breed {
        IlNodeType::File { local, .. } => *local,
        other => panic!("expected a file, got {:?}", other),
    }
}

#[test]
fn content_type_chooses_the_extension() {
    let mut tree = tree_with_file("root/Kurs/Blatt_1");
    let p = resolve_download_path(&mut tree, 0, Some("application/pdf")).unwrap();
    assert_eq!(p, "root/Kurs/Blatt_1.pdf");
    assert_eq!(file_path(&tree), "root/Kurs/Blatt_1.pdf");
}

#[test]
fn an_existing_extension_is_replaced() {
    let mut tree = tree_with_file("root/Kurs/Blatt_1.tmp");
    let p = resolve_download_path(&mut tree, 0, Some("image/png")).unwrap();
    assert_eq!(p, "root/Kurs/Blatt_1.png");
}

#[test]
fn a_dotted_directory_does_not_count_as_extension() {
    let mut tree = tree_with_file("root/K.urs/Blatt");
    let p = resolve_download_path(&mut tree, 0, Some("text/plain")).unwrap();
    assert_eq!(p, "root/K.urs/Blatt.plain");
}

#[test]
fn missing_content_type_fails_and_changes_nothing() {
    let mut tree = tree_with_file("root/Kurs/Blatt_1");
    assert_eq!(
        resolve_download_path(&mut tree, 0, None),
        Err(SyncError::MissingContentType)
    );
    assert_eq!(
        resolve_download_path(&mut tree, 0, Some("pdf")),
        Err(SyncError::MissingContentType)
    );
    assert_eq!(file_path(&tree), "root/Kurs/Blatt_1");
}

#[test]
fn existing_local_file_is_skipped() {
    let mut tree = tree_with_file("root/Kurs/Blatt_1.pdf");
    let action = decide_materialize(&mut tree, 0, true);
    assert_eq!(action, DownloadAction::SkipExisting);
    assert!(file_local(&tree));
}

#[test]
fn large_media_is_kept_remote_only() {
    let mut tree = tree_with_file("root/Kurs/Vorlesung.mp4");
    let action = decide_materialize(&mut tree, 0, false);
    assert_eq!(action, DownloadAction::RemoteOnly);
    assert!(!file_local(&tree));

    let mut tree = tree_with_file("root/Kurs/Archiv.zip");
    let action = decide_materialize(&mut tree, 0, false);
    assert_eq!(action, DownloadAction::RemoteOnly);
    assert!(!file_local(&tree));
}

#[test]
fn ordinary_files_are_materialized_at_their_path() {
    let mut tree = tree_with_file("root/Kurs/Blatt_1.pdf");
    let action = decide_materialize(&mut tree, 0, false);
    assert_eq!(
        action,
        DownloadAction::Materialize { path: "root/Kurs/Blatt_1.pdf".to_string() }
    );
    assert!(file_local(&tree));
}
