use ilias_sync::sync::apply_listing;
use ilias_sync::IlNode;
use ilias_sync::IlNodeType;
use ilias_sync::ItemRecord;
use ilias_sync::Tree;

fn folder_node(uri: &str, title: &str, path: &str, children: Vec<usize>) -> IlNode {
    IlNode {
        uri: uri.to_string(),
        title: title.to_string(),
        breed: IlNodeType::Folder { store_files: false, path: path.to_string() },
        visible: true,
        children: Some(children),
        id: 0,
        parent: 0,
    }
}

fn file_node(uri: &str, title: &str, path: &str, version: u32) -> IlNode {
    IlNode {
        uri: uri.to_string(),
        title: title.to_string(),
        breed: IlNodeType::File { path: path.to_string(), version, local: true },
        visible: true,
        children: None,
        id: 0,
        parent: 0,
    }
}

fn record(uri: &str, title: &str, hint: &str, version: Option<u32>) -> ItemRecord {
    ItemRecord {
        uri: uri.to_string(),
        title: title.to_string(),
        kind_hint: hint.to_string(),
        version,
    }
}

fn course_tree() -> Tree {
    Tree {
        nodes: vec![
            folder_node("ilias.php?ref_id=1&cmd=view", "Kurs", "root/Kurs", vec![1]),
            file_node("goto.php?target=file_11", "Blatt 1", "root/Kurs/Blatt_1", 1),
        ],
    }
}

#[test]
fn diff_scenario_bumps_matched_file_and_creates_folder() {
    // old children: [A(uri=u1, File, version=1)]
    // fresh listing: [Record(uri=u1, version=2), Record(uri=u2, kindHint=folder)]
    let mut tree = course_tree();
    let records = vec![
        record("goto.php?target=file_11", "Blatt 1", "file", Some(2)),
        record("ilias.php?ref_id=2&cmd=view", "Woche 1", "fold", None),
    ];
    let out = apply_listing(&mut tree, 0, &records);

    // A keeps its identity (index 1), its version becomes 2, one download
    assert_eq!(tree.nodes[0].children, Some(vec![1, 2]));
    match &tree.nodes[1].breed {
        IlNodeType::File { version, .. } => assert_eq!(*version, 2),
        other => panic!("expected a file, got {:?}", other),
    }
    assert_eq!(out.downloads, vec![1]);

    // B is newly created as an expandable folder and queued for recursion
    assert_eq!(tree.nodes[2].uri, "ilias.php?ref_id=2&cmd=view");
    match &tree.nodes[2].breed {
        IlNodeType::Folder { path, .. } => assert_eq!(path, "root/Kurs/Woche_1"),
        other => panic!("expected a folder, got {:?}", other),
    }
    assert_eq!(tree.nodes[2].children, Some(vec![]));
    assert_eq!(out.folders, vec![2]);
    assert_eq!(out.links, Vec::<usize>::new());
}

#[test]
fn second_pass_changes_nothing_and_downloads_nothing() {
    let mut tree = course_tree();
    let records = vec![
        record("goto.php?target=file_11", "Blatt 1", "file", Some(2)),
        record("ilias.php?ref_id=2&cmd=view", "Woche 1", "fold", None),
    ];
    let first = apply_listing(&mut tree, 0, &records);
    assert_eq!(first.downloads.len(), 1);
    let after_first = tree.nodes.clone();

    let second = apply_listing(&mut tree, 0, &records);
    assert_eq!(tree.nodes, after_first);
    assert_eq!(second.downloads, Vec::<usize>::new());
}

#[test]
fn equal_or_absent_version_dispatches_no_download() {
    let mut tree = course_tree();
    let same = vec![record("goto.php?target=file_11", "Blatt 1", "file", Some(1))];
    let out = apply_listing(&mut tree, 0, &same);
    assert_eq!(out.downloads, Vec::<usize>::new());
    match &tree.nodes[1].breed {
        IlNodeType::File { version, .. } => assert_eq!(*version, 1),
        other => panic!("expected a file, got {:?}", other),
    }

    let absent = vec![record("goto.php?target=file_11", "Blatt 1", "file", None)];
    let out = apply_listing(&mut tree, 0, &absent);
    assert_eq!(out.downloads, Vec::<usize>::new());
}

#[test]
fn matched_child_keeps_its_node_reference() {
    let mut tree = course_tree();
    let records = vec![record("goto.php?target=file_11", "Blatt 1", "file", Some(5))];
    apply_listing(&mut tree, 0, &records);
    // still arena index 1: a holder of index 1 sees the bumped version
    assert_eq!(tree.nodes[0].children, Some(vec![1]));
    assert_eq!(tree.nodes[1].uri, "goto.php?target=file_11");
    match &tree.nodes[1].breed {
        IlNodeType::File { version, path, .. } => {
            assert_eq!(*version, 5);
            assert_eq!(path, "root/Kurs/Blatt_1");
        },
        other => panic!("expected a file, got {:?}", other),
    }
}

#[test]
fn child_absent_from_listing_is_removed() {
    let mut tree = course_tree();
    let records = vec![record("goto.php?target=file_99", "Neues Blatt", "file", Some(1))];
    let out = apply_listing(&mut tree, 0, &records);
    // the old child (index 1) is gone from the children list ...
    assert_eq!(tree.nodes[0].children, Some(vec![2]));
    // ... but its node, and so its local file path, are left untouched
    assert_eq!(tree.nodes[1], file_node("goto.php?target=file_11", "Blatt 1", "root/Kurs/Blatt_1", 1));
    // the new file is fetched for the first time
    assert_eq!(out.downloads, vec![2]);
}

#[test]
fn unclassifiable_records_are_dropped() {
    let mut tree = course_tree();
    let records = vec![
        record("goto.php?target=file_11", "Blatt 1", "file", None),
        record("ilias.php?ref_id=9", "Sitzung", "sess", None),
    ];
    apply_listing(&mut tree, 0, &records);
    assert_eq!(tree.nodes[0].children, Some(vec![1]));
    assert_eq!(tree.nodes.len(), 2);
}

#[test]
fn empty_listing_collapses_children_to_absent() {
    let mut tree = course_tree();
    let out = apply_listing(&mut tree, 0, &vec![]);
    assert_eq!(tree.nodes[0].children, None);
    assert_eq!(out.downloads, Vec::<usize>::new());
    // an unexpanded folder is left unchanged by a later pass
    let out = apply_listing(&mut tree, 0, &vec![record("u", "t", "file", None)]);
    assert_eq!(tree.nodes[0].children, None);
    assert_eq!(out.downloads, Vec::<usize>::new());
    assert_eq!(tree.nodes.len(), 2);
}

#[test]
fn direct_links_and_leaf_kinds_are_classified() {
    let mut tree = course_tree();
    let records = vec![
        record("ilias.php?ref_id=3&cmd=calldirectlink", "Zoom", "webr", None),
        record("ilias.php?ref_id=4&cmd=showThreads", "Forum", "frm", None),
        record("ilias.php?ref_id=5", "Video", "xvid", None),
        record("ilias.php?ref_id=6", "Abgabe", "exc", None),
    ];
    let out = apply_listing(&mut tree, 0, &records);
    assert_eq!(tree.nodes[0].children, Some(vec![2, 3, 4, 5]));
    assert!(matches!(tree.nodes[2].breed, IlNodeType::DirectLink));
    assert!(matches!(tree.nodes[3].breed, IlNodeType::Forum));
    assert!(matches!(tree.nodes[4].breed, IlNodeType::Video));
    assert!(matches!(tree.nodes[5].breed, IlNodeType::Exercise));
    // only the direct link needs resolution; nothing recurses or downloads
    assert_eq!(out.links, vec![2]);
    assert_eq!(out.folders, Vec::<usize>::new());
    assert_eq!(out.downloads, Vec::<usize>::new());
    // leaves have no children container
    assert_eq!(tree.nodes[2].children, None);
}

#[test]
fn duplicate_listing_uris_match_first_then_create() {
    // the portal should not list one uri twice; when it does, the first
    // record takes the existing child and the second creates a fresh node
    let mut tree = course_tree();
    let records = vec![
        record("goto.php?target=file_11", "Blatt 1", "file", Some(1)),
        record("goto.php?target=file_11", "Blatt 1", "file", Some(1)),
    ];
    apply_listing(&mut tree, 0, &records);
    assert_eq!(tree.nodes[0].children, Some(vec![1, 2]));
}
