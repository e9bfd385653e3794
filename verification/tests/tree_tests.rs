use ilias_sync::add_to_file_watcher;
use ilias_sync::get_node;
use ilias_sync::set_ids;
use ilias_sync::FileSelect;
use ilias_sync::FileWatcher;
use ilias_sync::IlNode;
use ilias_sync::IlNodeType;
use ilias_sync::Tree;

fn node(uri: &str, title: &str, breed: IlNodeType, children: Option<Vec<usize>>) -> IlNode {
    IlNode {
        uri: uri.to_string(),
        title: title.to_string(),
        breed,
        visible: true,
        children,
        id: 0,
        parent: 0,
    }
}

fn sample_tree() -> Tree {
    Tree {
        nodes: vec![
            node("root-uri", "Root", IlNodeType::Root, Some(vec![1])),
            node(
                "course-uri",
                "Kurs",
                IlNodeType::Folder { store_files: true, path: "root/Kurs".to_string() },
                Some(vec![2, 3]),
            ),
            node(
                "file-uri",
                "Blatt 1",
                IlNodeType::File { path: "root/Kurs/Blatt_1".to_string(), version: 1, local: true },
                None,
            ),
            node("forum-uri", "Forum", IlNodeType::Forum, None),
        ],
    }
}

#[test]
fn set_ids_numbers_nodes_and_links_parents() {
    let mut tree = sample_tree();
    set_ids(&mut tree);
    for (i, n) in tree.nodes.iter().enumerate() {
        assert_eq!(n.id, i);
    }
    assert_eq!(tree.nodes[1].parent, 0);
    assert_eq!(tree.nodes[2].parent, 1);
    assert_eq!(tree.nodes[3].parent, 1);
}

#[test]
fn get_node_finds_by_identifier() {
    let mut tree = sample_tree();
    set_ids(&mut tree);
    let found = get_node(&tree, 2).expect("node 2 exists");
    assert_eq!(found.uri, "file-uri");
    assert!(get_node(&tree, 99).is_none());
}

#[test]
fn with_root_builds_an_expandable_root() {
    let tree = Tree::with_root("root-uri".to_string(), "Root".to_string());
    assert_eq!(tree.nodes.len(), 1);
    assert!(matches!(tree.nodes[0].breed, IlNodeType::Root));
    assert_eq!(tree.nodes[0].children, Some(vec![]));
}

#[test]
fn watcher_records_every_file_node() {
    let mut tree = sample_tree();
    set_ids(&mut tree);
    let mut watcher = FileWatcher::new();
    add_to_file_watcher(&tree, &mut watcher);
    assert_eq!(watcher.files, vec![2]);
    assert_eq!(watcher.find_by_title("Blatt 1"), Some(2));
    assert_eq!(watcher.find_by_title("Blatt 2"), None);
    // the file is watched under the uri of the page listing it
    assert_eq!(watcher.find_parent_uri(2), Some("course-uri".to_string()));
}

#[test]
fn add_file_newest_entry_wins() {
    let mut watcher = FileWatcher::new();
    watcher.add_file(7, "Blatt 1".to_string(), "page-a".to_string());
    watcher.add_file(8, "Blatt 1".to_string(), "page-b".to_string());
    assert_eq!(watcher.find_by_title("Blatt 1"), Some(8));
    assert_eq!(watcher.files, vec![7, 8]);
}

#[test]
fn pages_to_request_lists_each_page_once() {
    let mut watcher = FileWatcher::new();
    watcher.add_file(1, "a".to_string(), "page-a".to_string());
    watcher.add_file(2, "b".to_string(), "page-a".to_string());
    watcher.add_file(3, "c".to_string(), "page-b".to_string());
    let pages = watcher.pages_to_request(&FileSelect::All);
    assert_eq!(pages, vec!["page-a".to_string(), "page-b".to_string()]);
    let pages = watcher.pages_to_request(&FileSelect::Filtered(vec![3]));
    assert_eq!(pages, vec!["page-b".to_string()]);
}

#[test]
fn folder_paths_lists_every_folder_directory() {
    let tree = sample_tree();
    assert_eq!(ilias_sync::tree::folder_paths(&tree), vec!["root/Kurs".to_string()]);
}

#[test]
fn due_downloads_picks_strictly_newer_versions() {
    let mut tree = sample_tree();
    set_ids(&mut tree);
    let mut watcher = FileWatcher::new();
    add_to_file_watcher(&tree, &mut watcher);
    let infos = vec![
        ("Blatt 1".to_string(), 2),
        ("Unbekannt".to_string(), 9),
    ];
    assert_eq!(watcher.due_downloads(&tree, &infos), vec![2]);
    let same = vec![("Blatt 1".to_string(), 1)];
    assert_eq!(watcher.due_downloads(&tree, &same), Vec::<usize>::new());
}
