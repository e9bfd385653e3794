use ilias_sync::listing::parse_listing;
use ilias_sync::listing::parse_root_listing;
use ilias_sync::sync_node;
use ilias_sync::watcher::get_versions;
use ilias_sync::IlNode;
use ilias_sync::IlNodeType;
use ilias_sync::Tree;

fn course_page() -> String {
    let mut page = String::new();
    page.push_str("<html><body>");
    page.push_str("<div class=\"ilContainerListItemOuter\">");
    page.push_str("<img class=\"ilListItemIcon\" src=\"./templates/icon_file.svg\">");
    page.push_str("<div class=\"il_ContainerItemTitle\">");
    page.push_str("<a href=\"goto.php?target=file_11\">Skript Kapitel 1</a></div>");
    page.push_str("<span class=\"il_ItemProperty\">pdf</span>");
    page.push_str("<span class=\"il_ItemProperty\">Gestern</span>");
    page.push_str("<span class=\"il_ItemProperty\">Version: 4&nbsp;</span>");
    page.push_str("</div>");
    page.push_str("<div class=\"ilContainerListItemOuter\">");
    page.push_str("<img class=\"ilListItemIcon\" src=\"./templates/icon_fold.svg\">");
    page.push_str("<div class=\"il_ContainerItemTitle\">");
    page.push_str("<a href=\"ilias.php?ref_id=7&amp;cmd=view\">Woche 1</a></div>");
    page.push_str("</div>");
    page.push_str("<div class=\"ilContainerListItemOuter\">");
    page.push_str("<div class=\"il_ContainerItemTitle\">kein Link</div>");
    page.push_str("</div>");
    page.push_str("</body></html>");
    page
}

#[test]
fn parse_listing_reads_records_off_the_page() {
    let records = parse_listing(&course_page());
    assert_eq!(records.len(), 2);
    assert_eq!(records[0].uri, "goto.php?target=file_11");
    assert_eq!(records[0].title, "Skript Kapitel 1");
    assert_eq!(records[0].kind_hint, "file");
    assert_eq!(records[0].version, Some(4));
    assert_eq!(records[1].uri, "ilias.php?ref_id=7&cmd=view");
    assert_eq!(records[1].title, "Woche 1");
    assert_eq!(records[1].kind_hint, "fold");
    assert_eq!(records[1].version, None);
}

#[test]
fn parse_listing_of_an_empty_page_is_empty() {
    assert!(parse_listing("<html><body></body></html>").is_empty());
}

#[test]
fn parse_root_listing_keeps_only_courses() {
    let mut page = String::new();
    page.push_str("<html><body>");
    page.push_str("<div class=\"il-item\">");
    page.push_str("<img class=\"icon\" alt=\"Symbol Kurs\">");
    page.push_str("<div class=\"il-item-title\">");
    page.push_str("<a href=\"ilias.php?ref_id=1&amp;cmd=view\">Rechnernetze</a></div></div>");
    page.push_str("<div class=\"il-item\">");
    page.push_str("<img class=\"icon\" alt=\"Symbol Gruppe\">");
    page.push_str("<div class=\"il-item-title\">");
    page.push_str("<a href=\"ilias.php?ref_id=2&amp;cmd=view\">Lerngruppe</a></div></div>");
    page.push_str("</body></html>");
    let records = parse_root_listing(&page);
    assert_eq!(records.len(), 1);
    assert_eq!(records[0].uri, "ilias.php?ref_id=1&cmd=view");
    assert_eq!(records[0].title, "Rechnernetze");
    assert_eq!(records[0].kind_hint, "crs");
    assert_eq!(records[0].version, None);
}

#[test]
fn sync_node_expands_a_folder_from_its_page() {
    let mut tree = Tree {
        nodes: vec![IlNode {
            uri: "ilias.php?ref_id=1&cmd=view".to_string(),
            title: "Kurs".to_string(),
            breed: IlNodeType::Folder { store_files: true, path: "root/Kurs".to_string() },
            visible: true,
            children: Some(vec![]),
            id: 0,
            parent: 0,
        }],
    };
    let out = sync_node(&mut tree, 0, &course_page()).expect("a folder in range");
    assert_eq!(tree.nodes[0].children, Some(vec![1, 2]));
    assert_eq!(tree.nodes[1].uri, "goto.php?target=file_11");
    assert!(matches!(tree.nodes[1].breed, IlNodeType::File { version: 4, .. }));
    assert_eq!(tree.nodes[2].title, "Woche 1");
    assert_eq!(out.downloads, vec![1]);
    assert_eq!(out.folders, vec![2]);
}

#[test]
fn get_versions_lists_file_rows_with_their_versions() {
    let mut page = String::new();
    page.push_str("<html><body>");
    page.push_str("<div class=\"ilContainerListItemOuter\">");
    page.push_str("<div class=\"il_ContainerItemTitle\">");
    page.push_str("<a href=\"goto.php?target=file_11\">Blatt/1</a></div>");
    page.push_str("<span class=\"il_ItemProperty\">a</span>");
    page.push_str("<span class=\"il_ItemProperty\">b</span>");
    page.push_str("<span class=\"il_ItemProperty\">Version: 2&nbsp;</span>");
    page.push_str("</div>");
    page.push_str("<div class=\"ilContainerListItemOuter\">");
    page.push_str("<div class=\"il_ContainerItemTitle\">");
    page.push_str("<a href=\"goto.php?target=file_12\">Blatt 2</a></div>");
    page.push_str("</div>");
    page.push_str("<div class=\"ilContainerListItemOuter\">");
    page.push_str("<div class=\"il_ContainerItemTitle\">");
    page.push_str("<a href=\"ilias.php?ref_id=3&amp;cmd=view\">Ordner</a></div>");
    page.push_str("</div>");
    page.push_str("</body></html>");
    let versions = get_versions(&page);
    assert_eq!(versions.len(), 2);
    assert_eq!(versions[0].0, "Blatt 1");
    assert_eq!(versions[0].1, 2);
    assert_eq!(versions[1].0, "Blatt 2");
    assert_eq!(versions[1].1, 1);
}
