use ilias_sync::extract_version;
use ilias_sync::get_il_node_type;
use ilias_sync::IlNodeType;

#[test]
fn extract_version_reads_the_number_between_marker_and_ampersand() {
    assert_eq!(extract_version("Version: 12&nbsp;"), Some(12));
    assert_eq!(extract_version("Gestern, Version: 3&auml;"), Some(3));
}

#[test]
fn extract_version_needs_both_delimiters() {
    assert_eq!(extract_version("Version: 12"), None);
    assert_eq!(extract_version("12&nbsp;"), None);
    assert_eq!(extract_version("Version: &nbsp;"), None);
}

#[test]
fn extract_version_rejects_non_digits_and_overflow() {
    assert_eq!(extract_version("Version: 1a2&"), None);
    assert_eq!(extract_version("Version: 99999999999&"), None);
    assert_eq!(extract_version("Version: 4294967295&"), Some(u32::MAX));
}

#[test]
fn extract_version_takes_the_first_marker() {
    assert_eq!(extract_version("Version: 7&x Version: 9&y"), Some(7));
}

#[test]
fn classify_uri_by_cmd_parameter() {
    let folder = get_il_node_type("ilias.php?ref_id=1&cmd=view&cmdClass=x");
    assert!(matches!(folder, Some(IlNodeType::Folder { .. })));
    let forum = get_il_node_type("ilias.php?ref_id=1&cmd=showThreads");
    assert!(matches!(forum, Some(IlNodeType::Forum)));
    let link = get_il_node_type("ilias.php?ref_id=1&cmd=calldirectlink");
    assert!(matches!(link, Some(IlNodeType::DirectLink)));
}

#[test]
fn classify_uri_unknown_cmd_is_nothing() {
    assert_eq!(get_il_node_type("ilias.php?cmd=infoScreen"), None);
    assert_eq!(get_il_node_type("ilias.php?ref_id=1"), None);
}

#[test]
fn classify_uri_goto_is_a_file() {
    let file = get_il_node_type("goto.php?target=file_123_download");
    assert!(matches!(file, Some(IlNodeType::File { .. })));
}

#[test]
fn classify_uri_cmd_must_start_a_segment() {
    // "cmd=" inside another parameter's value is not the cmd parameter
    assert_eq!(get_il_node_type("ilias.php?xcmd=view"), None);
    assert!(matches!(
        get_il_node_type("ilias.php?acmd=z&cmd=view"),
        Some(IlNodeType::Folder { .. })
    ));
}
