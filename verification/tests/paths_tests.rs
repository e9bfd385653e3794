use ilias_sync::sanitize_title;

const RESERVED: [char; 9] = ['/', '\\', ':', '*', '?', '"', '<', '>', '|'];

#[test]
fn sanitize_example_title() {
    assert_eq!(sanitize_title("A/B:C"), "A_B_C");
}

#[test]
fn sanitize_replaces_every_reserved_character() {
    let title: String = RESERVED.iter().collect();
    let clean = sanitize_title(&title);
    assert_eq!(clean, "_________");
    for c in RESERVED.iter() {
        assert!(!clean.contains(*c));
    }
}

#[test]
fn sanitize_replaces_spaces_and_keeps_the_rest() {
    assert_eq!(sanitize_title("Lineare Algebra II"), "Lineare_Algebra_II");
    assert_eq!(sanitize_title("Übung 1: Einführung"), "Übung_1__Einführung");
}

#[test]
fn sanitize_keeps_length_and_empty_titles() {
    assert_eq!(sanitize_title(""), "");
    assert_eq!(sanitize_title("a*b").chars().count(), 3);
}
