use inkling::knot::{KNOT_MARKER, ROOT_KNOT_NAME, STITCH_MARKER};
use inkling::parse::{
    divide_lines_at_marker, get_knot_from_lines, get_stitch_from_lines,
    read_knots_from_string, remove_empty_and_comment_lines,
};

#[test]
fn read_knots_from_string_works_for_single_nameless_knot() {
    let content = "\
First line.
Second line.
";

    let (head, knots) = read_knots_from_string(content).unwrap();

    assert_eq!(head, ROOT_KNOT_NAME);
    assert_eq!(knots.len(), 1);
    assert!(knots.contains_key(&head));
}

#[test]
fn read_knots_from_string_works_for_single_named_knot() {
    let content = "\
== head ==
First line.
Second line.
";

    let (head, knots) = read_knots_from_string(content).unwrap();

    assert_eq!(head, "head");
    assert_eq!(knots.len(), 1);
    assert!(knots.contains_key(&head));
}

#[test]
fn divide_into_knots_splits_given_lines_at_knot_markers() {
    let content = vec![
        "== Knot one ",
        "Line 1",
        "Line 2",
        "",
        "=== Knot two ===",
        "Line 3",
        "",
    ];

    let knot_lines = divide_lines_at_marker(content.clone(), KNOT_MARKER);

    assert_eq!(knot_lines[0][..], content[0..4]);
    assert_eq!(knot_lines[1][..], content[4..]);
}

#[test]
fn divide_into_knots_adds_content_from_nameless_knots_first() {
    let content = vec!["Line 1", "Line 2", "== Knot one ", "Line 3"];

    let knot_lines = divide_lines_at_marker(content.clone(), KNOT_MARKER);

    assert_eq!(knot_lines[0][..], content[0..2]);
    assert_eq!(knot_lines[1][..], content[2..]);
}

#[test]
fn divide_into_stitches_splits_lines_at_markers() {
    let content = vec![
        "Line 1",
        "= Stitch one ",
        "Line 2",
        "Line 3",
        "",
        "= Stitch two",
        "Line 4",
        "",
    ];

    let knot_lines = divide_lines_at_marker(content.clone(), STITCH_MARKER);

    assert_eq!(knot_lines[0][..], content[0..1]);
    assert_eq!(knot_lines[1][..], content[1..5]);
    assert_eq!(knot_lines[2][..], content[5..]);
}

#[test]
fn empty_lines_and_comment_lines_are_removed_by_initial_processing() {
    let content = vec![
        "Good line",
        "// Comment line is remove",
        "",        // removed
        "       ", // removed
        "TODO: As is todo comments",
        "TODO but not without a colon!",
    ];

    let lines = remove_empty_and_comment_lines(content.clone());
    assert_eq!(&lines, &[content[0].clone(), content[5].clone()]);
}

#[test]
fn parsing_knot_from_lines_gets_name() {
    let content = vec!["== Knot_name ==", "Line 1", "Line 2"];

    let (name, _) = get_knot_from_lines(content, 0).unwrap();
    assert_eq!(&name, "Knot_name");
}

#[test]
fn parsing_knot_from_lines_without_stitches_sets_content_in_default_named_stitch() {
    let content = vec!["== Knot_name ==", "Line 1", "Line 2"];

    let (_, knot) = get_knot_from_lines(content, 0).unwrap();

    assert_eq!(&knot.default_stitch, ROOT_KNOT_NAME);
    assert_eq!(
        knot.stitches.get(ROOT_KNOT_NAME).unwrap().root.items.len(),
        2
    );
}

#[test]
fn parsing_a_stitch_gets_name_if_present_else_default_root_name_if_index_is_zero() {
    let (name, _) = get_stitch_from_lines(vec!["= stitch_name =", "Line 1"], 0).unwrap();
    assert_eq!(name, "stitch_name".to_string());

    let (name, _) = get_stitch_from_lines(vec!["Line 1"], 0).unwrap();
    assert_eq!(name, ROOT_KNOT_NAME);
}

#[test]
fn parsing_a_stitch_gets_all_content_regardless_of_whether_name_is_present() {
    let (_, content) = get_stitch_from_lines(vec!["= stitch_name =", "Line 1"], 0).unwrap();
    assert_eq!(content.root.items.len(), 1);

    let (_, content) = get_stitch_from_lines(vec!["Line 1"], 0).unwrap();
    assert_eq!(content.root.items.len(), 1);
}

#[test]
fn parsing_a_knot_from_lines_sets_stitches_in_hash_map() {
    let lines = vec!["== knot_name", "= stitch_one", "= stitch_two"];
    let (_, knot) = get_knot_from_lines(lines, 0).unwrap();

    assert_eq!(knot.stitches.len(), 2);
    assert!(knot.stitches.get("stitch_one").is_some());
    assert!(knot.stitches.get("stitch_two").is_some());
}

#[test]
fn knot_with_root_content_gets_default_knot_as_first_stitch() {
    let lines = vec![
        "== knot_name",
        "Line 1",
        "= stitch_one",
        "Line 2",
        "= stitch_two",
    ];

    let (_, knot) = get_knot_from_lines(lines, 0).unwrap();
    assert_eq!(&knot.default_stitch, ROOT_KNOT_NAME);
}

#[test]
fn knot_with_no_root_content_gets_default_knot_as_first_stitch() {
    let lines = vec!["== knot_name", "= stitch_one", "Line 1", "= stitch_two"];

    let (_, knot) = get_knot_from_lines(lines, 0).unwrap();
    assert_eq!(&knot.default_stitch, "stitch_one");
}
