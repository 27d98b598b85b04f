use std::cmp::Ordering;

use inkling::address::Address;
use inkling::error::{InklingError, KnotError, KnotNameError, ParseError};
use inkling::follow::ChoiceInfo;
use inkling::knot::{Knot, Stitch, ROOT_KNOT_NAME};
use inkling::line::{Condition, InternalChoice, InternalChoiceBuilder, InternalLineBuilder};
use inkling::namemap::NameMap;
use inkling::parse::{get_stitch_from_lines, read_knots_from_string, todo_comment_lines};
use inkling::process::{get_fallback_choices, prepare_choices_for_user, process_buffer};
use inkling::story::{Knots, Line};
use inkling::text::split_content_lines;

fn choice_info(num_visited: u32, choice_data: InternalChoice) -> ChoiceInfo {
    ChoiceInfo {
        num_visited,
        choice_data,
    }
}

fn single_knot_story(visits: u32) -> (Address, Knots) {
    let mut stitch = Stitch::from_str("").unwrap();
    stitch.num_visited = visits;

    let mut stitches: NameMap<Stitch> = NameMap::new();
    stitches.insert(ROOT_KNOT_NAME.to_string(), stitch);

    let mut knots: Knots = NameMap::new();
    knots.insert(
        "k".to_string(),
        Knot {
            default_stitch: ROOT_KNOT_NAME.to_string(),
            stitches,
        },
    );

    let address = Address::from_root_knot("k", &knots).unwrap();
    (address, knots)
}

#[test]
fn unnamed_single_knot_emits_its_lines() {
    let (head, knots) = read_knots_from_string("First.\nSecond.\n").unwrap();

    assert_eq!(head, ROOT_KNOT_NAME);
    let stitch = knots
        .get(&head)
        .unwrap()
        .stitches
        .get(ROOT_KNOT_NAME)
        .unwrap();

    let mut out: Vec<Line> = Vec::new();
    process_buffer(&mut out, stitch.root.items.clone());

    assert_eq!(out.len(), 2);
    assert_eq!(out[0].text, "First.\n");
    assert_eq!(out[1].text, "Second.\n");
}

#[test]
fn named_knot_with_two_stitches_builds_the_expected_graph() {
    let (head, knots) = read_knots_from_string("== k ==\n= a =\nA\n= b =\nB\n").unwrap();

    assert_eq!(head, "k");
    let knot = knots.get("k").unwrap();
    assert_eq!(&knot.default_stitch, "a");
    assert_eq!(knot.stitches.len(), 2);
    assert!(knot.stitches.get("a").is_some());
    assert!(knot.stitches.get("b").is_some());

    let mut out: Vec<Line> = Vec::new();
    process_buffer(&mut out, knot.stitches.get("a").unwrap().root.items.clone());
    assert_eq!(out.len(), 1);
    assert_eq!(out[0].text, "A\n");
}

#[test]
fn glue_joins_lines_across_an_empty_line() {
    let buffer = vec![
        InternalLineBuilder::from_string("Hello").with_glue_end().build(),
        InternalLineBuilder::from_string("").build(),
        InternalLineBuilder::from_string("world").with_glue_begin().build(),
    ];

    let mut out: Vec<Line> = Vec::new();
    process_buffer(&mut out, buffer);

    assert_eq!(out.len(), 2);
    assert_eq!(out[0].text, "Hello");
    assert_eq!(out[1].text, "world\n");
}

#[test]
fn glue_keeps_exactly_one_space_at_a_spaced_seam() {
    let buffer = vec![
        InternalLineBuilder::from_string("Ends with whitespace before glue, ")
            .with_glue_end()
            .build(),
        InternalLineBuilder::from_string(" starts with whitespace after glue")
            .with_glue_begin()
            .build(),
    ];

    let mut out: Vec<Line> = Vec::new();
    process_buffer(&mut out, buffer);

    assert_eq!(out[0].text, "Ends with whitespace before glue, ");
    assert_eq!(out[1].text, "starts with whitespace after glue\n");
}

#[test]
fn processing_an_already_processed_buffer_changes_nothing() {
    let buffer = vec![
        InternalLineBuilder::from_string("  One  ").with_glue_end().build(),
        InternalLineBuilder::from_string("").build(),
        InternalLineBuilder::from_string(" two ").build(),
        InternalLineBuilder::from_string("three").build(),
    ];

    let mut first: Vec<Line> = Vec::new();
    process_buffer(&mut first, buffer);

    let rebuilt = vec![
        InternalLineBuilder::from_string(&first[0].text).with_glue_end().build(),
        InternalLineBuilder::from_string(&first[1].text).build(),
        InternalLineBuilder::from_string(&first[2].text).build(),
    ];

    let mut second: Vec<Line> = Vec::new();
    process_buffer(&mut second, rebuilt);

    assert_eq!(first.len(), second.len());
    for (a, b) in first.iter().zip(second.iter()) {
        assert_eq!(a.text, b.text);
    }
}

#[test]
fn visit_count_condition_guards_a_choice() {
    let (address, knots) = single_knot_story(1);

    let presentable = Condition::NumVisits {
        name: "k".to_string(),
        rhs_value: 0,
        ordering: Ordering::Greater,
        not: false,
    };
    let hidden = Condition::NumVisits {
        name: "k".to_string(),
        rhs_value: 2,
        ordering: Ordering::Greater,
        not: false,
    };

    let choices = vec![
        choice_info(
            0,
            InternalChoiceBuilder::from_string("Shown")
                .with_condition(&presentable)
                .build(),
        ),
        choice_info(
            0,
            InternalChoiceBuilder::from_string("Hidden")
                .with_condition(&hidden)
                .build(),
        ),
    ];

    let displayed = prepare_choices_for_user(&choices, &address, &knots).unwrap();
    assert_eq!(displayed.len(), 1);
    assert_eq!(&displayed[0].text, "Shown");
    assert_eq!(displayed[0].index, 0);
}

#[test]
fn non_sticky_choice_is_exhausted_after_one_visit() {
    let (address, knots) = single_knot_story(0);

    let choices = vec![
        choice_info(1, InternalChoiceBuilder::from_string("Used up").build()),
        choice_info(
            1,
            InternalChoiceBuilder::from_string("Sticky stays")
                .is_sticky()
                .build(),
        ),
    ];

    let displayed = prepare_choices_for_user(&choices, &address, &knots).unwrap();
    assert_eq!(displayed.len(), 1);
    assert_eq!(&displayed[0].text, "Sticky stays");
    assert_eq!(displayed[0].index, 1);
}

#[test]
fn fallback_choice_remains_when_nothing_is_presentable() {
    let (address, knots) = single_knot_story(0);

    let choices = vec![
        choice_info(1, InternalChoiceBuilder::from_string("Used up").build()),
        choice_info(
            0,
            InternalChoiceBuilder::from_string("Fallback")
                .is_fallback()
                .build(),
        ),
    ];

    let displayed = prepare_choices_for_user(&choices, &address, &knots).unwrap();
    assert_eq!(displayed.len(), 0);

    let fallback = get_fallback_choices(&choices, &address, &knots).unwrap();
    assert_eq!(fallback.len(), 1);
    assert_eq!(&fallback[0].text, "Fallback");
    assert_eq!(fallback[0].index, 1);
}

#[test]
fn presented_choices_keep_their_authored_indices() {
    let (address, knots) = single_knot_story(0);

    let choices = vec![
        choice_info(1, InternalChoiceBuilder::from_string("Hidden").build()),
        choice_info(0, InternalChoiceBuilder::from_string("First shown").build()),
        choice_info(1, InternalChoiceBuilder::from_string("Hidden too").build()),
        choice_info(0, InternalChoiceBuilder::from_string("Second shown").build()),
    ];

    let displayed = prepare_choices_for_user(&choices, &address, &knots).unwrap();
    assert_eq!(displayed.len(), 2);
    assert_eq!(displayed[0].index, 1);
    assert_eq!(displayed[1].index, 3);
}

#[test]
fn empty_source_is_a_parse_error() {
    assert_eq!(read_knots_from_string(""), Err(ParseError::Empty));
    assert_eq!(read_knots_from_string("// only a comment\n   \n"), Err(ParseError::Empty));
}

#[test]
fn knot_name_with_invalid_character_is_rejected() {
    let result = read_knots_from_string("== bad name ==\nLine.\n");
    assert_eq!(
        result,
        Err(ParseError::Knot(KnotError::InvalidName {
            line: "== bad name ==".to_string(),
            kind: KnotNameError::InvalidCharacter(' '),
        }))
    );
}

#[test]
fn knot_with_only_a_name_line_is_empty() {
    assert_eq!(
        read_knots_from_string("== k ==\n"),
        Err(ParseError::Knot(KnotError::Empty))
    );
}

#[test]
fn nameless_knot_marker_after_the_first_group_is_rejected() {
    assert_eq!(
        read_knots_from_string("A\n== ==\nX\n"),
        Err(ParseError::Knot(KnotError::InvalidName {
            line: "== ==".to_string(),
            kind: KnotNameError::NoNamePresent,
        }))
    );
}

#[test]
fn nameless_stitch_marker_after_the_first_group_is_a_contradiction() {
    assert_eq!(
        get_stitch_from_lines(vec!["= ="], 1),
        Err(KnotError::MissingStitchName { stitch_index: 1 })
    );
}

#[test]
fn later_knot_of_the_same_name_wins() {
    let (_, knots) = read_knots_from_string("== k ==\nOld.\n== k ==\nNew.\nNewer.\n").unwrap();

    assert_eq!(knots.len(), 1);
    let knot = knots.get("k").unwrap();
    assert_eq!(
        knot.stitches.get(ROOT_KNOT_NAME).unwrap().root.items.len(),
        2
    );
}

#[test]
fn todo_comments_are_reported_with_their_line_numbers() {
    let lines = split_content_lines("Line.\nTODO: fix this\nMore.\nTODO: and this\n");
    let todos = todo_comment_lines(&lines);

    assert_eq!(todos.len(), 2);
    assert_eq!(todos[0].0, 2);
    assert_eq!(todos[0].1, "TODO: fix this");
    assert_eq!(todos[1].0, 4);
    assert_eq!(todos[1].1, "TODO: and this");
}

#[test]
fn unresolved_condition_target_reports_an_invalid_address() {
    let (address, knots) = single_knot_story(0);

    let condition = Condition::NumVisits {
        name: "nowhere".to_string(),
        rhs_value: 0,
        ordering: Ordering::Greater,
        not: false,
    };

    let choices = vec![choice_info(
        0,
        InternalChoiceBuilder::from_string("Guarded")
            .with_condition(&condition)
            .build(),
    )];

    let result = prepare_choices_for_user(&choices, &address, &knots);
    assert!(matches!(
        result,
        Err(InklingError::InvalidAddress { .. })
    ));
}

#[test]
fn dotted_reference_resolves_to_a_named_stitch() {
    let (_, knots) = read_knots_from_string("== k ==\n= a =\nA\n= b =\nB\n").unwrap();
    let current = Address::from_root_knot("k", &knots).unwrap();
    assert_eq!(current.stitch, "a");

    let resolved = Address::from_target_address("k.b", &current, &knots).unwrap();
    assert_eq!(resolved.knot, "k");
    assert_eq!(resolved.stitch, "b");

    let bare = Address::from_target_address("b", &current, &knots).unwrap();
    assert_eq!(bare.knot, "k");
    assert_eq!(bare.stitch, "b");

    let missing = Address::from_target_address("k.c", &current, &knots);
    assert!(matches!(missing, Err(InklingError::InvalidAddress { .. })));
}
