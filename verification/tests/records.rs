use cutplan::document::{readable, LONGEST_DIGIT_RUN};
use cutplan::fixed_point::Decimal;
use cutplan::records::{
    cut_from_raw, load_records, parse_json_file, source_from_raw, whole_count, RawCut, RawSource,
};

fn decimal(mantissa: u64, exponent: i16) -> Decimal {
    Decimal { positive: true, mantissa, exponent }
}

const SAMPLE: &str = r#"{
    "sources": [
        {"tag": "2x4", "name": "yard 8ft", "cost": 3.5, "length": 96, "quantity": 4},
        {"tag": "2x4", "name": "yard 10ft", "cost": 4.25, "length": 120.5},
        {"tag": "2x4", "cost": 4.25, "length": 120.5},
        {"tag": "pipe", "name": "steel", "cost": "cheap", "length": 10},
        {"tag": "pipe", "name": "steel", "cost": 12, "length": 10, "quantity": 2.5, "colour": "grey"}
    ],
    "cuts": [
        {"tag": "2x4", "length": 30.25, "quantity": 3},
        {"tag": "2x4", "length": 30.25},
        {"tag": "2x4", "length": 12, "quantity": -1},
        {"length": 12, "quantity": 1},
        {"tag": "pipe", "length": 2, "quantity": 0}
    ]
}"#;

#[test]
fn reads_the_well_formed_sources() {
    let (sources, _) = parse_json_file(SAMPLE, 2, 2);
    assert_eq!(sources.len(), 3);
    assert_eq!(sources[0].tag, "2x4");
    assert_eq!(sources[0].name, "yard 8ft");
    assert_eq!(sources[0].cost, 350);
    assert_eq!(sources[0].length, 9600);
    assert_eq!(sources[0].quantity, Some(4));
    assert_eq!(sources[1].name, "yard 10ft");
    assert_eq!(sources[1].cost, 425);
    assert_eq!(sources[1].length, 12050);
    assert_eq!(sources[1].quantity, None);
    assert_eq!(sources[2].tag, "pipe");
    assert_eq!(sources[2].cost, 1200);
    assert_eq!(sources[2].length, 1000);
    assert_eq!(sources[2].quantity, None);
}

#[test]
fn reads_the_well_formed_cuts() {
    let (_, cuts) = parse_json_file(SAMPLE, 2, 2);
    assert_eq!(cuts.len(), 2);
    assert_eq!(cuts[0].tag, "2x4");
    assert_eq!(cuts[0].length, 3025);
    assert_eq!(cuts[0].quantity, 3);
    assert_eq!(cuts[1].tag, "pipe");
    assert_eq!(cuts[1].length, 200);
    assert_eq!(cuts[1].quantity, 0);
}

#[test]
fn precisions_apply_to_their_own_fields() {
    let (sources, cuts) = parse_json_file(SAMPLE, 0, 3);
    assert_eq!(sources[0].cost, 3);
    assert_eq!(sources[0].length, 96_000);
    assert_eq!(cuts[0].length, 30_250);
}

#[test]
fn text_that_is_no_document_gives_nothing() {
    let (sources, cuts) = parse_json_file("{ \"sources\": [", 2, 2);
    assert!(sources.is_empty());
    assert!(cuts.is_empty());
    let (sources, cuts) = parse_json_file("", 2, 2);
    assert!(sources.is_empty());
    assert!(cuts.is_empty());
}

#[test]
fn a_document_without_the_collections_gives_nothing() {
    let (sources, cuts) = parse_json_file(r#"{"sources": 3, "cut": []}"#, 2, 2);
    assert!(sources.is_empty());
    assert!(cuts.is_empty());
    let (sources, cuts) = parse_json_file("[1, 2]", 2, 2);
    assert!(sources.is_empty());
    assert!(cuts.is_empty());
}

#[test]
fn entries_of_another_kind_are_left_out() {
    let text = r#"{"sources": [7, "x", null, {"tag": "a", "name": "n", "cost": 1, "length": 2}],
                   "cuts": [[], {"tag": "a", "length": 1, "quantity": 1}]}"#;
    let (sources, cuts) = parse_json_file(text, 1, 1);
    assert_eq!(sources.len(), 1);
    assert_eq!(sources[0].cost, 10);
    assert_eq!(sources[0].length, 20);
    assert_eq!(cuts.len(), 1);
    assert_eq!(cuts[0].length, 10);
}

#[test]
fn records_of_several_files_follow_each_other() {
    let files = vec![
        r#"{"sources": [{"tag": "a", "name": "first", "cost": 1, "length": 2}]}"#.to_string(),
        "not a document".to_string(),
        r#"{"sources": [{"tag": "b", "name": "second", "cost": 3, "length": 4}],
            "cuts": [{"tag": "b", "length": 1, "quantity": 9}]}"#
            .to_string(),
    ];
    let (sources, cuts) = load_records(&files, 0, 0);
    assert_eq!(sources.len(), 2);
    assert_eq!(sources[0].name, "first");
    assert_eq!(sources[1].name, "second");
    assert_eq!(cuts.len(), 1);
    assert_eq!(cuts[0].quantity, 9);
}

#[test]
fn a_count_is_a_plain_positive_whole_number() {
    assert_eq!(whole_count(decimal(12, 0)), Some(12));
    assert_eq!(whole_count(decimal(0, 0)), Some(0));
    assert_eq!(whole_count(decimal(25, -1)), None);
    assert_eq!(whole_count(decimal(30, -1)), None);
    assert_eq!(whole_count(decimal(1, 2)), None);
    assert_eq!(whole_count(Decimal { positive: false, mantissa: 3, exponent: 0 }), None);
}

#[test]
fn a_source_needs_tag_name_cost_and_length() {
    let whole = RawSource {
        tag: Some("t".to_string()),
        name: Some("n".to_string()),
        cost: Some(decimal(15, -1)),
        length: Some(decimal(8, 0)),
        quantity: Some(decimal(3, 0)),
    };
    let record = source_from_raw(&whole, 2, 1).unwrap();
    assert_eq!(record.tag, "t");
    assert_eq!(record.name, "n");
    assert_eq!(record.cost, 150);
    assert_eq!(record.length, 80);
    assert_eq!(record.quantity, Some(3));

    let mut without = whole.clone();
    without.tag = None;
    assert!(source_from_raw(&without, 2, 1).is_none());
    let mut without = whole.clone();
    without.name = None;
    assert!(source_from_raw(&without, 2, 1).is_none());
    let mut without = whole.clone();
    without.cost = None;
    assert!(source_from_raw(&without, 2, 1).is_none());
    let mut without = whole.clone();
    without.length = None;
    assert!(source_from_raw(&without, 2, 1).is_none());
}

#[test]
fn a_source_without_a_count_is_unlimited() {
    let mut raw = RawSource {
        tag: Some("t".to_string()),
        name: Some("n".to_string()),
        cost: Some(decimal(1, 0)),
        length: Some(decimal(1, 0)),
        quantity: None,
    };
    assert_eq!(source_from_raw(&raw, 0, 0).unwrap().quantity, None);
    raw.quantity = Some(decimal(15, -1));
    assert_eq!(source_from_raw(&raw, 0, 0).unwrap().quantity, None);
}

#[test]
fn a_cut_needs_tag_length_and_a_count() {
    let whole = RawCut {
        tag: Some("t".to_string()),
        length: Some(decimal(125, -2)),
        quantity: Some(decimal(6, 0)),
    };
    let record = cut_from_raw(&whole, 2).unwrap();
    assert_eq!(record.tag, "t");
    assert_eq!(record.length, 125);
    assert_eq!(record.quantity, 6);

    let mut without = whole.clone();
    without.tag = None;
    assert!(cut_from_raw(&without, 2).is_none());
    let mut without = whole.clone();
    without.length = None;
    assert!(cut_from_raw(&without, 2).is_none());
    let mut without = whole.clone();
    without.quantity = None;
    assert!(cut_from_raw(&without, 2).is_none());
    let mut without = whole.clone();
    without.quantity = Some(decimal(65, -1));
    assert!(cut_from_raw(&without, 2).is_none());
}

fn text_with_fraction_digits(digits: usize) -> String {
    let zeros = "0".repeat(digits - 1);
    format!(
        r#"{{"sources": [{{"tag": "a", "name": "n", "cost": 0.{}1, "length": 2}}], "cuts": []}}"#,
        zeros
    )
}

#[test]
fn a_number_of_the_longest_length_is_read() {
    let (sources, _) = parse_json_file(&text_with_fraction_digits(32767), 2, 0);
    assert_eq!(sources.len(), 1);
    assert_eq!(sources[0].cost, 0);
    assert_eq!(sources[0].length, 2);
}

#[test]
fn a_text_with_too_many_digits_in_a_row_gives_nothing() {
    let (sources, cuts) = parse_json_file(&text_with_fraction_digits(32768), 2, 0);
    assert!(sources.is_empty());
    assert!(cuts.is_empty());
    let (sources, _) = parse_json_file(&text_with_fraction_digits(70000), 2, 0);
    assert!(sources.is_empty());
}

#[test]
fn digits_apart_do_not_add_up() {
    let text = format!(
        r#"{{"sources": [{{"tag": "a", "name": "{}", "cost": 1.{}, "length": 2}}]}}"#,
        "7".repeat(30000),
        "5".repeat(30000)
    );
    let (sources, _) = parse_json_file(&text, 1, 0);
    assert_eq!(sources.len(), 1);
    assert_eq!(sources[0].cost, 15);
}

#[test]
fn numbers_with_an_exponent_are_amounts_but_no_counts() {
    let text = r#"{"sources": [{"tag": "a", "name": "n", "cost": 1e2, "length": 25E-1, "quantity": 1e1}],
                   "cuts": [{"tag": "a", "length": 1.5e1, "quantity": 2e1},
                            {"tag": "a", "length": 1.5e1, "quantity": 2e0}]}"#;
    let (sources, cuts) = parse_json_file(text, 2, 1);
    assert_eq!(sources.len(), 1);
    assert_eq!(sources[0].cost, 10_000);
    assert_eq!(sources[0].length, 25);
    assert_eq!(sources[0].quantity, None);
    assert_eq!(cuts.len(), 1);
    assert_eq!(cuts[0].length, 150);
    assert_eq!(cuts[0].quantity, 2);
}

#[test]
fn negative_amounts_are_read_as_zero() {
    let text = r#"{"sources": [{"tag": "a", "name": "n", "cost": -3.5, "length": -0.01}]}"#;
    let (sources, _) = parse_json_file(text, 2, 2);
    assert_eq!(sources.len(), 1);
    assert_eq!(sources[0].cost, 0);
    assert_eq!(sources[0].length, 0);
}

#[test]
fn strings_are_no_numbers_and_numbers_no_strings() {
    let text = r#"{"sources": [{"tag": 7, "name": "n", "cost": 1, "length": 1},
                               {"tag": "a", "name": "n", "cost": 1, "length": "1"},
                               {"tag": "a", "name": "n", "cost": 1, "length": 1, "quantity": "3"}],
                   "cuts": [{"tag": "a", "length": 1, "quantity": "3"},
                            {"tag": "a", "length": true, "quantity": 3}]}"#;
    let (sources, cuts) = parse_json_file(text, 0, 0);
    assert_eq!(sources.len(), 1);
    assert_eq!(sources[0].quantity, None);
    assert!(cuts.is_empty());
}

#[test]
fn long_and_foreign_names_are_kept_whole() {
    let name = "a board of oak, planed on four sides, \u{e9}t\u{e9} 2031 \u{2014} \u{6a2b}";
    let text = format!(
        r#"{{"sources": [{{"tag": "{}", "name": "{}", "cost": 1, "length": 1}}]}}"#,
        name, name
    );
    let (sources, _) = parse_json_file(&text, 0, 0);
    assert_eq!(sources.len(), 1);
    assert_eq!(sources[0].tag, name);
    assert_eq!(sources[0].name, name);
}

#[test]
fn escapes_in_names_are_resolved() {
    let text = r#"{"sources": [{"tag": "a\tb", "name": "café \"x\"", "cost": 1, "length": 1}]}"#;
    let (sources, _) = parse_json_file(text, 0, 0);
    assert_eq!(sources[0].tag, "a\tb");
    assert_eq!(sources[0].name, "caf\u{e9} \"x\"");
}

#[test]
fn a_text_is_readable_up_to_the_longest_run_of_digits() {
    assert!(readable(""));
    assert!(readable("no digits at all"));
    assert!(readable(&"1".repeat(LONGEST_DIGIT_RUN)));
    assert!(!readable(&"1".repeat(LONGEST_DIGIT_RUN + 1)));
    let apart = format!("{} {}", "1".repeat(LONGEST_DIGIT_RUN), "2".repeat(LONGEST_DIGIT_RUN));
    assert!(readable(&apart));
    let late = format!("{}x{}", "1".repeat(10), "2".repeat(LONGEST_DIGIT_RUN + 1));
    assert!(!readable(&late));
}
