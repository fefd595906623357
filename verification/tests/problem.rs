use cutplan::aggregate::aggregate;
use cutplan::problem::{CutPiece, Problem, StockPiece};
use cutplan::records::{CutRecord, SourceRecord};

fn source(tag: &str, name: &str, cost: usize, length: usize, quantity: Option<usize>) -> SourceRecord {
    SourceRecord { tag: tag.to_string(), name: name.to_string(), cost, length, quantity }
}

fn cut(tag: &str, length: usize, quantity: usize) -> CutRecord {
    CutRecord { tag: tag.to_string(), length, quantity }
}

fn tags_of(problems: &Vec<Problem>) -> Vec<String> {
    problems.iter().map(|p| p.tag().clone()).collect()
}

#[test]
fn a_new_problem_is_empty() {
    let problem = Problem::new("wood");
    assert_eq!(problem.tag(), "wood");
    assert!(problem.stock_pieces().is_empty());
    assert!(problem.cuts().is_empty());
    assert_eq!(problem.source_name(1, 1), None);
    assert!(!problem.is_valid_problem());
}

#[test]
fn a_later_source_replaces_the_earlier_one() {
    let mut problem = Problem::new("t");
    problem.add_source(&source("t", "old", 500, 96, Some(3)));
    problem.add_source(&source("t", "new", 450, 96, Some(3)));
    assert_eq!(
        problem.stock_pieces(),
        &vec![StockPiece { length: 96, price: 450, quantity: Some(3) }]
    );
    assert_eq!(problem.source_name(96, 450), Some(&"new".to_string()));
}

#[test]
fn a_later_source_of_the_same_price_renames_the_stock() {
    let mut problem = Problem::new("t");
    problem.add_source(&source("t", "old", 500, 96, None));
    problem.add_source(&source("t", "new", 500, 96, None));
    assert_eq!(problem.stock_pieces().len(), 1);
    assert_eq!(problem.source_name(96, 500), Some(&"new".to_string()));
}

#[test]
fn sources_that_differ_in_length_or_bound_stand_side_by_side() {
    let mut problem = Problem::new("t");
    problem.add_source(&source("t", "a", 500, 96, None));
    problem.add_source(&source("t", "b", 500, 96, Some(2)));
    problem.add_source(&source("t", "c", 500, 120, None));
    assert_eq!(
        problem.stock_pieces(),
        &vec![
            StockPiece { length: 96, price: 500, quantity: None },
            StockPiece { length: 96, price: 500, quantity: Some(2) },
            StockPiece { length: 120, price: 500, quantity: None },
        ]
    );
    assert_eq!(problem.source_name(96, 500), Some(&"b".to_string()));
    assert_eq!(problem.source_name(120, 500), Some(&"c".to_string()));
    assert_eq!(problem.source_name(120, 501), None);
}

#[test]
fn a_replaced_stock_piece_keeps_its_place() {
    let mut problem = Problem::new("t");
    problem.add_source(&source("t", "a", 1, 10, None));
    problem.add_source(&source("t", "b", 2, 20, None));
    problem.add_source(&source("t", "c", 3, 10, None));
    assert_eq!(
        problem.stock_pieces(),
        &vec![
            StockPiece { length: 10, price: 3, quantity: None },
            StockPiece { length: 20, price: 2, quantity: None },
        ]
    );
}

#[test]
fn cuts_of_one_length_are_summed() {
    let mut problem = Problem::new("t");
    problem.add_cut(&cut("t", 30, 2));
    problem.add_cut(&cut("t", 30, 5));
    assert_eq!(problem.cuts(), &vec![CutPiece { length: 30, quantity: 7 }]);
}

#[test]
fn cuts_of_other_lengths_stand_side_by_side() {
    let mut problem = Problem::new("t");
    problem.add_cut(&cut("t", 30, 2));
    problem.add_cut(&cut("t", 40, 1));
    problem.add_cut(&cut("t", 30, 1));
    assert_eq!(
        problem.cuts(),
        &vec![CutPiece { length: 30, quantity: 3 }, CutPiece { length: 40, quantity: 1 }]
    );
}

#[test]
fn summed_cuts_may_pass_the_largest_count_of_one_record() {
    let mut problem = Problem::new("t");
    problem.add_cut(&cut("t", 30, usize::MAX));
    problem.add_cut(&cut("t", 30, usize::MAX));
    assert_eq!(
        problem.cuts(),
        &vec![CutPiece { length: 30, quantity: 2 * (usize::MAX as u128) }]
    );
}

#[test]
fn records_under_another_tag_are_passed_over() {
    let mut problem = Problem::new("t");
    problem.add_source(&source("other", "a", 1, 10, None));
    problem.add_cut(&cut("other", 30, 2));
    assert!(problem.stock_pieces().is_empty());
    assert!(problem.cuts().is_empty());
    assert_eq!(problem.source_name(10, 1), None);
}

#[test]
fn a_problem_needs_stock_and_cuts() {
    let mut problem = Problem::new("t");
    problem.add_source(&source("t", "a", 1, 10, None));
    assert!(!problem.is_valid_problem());
    problem.add_cut(&cut("t", 5, 1));
    assert!(problem.is_valid_problem());
    let mut only_cuts = Problem::new("t");
    only_cuts.add_cut(&cut("t", 5, 1));
    assert!(!only_cuts.is_valid_problem());
}

#[test]
fn gathering_takes_the_records_of_one_tag() {
    let sources = vec![source("a", "x", 1, 10, None), source("b", "y", 2, 20, None)];
    let cuts = vec![cut("b", 5, 1), cut("a", 6, 2), cut("a", 6, 3)];
    let problem = Problem::gather("a", &sources, &cuts);
    assert_eq!(problem.tag(), "a");
    assert_eq!(problem.stock_pieces(), &vec![StockPiece { length: 10, price: 1, quantity: None }]);
    assert_eq!(problem.cuts(), &vec![CutPiece { length: 6, quantity: 5 }]);
}

#[test]
fn one_problem_for_each_tag_with_stock_and_cuts() {
    let sources = vec![
        source("oak", "x", 1, 10, None),
        source("pine", "y", 2, 20, None),
        source("oak", "z", 3, 30, None),
        source("ash", "w", 4, 40, None),
    ];
    let cuts = vec![cut("pine", 5, 1), cut("oak", 6, 2), cut("elm", 7, 1)];
    let problems = aggregate(&sources, &cuts);
    assert_eq!(tags_of(&problems), vec!["oak".to_string(), "pine".to_string()]);
    assert_eq!(problems[0].stock_pieces().len(), 2);
    assert_eq!(problems[0].cuts(), &vec![CutPiece { length: 6, quantity: 2 }]);
    assert_eq!(problems[1].stock_pieces().len(), 1);
}

#[test]
fn problems_without_cuts_or_without_stock_are_left_out() {
    let only_stock = aggregate(&vec![source("a", "x", 1, 10, None)], &vec![]);
    assert!(only_stock.is_empty());
    let only_cuts = aggregate(&vec![], &vec![cut("a", 5, 1)]);
    assert!(only_cuts.is_empty());
    let apart = aggregate(&vec![source("a", "x", 1, 10, None)], &vec![cut("b", 5, 1)]);
    assert!(apart.is_empty());
}

#[test]
fn no_records_no_problems() {
    assert!(aggregate(&vec![], &vec![]).is_empty());
}

#[test]
fn aggregating_again_gives_the_same_problems() {
    let sources = vec![
        source("oak", "x", 1, 10, Some(1)),
        source("oak", "y", 2, 10, Some(1)),
        source("pine", "z", 3, 30, None),
    ];
    let cuts = vec![cut("oak", 6, 2), cut("oak", 6, 4), cut("pine", 7, 1)];
    let first = aggregate(&sources, &cuts);
    let second = aggregate(&sources, &cuts);
    assert_eq!(first.len(), second.len());
    for (a, b) in first.iter().zip(second.iter()) {
        assert_eq!(a.tag(), b.tag());
        assert_eq!(a.stock_pieces(), b.stock_pieces());
        assert_eq!(a.cuts(), b.cuts());
    }
    assert_eq!(first[0].cuts(), &vec![CutPiece { length: 6, quantity: 6 }]);
    assert_eq!(first[0].stock_pieces(), &vec![StockPiece { length: 10, price: 2, quantity: Some(1) }]);
}

#[test]
fn problems_come_from_the_texts_of_the_files() {
    let files = vec![
        r#"{"sources": [{"tag": "2x4", "name": "yard 8ft", "cost": 3.5, "length": 96}],
            "cuts": [{"tag": "2x4", "length": 30.25, "quantity": 3}]}"#
            .to_string(),
        "this is no document".to_string(),
        r#"{"sources": [{"tag": "2x4", "name": "mill 8ft", "cost": 3.25, "length": 96},
                        {"tag": "rod", "name": "rod", "cost": 1, "length": 1}],
            "cuts": [{"tag": "2x4", "length": 30.25, "quantity": 2},
                     {"tag": "2x4", "length": 12, "quantity": 1}]}"#
            .to_string(),
    ];
    let problems = Problem::from_json_files(&files, 2, 2);
    assert_eq!(problems.len(), 1);
    let problem = &problems[0];
    assert_eq!(problem.tag(), "2x4");
    assert_eq!(problem.stock_pieces(), &vec![StockPiece { length: 9600, price: 325, quantity: None }]);
    assert_eq!(
        problem.cuts(),
        &vec![CutPiece { length: 3025, quantity: 5 }, CutPiece { length: 1200, quantity: 1 }]
    );
    assert_eq!(problem.source_name(9600, 325), Some(&"mill 8ft".to_string()));
    assert_eq!(problem.source_name(9600, 350), Some(&"yard 8ft".to_string()));
}

#[test]
fn no_files_no_problems() {
    assert!(Problem::from_json_files(&vec![], 2, 2).is_empty());
}

#[test]
fn records_turn_into_pieces() {
    let piece = source("t", "n", 7, 9, Some(2)).to_stock_piece();
    assert_eq!(piece, StockPiece { length: 9, price: 7, quantity: Some(2) });
    let piece = cut("t", 9, 4).to_cut_piece();
    assert_eq!(piece, CutPiece { length: 9, quantity: 4 });
}
