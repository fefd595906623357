use cutplan::cut_list::CutOrder;
use cutplan::layout::{Layout, PlacedCut, UsedStock};
use cutplan::names::name_comes_first;
use cutplan::problem::Problem;
use cutplan::purchase::Purchase;
use cutplan::records::SourceRecord;
use cutplan::report::render_report;

fn source(name: &str, cost: usize, length: usize) -> SourceRecord {
    SourceRecord { tag: "t".to_string(), name: name.to_string(), cost, length, quantity: None }
}

fn problem() -> Problem {
    let mut problem = Problem::new("t");
    problem.add_source(&source("pine 8", 500, 800));
    problem.add_source(&source("oak 10", 900, 1000));
    problem.add_source(&source("ash 6", 300, 600));
    problem
}

fn used(length: usize, price: usize, cuts: &[(usize, usize)]) -> UsedStock {
    UsedStock {
        length,
        price,
        cut_pieces: cuts.iter().map(|&(start, end)| PlacedCut { start, end }).collect(),
    }
}

fn layout() -> Layout {
    Layout {
        fitness_bits: 0,
        stock_pieces: vec![
            used(800, 500, &[(0, 300), (300, 500)]),
            used(1000, 900, &[(0, 1000)]),
            used(800, 500, &[(0, 200), (200, 500)]),
            used(600, 300, &[(0, 100)]),
            used(800, 500, &[(0, 800)]),
            used(1000, 900, &[(0, 1000)]),
        ],
    }
}

fn purchase(name: &str, quantity: usize) -> Purchase {
    Purchase { name: name.to_string(), quantity }
}

fn order(quantity: usize, name: &str, cuts: &[usize]) -> CutOrder {
    CutOrder { quantity, name: name.to_string(), cuts: cuts.to_vec() }
}

#[test]
fn names_are_ordered_as_strings_are() {
    assert!(name_comes_first("ash", "oak"));
    assert!(!name_comes_first("oak", "ash"));
    assert!(name_comes_first("oak", "oak"));
    assert!(name_comes_first("", "a"));
    assert!(!name_comes_first("a", ""));
    assert!(name_comes_first("oak", "oak 10"));
    assert!(!name_comes_first("oak 10", "oak"));
    assert!(name_comes_first("Zebra", "apple"));
    assert!(name_comes_first("z", "\u{e9}"));
    assert!(name_comes_first("\u{e9}", "\u{4e2d}"));
    assert!(!name_comes_first("\u{1f600}", "\u{4e2d}"));
}

#[test]
fn the_problem_knows_its_own_stock() {
    assert!(problem().accepts(&layout()));
}

#[test]
fn stock_without_a_name_is_not_accepted() {
    let stranger = Layout { fitness_bits: 0, stock_pieces: vec![used(800, 501, &[(0, 300)])] };
    assert!(!problem().accepts(&stranger));
}

#[test]
fn a_cut_that_ends_before_it_starts_is_not_accepted() {
    let crossed = Layout { fitness_bits: 0, stock_pieces: vec![used(800, 500, &[(300, 200)])] };
    assert!(!problem().accepts(&crossed));
}

#[test]
fn an_empty_layout_is_accepted() {
    let empty = Layout { fitness_bits: 0, stock_pieces: vec![] };
    assert!(problem().accepts(&empty));
    assert!(problem().get_purchase_order(&empty).is_empty());
    assert!(problem().get_cut_list(&empty).is_empty());
}

#[test]
fn purchases_are_counted_by_name_in_ascending_order() {
    assert_eq!(
        problem().get_purchase_order(&layout()),
        vec![purchase("ash 6", 1), purchase("oak 10", 2), purchase("pine 8", 3)]
    );
}

#[test]
fn the_purchase_order_does_not_depend_on_the_order_of_the_pieces() {
    let mut turned = layout();
    turned.stock_pieces.reverse();
    assert_eq!(problem().get_purchase_order(&turned), problem().get_purchase_order(&layout()));
}

#[test]
fn stock_of_one_name_is_counted_together() {
    let mut problem = Problem::new("t");
    problem.add_source(&source("plank", 500, 800));
    problem.add_source(&source("plank", 900, 1000));
    let layout = Layout {
        fitness_bits: 0,
        stock_pieces: vec![used(800, 500, &[(0, 1)]), used(1000, 900, &[(0, 1)])],
    };
    assert_eq!(problem.get_purchase_order(&layout), vec![purchase("plank", 2)]);
    assert_eq!(problem.get_cut_list(&layout), vec![order(2, "plank", &[1])]);
}

#[test]
fn cut_lengths_are_sorted() {
    let piece = used(100, 1, &[(60, 100), (0, 10), (10, 40), (40, 50), (50, 60)]);
    assert_eq!(piece.sorted_cut_lengths(), vec![10, 10, 10, 30, 40]);
    assert!(used(100, 1, &[]).sorted_cut_lengths().is_empty());
}

#[test]
fn the_cut_list_groups_alike_pieces_in_ascending_order_of_names() {
    assert_eq!(
        problem().get_cut_list(&layout()),
        vec![
            order(1, "ash 6", &[100]),
            order(2, "oak 10", &[1000]),
            order(2, "pine 8", &[200, 300]),
            order(1, "pine 8", &[800]),
        ]
    );
}

#[test]
fn the_cost_is_the_sum_of_the_prices() {
    assert_eq!(layout().get_cumulative_cost(), 3600);
    assert_eq!(layout().get_cut_count(), 8);
    let empty = Layout { fitness_bits: 0, stock_pieces: vec![] };
    assert_eq!(empty.get_cumulative_cost(), 0);
    assert_eq!(empty.get_cut_count(), 0);
}

#[test]
fn the_cost_may_pass_the_largest_price() {
    let dear = Layout {
        fitness_bits: 0,
        stock_pieces: vec![used(1, usize::MAX, &[]), used(1, usize::MAX, &[]), used(1, 2, &[])],
    };
    assert_eq!(dear.get_cumulative_cost(), 2 * (usize::MAX as u128) + 2);
}

#[test]
fn the_report_is_laid_out_line_by_line() {
    let text = problem().pretty_print_result(&layout(), "87.50", 2, 1);
    let expected = "For: t, Cost: 36.0, Effiency: 87.50%\n\
                    \tPurchase List (name, quantity):\n\
                    \t\tash 6, 1\n\
                    \t\toak 10, 2\n\
                    \t\tpine 8, 3\n\
                    \tCut List ((cut quantity) name -> [cutLength1, cutLength2, ...]):\n\
                    \t\t(1) ash 6 -> [10.0]\n\
                    \t\t(2) oak 10 -> [100.0]\n\
                    \t\t(2) pine 8 -> [20.0, 30.0]\n\
                    \t\t(1) pine 8 -> [80.0]\n";
    assert_eq!(text, expected);
}

#[test]
fn a_report_without_purchases_has_its_headings() {
    let text = render_report("empty", 0, "100.00", &vec![], &vec![], 2, 2);
    let expected = "For: empty, Cost: 0.0, Effiency: 100.00%\n\
                    \tPurchase List (name, quantity):\n\
                    \tCut List ((cut quantity) name -> [cutLength1, cutLength2, ...]):\n";
    assert_eq!(text, expected);
}

#[test]
fn a_group_without_cuts_prints_empty_brackets() {
    let text = render_report("t", 1234, "5.00", &vec![purchase("a", 12)], &vec![order(12, "a", &[])], 2, 2);
    let expected = "For: t, Cost: 12.34, Effiency: 5.00%\n\
                    \tPurchase List (name, quantity):\n\
                    \t\ta, 12\n\
                    \tCut List ((cut quantity) name -> [cutLength1, cutLength2, ...]):\n\
                    \t\t(12) a -> []\n";
    assert_eq!(text, expected);
}

#[test]
fn a_layout_is_ordered_when_no_cut_ends_before_it_starts() {
    assert!(layout().is_ordered());
    let point = Layout { fitness_bits: 0, stock_pieces: vec![used(8, 5, &[(3, 3)])] };
    assert!(point.is_ordered());
    let crossed = Layout {
        fitness_bits: 0,
        stock_pieces: vec![used(8, 5, &[(0, 3)]), used(8, 5, &[(0, 3), (5, 4)])],
    };
    assert!(!crossed.is_ordered());
}

#[test]
fn groups_of_one_name_differ_in_their_lengths() {
    let layout = Layout {
        fitness_bits: 0,
        stock_pieces: vec![
            used(800, 500, &[(0, 300), (300, 500)]),
            used(800, 500, &[(0, 200), (200, 400)]),
            used(800, 500, &[(0, 200), (200, 500)]),
            used(800, 500, &[(0, 200), (300, 500)]),
        ],
    };
    assert_eq!(
        problem().get_cut_list(&layout),
        vec![order(2, "pine 8", &[200, 300]), order(2, "pine 8", &[200, 200])]
    );
}
