use cutplan::layout::{Layout, PlacedCut, UsedStock};
use cutplan::optimizer::SolveError;
use cutplan::problem::Problem;
use cutplan::records::{CutRecord, SourceRecord};
use cutplan::search::{base_seed, select_best, Trial};

fn trial(cost: usize, cuts: usize) -> Trial {
    let cut_pieces = (0..cuts).map(|i| PlacedCut { start: i, end: i + 1 }).collect();
    Ok(Layout { fitness_bits: 0, stock_pieces: vec![UsedStock { length: 100, price: cost, cut_pieces }] })
}

fn failed() -> Trial {
    Err(SolveError::NoFit { length: 7 })
}

fn source(name: &str, cost: usize, length: usize, quantity: Option<usize>) -> SourceRecord {
    SourceRecord { tag: "t".to_string(), name: name.to_string(), cost, length, quantity }
}

fn cut(length: usize, quantity: usize) -> CutRecord {
    CutRecord { tag: "t".to_string(), length, quantity }
}

fn boards() -> Problem {
    Problem::gather(
        "t",
        &vec![source("short", 300, 100, None), source("long", 500, 250, None)],
        &vec![cut(50, 4), cut(120, 1)],
    )
}

#[test]
fn the_cheapest_trial_is_selected() {
    assert_eq!(select_best(&vec![trial(50, 1), trial(50, 1), trial(40, 1)]), Some(2));
}

#[test]
fn of_trials_that_cost_the_same_the_one_with_fewer_cuts_is_selected() {
    assert_eq!(select_best(&vec![trial(40, 3), trial(40, 2)]), Some(1));
}

#[test]
fn cost_goes_before_the_number_of_cuts() {
    assert_eq!(select_best(&vec![trial(41, 1), trial(40, 9)]), Some(1));
}

#[test]
fn of_equal_trials_the_first_is_selected() {
    assert_eq!(select_best(&vec![trial(40, 2), trial(40, 2), trial(40, 2)]), Some(0));
    assert_eq!(select_best(&vec![trial(60, 2), trial(40, 2), trial(40, 2)]), Some(1));
}

#[test]
fn failed_trials_do_not_count() {
    assert_eq!(select_best(&vec![failed(), trial(50, 1), failed(), trial(40, 1)]), Some(3));
    assert_eq!(select_best(&vec![failed(), trial(50, 1)]), Some(1));
}

#[test]
fn nothing_is_selected_where_all_trials_failed() {
    assert_eq!(select_best(&vec![failed(), failed()]), None);
    assert_eq!(select_best(&vec![]), None);
}

#[test]
fn a_requested_seed_is_the_base_seed() {
    assert_eq!(base_seed(Some(17)), 17);
    assert_eq!(base_seed(Some(0)), 0);
}

#[test]
fn without_a_requested_seed_one_is_drawn() {
    let drawn: Vec<u64> = (0..8).map(|_| base_seed(None)).collect();
    assert!(drawn.iter().any(|seed| *seed != drawn[0]));
}

#[test]
fn a_trial_lays_out_all_cuts() {
    let problem = boards();
    let layout = problem.solve(Some(1), None).unwrap();
    assert!(problem.accepts(&layout));
    assert_eq!(layout.get_cut_count(), 5);
    let mut lengths: Vec<usize> =
        layout.stock_pieces.iter().flat_map(|piece| piece.sorted_cut_lengths()).collect();
    lengths.sort();
    assert_eq!(lengths, vec![50, 50, 50, 50, 120]);
    for piece in &layout.stock_pieces {
        assert!(piece.cut_pieces.iter().all(|cut| cut.end <= piece.length));
    }
    assert!(layout.get_cumulative_cost() >= 500);
}

#[test]
fn the_fitness_of_a_trial_is_carried_along() {
    let problem = Problem::gather("t", &vec![source("exact", 300, 100, None)], &vec![cut(50, 2)]);
    let layout = problem.solve(Some(1), None).unwrap();
    assert_eq!(layout.stock_pieces.len(), 1);
    assert_eq!(layout.get_cumulative_cost(), 300);
    assert_eq!(f64::from_bits(layout.fitness_bits), 1.0);
}

#[test]
fn the_cut_width_takes_its_room() {
    let problem = Problem::gather("t", &vec![source("exact", 300, 100, None)], &vec![cut(50, 2)]);
    let layout = problem.solve(Some(1), Some(1)).unwrap();
    assert_eq!(layout.stock_pieces.len(), 2);
    assert_eq!(layout.get_cumulative_cost(), 600);
}

#[test]
fn a_trial_with_the_same_seed_gives_the_same_layout() {
    let problem = boards();
    assert_eq!(problem.solve(Some(5), Some(2)), problem.solve(Some(5), Some(2)));
    assert_eq!(problem.solve(None, None), problem.solve(Some(0), Some(0)));
}

#[test]
fn a_cut_longer_than_all_stock_finds_no_fit() {
    let problem = Problem::gather("t", &vec![source("short", 300, 100, None)], &vec![cut(101, 1)]);
    assert_eq!(problem.solve(Some(1), None), Err(SolveError::NoFit { length: 101 }));
}

#[test]
fn stock_that_runs_out_finds_no_fit() {
    let problem = Problem::gather("t", &vec![source("short", 300, 100, Some(1))], &vec![cut(60, 2)]);
    assert_eq!(problem.solve(Some(1), None), Err(SolveError::NoFit { length: 60 }));
}

#[test]
fn a_problem_beyond_the_limits_is_not_handed_to_the_optimizer() {
    let wide = Problem::gather("t", &vec![source("s", 1, usize::MAX, None)], &vec![cut(1, 1)]);
    assert!(wide.fits_optimizer(0));
    assert!(!wide.fits_optimizer(1));
    assert_eq!(wide.solve(Some(1), Some(1)), Err(SolveError::OutOfRange));

    let many = Problem::gather("t", &vec![source("s", 1, 10, None)], &vec![cut(1, usize::MAX / 10 + 1)]);
    assert!(!many.fits_optimizer(0));
    assert_eq!(many.solve(None, None), Err(SolveError::OutOfRange));

    let dear = Problem::gather("t", &vec![source("s", usize::MAX / 2, 10, None)], &vec![cut(1, 3)]);
    assert!(!dear.fits_optimizer(0));

    let plenty = Problem::gather(
        "t",
        &vec![source("a", 1, 10, Some(usize::MAX)), source("b", 1, 20, Some(1))],
        &vec![cut(1, 3)],
    );
    assert!(!plenty.fits_optimizer(0));

    let nothing = Problem::gather("t", &vec![source("s", 1, 0, None)], &vec![cut(0, 1)]);
    assert!(!nothing.fits_optimizer(0));
    let zero_stock = Problem::gather("t", &vec![source("s", 1, 0, None)], &vec![cut(1, 1)]);
    assert!(zero_stock.fits_optimizer(0));
    let zero_cut = Problem::gather("t", &vec![source("s", 1, 5, None)], &vec![cut(0, 1)]);
    assert!(zero_cut.fits_optimizer(0));
}

#[test]
fn the_optimizer_s_failure_is_passed_on() {
    assert_eq!(boards().examine(Err(9)), Err(SolveError::NoFit { length: 9 }));
}

#[test]
fn a_layout_of_unknown_stock_is_turned_down() {
    let stranger = Layout {
        fitness_bits: 0,
        stock_pieces: vec![UsedStock { length: 100, price: 301, cut_pieces: vec![] }],
    };
    assert_eq!(boards().examine(Ok(stranger)), Err(SolveError::Inconsistent));
}

#[test]
fn a_layout_of_known_stock_is_kept() {
    let known = Layout {
        fitness_bits: 3,
        stock_pieces: vec![UsedStock {
            length: 100,
            price: 300,
            cut_pieces: vec![PlacedCut { start: 0, end: 50 }],
        }],
    };
    assert_eq!(boards().examine(Ok(known.clone())), Ok(known));
}

#[test]
fn trials_run_on_consecutive_seeds() {
    let problem = boards();
    let trials = problem.run_trials(4, 10, None);
    assert_eq!(trials.len(), 4);
    for (i, trial) in trials.iter().enumerate() {
        assert_eq!(trial, &problem.solve(Some(10 + i as u64), None));
    }
    assert!(problem.run_trials(0, 10, None).is_empty());
}

#[test]
fn the_best_of_the_trials_is_returned() {
    let problem = boards();
    let trials = problem.run_trials(6, 3, Some(1));
    let best = select_best(&trials).unwrap();
    assert_eq!(problem.solve_best(6, 3, Some(1)), trials[best].clone().ok());
    for trial in trials.iter().flatten() {
        assert!(trials[best].as_ref().unwrap().get_cumulative_cost() <= trial.get_cumulative_cost());
    }
}

#[test]
fn no_trials_no_layout() {
    assert_eq!(boards().solve_best(0, 3, None), None);
}

#[test]
fn a_problem_that_cannot_be_laid_out_has_no_best_layout() {
    let problem = Problem::gather("t", &vec![source("short", 300, 100, None)], &vec![cut(101, 1)]);
    assert_eq!(problem.solve_best(3, 1, None), None);
}

#[test]
fn where_nothing_is_wanted_a_trial_uses_no_stock() {
    let idle = Problem::gather("t", &vec![source("short", 300, 100, None)], &vec![cut(50, 0)]);
    assert!(idle.is_valid_problem());
    let layout = idle.solve(Some(4), Some(2)).unwrap();
    assert!(layout.stock_pieces.is_empty());
    assert_eq!(layout.get_cumulative_cost(), 0);
    let bare = Problem::new("t");
    assert!(bare.solve(None, None).unwrap().stock_pieces.is_empty());
}

#[test]
fn where_nothing_is_wanted_the_best_layout_uses_no_stock() {
    let idle = Problem::gather(
        "t",
        &vec![source("short", 300, 100, None)],
        &vec![cut(50, 0), cut(70, 0)],
    );
    let best = idle.solve_best(3, 9, None).unwrap();
    assert!(best.stock_pieces.is_empty());
    assert_eq!(idle.solve_best(0, 9, None), None);
}

#[test]
fn beyond_the_limits_there_is_no_best_layout() {
    let wide = Problem::gather("t", &vec![source("s", 1, usize::MAX, None)], &vec![cut(1, 0)]);
    assert_eq!(wide.solve_best(3, 1, Some(1)), None);
    assert!(wide.solve_best(3, 1, None).unwrap().stock_pieces.is_empty());
}

#[test]
fn the_best_layout_is_that_of_the_selected_trial() {
    let problem = boards();
    for seed in [0, 7, 40] {
        let trials = problem.run_trials(5, seed, None);
        let best = problem.solve_best(5, seed, None);
        match select_best(&trials) {
            Some(i) => assert_eq!(best.as_ref(), trials[i].as_ref().ok()),
            None => assert_eq!(best, None),
        }
    }
}
