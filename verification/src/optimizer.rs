//! Solving one problem once. The search for a layout is the work of the
//! `cut_optimizer_1d` crate; this module guards its inputs and examines what
//! comes back.

use crate::layout::{Layout, PlacedCut, UsedStock};
use crate::problem::{cut_demands, CutDemand, CutPiece, Problem, StockPiece};
use vstd::prelude::*;

verus! {

/// A solution as the optimizer holds it.
#[verifier::external_type_specification]
#[verifier::external_body]
pub struct ExOptimizerSolution(cut_optimizer_1d::Solution);

/// Why a trial gave no solution.
#[derive(Clone, Copy, Debug, PartialEq, Eq)]
pub enum SolveError {
    /// No stock piece can hold a cut piece of this length.
    NoFit { length: usize },
    /// The problem is beyond what the optimizer's arithmetic can take.
    OutOfRange,
    /// The optimizer's layout uses stock that the problem does not name, or
    /// holds a cut piece that ends before it starts.
    Inconsistent,
}

/// How many stock pieces are on offer, those of unlimited sources not
/// counted.
pub open spec fn stock_on_offer(stock: Seq<StockPiece>) -> nat
    decreases stock.len(),
{
    if stock.len() == 0 {
        0
    } else {
        stock_on_offer(stock.drop_last()) + (match stock.last().quantity {
            Some(quantity) => quantity as nat,
            None => 0nat,
        })
    }
}

/// How many cut pieces are wanted in all.
pub open spec fn pieces_wanted(cuts: Seq<CutDemand>) -> nat
    decreases cuts.len(),
{
    if cuts.len() == 0 {
        0
    } else {
        pieces_wanted(cuts.drop_last()) + cuts.last().quantity
    }
}

/// What the optimizer can take without a panic. The optimizer
/// - draws from an empty range once one of its candidates uses stock and
///   another uses none, which takes a cut piece of length zero that is put
///   on a stock piece of length zero: zero lengths may stand on one side
///   only;
/// - adds the cut width to the place where a cut piece ends: every stock
///   length and the cut width together fit `usize`;
/// - adds up the quantities of stock pieces of the same length and price:
///   the stock on offer fits `usize`;
/// - multiplies the number of different cut lengths by ten: ten times the
///   number of cut pieces fits `usize`;
/// - adds up the prices of the stock pieces used, of which there are no
///   more than cut pieces: the price of as many stock pieces as there are
///   cut pieces fits `usize`.
pub open spec fn optimizer_limits(
    stock: Seq<StockPiece>,
    cuts: Seq<CutDemand>,
    cut_width: usize,
) -> bool {
    &&& (forall|i: int| 0 <= i < stock.len() ==> (#[trigger] stock[i]).length >= 1) || (forall|
        j: int,
    | 0 <= j < cuts.len() ==> (#[trigger] cuts[j]).length >= 1)
    &&& forall|i: int|
        0 <= i < stock.len() ==> (#[trigger] stock[i]).length + cut_width <= usize::MAX
    &&& stock_on_offer(stock) <= usize::MAX
    &&& pieces_wanted(cuts) * 10 <= usize::MAX
    &&& forall|i: int|
        0 <= i < stock.len() ==> pieces_wanted(cuts) * (#[trigger] stock[i]).price <= usize::MAX
}

/// The cut width that a trial runs with: the one given, or none at all.
pub open spec fn width_of(cut_width: Option<usize>) -> usize {
    match cut_width {
        Some(width) => width,
        None => 0,
    }
}

/// The stock pieces that a solution of the optimizer holds, in order: the
/// length and price of each, and where each of its cut pieces starts and
/// ends.
pub uninterp spec fn held_stock(solution: cut_optimizer_1d::Solution) -> Seq<
    (usize, usize, Seq<(usize, usize)>),
>;

/// Builds an `Optimizer` of `cut_optimizer_1d` with these cut and stock
/// pieces, seed and cut width, and calls its `optimize`. Trusted: within the
/// limits the call does not panic; and where no cut piece is wanted at all
/// the optimizer has nothing to lay out and returns at once a solution
/// without stock pieces. Nothing else is claimed of what it returns. The
/// crate's error names the cut piece that found no stock; its length is
/// kept.
#[verifier::external_body]
fn run_optimizer(
    stock: &Vec<StockPiece>,
    cuts: &Vec<CutPiece>,
    seed: u64,
    cut_width: usize,
) -> (outcome: Result<cut_optimizer_1d::Solution, usize>)
    requires
        optimizer_limits(stock@, cut_demands(cuts@), cut_width),
    ensures
        pieces_wanted(cut_demands(cuts@)) == 0 ==> outcome is Ok && held_stock(
            outcome->Ok_0,
        ).len() == 0,
{
    let mut optimizer = cut_optimizer_1d::Optimizer::new();
    optimizer.add_cut_pieces(cuts.iter().map(|c| {
        let quantity = c.quantity as usize;
        cut_optimizer_1d::CutPiece { quantity, external_id: None, length: c.length }
    }));
    optimizer.add_stock_pieces(stock.iter().map(|s| {
        cut_optimizer_1d::StockPiece { length: s.length, price: s.price, quantity: s.quantity }
    }));
    optimizer.set_random_seed(seed).set_cut_width(cut_width);
    optimizer.optimize(|_| {}).map_err(|cut_optimizer_1d::Error::NoFitForCutPiece(c)| c.length)
}

/// Copies the fields of a `cut_optimizer_1d::Solution` into a `Layout`,
/// the fitness as its bit pattern. Trusted: the layout has the stock pieces
/// that the solution holds.
#[verifier::external_body]
fn layout_of(solution: &cut_optimizer_1d::Solution) -> (layout: Layout)
    ensures
        layout.parts() == held_stock(*solution),
{
    let stock_pieces = solution.stock_pieces.iter().map(|p| UsedStock {
        length: p.length,
        price: p.price,
        cut_pieces: p.cut_pieces.iter().map(|c| PlacedCut { start: c.start, end: c.end }).collect(),
    }).collect();
    Layout { fitness_bits: solution.fitness.to_bits(), stock_pieces }
}

proof fn lemma_stock_on_offer_grows(stock: Seq<StockPiece>, k: int)
    requires
        0 <= k <= stock.len(),
    ensures
        stock_on_offer(stock.take(k)) <= stock_on_offer(stock),
    decreases stock.len(),
{
    if k < stock.len() {
        assert(stock.drop_last().take(k) =~= stock.take(k));
        lemma_stock_on_offer_grows(stock.drop_last(), k);
    } else {
        assert(stock.take(k) =~= stock);
    }
}

proof fn lemma_pieces_wanted_grows(cuts: Seq<CutDemand>, k: int)
    requires
        0 <= k <= cuts.len(),
    ensures
        pieces_wanted(cuts.take(k)) <= pieces_wanted(cuts),
    decreases cuts.len(),
{
    if k < cuts.len() {
        assert(cuts.drop_last().take(k) =~= cuts.take(k));
        lemma_pieces_wanted_grows(cuts.drop_last(), k);
    } else {
        assert(cuts.take(k) =~= cuts);
    }
}

impl Problem {
    /// Whether the problem, with this cut width, is within what the
    /// optimizer can take.
    pub open spec fn within_limits(&self, cut_width: usize) -> bool {
        optimizer_limits(self@.stock_pieces, self@.cuts, cut_width)
    }

    fn count_stock_on_offer(&self) -> (count: Option<usize>)
        ensures
            match count {
                Some(n) => n == stock_on_offer(self@.stock_pieces),
                None => stock_on_offer(self@.stock_pieces) > usize::MAX,
            },
    {
        let stock = self.stock_pieces();
        let mut count: usize = 0;
        let mut i: usize = 0;
        while i < stock.len()
            invariant
                stock@ == self@.stock_pieces,
                i <= stock.len(),
                count == stock_on_offer(stock@.take(i as int)),
            decreases stock.len() - i,
        {
            proof {
                assert(stock@.take(i + 1).drop_last() =~= stock@.take(i as int));
                lemma_stock_on_offer_grows(stock@, i + 1);
            }
            match stock[i].quantity {
                Some(quantity) => {
                    if quantity > usize::MAX - count {
                        return None;
                    }
                    count = count + quantity;
                },
                None => {},
            }
            i = i + 1;
        }
        assert(stock@.take(i as int) =~= stock@);
        Some(count)
    }

    fn count_pieces_wanted(&self) -> (count: Option<usize>)
        ensures
            match count {
                Some(n) => n == pieces_wanted(self@.cuts),
                None => pieces_wanted(self@.cuts) > usize::MAX,
            },
    {
        let cuts = self.cuts();
        let ghost demands = cut_demands(cuts@);
        let mut count: usize = 0;
        let mut i: usize = 0;
        while i < cuts.len()
            invariant
                demands == cut_demands(cuts@),
                demands == self@.cuts,
                i <= cuts.len(),
                count == pieces_wanted(demands.take(i as int)),
            decreases cuts.len() - i,
        {
            proof {
                assert(demands.take(i + 1).drop_last() =~= demands.take(i as int));
                assert(demands[i as int].quantity == cuts[i as int].quantity);
                lemma_pieces_wanted_grows(demands, i + 1);
            }
            let quantity = cuts[i].quantity;
            if quantity > (usize::MAX - count) as u128 {
                return None;
            }
            count = count + quantity as usize;
            i = i + 1;
        }
        assert(demands.take(i as int) =~= demands);
        Some(count)
    }

    fn has_zero_stock(&self) -> (zero: bool)
        ensures
            zero == !(forall|i: int|
                0 <= i < self@.stock_pieces.len() ==> (#[trigger] self@.stock_pieces[i]).length
                    >= 1),
    {
        let stock = self.stock_pieces();
        let mut i: usize = 0;
        while i < stock.len()
            invariant
                stock@ == self@.stock_pieces,
                i <= stock.len(),
                forall|k: int| 0 <= k < i ==> (#[trigger] stock[k]).length >= 1,
            decreases stock.len() - i,
        {
            if stock[i].length == 0 {
                return true;
            }
            i = i + 1;
        }
        false
    }

    fn has_zero_cut(&self) -> (zero: bool)
        ensures
            zero == !(forall|j: int|
                0 <= j < self@.cuts.len() ==> (#[trigger] self@.cuts[j]).length >= 1),
    {
        let cuts = self.cuts();
        let ghost demands = cut_demands(cuts@);
        let mut j: usize = 0;
        while j < cuts.len()
            invariant
                demands == cut_demands(cuts@),
                demands == self@.cuts,
                j <= cuts.len(),
                forall|k: int| 0 <= k < j ==> (#[trigger] demands[k]).length >= 1,
            decreases cuts.len() - j,
        {
            if cuts[j].length == 0 {
                assert(demands[j as int].length == 0);
                return true;
            }
            j = j + 1;
        }
        false
    }

    /// What a trial of the problem with this cut width may come to. It
    /// fails as out of range exactly when the problem is beyond the
    /// optimizer's limits. A layout that it gives is one that the problem
    /// can report on. And within the limits, where no cut piece is wanted
    /// at all, it gives the layout that uses no stock.
    pub open spec fn may_give(
        &self,
        cut_width: Option<usize>,
        trial: Result<Layout, SolveError>,
    ) -> bool {
        &&& trial == Err::<Layout, SolveError>(SolveError::OutOfRange) <==> !self.within_limits(
            width_of(cut_width),
        )
        &&& trial matches Ok(layout) ==> self.covers(&layout)
        &&& self.within_limits(width_of(cut_width)) && pieces_wanted(self@.cuts) == 0
            ==> trial is Ok && trial->Ok_0.stock_pieces@.len() == 0
    }

    /// Tests whether the problem, with this cut width, is within what the
    /// optimizer can take.
    pub fn fits_optimizer(&self, cut_width: usize) -> (fits: bool)
        ensures
            fits == self.within_limits(cut_width),
    {
        if self.has_zero_stock() && self.has_zero_cut() {
            return false;
        }
        if self.count_stock_on_offer().is_none() {
            return false;
        }
        let wanted = match self.count_pieces_wanted() {
            Some(n) => n,
            None => {
                return false;
            },
        };
        if wanted > usize::MAX / 10 {
            return false;
        }
        let stock = self.stock_pieces();
        let mut i: usize = 0;
        while i < stock.len()
            invariant
                stock@ == self@.stock_pieces,
                wanted == pieces_wanted(self@.cuts),
                i <= stock.len(),
                forall|k: int|
                    0 <= k < i ==> (#[trigger] stock[k]).length + cut_width <= usize::MAX,
                forall|k: int| 0 <= k < i ==> wanted * (#[trigger] stock[k]).price <= usize::MAX,
            decreases stock.len() - i,
        {
            if stock[i].length > usize::MAX - cut_width {
                return false;
            }
            let price = stock[i].price;
            assert(wanted * price <= u128::MAX) by (nonlinear_arith)
                requires
                    0 <= wanted <= 0xffff_ffff_ffff_ffff,
                    0 <= price <= 0xffff_ffff_ffff_ffff,
            ;
            if wanted as u128 * price as u128 > usize::MAX as u128 {
                return false;
            }
            i = i + 1;
        }
        true
    }

    /// What a trial comes to, given what the optimizer made of it: its
    /// failure is passed on, and its solution is kept only if the problem
    /// can report on it.
    pub fn examine(&self, outcome: Result<Layout, usize>) -> (examined: Result<
        Layout,
        SolveError,
    >)
        requires
            self.wf(),
        ensures
            match outcome {
                Ok(solution) => if self.covers(&solution) {
                    examined == Ok::<Layout, SolveError>(solution)
                } else {
                    examined == Err::<Layout, SolveError>(SolveError::Inconsistent)
                },
                Err(length) => examined == Err::<Layout, SolveError>(
                    SolveError::NoFit { length },
                ),
            },
    {
        match outcome {
            Ok(solution) => {
                if self.accepts(&solution) {
                    Ok(solution)
                } else {
                    Err(SolveError::Inconsistent)
                }
            },
            Err(length) => Err(SolveError::NoFit { length }),
        }
    }

    /// Runs one trial: hands the problem to the optimizer with this seed
    /// and cut width, each 0 where none is given. A problem beyond the
    /// optimizer's limits is not handed over. What the optimizer returns
    /// goes through `examine`. See `may_give` for what holds of every
    /// outcome.
    pub fn solve(&self, seed: Option<u64>, cut_width: Option<usize>) -> (outcome: Result<
        Layout,
        SolveError,
    >)
        requires
            self.wf(),
        ensures
            self.may_give(cut_width, outcome),
    {
        let seed = match seed {
            Some(seed) => seed,
            None => 0,
        };
        let cut_width = match cut_width {
            Some(width) => width,
            None => 0,
        };
        if !self.fits_optimizer(cut_width) {
            return Err(SolveError::OutOfRange);
        }
        let outcome = match run_optimizer(self.stock_pieces(), self.cuts(), seed, cut_width) {
            Ok(solution) => Ok(layout_of(&solution)),
            Err(length) => Err(length),
        };
        self.examine(outcome)
    }
}

} // verus!
