//! Layouts: the solutions of a problem, which say what stock pieces to use
//! and where to cut each.

use vstd::prelude::*;

verus! {

/// A cut piece as it lies on a stock piece, from `start` to `end`.
#[derive(Clone, Copy, Debug, PartialEq, Eq)]
pub struct PlacedCut {
    pub start: usize,
    pub end: usize,
}

/// One stock piece that a solution uses, with the pieces cut from it.
#[derive(Clone, Debug, PartialEq, Eq)]
pub struct UsedStock {
    pub length: usize,
    pub price: usize,
    pub cut_pieces: Vec<PlacedCut>,
}

/// A solution of a problem: the stock pieces to use and where to cut each.
#[derive(Clone, Debug, PartialEq, Eq)]
pub struct Layout {
    /// The optimizer's fitness score, carried as the bit pattern of a
    /// 64-bit float and never read here.
    pub fitness_bits: u64,
    pub stock_pieces: Vec<UsedStock>,
}

/// The sum of the prices of the pieces.
pub open spec fn total_price(pieces: Seq<UsedStock>) -> nat
    decreases pieces.len(),
{
    if pieces.len() == 0 {
        0
    } else {
        total_price(pieces.drop_last()) + pieces.last().price as nat
    }
}

/// The number of cut pieces on all the pieces together.
pub open spec fn total_segments(pieces: Seq<UsedStock>) -> nat
    decreases pieces.len(),
{
    if pieces.len() == 0 {
        0
    } else {
        total_segments(pieces.drop_last()) + pieces.last().cut_pieces.len() as nat
    }
}

proof fn lemma_total_price_bound(pieces: Seq<UsedStock>)
    ensures
        total_price(pieces) <= pieces.len() * usize::MAX,
    decreases pieces.len(),
{
    if pieces.len() > 0 {
        lemma_total_price_bound(pieces.drop_last());
        assert((pieces.len() - 1) * usize::MAX + usize::MAX == pieces.len() * usize::MAX)
            by (nonlinear_arith);
    }
}

proof fn lemma_total_segments_bound(pieces: Seq<UsedStock>)
    ensures
        total_segments(pieces) <= pieces.len() * usize::MAX,
    decreases pieces.len(),
{
    if pieces.len() > 0 {
        lemma_total_segments_bound(pieces.drop_last());
        assert((pieces.len() - 1) * usize::MAX + usize::MAX == pieces.len() * usize::MAX)
            by (nonlinear_arith);
    }
}

impl UsedStock {
    /// The piece as plain values: its length, its price, and where each of
    /// its cut pieces starts and ends.
    pub open spec fn parts(self) -> (usize, usize, Seq<(usize, usize)>) {
        (self.length, self.price, self.cut_pieces@.map_values(|c: PlacedCut| (c.start, c.end)))
    }

    /// Every cut piece ends no earlier than it starts.
    pub open spec fn ordered(&self) -> bool {
        forall|i: int|
            0 <= i < self.cut_pieces.len() ==> (#[trigger] self.cut_pieces[i]).start
                <= self.cut_pieces[i].end
    }

    /// The lengths of the cut pieces, in the order in which they lie.
    pub open spec fn cut_lengths(&self) -> Seq<usize> {
        Seq::new(
            self.cut_pieces.len() as nat,
            |i: int| (self.cut_pieces[i].end - self.cut_pieces[i].start) as usize,
        )
    }
}

impl Layout {
    /// The stock pieces of the layout as plain values, in order.
    pub open spec fn parts(&self) -> Seq<(usize, usize, Seq<(usize, usize)>)> {
        self.stock_pieces@.map_values(|p: UsedStock| p.parts())
    }

    /// The cumulative cost: the sum of the prices of the stock pieces used.
    pub open spec fn cost(&self) -> nat {
        total_price(self.stock_pieces@)
    }

    /// The number of cut pieces placed.
    pub open spec fn segments(&self) -> nat {
        total_segments(self.stock_pieces@)
    }

    /// On every stock piece every cut piece ends no earlier than it starts.
    pub open spec fn ordered(&self) -> bool {
        forall|i: int|
            0 <= i < self.stock_pieces.len() ==> (#[trigger] self.stock_pieces[i]).ordered()
    }

    /// The cumulative cost of the solution.
    pub fn get_cumulative_cost(&self) -> (cost: u128)
        ensures
            cost == self.cost(),
    {
        let mut cost: u128 = 0;
        let mut i: usize = 0;
        while i < self.stock_pieces.len()
            invariant
                i <= self.stock_pieces.len(),
                cost == total_price(self.stock_pieces@.take(i as int)),
            decreases self.stock_pieces.len() - i,
        {
            proof {
                assert(self.stock_pieces@.take(i + 1).drop_last() =~= self.stock_pieces@.take(
                    i as int,
                ));
                lemma_total_price_bound(self.stock_pieces@.take(i as int));
                assert(i * usize::MAX + usize::MAX <= u128::MAX) by (nonlinear_arith)
                    requires
                        0 <= i < usize::MAX,
                        usize::MAX <= 0xffff_ffff_ffff_ffff,
                ;
            }
            cost = cost + self.stock_pieces[i].price as u128;
            i = i + 1;
        }
        assert(self.stock_pieces@.take(i as int) =~= self.stock_pieces@);
        cost
    }

    /// The number of cut pieces that the solution places.
    pub fn get_cut_count(&self) -> (count: u128)
        ensures
            count == self.segments(),
    {
        let mut count: u128 = 0;
        let mut i: usize = 0;
        while i < self.stock_pieces.len()
            invariant
                i <= self.stock_pieces.len(),
                count == total_segments(self.stock_pieces@.take(i as int)),
            decreases self.stock_pieces.len() - i,
        {
            proof {
                assert(self.stock_pieces@.take(i + 1).drop_last() =~= self.stock_pieces@.take(
                    i as int,
                ));
                lemma_total_segments_bound(self.stock_pieces@.take(i as int));
                assert(i * usize::MAX + usize::MAX <= u128::MAX) by (nonlinear_arith)
                    requires
                        0 <= i < usize::MAX,
                        usize::MAX <= 0xffff_ffff_ffff_ffff,
                ;
            }
            count = count + self.stock_pieces[i].cut_pieces.len() as u128;
            i = i + 1;
        }
        assert(self.stock_pieces@.take(i as int) =~= self.stock_pieces@);
        count
    }

    /// Whether every cut piece ends no earlier than it starts.
    pub fn is_ordered(&self) -> (ordered: bool)
        ensures
            ordered == self.ordered(),
    {
        let mut i: usize = 0;
        while i < self.stock_pieces.len()
            invariant
                i <= self.stock_pieces.len(),
                forall|k: int| 0 <= k < i ==> (#[trigger] self.stock_pieces[k]).ordered(),
            decreases self.stock_pieces.len() - i,
        {
            let piece = &self.stock_pieces[i];
            let mut j: usize = 0;
            while j < piece.cut_pieces.len()
                invariant
                    i < self.stock_pieces.len(),
                    *piece == self.stock_pieces[i as int],
                    j <= piece.cut_pieces.len(),
                    forall|k: int|
                        0 <= k < j ==> (#[trigger] piece.cut_pieces[k]).start
                            <= piece.cut_pieces[k].end,
                decreases piece.cut_pieces.len() - j,
            {
                if piece.cut_pieces[j].start > piece.cut_pieces[j].end {
                    assert(!piece.ordered());
                    return false;
                }
                j = j + 1;
            }
            i = i + 1;
        }
        true
    }
}

} // verus!
