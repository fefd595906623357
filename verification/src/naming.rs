//! Which source a stock piece of a layout comes from.

use crate::layout::{Layout, UsedStock};
use crate::problem::Problem;
use vstd::prelude::*;

verus! {

/// The source names of a problem, as a lookup by length and price.
pub type SourceNames = Map<(usize, usize), Seq<char>>;

/// Whether the lookup has a name for the piece.
pub open spec fn is_named(names: SourceNames, piece: UsedStock) -> bool {
    names.contains_key((piece.length, piece.price))
}

/// The name of the source that the piece comes from.
pub open spec fn name_of(names: SourceNames, piece: UsedStock) -> Seq<char> {
    names[(piece.length, piece.price)]
}

/// Whether the lookup has a name for every piece.
pub open spec fn all_named(names: SourceNames, pieces: Seq<UsedStock>) -> bool {
    forall|k: int| 0 <= k < pieces.len() ==> is_named(names, #[trigger] pieces[k])
}

impl Problem {
    /// Whether the problem can report on the solution: it has a name for
    /// every stock piece used, and every cut piece ends no earlier than it
    /// starts.
    pub open spec fn covers(&self, solution: &Layout) -> bool {
        all_named(self@.source_names, solution.stock_pieces@) && solution.ordered()
    }

    /// Tests whether the problem can report on the solution.
    pub fn accepts(&self, res: &Layout) -> (accepted: bool)
        requires
            self.wf(),
        ensures
            accepted == self.covers(res),
    {
        let mut k: usize = 0;
        while k < res.stock_pieces.len()
            invariant
                self.wf(),
                k <= res.stock_pieces.len(),
                all_named(self@.source_names, res.stock_pieces@.take(k as int)),
            decreases res.stock_pieces.len() - k,
        {
            let piece = &res.stock_pieces[k];
            if self.source_name(piece.length, piece.price).is_none() {
                assert(!is_named(self@.source_names, res.stock_pieces@[k as int]));
                return false;
            }
            assert forall|m: int| 0 <= m < k + 1 implies is_named(
                self@.source_names,
                #[trigger] res.stock_pieces@.take(k + 1)[m],
            ) by {
                if m < k {
                    assert(res.stock_pieces@.take(k + 1)[m] == res.stock_pieces@.take(k as int)[m]);
                }
            }
            k = k + 1;
        }
        assert(res.stock_pieces@.take(k as int) =~= res.stock_pieces@);
        res.is_ordered()
    }
}

} // verus!
