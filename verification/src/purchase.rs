//! The purchase order: how many stock pieces to buy from each source.

use crate::layout::{Layout, UsedStock};
use crate::names::{
    lemma_name_le_antisymmetric, lemma_name_le_reflexive, lemma_name_le_total,
    lemma_name_le_transitive, name_comes_first, name_le,
};
use crate::naming::{all_named, is_named, name_of, SourceNames};
use crate::problem::Problem;
use vstd::prelude::*;

verus! {

/// How many stock pieces to buy from one source.
#[derive(Clone, Debug, PartialEq, Eq)]
pub struct Purchase {
    pub name: String,
    pub quantity: usize,
}

/// How many of the pieces come from the source called `name`.
pub open spec fn purchased(names: SourceNames, pieces: Seq<UsedStock>, name: Seq<char>) -> nat
    decreases pieces.len(),
{
    if pieces.len() == 0 {
        0
    } else {
        purchased(names, pieces.drop_last(), name) + (if name_of(names, pieces.last()) == name {
            1nat
        } else {
            0nat
        })
    }
}

/// Whether one of the lines is for the source called `name`.
pub open spec fn has_line(lines: Seq<Purchase>, name: Seq<char>) -> bool {
    exists|i: int| 0 <= i < lines.len() && (#[trigger] lines[i]).name@ == name
}

/// What makes `lines` the purchase order for the pieces: the lines stand
/// in ascending order of their names, no name twice; each line counts the
/// pieces of its name, of which there is at least one; and the name of
/// every piece has a line.
pub open spec fn is_purchase_order(
    names: SourceNames,
    pieces: Seq<UsedStock>,
    lines: Seq<Purchase>,
) -> bool {
    &&& forall|i: int, j: int|
        0 <= i < j < lines.len() ==> name_le(
            (#[trigger] lines[i]).name@,
            (#[trigger] lines[j]).name@,
        ) && lines[i].name@ != lines[j].name@
    &&& forall|i: int|
        0 <= i < lines.len() ==> (#[trigger] lines[i]).quantity > 0 && lines[i].quantity
            == purchased(names, pieces, lines[i].name@)
    &&& forall|k: int|
        0 <= k < pieces.len() ==> has_line(lines, name_of(names, #[trigger] pieces[k]))
}

/// No more pieces come from a source than there are pieces.
pub proof fn lemma_purchased_bound(
    names: SourceNames,
    pieces: Seq<UsedStock>,
    name: Seq<char>,
)
    ensures
        purchased(names, pieces, name) <= pieces.len(),
    decreases pieces.len(),
{
    if pieces.len() > 0 {
        lemma_purchased_bound(names, pieces.drop_last(), name);
    }
}

/// A source that no piece comes from has a count of zero.
pub proof fn lemma_purchased_none(
    names: SourceNames,
    pieces: Seq<UsedStock>,
    name: Seq<char>,
)
    requires
        forall|k: int| 0 <= k < pieces.len() ==> name_of(names, #[trigger] pieces[k]) != name,
    ensures
        purchased(names, pieces, name) == 0,
    decreases pieces.len(),
{
    if pieces.len() > 0 {
        assert(name_of(names, pieces[pieces.len() - 1]) != name);
        lemma_purchased_none(names, pieces.drop_last(), name);
    }
}

/// A source with a count above zero has a piece.
pub proof fn lemma_purchased_some(
    names: SourceNames,
    pieces: Seq<UsedStock>,
    name: Seq<char>,
)
    requires
        purchased(names, pieces, name) > 0,
    ensures
        exists|k: int| 0 <= k < pieces.len() && name_of(names, #[trigger] pieces[k]) == name,
{
    if forall|k: int| 0 <= k < pieces.len() ==> name_of(names, #[trigger] pieces[k]) != name {
        lemma_purchased_none(names, pieces, name);
    }
}

proof fn lemma_ascending_names_agree(first: Seq<Seq<char>>, second: Seq<Seq<char>>)
    requires
        forall|i: int, j: int|
            0 <= i < j < first.len() ==> name_le(#[trigger] first[i], #[trigger] first[j])
                && first[i] != first[j],
        forall|i: int, j: int|
            0 <= i < j < second.len() ==> name_le(#[trigger] second[i], #[trigger] second[j])
                && second[i] != second[j],
        forall|i: int| 0 <= i < first.len() ==> second.contains(#[trigger] first[i]),
        forall|j: int| 0 <= j < second.len() ==> first.contains(#[trigger] second[j]),
    ensures
        first == second,
    decreases first.len(),
{
    if first.len() == 0 {
        if second.len() > 0 {
            assert(first.contains(second[0]));
        }
        assert(first =~= second);
    } else {
        let x = first.last();
        assert(second.contains(first[first.len() - 1]));
        let j = choose|j: int| 0 <= j < second.len() && second[j] == x;
        let y = second.last();
        assert(first.contains(second[second.len() - 1]));
        let i = choose|i: int| 0 <= i < first.len() && first[i] == y;
        lemma_name_le_reflexive(x);
        assert(name_le(x, y)) by {
            if j < second.len() - 1 {
                assert(name_le(second[j], second[second.len() - 1]));
            }
        }
        assert(name_le(y, x)) by {
            if i < first.len() - 1 {
                assert(name_le(first[i], first[first.len() - 1]));
            }
        }
        lemma_name_le_antisymmetric(x, y);
        let a = first.drop_last();
        let b = second.drop_last();
        assert forall|m: int| 0 <= m < a.len() implies b.contains(#[trigger] a[m]) by {
            assert(second.contains(first[m]));
            let n = choose|n: int| 0 <= n < second.len() && second[n] == first[m];
            assert(first[m] != first[first.len() - 1]);
            assert(b[n] == a[m]);
        }
        assert forall|n: int| 0 <= n < b.len() implies a.contains(#[trigger] b[n]) by {
            assert(first.contains(second[n]));
            let m = choose|m: int| 0 <= m < first.len() && first[m] == second[n];
            assert(second[n] != second[second.len() - 1]);
            assert(a[m] == b[n]);
        }
        assert forall|m: int, n: int| 0 <= m < n < a.len() implies name_le(
            #[trigger] a[m],
            #[trigger] a[n],
        ) && a[m] != a[n] by {
            assert(a[m] == first[m] && a[n] == first[n]);
        }
        assert forall|m: int, n: int| 0 <= m < n < b.len() implies name_le(
            #[trigger] b[m],
            #[trigger] b[n],
        ) && b[m] != b[n] by {
            assert(b[m] == second[m] && b[n] == second[n]);
        }
        lemma_ascending_names_agree(a, b);
        assert(first =~= a.push(x));
        assert(second =~= b.push(y));
    }
}

/// The pieces determine their purchase order: two purchase orders for the
/// same pieces agree line by line, in whatever way they were made.
pub proof fn lemma_purchase_order_unique(
    names: SourceNames,
    pieces: Seq<UsedStock>,
    first: Seq<Purchase>,
    second: Seq<Purchase>,
)
    requires
        is_purchase_order(names, pieces, first),
        is_purchase_order(names, pieces, second),
    ensures
        first.len() == second.len(),
        forall|i: int|
            0 <= i < first.len() ==> (#[trigger] first[i]).name@ == second[i].name@
                && first[i].quantity == second[i].quantity,
{
    let a = first.map_values(|line: Purchase| line.name@);
    let b = second.map_values(|line: Purchase| line.name@);
    assert forall|i: int| 0 <= i < a.len() implies b.contains(#[trigger] a[i]) by {
        assert(first[i].quantity > 0);
        lemma_purchased_some(names, pieces, first[i].name@);
        let k = choose|k: int|
            0 <= k < pieces.len() && name_of(names, #[trigger] pieces[k]) == first[i].name@;
        let j = choose|j: int|
            0 <= j < second.len() && (#[trigger] second[j]).name@ == name_of(names, pieces[k]);
        assert(b[j] == a[i]);
    }
    assert forall|j: int| 0 <= j < b.len() implies a.contains(#[trigger] b[j]) by {
        assert(second[j].quantity > 0);
        lemma_purchased_some(names, pieces, second[j].name@);
        let k = choose|k: int|
            0 <= k < pieces.len() && name_of(names, #[trigger] pieces[k]) == second[j].name@;
        let i = choose|i: int|
            0 <= i < first.len() && (#[trigger] first[i]).name@ == name_of(names, pieces[k]);
        assert(a[i] == b[j]);
    }
    assert forall|m: int, n: int| 0 <= m < n < a.len() implies name_le(
        #[trigger] a[m],
        #[trigger] a[n],
    ) && a[m] != a[n] by {
        assert(name_le(first[m].name@, first[n].name@));
    }
    assert forall|m: int, n: int| 0 <= m < n < b.len() implies name_le(
        #[trigger] b[m],
        #[trigger] b[n],
    ) && b[m] != b[n] by {
        assert(name_le(second[m].name@, second[n].name@));
    }
    lemma_ascending_names_agree(a, b);
    assert forall|i: int| 0 <= i < first.len() implies (#[trigger] first[i]).name@
        == second[i].name@ && first[i].quantity == second[i].quantity by {
        assert(a[i] == b[i]);
    }
}

proof fn lemma_purchased_without(
    names: SourceNames,
    pieces: Seq<UsedStock>,
    at: int,
    name: Seq<char>,
)
    requires
        0 <= at < pieces.len(),
    ensures
        purchased(names, pieces, name) == purchased(names, pieces.remove(at), name) + (if name_of(
            names,
            pieces[at],
        ) == name {
            1nat
        } else {
            0nat
        }),
    decreases pieces.len(),
{
    if at == pieces.len() - 1 {
        assert(pieces.remove(at) =~= pieces.drop_last());
    } else {
        lemma_purchased_without(names, pieces.drop_last(), at, name);
        assert(pieces.remove(at).drop_last() =~= pieces.drop_last().remove(at));
        assert(pieces.remove(at).last() == pieces.last());
    }
}

/// The count for a source does not depend on the order of the pieces.
pub proof fn lemma_purchased_in_any_order(
    names: SourceNames,
    first: Seq<UsedStock>,
    second: Seq<UsedStock>,
    name: Seq<char>,
)
    requires
        first.to_multiset() == second.to_multiset(),
    ensures
        purchased(names, first, name) == purchased(names, second, name),
    decreases first.len(),
{
    vstd::seq_lib::to_multiset_len(first);
    vstd::seq_lib::to_multiset_len(second);
    if first.len() > 0 {
        let last = first.last();
        let rest = first.drop_last();
        assert(first =~= rest.push(last));
        vstd::seq_lib::to_multiset_build(rest, last);
        vstd::seq_lib::to_multiset_contains(second, last);
        assert(second.to_multiset().count(last) > 0);
        let at = choose|at: int| 0 <= at < second.len() && second[at] == last;
        vstd::seq_lib::to_multiset_remove(second, at);
        assert(rest.to_multiset() =~= second.remove(at).to_multiset());
        lemma_purchased_in_any_order(names, rest, second.remove(at), name);
        lemma_purchased_without(names, second, at, name);
    }
}

/// The purchase order does not depend on the order of the pieces: a
/// purchase order for the pieces is one for the same pieces in any other
/// order.
pub proof fn lemma_purchase_order_in_any_order(
    names: SourceNames,
    first: Seq<UsedStock>,
    second: Seq<UsedStock>,
    lines: Seq<Purchase>,
)
    requires
        first.to_multiset() == second.to_multiset(),
        is_purchase_order(names, first, lines),
    ensures
        is_purchase_order(names, second, lines),
{
    assert forall|i: int| 0 <= i < lines.len() implies (#[trigger] lines[i]).quantity > 0
        && lines[i].quantity == purchased(names, second, lines[i].name@) by {
        lemma_purchased_in_any_order(names, first, second, lines[i].name@);
    }
    assert forall|k: int| 0 <= k < second.len() implies has_line(
        lines,
        name_of(names, #[trigger] second[k]),
    ) by {
        vstd::seq_lib::to_multiset_contains(second, second[k]);
        vstd::seq_lib::to_multiset_contains(first, second[k]);
        assert(second.contains(second[k]));
        let m = choose|m: int| 0 <= m < first.len() && first[m] == second[k];
        let i = choose|i: int|
            0 <= i < lines.len() && (#[trigger] lines[i]).name@ == name_of(names, first[m]);
        assert(lines[i].name@ == name_of(names, second[k]));
    }
}

/// What one more piece adds to the count for a source.
proof fn lemma_purchased_one_more(
    names: SourceNames,
    done: Seq<UsedStock>,
    piece: UsedStock,
    name: Seq<char>,
)
    ensures
        purchased(names, done.push(piece), name) == purchased(names, done, name) + (if name_of(
            names,
            piece,
        ) == name {
            1nat
        } else {
            0nat
        }),
{
    assert(done.push(piece).drop_last() =~= done);
}

/// Counting one more piece on the line of its source keeps a purchase
/// order.
proof fn lemma_count_on_line(
    names: SourceNames,
    done: Seq<UsedStock>,
    piece: UsedStock,
    before: Seq<Purchase>,
    after: Seq<Purchase>,
    at: int,
)
    requires
        is_purchase_order(names, done, before),
        0 <= at < before.len(),
        before[at].name@ == name_of(names, piece),
        after.len() == before.len(),
        after[at].name == before[at].name,
        after[at].quantity == before[at].quantity + 1,
        forall|i: int| 0 <= i < before.len() && i != at ==> after[i] == before[i],
    ensures
        is_purchase_order(names, done.push(piece), after),
{
    let next = done.push(piece);
    assert forall|i: int| 0 <= i < after.len() implies (#[trigger] after[i]).name@
        == before[i].name@ by {}
    assert forall|i: int| 0 <= i < after.len() implies (#[trigger] after[i]).quantity > 0
        && after[i].quantity == purchased(names, next, after[i].name@) by {
        lemma_purchased_one_more(names, done, piece, after[i].name@);
        assert(before[i].quantity == purchased(names, done, before[i].name@));
        if i < at {
            assert(before[i].name@ != before[at].name@);
        } else if i > at {
            assert(before[at].name@ != before[i].name@);
        }
    }
    assert forall|m: int| 0 <= m < next.len() implies has_line(
        after,
        name_of(names, #[trigger] next[m]),
    ) by {
        if m < done.len() {
            assert(next[m] == done[m]);
            let i = choose|i: int|
                0 <= i < before.len() && (#[trigger] before[i]).name@ == name_of(names, done[m]);
            assert(after[i].name@ == name_of(names, next[m]));
        } else {
            assert(after[at].name@ == name_of(names, next[m]));
        }
    }
}

/// Putting the first line of a source in its place keeps a purchase order.
proof fn lemma_insert_line(
    names: SourceNames,
    done: Seq<UsedStock>,
    piece: UsedStock,
    before: Seq<Purchase>,
    at: int,
    line: Purchase,
)
    requires
        is_purchase_order(names, done, before),
        0 <= at <= before.len(),
        line.name@ == name_of(names, piece),
        line.quantity == 1,
        forall|i: int| 0 <= i < at ==> !name_le(line.name@, (#[trigger] before[i]).name@),
        at < before.len() ==> name_le(line.name@, before[at].name@) && before[at].name@
            != line.name@,
    ensures
        is_purchase_order(names, done.push(piece), before.insert(at, line)),
{
    let next = done.push(piece);
    let after = before.insert(at, line);
    let n = line.name@;
    lemma_name_le_reflexive(n);
    assert forall|i: int| 0 <= i < before.len() implies (#[trigger] before[i]).name@ != n by {
        if i > at && before[i].name@ == n {
            assert(name_le(before[at].name@, before[i].name@));
            lemma_name_le_antisymmetric(n, before[at].name@);
        }
    }
    assert forall|m: int| 0 <= m < done.len() implies name_of(names, #[trigger] done[m]) != n by {
        let i = choose|i: int|
            0 <= i < before.len() && (#[trigger] before[i]).name@ == name_of(names, done[m]);
        assert(before[i].name@ != n);
    }
    lemma_purchased_none(names, done, n);
    assert forall|i: int, j: int| 0 <= i < j < after.len() implies name_le(
        (#[trigger] after[i]).name@,
        (#[trigger] after[j]).name@,
    ) && after[i].name@ != after[j].name@ by {
        if j < at {
            assert(after[i] == before[i] && after[j] == before[j]);
        } else if j == at {
            assert(after[i] == before[i]);
            lemma_name_le_total(n, before[i].name@);
        } else if i < at {
            assert(after[i] == before[i] && after[j] == before[j - 1]);
        } else if i == at {
            assert(after[j] == before[j - 1]);
            if j - 1 > at {
                assert(name_le(before[at].name@, before[j - 1].name@));
                lemma_name_le_transitive(n, before[at].name@, before[j - 1].name@);
            }
        } else {
            assert(after[i] == before[i - 1] && after[j] == before[j - 1]);
        }
    }
    assert forall|i: int| 0 <= i < after.len() implies (#[trigger] after[i]).quantity > 0
        && after[i].quantity == purchased(names, next, after[i].name@) by {
        lemma_purchased_one_more(names, done, piece, after[i].name@);
        if i < at {
            assert(after[i] == before[i]);
        } else if i > at {
            assert(after[i] == before[i - 1]);
        }
    }
    assert forall|m: int| 0 <= m < next.len() implies has_line(
        after,
        name_of(names, #[trigger] next[m]),
    ) by {
        if m < done.len() {
            assert(next[m] == done[m]);
            let i = choose|i: int|
                0 <= i < before.len() && (#[trigger] before[i]).name@ == name_of(names, done[m]);
            if i < at {
                assert(after[i] == before[i]);
            } else {
                assert(after[i + 1] == before[i]);
            }
        } else {
            assert(after[at].name@ == name_of(names, next[m]));
        }
    }
}

impl Purchase {
    fn count_one_more(&mut self)
        requires
            old(self).quantity < usize::MAX,
        ensures
            final(self).name == old(self).name,
            final(self).quantity == old(self).quantity + 1,
    {
        self.quantity = self.quantity + 1;
    }
}

impl Problem {
    /// The purchase order for a solution: for each source name, how many
    /// stock pieces of it the solution uses, in ascending order of the
    /// names.
    pub fn get_purchase_order(&self, res: &Layout) -> (lines: Vec<Purchase>)
        requires
            self.wf(),
            all_named(self@.source_names, res.stock_pieces@),
        ensures
            is_purchase_order(self@.source_names, res.stock_pieces@, lines@),
    {
        let ghost names = self@.source_names;
        let ghost pieces = res.stock_pieces@;
        let mut lines: Vec<Purchase> = Vec::new();
        let mut k: usize = 0;
        while k < res.stock_pieces.len()
            invariant
                self.wf(),
                names == self@.source_names,
                pieces == res.stock_pieces@,
                all_named(names, pieces),
                k <= pieces.len(),
                is_purchase_order(names, pieces.take(k as int), lines@),
            decreases res.stock_pieces.len() - k,
        {
            let piece = &res.stock_pieces[k];
            let ghost done = pieces.take(k as int);
            let ghost before = lines@;
            proof {
                assert(pieces.take(k + 1) =~= done.push(pieces[k as int]));
                assert(is_named(names, pieces[k as int]));
            }
            match self.source_name(piece.length, piece.price) {
                None => {},
                Some(name) => {
                    let mut at: usize = 0;
                    while at < lines.len() && !name_comes_first(
                        name.as_str(),
                        lines[at].name.as_str(),
                    )
                        invariant
                            at <= lines.len(),
                            lines@ == before,
                            forall|i: int|
                                0 <= i < at ==> !name_le(name@, (#[trigger] lines[i]).name@),
                        decreases lines.len() - at,
                    {
                        at = at + 1;
                    }
                    if at < lines.len() && lines[at].name == *name {
                        proof {
                            lemma_purchased_bound(names, done, name@);
                        }
                        lines[at].count_one_more();
                        proof {
                            lemma_count_on_line(
                                names,
                                done,
                                pieces[k as int],
                                before,
                                lines@,
                                at as int,
                            );
                        }
                    } else {
                        let line = Purchase { name: name.clone(), quantity: 1 };
                        lines.insert(at, line);
                        proof {
                            lemma_insert_line(
                                names,
                                done,
                                pieces[k as int],
                                before,
                                at as int,
                                line,
                            );
                        }
                    }
                },
            }
            k = k + 1;
        }
        assert(pieces.take(k as int) =~= pieces);
        lines
    }
}

} // verus!
