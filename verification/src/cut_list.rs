//! The cut list: which lengths to cut from the stock pieces of each
//! source.

use crate::layout::{Layout, UsedStock};
use crate::names::{
    lemma_name_le_reflexive, lemma_name_le_total, lemma_name_le_transitive, name_comes_first,
    name_le,
};
use crate::naming::{all_named, is_named, name_of, SourceNames};
use crate::problem::Problem;
use vstd::multiset::Multiset;
use vstd::prelude::*;

verus! {

/// How to cut the stock pieces of one source that are cut alike: the
/// lengths to cut from each, ascending, and how many pieces are cut so.
#[derive(Clone, Debug, PartialEq, Eq)]
pub struct CutOrder {
    pub quantity: usize,
    pub name: String,
    pub cuts: Vec<usize>,
}

/// Whether the lengths stand in ascending order.
pub open spec fn ascending(lengths: Seq<usize>) -> bool {
    forall|i: int, j: int| 0 <= i < j < lengths.len() ==> lengths[i] <= lengths[j]
}

/// Ascending sequences with the same members are the same sequence.
pub proof fn lemma_ascending_unique(a: Seq<usize>, b: Seq<usize>)
    requires
        ascending(a),
        ascending(b),
        a.to_multiset() == b.to_multiset(),
    ensures
        a == b,
{
    let leq = |x: usize, y: usize| x <= y;
    assert(vstd::relations::sorted_by(a, leq));
    assert(vstd::relations::sorted_by(b, leq));
    assert(vstd::relations::total_ordering(leq));
    vstd::seq_lib::lemma_sorted_unique(a, b, leq);
}

/// How many of the pieces come from the source called `name` and are cut
/// into exactly these lengths.
pub open spec fn cut_alike(
    names: SourceNames,
    pieces: Seq<UsedStock>,
    name: Seq<char>,
    lengths: Multiset<usize>,
) -> nat
    decreases pieces.len(),
{
    if pieces.len() == 0 {
        0
    } else {
        cut_alike(names, pieces.drop_last(), name, lengths) + (if name_of(names, pieces.last())
            == name && pieces.last().cut_lengths().to_multiset() == lengths {
            1nat
        } else {
            0nat
        })
    }
}

/// Whether one of the groups is for the pieces of the source called `name`
/// that are cut into these lengths.
pub open spec fn has_group(
    groups: Seq<CutOrder>,
    name: Seq<char>,
    lengths: Multiset<usize>,
) -> bool {
    exists|i: int|
        0 <= i < groups.len() && (#[trigger] groups[i]).name@ == name
            && groups[i].cuts@.to_multiset() == lengths
}

/// What makes `groups` the cut list for the pieces: the groups stand in
/// ascending order of their names; no two groups share name and lengths;
/// each group lists its lengths ascending and counts the pieces of its name
/// that are cut into these lengths, of which there is at least one; and
/// every piece belongs to a group.
pub open spec fn is_cut_list(
    names: SourceNames,
    pieces: Seq<UsedStock>,
    groups: Seq<CutOrder>,
) -> bool {
    &&& forall|i: int, j: int|
        0 <= i < j < groups.len() ==> name_le(
            (#[trigger] groups[i]).name@,
            (#[trigger] groups[j]).name@,
        )
    &&& forall|i: int, j: int|
        0 <= i < j < groups.len() ==> !((#[trigger] groups[i]).name@ == (#[trigger] groups[j]).name@
            && groups[i].cuts@ == groups[j].cuts@)
    &&& forall|i: int|
        0 <= i < groups.len() ==> ascending((#[trigger] groups[i]).cuts@) && groups[i].quantity > 0
            && groups[i].quantity == cut_alike(
            names,
            pieces,
            groups[i].name@,
            groups[i].cuts@.to_multiset(),
        )
    &&& forall|k: int|
        0 <= k < pieces.len() ==> has_group(
            groups,
            name_of(names, #[trigger] pieces[k]),
            pieces[k].cut_lengths().to_multiset(),
        )
}

/// No more pieces are cut alike than there are pieces.
pub proof fn lemma_cut_alike_bound(
    names: SourceNames,
    pieces: Seq<UsedStock>,
    name: Seq<char>,
    lengths: Multiset<usize>,
)
    ensures
        cut_alike(names, pieces, name, lengths) <= pieces.len(),
    decreases pieces.len(),
{
    if pieces.len() > 0 {
        lemma_cut_alike_bound(names, pieces.drop_last(), name, lengths);
    }
}

/// A name and lengths that fit no piece have a count of zero.
pub proof fn lemma_cut_alike_none(
    names: SourceNames,
    pieces: Seq<UsedStock>,
    name: Seq<char>,
    lengths: Multiset<usize>,
)
    requires
        forall|k: int|
            0 <= k < pieces.len() ==> !(name_of(names, #[trigger] pieces[k]) == name
                && pieces[k].cut_lengths().to_multiset() == lengths),
    ensures
        cut_alike(names, pieces, name, lengths) == 0,
    decreases pieces.len(),
{
    if pieces.len() > 0 {
        let last = pieces[pieces.len() - 1];
        assert(!(name_of(names, last) == name && last.cut_lengths().to_multiset() == lengths));
        lemma_cut_alike_none(names, pieces.drop_last(), name, lengths);
    }
}

/// What one more piece adds to the count for a name and lengths.
proof fn lemma_cut_alike_one_more(
    names: SourceNames,
    done: Seq<UsedStock>,
    piece: UsedStock,
    name: Seq<char>,
    lengths: Multiset<usize>,
)
    ensures
        cut_alike(names, done.push(piece), name, lengths) == cut_alike(names, done, name, lengths)
            + (if name_of(names, piece) == name && piece.cut_lengths().to_multiset() == lengths {
            1nat
        } else {
            0nat
        }),
{
    assert(done.push(piece).drop_last() =~= done);
}

/// Counting one more piece on its group keeps a cut list.
proof fn lemma_count_on_group(
    names: SourceNames,
    done: Seq<UsedStock>,
    piece: UsedStock,
    before: Seq<CutOrder>,
    after: Seq<CutOrder>,
    at: int,
)
    requires
        is_cut_list(names, done, before),
        0 <= at < before.len(),
        before[at].name@ == name_of(names, piece),
        before[at].cuts@.to_multiset() == piece.cut_lengths().to_multiset(),
        after.len() == before.len(),
        after[at].name == before[at].name,
        after[at].cuts == before[at].cuts,
        after[at].quantity == before[at].quantity + 1,
        forall|i: int| 0 <= i < before.len() && i != at ==> after[i] == before[i],
    ensures
        is_cut_list(names, done.push(piece), after),
{
    let next = done.push(piece);
    assert forall|i: int| 0 <= i < after.len() implies (#[trigger] after[i]).name@
        == before[i].name@ && after[i].cuts@ == before[i].cuts@ by {}
    assert forall|i: int| 0 <= i < after.len() implies ascending((#[trigger] after[i]).cuts@)
        && after[i].quantity > 0 && after[i].quantity == cut_alike(
        names,
        next,
        after[i].name@,
        after[i].cuts@.to_multiset(),
    ) by {
        lemma_cut_alike_one_more(
            names,
            done,
            piece,
            after[i].name@,
            after[i].cuts@.to_multiset(),
        );
        assert(ascending(before[i].cuts@));
        assert(ascending(before[at].cuts@));
        if i != at && before[i].name@ == before[at].name@ && before[i].cuts@.to_multiset()
            == before[at].cuts@.to_multiset() {
            lemma_ascending_unique(before[i].cuts@, before[at].cuts@);
            if i < at {
                assert(!(before[i].name@ == before[at].name@ && before[i].cuts@
                    == before[at].cuts@));
            } else {
                assert(!(before[at].name@ == before[i].name@ && before[at].cuts@
                    == before[i].cuts@));
            }
        }
    }
    assert forall|m: int| 0 <= m < next.len() implies has_group(
        after,
        name_of(names, #[trigger] next[m]),
        next[m].cut_lengths().to_multiset(),
    ) by {
        if m < done.len() {
            assert(next[m] == done[m]);
            let i = choose|i: int|
                0 <= i < before.len() && (#[trigger] before[i]).name@ == name_of(names, done[m])
                    && before[i].cuts@.to_multiset() == done[m].cut_lengths().to_multiset();
            assert(after[i].name@ == name_of(names, next[m]));
        } else {
            assert(after[at].name@ == name_of(names, next[m]));
        }
    }
}

/// Putting the first group for a piece after the groups of the names that
/// come no later keeps a cut list.
proof fn lemma_insert_group(
    names: SourceNames,
    done: Seq<UsedStock>,
    piece: UsedStock,
    before: Seq<CutOrder>,
    at: int,
    group: CutOrder,
)
    requires
        is_cut_list(names, done, before),
        0 <= at <= before.len(),
        group.name@ == name_of(names, piece),
        ascending(group.cuts@),
        group.cuts@.to_multiset() == piece.cut_lengths().to_multiset(),
        group.quantity == 1,
        forall|i: int|
            0 <= i < before.len() ==> !((#[trigger] before[i]).name@ == group.name@
                && before[i].cuts@ == group.cuts@),
        forall|i: int| 0 <= i < at ==> name_le((#[trigger] before[i]).name@, group.name@),
        at < before.len() ==> !name_le(before[at].name@, group.name@),
    ensures
        is_cut_list(names, done.push(piece), before.insert(at, group)),
{
    let next = done.push(piece);
    let after = before.insert(at, group);
    let n = group.name@;
    let wanted = piece.cut_lengths().to_multiset();
    assert forall|i: int|
        0 <= i < before.len() && (#[trigger] before[i]).name@ == n
            && before[i].cuts@.to_multiset() == wanted implies before[i].cuts@ == group.cuts@ by {
        lemma_ascending_unique(before[i].cuts@, group.cuts@);
    }
    assert forall|m: int| 0 <= m < done.len() implies !(name_of(names, #[trigger] done[m]) == n
        && done[m].cut_lengths().to_multiset() == wanted) by {
        let i = choose|i: int|
            0 <= i < before.len() && (#[trigger] before[i]).name@ == name_of(names, done[m])
                && before[i].cuts@.to_multiset() == done[m].cut_lengths().to_multiset();
        assert(!(before[i].name@ == n && before[i].cuts@ == group.cuts@));
    }
    lemma_cut_alike_none(names, done, n, wanted);
    assert forall|i: int, j: int| 0 <= i < j < after.len() implies name_le(
        (#[trigger] after[i]).name@,
        (#[trigger] after[j]).name@,
    ) by {
        if j < at {
            assert(after[i] == before[i] && after[j] == before[j]);
        } else if j == at {
            assert(after[i] == before[i]);
        } else if i < at {
            assert(after[i] == before[i] && after[j] == before[j - 1]);
            if i == j - 1 {
                lemma_name_le_reflexive(before[i].name@);
            }
        } else if i == at {
            assert(after[j] == before[j - 1]);
            lemma_name_le_total(before[at].name@, n);
            if j - 1 > at {
                lemma_name_le_transitive(n, before[at].name@, before[j - 1].name@);
            }
        } else {
            assert(after[i] == before[i - 1] && after[j] == before[j - 1]);
        }
    }
    assert forall|i: int, j: int| 0 <= i < j < after.len() implies !((#[trigger] after[i]).name@
        == (#[trigger] after[j]).name@ && after[i].cuts@ == after[j].cuts@) by {
        if j < at {
            assert(after[i] == before[i] && after[j] == before[j]);
        } else if j == at {
            assert(after[i] == before[i]);
        } else if i < at {
            assert(after[i] == before[i] && after[j] == before[j - 1]);
        } else if i == at {
            assert(after[j] == before[j - 1]);
        } else {
            assert(after[i] == before[i - 1] && after[j] == before[j - 1]);
        }
    }
    assert forall|i: int| 0 <= i < after.len() implies ascending((#[trigger] after[i]).cuts@)
        && after[i].quantity > 0 && after[i].quantity == cut_alike(
        names,
        next,
        after[i].name@,
        after[i].cuts@.to_multiset(),
    ) by {
        lemma_cut_alike_one_more(
            names,
            done,
            piece,
            after[i].name@,
            after[i].cuts@.to_multiset(),
        );
        if i < at {
            assert(after[i] == before[i]);
        } else if i > at {
            assert(after[i] == before[i - 1]);
        }
    }
    assert forall|m: int| 0 <= m < next.len() implies has_group(
        after,
        name_of(names, #[trigger] next[m]),
        next[m].cut_lengths().to_multiset(),
    ) by {
        if m < done.len() {
            assert(next[m] == done[m]);
            let i = choose|i: int|
                0 <= i < before.len() && (#[trigger] before[i]).name@ == name_of(names, done[m])
                    && before[i].cuts@.to_multiset() == done[m].cut_lengths().to_multiset();
            if i < at {
                assert(after[i] == before[i]);
            } else {
                assert(after[i + 1] == before[i]);
            }
        } else {
            assert(after[at].name@ == name_of(names, next[m]));
        }
    }
}

impl UsedStock {
    /// The lengths of the cut pieces, ascending.
    pub fn sorted_cut_lengths(&self) -> (lengths: Vec<usize>)
        requires
            self.ordered(),
        ensures
            ascending(lengths@),
            lengths@.to_multiset() == self.cut_lengths().to_multiset(),
    {
        let ghost all = self.cut_lengths();
        let mut lengths: Vec<usize> = Vec::new();
        let mut k: usize = 0;
        assert(all.take(0) =~= Seq::<usize>::empty());
        while k < self.cut_pieces.len()
            invariant
                self.ordered(),
                all == self.cut_lengths(),
                k <= self.cut_pieces.len(),
                ascending(lengths@),
                lengths@.to_multiset() == all.take(k as int).to_multiset(),
            decreases self.cut_pieces.len() - k,
        {
            let cut = self.cut_pieces[k];
            assert(cut.start <= cut.end);
            let length = cut.end - cut.start;
            let mut at: usize = 0;
            while at < lengths.len() && lengths[at] <= length
                invariant
                    at <= lengths.len(),
                    forall|i: int| 0 <= i < at ==> lengths[i] <= length,
                decreases lengths.len() - at,
            {
                at = at + 1;
            }
            let ghost before = lengths@;
            lengths.insert(at, length);
            proof {
                vstd::seq_lib::to_multiset_insert(before, at as int, length);
                assert(all.take(k + 1) =~= all.take(k as int).push(length));
                vstd::seq_lib::to_multiset_build(all.take(k as int), length);
                let after = lengths@;
                assert forall|i: int, j: int| 0 <= i < j < after.len() implies after[i]
                    <= after[j] by {
                    if j < at {
                    } else if j == at {
                    } else if i < at {
                        assert(after[j] == before[j - 1]);
                        if j - 1 > at {
                            assert(before[at as int] <= before[j - 1]);
                        }
                    } else if i == at {
                        assert(after[j] == before[j - 1]);
                        if j - 1 > at {
                            assert(before[at as int] <= before[j - 1]);
                        }
                    } else {
                        assert(after[i] == before[i - 1] && after[j] == before[j - 1]);
                    }
                }
            }
            k = k + 1;
        }
        assert(all.take(k as int) =~= all);
        lengths
    }
}

fn same_lengths(a: &Vec<usize>, b: &Vec<usize>) -> (same: bool)
    ensures
        same == (a@ == b@),
{
    if a.len() != b.len() {
        return false;
    }
    let mut i: usize = 0;
    while i < a.len()
        invariant
            a.len() == b.len(),
            i <= a.len(),
            forall|j: int| 0 <= j < i ==> a[j] == b[j],
        decreases a.len() - i,
    {
        if a[i] != b[i] {
            return false;
        }
        i = i + 1;
    }
    assert(a@ =~= b@);
    true
}

impl CutOrder {
    fn count_one_more(&mut self)
        requires
            old(self).quantity < usize::MAX,
        ensures
            final(self).name == old(self).name,
            final(self).cuts == old(self).cuts,
            final(self).quantity == old(self).quantity + 1,
    {
        self.quantity = self.quantity + 1;
    }
}

impl Problem {
    /// The cut list for a solution: the stock pieces used, grouped by
    /// source name and by the lengths cut from them, in ascending order of
    /// the names.
    pub fn get_cut_list(&self, res: &Layout) -> (groups: Vec<CutOrder>)
        requires
            self.wf(),
            self.covers(res),
        ensures
            is_cut_list(self@.source_names, res.stock_pieces@, groups@),
    {
        let ghost names = self@.source_names;
        let ghost pieces = res.stock_pieces@;
        let mut groups: Vec<CutOrder> = Vec::new();
        let mut k: usize = 0;
        while k < res.stock_pieces.len()
            invariant
                self.wf(),
                names == self@.source_names,
                pieces == res.stock_pieces@,
                all_named(names, pieces),
                res.ordered(),
                k <= pieces.len(),
                is_cut_list(names, pieces.take(k as int), groups@),
            decreases res.stock_pieces.len() - k,
        {
            let piece = &res.stock_pieces[k];
            let ghost done = pieces.take(k as int);
            let ghost before = groups@;
            proof {
                assert(pieces.take(k + 1) =~= done.push(pieces[k as int]));
                assert(is_named(names, pieces[k as int]));
                assert(pieces[k as int].ordered());
            }
            match self.source_name(piece.length, piece.price) {
                None => {},
                Some(name) => {
                    let lengths = piece.sorted_cut_lengths();
                    let mut found: usize = 0;
                    while found < groups.len() && !(groups[found].name == *name && same_lengths(
                        &groups[found].cuts,
                        &lengths,
                    ))
                        invariant
                            found <= groups.len(),
                            groups@ == before,
                            forall|i: int|
                                0 <= i < found ==> !((#[trigger] groups[i]).name@ == name@
                                    && groups[i].cuts@ == lengths@),
                        decreases groups.len() - found,
                    {
                        found = found + 1;
                    }
                    if found < groups.len() {
                        proof {
                            lemma_cut_alike_bound(
                                names,
                                done,
                                name@,
                                groups[found as int].cuts@.to_multiset(),
                            );
                        }
                        groups[found].count_one_more();
                        proof {
                            lemma_count_on_group(
                                names,
                                done,
                                pieces[k as int],
                                before,
                                groups@,
                                found as int,
                            );
                        }
                    } else {
                        let mut at: usize = 0;
                        while at < groups.len() && name_comes_first(
                            groups[at].name.as_str(),
                            name.as_str(),
                        )
                            invariant
                                at <= groups.len(),
                                groups@ == before,
                                forall|i: int|
                                    0 <= i < at ==> name_le((#[trigger] groups[i]).name@, name@),
                            decreases groups.len() - at,
                        {
                            at = at + 1;
                        }
                        let group = CutOrder { quantity: 1, name: name.clone(), cuts: lengths };
                        groups.insert(at, group);
                        proof {
                            lemma_insert_group(
                                names,
                                done,
                                pieces[k as int],
                                before,
                                at as int,
                                group,
                            );
                        }
                    }
                },
            }
            k = k + 1;
        }
        assert(pieces.take(k as int) =~= pieces);
        groups
    }
}

} // verus!
