//! What holds of the aggregator whatever the records are.

use crate::aggregate::{
    aggregated, distinct_tags, gathered, lemma_with_cuts_demand, lemma_with_cuts_keeps,
    lemma_with_sources_keeps, solvable_among, total_demand, with_cuts, with_sources,
};
use crate::problem::{
    cut_slot, holds_identity, holds_length, lemma_with_cut_demand, lemma_with_cut_well_formed,
    lemma_with_source_well_formed, stock_slot, ProblemView, StockPiece,
};
use crate::records::{CutRecordView, SourceRecordView};
use vstd::prelude::*;

verus! {

/// The price of the stock piece with this length and quantity bound, if
/// there is one.
pub open spec fn offered_price(
    stock: Seq<StockPiece>,
    length: usize,
    quantity: Option<usize>,
) -> Option<usize> {
    match stock_slot(stock, length, quantity) {
        Some(i) => Some(stock[i].price),
        None => None,
    }
}

/// The cost that the last source record under `tag` with this length and
/// quantity bound gives, if there is such a record.
pub open spec fn latest_price(
    sources: Seq<SourceRecordView>,
    tag: Seq<char>,
    length: usize,
    quantity: Option<usize>,
) -> Option<usize>
    decreases sources.len(),
{
    if sources.len() == 0 {
        None
    } else if sources.last().tag == tag && sources.last().length == length
        && sources.last().quantity == quantity {
        Some(sources.last().cost)
    } else {
        latest_price(sources.drop_last(), tag, length, quantity)
    }
}

/// The name that the last source record under `tag` with this length and
/// cost gives, if there is such a record.
pub open spec fn latest_name(
    sources: Seq<SourceRecordView>,
    tag: Seq<char>,
    length: usize,
    cost: usize,
) -> Option<Seq<char>>
    decreases sources.len(),
{
    if sources.len() == 0 {
        None
    } else if sources.last().tag == tag && sources.last().length == length && sources.last().cost
        == cost {
        Some(sources.last().name)
    } else {
        latest_name(sources.drop_last(), tag, length, cost)
    }
}

/// The name that a problem has for a length and price, if it has one.
pub open spec fn name_for(problem: ProblemView, length: usize, price: usize) -> Option<Seq<char>> {
    if problem.source_names.contains_key((length, price)) {
        Some(problem.source_names[(length, price)])
    } else {
        None
    }
}

/// One source record sets the price of the stock piece with its own length
/// and quantity bound and leaves every other stock piece as it is.
pub proof fn lemma_with_source_price(
    problem: ProblemView,
    source: SourceRecordView,
    length: usize,
    quantity: Option<usize>,
)
    requires
        problem.well_formed(),
    ensures
        offered_price(problem.with_source(source).stock_pieces, length, quantity) == (
        if problem.tag == source.tag && source.length == length && source.quantity == quantity {
            Some(source.cost)
        } else {
            offered_price(problem.stock_pieces, length, quantity)
        }),
{
    let after = problem.with_source(source);
    lemma_with_source_well_formed(problem, source);
    if problem.tag == source.tag {
        let stock = problem.stock_pieces;
        let own = source.length == length && source.quantity == quantity;
        match stock_slot(stock, source.length, source.quantity) {
            Some(c) => {
                assert(holds_identity(stock, c, source.length, source.quantity));
                assert(holds_identity(after.stock_pieces, c, source.length, source.quantity));
                if own {
                    let e = stock_slot(after.stock_pieces, length, quantity)->0;
                    assert(holds_identity(after.stock_pieces, e, length, quantity));
                    assert(e == c);
                } else {
                    match stock_slot(stock, length, quantity) {
                        Some(d) => {
                            assert(holds_identity(stock, d, length, quantity));
                            assert(holds_identity(after.stock_pieces, d, length, quantity));
                            let e = stock_slot(after.stock_pieces, length, quantity)->0;
                            assert(holds_identity(after.stock_pieces, e, length, quantity));
                            assert(e == d);
                        },
                        None => {
                            if stock_slot(after.stock_pieces, length, quantity) is Some {
                                let e = stock_slot(after.stock_pieces, length, quantity)->0;
                                assert(holds_identity(after.stock_pieces, e, length, quantity));
                                assert(holds_identity(stock, e, length, quantity));
                            }
                        },
                    }
                }
            },
            None => {
                let last = stock.len() as int;
                assert(holds_identity(after.stock_pieces, last, source.length, source.quantity));
                if own {
                    let e = stock_slot(after.stock_pieces, length, quantity)->0;
                    assert(holds_identity(after.stock_pieces, e, length, quantity));
                    assert(e == last);
                } else {
                    match stock_slot(stock, length, quantity) {
                        Some(d) => {
                            assert(holds_identity(stock, d, length, quantity));
                            assert(holds_identity(after.stock_pieces, d, length, quantity));
                            let e = stock_slot(after.stock_pieces, length, quantity)->0;
                            assert(holds_identity(after.stock_pieces, e, length, quantity));
                            assert(e == d);
                        },
                        None => {
                            if stock_slot(after.stock_pieces, length, quantity) is Some {
                                let e = stock_slot(after.stock_pieces, length, quantity)->0;
                                assert(holds_identity(after.stock_pieces, e, length, quantity));
                                assert(holds_identity(stock, e, length, quantity));
                            }
                        },
                    }
                }
            },
        }
    }
}

/// Latest write wins for stock: under each tag the stock piece with a given
/// length and quantity bound carries the cost of the last source record
/// with that length and quantity bound, and there is such a piece exactly
/// when there is such a record.
pub proof fn lemma_latest_source_sets_price(
    tag: Seq<char>,
    sources: Seq<SourceRecordView>,
    cuts: Seq<CutRecordView>,
    length: usize,
    quantity: Option<usize>,
)
    ensures
        gathered(tag, sources, cuts).well_formed(),
        offered_price(gathered(tag, sources, cuts).stock_pieces, length, quantity) == latest_price(
            sources,
            tag,
            length,
            quantity,
        ),
{
    let start = ProblemView::empty(tag);
    lemma_sources_set_price(start, sources, length, quantity);
    lemma_with_sources_keeps(start, sources);
    lemma_with_cuts_keeps(with_sources(start, sources), cuts);
    assert(stock_slot(start.stock_pieces, length, quantity) is None);
}

proof fn lemma_sources_set_price(
    problem: ProblemView,
    sources: Seq<SourceRecordView>,
    length: usize,
    quantity: Option<usize>,
)
    requires
        problem.well_formed(),
    ensures
        offered_price(with_sources(problem, sources).stock_pieces, length, quantity) == (
        match latest_price(sources, problem.tag, length, quantity) {
            Some(price) => Some(price),
            None => offered_price(problem.stock_pieces, length, quantity),
        }),
    decreases sources.len(),
{
    if sources.len() > 0 {
        lemma_sources_set_price(problem, sources.drop_last(), length, quantity);
        lemma_with_sources_keeps(problem, sources.drop_last());
        lemma_with_source_price(
            with_sources(problem, sources.drop_last()),
            sources.last(),
            length,
            quantity,
        );
    }
}

proof fn lemma_sources_set_name(
    problem: ProblemView,
    sources: Seq<SourceRecordView>,
    length: usize,
    cost: usize,
)
    ensures
        with_sources(problem, sources).tag == problem.tag,
        name_for(with_sources(problem, sources), length, cost) == (match latest_name(
            sources,
            problem.tag,
            length,
            cost,
        ) {
            Some(name) => Some(name),
            None => name_for(problem, length, cost),
        }),
    decreases sources.len(),
{
    if sources.len() > 0 {
        lemma_sources_set_name(problem, sources.drop_last(), length, cost);
    }
}

proof fn lemma_cuts_keep_names(problem: ProblemView, cuts: Seq<CutRecordView>)
    ensures
        with_cuts(problem, cuts).source_names == problem.source_names,
    decreases cuts.len(),
{
    if cuts.len() > 0 {
        lemma_cuts_keep_names(problem, cuts.drop_last());
    }
}

/// Latest write wins for names: under each tag the name for a given length
/// and price is that of the last source record with that length and cost,
/// and there is such a name exactly when there is such a record.
pub proof fn lemma_latest_source_sets_name(
    tag: Seq<char>,
    sources: Seq<SourceRecordView>,
    cuts: Seq<CutRecordView>,
    length: usize,
    cost: usize,
)
    ensures
        name_for(gathered(tag, sources, cuts), length, cost) == latest_name(
            sources,
            tag,
            length,
            cost,
        ),
{
    let start = ProblemView::empty(tag);
    lemma_sources_set_name(start, sources, length, cost);
    lemma_cuts_keep_names(with_sources(start, sources), cuts);
}

/// Of two source records under a problem's tag with the same length and
/// quantity bound the later replaces the earlier: the problem then has
/// exactly one stock piece with that length and quantity bound, which
/// carries the later record's cost, it has no more stock pieces than after
/// the earlier record alone, and the name for the later record's length and
/// cost is the later record's name.
pub proof fn lemma_later_source_replaces(
    problem: ProblemView,
    earlier: SourceRecordView,
    later: SourceRecordView,
)
    requires
        problem.well_formed(),
        earlier.tag == problem.tag,
        later.tag == problem.tag,
        earlier.length == later.length,
        earlier.quantity == later.quantity,
    ensures
        ({
            let after = problem.with_source(earlier).with_source(later);
            &&& after.stock_pieces.len() == problem.with_source(earlier).stock_pieces.len()
            &&& offered_price(after.stock_pieces, later.length, later.quantity) == Some(later.cost)
            &&& forall|i: int, j: int|
                holds_identity(after.stock_pieces, i, later.length, later.quantity)
                    && holds_identity(after.stock_pieces, j, later.length, later.quantity) ==> i
                    == j
            &&& name_for(after, later.length, later.cost) == Some(later.name)
        }),
{
    let middle = problem.with_source(earlier);
    let after = middle.with_source(later);
    lemma_with_source_well_formed(problem, earlier);
    lemma_with_source_well_formed(middle, later);
    lemma_with_source_price(problem, earlier, earlier.length, earlier.quantity);
    lemma_with_source_price(middle, later, later.length, later.quantity);
    assert(stock_slot(middle.stock_pieces, later.length, later.quantity) is Some);
    assert forall|i: int, j: int|
        holds_identity(after.stock_pieces, i, later.length, later.quantity) && holds_identity(
            after.stock_pieces,
            j,
            later.length,
            later.quantity,
        ) implies i == j by {
        if i < j {
            assert(!(after.stock_pieces[i].length == after.stock_pieces[j].length
                && after.stock_pieces[i].quantity == after.stock_pieces[j].quantity));
        } else if j < i {
            assert(!(after.stock_pieces[j].length == after.stock_pieces[i].length
                && after.stock_pieces[j].quantity == after.stock_pieces[i].quantity));
        }
    }
}

/// Cut records of one length are summed: under each tag the demand for a
/// length is the sum of the quantities of the cut records with that tag
/// and length, and no two demands are for the same length.
pub proof fn lemma_cut_records_sum(
    tag: Seq<char>,
    sources: Seq<SourceRecordView>,
    cuts: Seq<CutRecordView>,
    length: usize,
)
    ensures
        gathered(tag, sources, cuts).well_formed(),
        gathered(tag, sources, cuts).demand(length) == total_demand(cuts, tag, length),
{
    let start = ProblemView::empty(tag);
    lemma_with_sources_keeps(start, sources);
    let base = with_sources(start, sources);
    lemma_with_cuts_keeps(base, cuts);
    lemma_with_cuts_demand(base, cuts, length);
    assert(cut_slot(base.cuts, length) is None);
}

/// Two cut records under a problem's tag with the same length give one
/// demand: the demand for that length grows by the sum of the two
/// quantities, and the second record adds no further demand.
pub proof fn lemma_cuts_of_one_length_merge(
    problem: ProblemView,
    first: CutRecordView,
    second: CutRecordView,
)
    requires
        problem.well_formed(),
        first.tag == problem.tag,
        second.tag == problem.tag,
        first.length == second.length,
    ensures
        ({
            let after = problem.with_cut(first).with_cut(second);
            &&& after.cuts.len() == problem.with_cut(first).cuts.len()
            &&& after.demand(first.length) == problem.demand(first.length) + first.quantity
                + second.quantity
            &&& forall|i: int, j: int|
                holds_length(after.cuts, i, first.length) && holds_length(
                    after.cuts,
                    j,
                    first.length,
                ) ==> i == j
        }),
{
    let middle = problem.with_cut(first);
    let after = middle.with_cut(second);
    lemma_with_cut_well_formed(problem, first);
    lemma_with_cut_well_formed(middle, second);
    lemma_with_cut_demand(problem, first, first.length);
    lemma_with_cut_demand(middle, second, first.length);
    if cut_slot(problem.cuts, first.length) is Some {
        let c = cut_slot(problem.cuts, first.length)->0;
        assert(holds_length(problem.cuts, c, first.length));
        assert(holds_length(middle.cuts, c, first.length));
    } else {
        assert(holds_length(middle.cuts, problem.cuts.len() as int, first.length));
    }
    assert(cut_slot(middle.cuts, second.length) is Some);
    assert forall|i: int, j: int|
        holds_length(after.cuts, i, first.length) && holds_length(
            after.cuts,
            j,
            first.length,
        ) implies i == j by {
        if i < j {
            assert(after.cuts[i].length != after.cuts[j].length);
        } else if j < i {
            assert(after.cuts[j].length != after.cuts[i].length);
        }
    }
}

/// Only problems that can be solved are returned: each has stock and cuts.
pub proof fn lemma_aggregated_solvable(
    sources: Seq<SourceRecordView>,
    cuts: Seq<CutRecordView>,
    i: int,
)
    requires
        0 <= i < aggregated(sources, cuts).len(),
    ensures
        aggregated(sources, cuts)[i].is_solvable(),
{
    lemma_solvable_among(distinct_tags(sources), sources, cuts, i);
}

proof fn lemma_solvable_among(
    tags: Seq<Seq<char>>,
    sources: Seq<SourceRecordView>,
    cuts: Seq<CutRecordView>,
    i: int,
)
    requires
        0 <= i < solvable_among(tags, sources, cuts).len(),
    ensures
        solvable_among(tags, sources, cuts)[i].is_solvable(),
        exists|k: int|
            0 <= k < tags.len() && solvable_among(tags, sources, cuts)[i] == gathered(
                #[trigger] tags[k],
                sources,
                cuts,
            ),
    decreases tags.len(),
{
    if tags.len() > 0 {
        let before = solvable_among(tags.drop_last(), sources, cuts);
        if i < before.len() {
            lemma_solvable_among(tags.drop_last(), sources, cuts, i);
            let k = choose|k: int|
                0 <= k < tags.drop_last().len() && before[i] == gathered(
                    #[trigger] tags.drop_last()[k],
                    sources,
                    cuts,
                );
            assert(tags[k] == tags.drop_last()[k]);
        } else {
            assert(solvable_among(tags, sources, cuts)[i] == gathered(
                tags[tags.len() - 1],
                sources,
                cuts,
            ));
        }
    }
}

/// The tags that stand in at least one source record.
pub open spec fn source_tags(sources: Seq<SourceRecordView>) -> Set<Seq<char>> {
    sources.map_values(|s: SourceRecordView| s.tag).to_set()
}

/// The tags that stand in at least one cut record.
pub open spec fn cut_tags(cuts: Seq<CutRecordView>) -> Set<Seq<char>> {
    cuts.map_values(|c: CutRecordView| c.tag).to_set()
}

proof fn lemma_distinct_tags(sources: Seq<SourceRecordView>)
    ensures
        distinct_tags(sources).no_duplicates(),
        distinct_tags(sources).to_set() == source_tags(sources),
    decreases sources.len(),
{
    let tags = sources.map_values(|s: SourceRecordView| s.tag);
    if sources.len() == 0 {
        assert(distinct_tags(sources).to_set() =~= source_tags(sources));
    } else {
        let rest = sources.drop_last();
        let rest_tags = rest.map_values(|s: SourceRecordView| s.tag);
        let last = sources.last().tag;
        lemma_distinct_tags(rest);
        let before = distinct_tags(rest);
        assert forall|t: Seq<char>| tags.contains(t) <==> rest_tags.contains(t) || t == last by {
            if tags.contains(t) {
                let i = choose|i: int| 0 <= i < tags.len() && tags[i] == t;
                if i < rest.len() {
                    assert(rest_tags[i] == t);
                }
            }
            if rest_tags.contains(t) {
                let i = choose|i: int| 0 <= i < rest_tags.len() && rest_tags[i] == t;
                assert(tags[i] == t);
            }
            if t == last {
                assert(tags[sources.len() - 1] == t);
            }
        }
        assert forall|t: Seq<char>| before.contains(t) <==> rest_tags.contains(t) by {
            assert(before.to_set().contains(t) <==> rest_tags.to_set().contains(t));
        }
        let after = distinct_tags(sources);
        if before.contains(last) {
            assert(after.to_set() =~= source_tags(sources));
        } else {
            assert forall|t: Seq<char>| after.contains(t) <==> before.contains(t) || t
                == last by {
                if after.contains(t) {
                    let i = choose|i: int| 0 <= i < after.len() && after[i] == t;
                    if i < before.len() {
                        assert(before[i] == t);
                    }
                }
                if before.contains(t) {
                    let i = choose|i: int| 0 <= i < before.len() && before[i] == t;
                    assert(after[i] == t);
                }
                if t == last {
                    assert(after[before.len() as int] == t);
                }
            }
            assert(after.to_set() =~= source_tags(sources));
        }
    }
}

proof fn lemma_count_solvable(
    tags: Seq<Seq<char>>,
    sources: Seq<SourceRecordView>,
    cuts: Seq<CutRecordView>,
)
    requires
        tags.no_duplicates(),
    ensures
        solvable_among(tags, sources, cuts).len() == tags.to_set().filter(
            |t: Seq<char>| gathered(t, sources, cuts).is_solvable(),
        ).len(),
    decreases tags.len(),
{
    let solvable = |t: Seq<char>| gathered(t, sources, cuts).is_solvable();
    if tags.len() == 0 {
        assert(tags.to_set().filter(solvable) =~= Set::empty());
    } else {
        let rest = tags.drop_last();
        let last = tags.last();
        lemma_count_solvable(rest, sources, cuts);
        vstd::seq_lib::seq_to_set_is_finite(rest);
        rest.to_set().lemma_len_filter(solvable);
        assert(!rest.contains(last)) by {
            if rest.contains(last) {
                let i = choose|i: int| 0 <= i < rest.len() && rest[i] == last;
                assert(tags[i] == tags[tags.len() - 1]);
            }
        }
        assert forall|t: Seq<char>| tags.contains(t) <==> rest.contains(t) || t == last by {
            if tags.contains(t) {
                let i = choose|i: int| 0 <= i < tags.len() && tags[i] == t;
                if i < rest.len() {
                    assert(rest[i] == t);
                }
            }
            if rest.contains(t) {
                let i = choose|i: int| 0 <= i < rest.len() && rest[i] == t;
                assert(tags[i] == t);
            }
            if t == last {
                assert(tags[tags.len() - 1] == t);
            }
        }
        if solvable(last) {
            assert(tags.to_set().filter(solvable) =~= rest.to_set().filter(solvable).insert(last));
        } else {
            assert(tags.to_set().filter(solvable) =~= rest.to_set().filter(solvable));
        }
    }
}

proof fn lemma_no_source_no_stock(problem: ProblemView, sources: Seq<SourceRecordView>)
    requires
        forall|i: int| 0 <= i < sources.len() ==> (#[trigger] sources[i]).tag != problem.tag,
    ensures
        with_sources(problem, sources) == problem,
    decreases sources.len(),
{
    if sources.len() > 0 {
        assert(sources[sources.len() - 1].tag != problem.tag);
        assert forall|i: int| 0 <= i < sources.drop_last().len() implies (
        #[trigger] sources.drop_last()[i]).tag != problem.tag by {
            assert(sources.drop_last()[i] == sources[i]);
        }
        lemma_no_source_no_stock(problem, sources.drop_last());
    }
}

/// A tag that stands in no source record gives a problem that cannot be
/// solved.
pub proof fn lemma_tag_without_source(
    tag: Seq<char>,
    sources: Seq<SourceRecordView>,
    cuts: Seq<CutRecordView>,
)
    requires
        !source_tags(sources).contains(tag),
    ensures
        !gathered(tag, sources, cuts).is_solvable(),
{
    let start = ProblemView::empty(tag);
    let tags = sources.map_values(|s: SourceRecordView| s.tag);
    assert forall|i: int| 0 <= i < sources.len() implies (#[trigger] sources[i]).tag != tag by {
        assert(tags[i] == sources[i].tag);
        assert(tags.contains(tags[i]));
    }
    lemma_no_source_no_stock(start, sources);
    lemma_with_cuts_keeps(start, cuts);
}

/// As many problems are returned as there are distinct tags in the source
/// and cut records, less the tags whose problem cannot be solved.
pub proof fn lemma_problem_count(sources: Seq<SourceRecordView>, cuts: Seq<CutRecordView>)
    ensures
        ({
            let tags = source_tags(sources).union(cut_tags(cuts));
            let unsolvable = tags.filter(
                |t: Seq<char>| !gathered(t, sources, cuts).is_solvable(),
            );
            &&& tags.finite()
            &&& unsolvable.finite()
            &&& aggregated(sources, cuts).len() == tags.len() - unsolvable.len()
        }),
{
    let solvable = |t: Seq<char>| gathered(t, sources, cuts).is_solvable();
    let not_solvable = |t: Seq<char>| !gathered(t, sources, cuts).is_solvable();
    let tags = source_tags(sources).union(cut_tags(cuts));
    vstd::seq_lib::seq_to_set_is_finite(sources.map_values(|s: SourceRecordView| s.tag));
    vstd::seq_lib::seq_to_set_is_finite(cuts.map_values(|c: CutRecordView| c.tag));
    vstd::set_lib::lemma_set_union_finite_iff(source_tags(sources), cut_tags(cuts));
    assert(tags.finite());
    tags.lemma_len_filter(solvable);
    tags.lemma_len_filter(not_solvable);
    lemma_distinct_tags(sources);
    lemma_count_solvable(distinct_tags(sources), sources, cuts);
    assert(tags.filter(solvable) =~= source_tags(sources).filter(solvable)) by {
        assert forall|t: Seq<char>| tags.filter(solvable).contains(t) implies source_tags(
            sources,
        ).filter(solvable).contains(t) by {
            if !source_tags(sources).contains(t) {
                lemma_tag_without_source(t, sources, cuts);
            }
        }
    }
    assert(tags.filter(not_solvable) =~= tags.difference(tags.filter(solvable)));
    assert(tags.intersect(tags.filter(solvable)) =~= tags.filter(solvable));
    vstd::set_lib::lemma_set_difference_len(tags, tags.filter(solvable));
}

/// Taking in the same source record a second time changes nothing: stock
/// does not pile up.
pub proof fn lemma_source_twice(problem: ProblemView, source: SourceRecordView)
    requires
        problem.well_formed(),
    ensures
        problem.with_source(source).with_source(source) == problem.with_source(source),
{
    let once = problem.with_source(source);
    let twice = once.with_source(source);
    lemma_with_source_well_formed(problem, source);
    if problem.tag == source.tag {
        lemma_with_source_price(problem, source, source.length, source.quantity);
        let c = stock_slot(once.stock_pieces, source.length, source.quantity)->0;
        assert(holds_identity(once.stock_pieces, c, source.length, source.quantity));
        assert(twice.stock_pieces =~= once.stock_pieces);
        assert(twice.source_names =~= once.source_names);
    }
}

/// Aggregating is repeatable: the problems depend on the records alone, so
/// two runs over the same records give the same problems.
pub proof fn lemma_aggregate_repeatable(
    sources: Seq<SourceRecordView>,
    cuts: Seq<CutRecordView>,
    first: Seq<ProblemView>,
    second: Seq<ProblemView>,
)
    requires
        first == aggregated(sources, cuts),
        second == aggregated(sources, cuts),
    ensures
        first == second,
{
}

} // verus!
