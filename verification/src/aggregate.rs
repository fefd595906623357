//! The problem aggregator: from the records of all input files to one
//! problem for each tag.

use crate::names::text_views;
use crate::problem::{
    lemma_with_cut_demand, lemma_with_cut_well_formed, lemma_with_source_well_formed, Problem,
    ProblemView,
};
use crate::records::{
    cut_views, cuts_across, load_records, source_views, sources_across, CutRecord, CutRecordView,
    SourceRecord, SourceRecordView,
};
use vstd::prelude::*;

verus! {

/// The problem after a list of source records, taken in order.
pub open spec fn with_sources(problem: ProblemView, sources: Seq<SourceRecordView>) -> ProblemView
    decreases sources.len(),
{
    if sources.len() == 0 {
        problem
    } else {
        with_sources(problem, sources.drop_last()).with_source(sources.last())
    }
}

/// The problem after a list of cut records, taken in order.
pub open spec fn with_cuts(problem: ProblemView, cuts: Seq<CutRecordView>) -> ProblemView
    decreases cuts.len(),
{
    if cuts.len() == 0 {
        problem
    } else {
        with_cuts(problem, cuts.drop_last()).with_cut(cuts.last())
    }
}

/// The problem under `tag`: what the source records and then the cut
/// records under that tag make of an empty problem.
pub open spec fn gathered(
    tag: Seq<char>,
    sources: Seq<SourceRecordView>,
    cuts: Seq<CutRecordView>,
) -> ProblemView {
    with_cuts(with_sources(ProblemView::empty(tag), sources), cuts)
}

/// The tags of the source records, each once, in the order in which they
/// first appear.
pub open spec fn distinct_tags(sources: Seq<SourceRecordView>) -> Seq<Seq<char>>
    decreases sources.len(),
{
    if sources.len() == 0 {
        Seq::empty()
    } else {
        let before = distinct_tags(sources.drop_last());
        if before.contains(sources.last().tag) {
            before
        } else {
            before.push(sources.last().tag)
        }
    }
}

/// The problems under `tags`, in that order, those left out that cannot be
/// solved.
pub open spec fn solvable_among(
    tags: Seq<Seq<char>>,
    sources: Seq<SourceRecordView>,
    cuts: Seq<CutRecordView>,
) -> Seq<ProblemView>
    decreases tags.len(),
{
    if tags.len() == 0 {
        Seq::empty()
    } else {
        let before = solvable_among(tags.drop_last(), sources, cuts);
        let problem = gathered(tags.last(), sources, cuts);
        if problem.is_solvable() {
            before.push(problem)
        } else {
            before
        }
    }
}

/// The problems that the records describe: one for each tag that has stock
/// and cuts, in the order in which the tags first appear among the sources.
pub open spec fn aggregated(sources: Seq<SourceRecordView>, cuts: Seq<CutRecordView>) -> Seq<
    ProblemView,
> {
    solvable_among(distinct_tags(sources), sources, cuts)
}

/// How many pieces of `length` the cut records under `tag` ask for.
pub open spec fn total_demand(cuts: Seq<CutRecordView>, tag: Seq<char>, length: usize) -> nat
    decreases cuts.len(),
{
    if cuts.len() == 0 {
        0
    } else {
        let before = total_demand(cuts.drop_last(), tag, length);
        if cuts.last().tag == tag && cuts.last().length == length {
            before + cuts.last().quantity as nat
        } else {
            before
        }
    }
}

/// Source records leave tag and cuts as they are and keep a problem well
/// formed.
pub proof fn lemma_with_sources_keeps(problem: ProblemView, sources: Seq<SourceRecordView>)
    requires
        problem.well_formed(),
    ensures
        with_sources(problem, sources).well_formed(),
        with_sources(problem, sources).tag == problem.tag,
        with_sources(problem, sources).cuts == problem.cuts,
    decreases sources.len(),
{
    if sources.len() > 0 {
        lemma_with_sources_keeps(problem, sources.drop_last());
        lemma_with_source_well_formed(with_sources(problem, sources.drop_last()), sources.last());
    }
}

/// Cut records leave tag, stock and names as they are and keep a problem
/// well formed.
pub proof fn lemma_with_cuts_keeps(problem: ProblemView, cuts: Seq<CutRecordView>)
    requires
        problem.well_formed(),
    ensures
        with_cuts(problem, cuts).well_formed(),
        with_cuts(problem, cuts).tag == problem.tag,
        with_cuts(problem, cuts).stock_pieces == problem.stock_pieces,
        with_cuts(problem, cuts).source_names == problem.source_names,
    decreases cuts.len(),
{
    if cuts.len() > 0 {
        lemma_with_cuts_keeps(problem, cuts.drop_last());
        lemma_with_cut_well_formed(with_cuts(problem, cuts.drop_last()), cuts.last());
    }
}

/// The demand for a length after a list of cut records is the demand before
/// them and the sum of what the records under the problem's tag ask of
/// that length.
pub proof fn lemma_with_cuts_demand(problem: ProblemView, cuts: Seq<CutRecordView>, length: usize)
    requires
        problem.well_formed(),
    ensures
        with_cuts(problem, cuts).demand(length) == problem.demand(length) + total_demand(
            cuts,
            problem.tag,
            length,
        ),
    decreases cuts.len(),
{
    if cuts.len() > 0 {
        lemma_with_cuts_demand(problem, cuts.drop_last(), length);
        lemma_with_cuts_keeps(problem, cuts.drop_last());
        lemma_with_cut_demand(with_cuts(problem, cuts.drop_last()), cuts.last(), length);
    }
}

/// Each record asks for at most `usize::MAX` pieces.
pub proof fn lemma_total_demand_bound(cuts: Seq<CutRecordView>, tag: Seq<char>, length: usize)
    ensures
        total_demand(cuts, tag, length) <= cuts.len() * usize::MAX,
    decreases cuts.len(),
{
    if cuts.len() > 0 {
        lemma_total_demand_bound(cuts.drop_last(), tag, length);
        assert((cuts.len() - 1) * usize::MAX + usize::MAX == cuts.len() * usize::MAX)
            by (nonlinear_arith);
    }
}

impl Problem {
    /// Gathers the problem under `tag` from the records: the source
    /// records are taken in first, then the cut records.
    pub fn gather(tag: &str, sources: &Vec<SourceRecord>, cuts: &Vec<CutRecord>) -> (problem:
        Problem)
        ensures
            problem.wf(),
            problem@ == gathered(tag@, source_views(sources@), cut_views(cuts@)),
    {
        let mut problem = Problem::new(tag);
        let ghost source_records = source_views(sources@);
        let ghost cut_records = cut_views(cuts@);
        let mut i: usize = 0;
        while i < sources.len()
            invariant
                i <= sources.len(),
                source_records == source_views(sources@),
                problem.wf(),
                problem@ == with_sources(ProblemView::empty(tag@), source_records.take(i as int)),
            decreases sources.len() - i,
        {
            proof {
                assert(source_records.take(i + 1).drop_last() =~= source_records.take(i as int));
            }
            problem.add_source(&sources[i]);
            i = i + 1;
        }
        let ghost base = problem@;
        proof {
            assert(source_records.take(i as int) =~= source_records);
            lemma_with_sources_keeps(ProblemView::empty(tag@), source_records);
        }
        let mut j: usize = 0;
        while j < cuts.len()
            invariant
                j <= cuts.len(),
                cut_records == cut_views(cuts@),
                base.well_formed(),
                base.tag == tag@,
                base.cuts.len() == 0,
                problem.wf(),
                problem@ == with_cuts(base, cut_records.take(j as int)),
            decreases cuts.len() - j,
        {
            proof {
                assert(cut_records.take(j + 1).drop_last() =~= cut_records.take(j as int));
                let length = cuts[j as int].length;
                lemma_with_cuts_demand(base, cut_records.take(j as int), length);
                lemma_total_demand_bound(cut_records.take(j as int), tag@, length);
                assert(base.demand(length) == 0);
                assert(j * usize::MAX + usize::MAX <= u128::MAX) by (nonlinear_arith)
                    requires
                        0 <= j < usize::MAX,
                        usize::MAX <= 0xffff_ffff_ffff_ffff,
                ;
            }
            problem.add_cut(&cuts[j]);
            j = j + 1;
        }
        proof {
            assert(cut_records.take(j as int) =~= cut_records);
        }
        problem
    }

    /// Reads the problems out of the texts of the input files: the records
    /// of all files together, gathered by tag. See `aggregate`.
    pub fn from_json_files(
        files: &Vec<String>,
        num_cost_decimals: u32,
        num_length_decimals: u32,
    ) -> (problems: Vec<Problem>)
        ensures
            problem_views(problems@) == aggregated(
                sources_across(
                    text_views(files@),
                    num_cost_decimals as nat,
                    num_length_decimals as nat,
                ),
                cuts_across(text_views(files@), num_length_decimals as nat),
            ),
            forall|i: int| 0 <= i < problems.len() ==> (#[trigger] problems[i]).wf(),
            forall|i: int| 0 <= i < problems.len() ==> (#[trigger] problems[i])@.is_solvable(),
    {
        let records = load_records(files, num_cost_decimals, num_length_decimals);
        aggregate(&records.0, &records.1)
    }
}

/// The views of a list of problems.
pub open spec fn problem_views(problems: Seq<Problem>) -> Seq<ProblemView> {
    problems.map_values(|p: Problem| p@)
}

fn holds_tag(tags: &Vec<String>, tag: &String) -> (held: bool)
    ensures
        held == text_views(tags@).contains(tag@),
{
    let mut i: usize = 0;
    while i < tags.len()
        invariant
            i <= tags.len(),
            forall|j: int| 0 <= j < i ==> text_views(tags@)[j] != tag@,
        decreases tags.len() - i,
    {
        if tags[i] == *tag {
            assert(text_views(tags@)[i as int] == tag@);
            return true;
        }
        i = i + 1;
    }
    false
}

fn source_tags(sources: &Vec<SourceRecord>) -> (tags: Vec<String>)
    ensures
        text_views(tags@) == distinct_tags(source_views(sources@)),
{
    let mut tags: Vec<String> = Vec::new();
    let ghost records = source_views(sources@);
    let mut i: usize = 0;
    assert(text_views(tags@) =~= Seq::empty());
    while i < sources.len()
        invariant
            i <= sources.len(),
            records == source_views(sources@),
            text_views(tags@) == distinct_tags(records.take(i as int)),
        decreases sources.len() - i,
    {
        proof {
            assert(records.take(i + 1).drop_last() =~= records.take(i as int));
        }
        if !holds_tag(&tags, &sources[i].tag) {
            let ghost before = tags@;
            let tag = sources[i].tag.clone();
            tags.push(tag);
            assert(text_views(tags@) =~= text_views(before).push(tag@));
        }
        i = i + 1;
    }
    assert(records.take(i as int) =~= records);
    tags
}

/// Groups the records into problems, one for each tag, and keeps those
/// that can be solved. Under each tag a later source record with the
/// length and quantity bound of an earlier one takes its place, and cut
/// records of one length are summed.
pub fn aggregate(sources: &Vec<SourceRecord>, cuts: &Vec<CutRecord>) -> (problems: Vec<Problem>)
    ensures
        problem_views(problems@) == aggregated(source_views(sources@), cut_views(cuts@)),
        forall|i: int| 0 <= i < problems.len() ==> (#[trigger] problems[i]).wf(),
        forall|i: int| 0 <= i < problems.len() ==> (#[trigger] problems[i])@.is_solvable(),
{
    let tags = source_tags(sources);
    let ghost tag_views = text_views(tags@);
    let mut problems: Vec<Problem> = Vec::new();
    let mut k: usize = 0;
    assert(problem_views(problems@) =~= Seq::empty());
    while k < tags.len()
        invariant
            k <= tags.len(),
            tag_views == text_views(tags@),
            problem_views(problems@) == solvable_among(
                tag_views.take(k as int),
                source_views(sources@),
                cut_views(cuts@),
            ),
            forall|i: int| 0 <= i < problems.len() ==> (#[trigger] problems[i]).wf(),
            forall|i: int| 0 <= i < problems.len() ==> (#[trigger] problems[i])@.is_solvable(),
        decreases tags.len() - k,
    {
        proof {
            assert(tag_views.take(k + 1).drop_last() =~= tag_views.take(k as int));
        }
        let problem = Problem::gather(tags[k].as_str(), sources, cuts);
        if problem.is_valid_problem() {
            let ghost before = problems@;
            problems.push(problem);
            assert(problem_views(problems@) =~= problem_views(before).push(problem@));
        }
        k = k + 1;
    }
    assert(tag_views.take(k as int) =~= tag_views);
    problems
}

} // verus!
