//! The report on a solved problem, as text.

use crate::cut_list::{is_cut_list, CutOrder};
use crate::fixed_point::{append_number, decimal_text, fixed_text, format_fixed};
use crate::layout::Layout;
use crate::problem::Problem;
use crate::purchase::{is_purchase_order, Purchase};
use vstd::prelude::*;

verus! {

/// The line of the report for one purchase.
pub open spec fn purchase_text(line: Purchase) -> Seq<char> {
    "\t\t"@ + line.name@ + ", "@ + decimal_text(line.quantity as nat) + "\n"@
}

/// The lines of the report for the purchases.
pub open spec fn purchases_text(lines: Seq<Purchase>) -> Seq<char>
    decreases lines.len(),
{
    if lines.len() == 0 {
        Seq::empty()
    } else {
        purchases_text(lines.drop_last()) + purchase_text(lines.last())
    }
}

/// The lengths of one group as text, separated by commas.
pub open spec fn lengths_text(cuts: Seq<usize>, length_decimals: nat) -> Seq<char>
    decreases cuts.len(),
{
    if cuts.len() == 0 {
        Seq::empty()
    } else if cuts.len() == 1 {
        fixed_text(cuts[0] as nat, length_decimals)
    } else {
        lengths_text(cuts.drop_last(), length_decimals) + ", "@ + fixed_text(
            cuts.last() as nat,
            length_decimals,
        )
    }
}

/// The line of the report for one group of the cut list.
pub open spec fn cut_order_text(group: CutOrder, length_decimals: nat) -> Seq<char> {
    "\t\t("@ + decimal_text(group.quantity as nat) + ") "@ + group.name@ + " -> ["@ + lengths_text(
        group.cuts@,
        length_decimals,
    ) + "]\n"@
}

/// The lines of the report for the cut list.
pub open spec fn cut_orders_text(groups: Seq<CutOrder>, length_decimals: nat) -> Seq<char>
    decreases groups.len(),
{
    if groups.len() == 0 {
        Seq::empty()
    } else {
        cut_orders_text(groups.drop_last(), length_decimals) + cut_order_text(
            groups.last(),
            length_decimals,
        )
    }
}

/// The report on one solved problem: a header with tag, cost and
/// efficiency, the purchase list, and the cut list.
pub open spec fn report_text(
    tag: Seq<char>,
    cost: nat,
    efficiency: Seq<char>,
    lines: Seq<Purchase>,
    groups: Seq<CutOrder>,
    price_decimals: nat,
    length_decimals: nat,
) -> Seq<char> {
    "For: "@ + tag + ", Cost: "@ + fixed_text(cost, price_decimals) + ", Effiency: "@ + efficiency
        + "%\n"@ + "\tPurchase List (name, quantity):\n"@ + purchases_text(lines)
        + "\tCut List ((cut quantity) name -> [cutLength1, cutLength2, ...]):\n"@
        + cut_orders_text(groups, length_decimals)
}

fn append_lengths(out: &mut String, cuts: &Vec<usize>, length_decimals: u32)
    ensures
        final(out)@ == old(out)@ + lengths_text(cuts@, length_decimals as nat),
{
    let mut i: usize = 0;
    assert(cuts@.take(0) =~= Seq::<usize>::empty());
    assert(out@ =~= old(out)@ + lengths_text(cuts@.take(0), length_decimals as nat));
    while i < cuts.len()
        invariant
            i <= cuts.len(),
            out@ == old(out)@ + lengths_text(cuts@.take(i as int), length_decimals as nat),
        decreases cuts.len() - i,
    {
        let ghost so_far = out@;
        proof {
            assert(cuts@.take(i + 1).drop_last() =~= cuts@.take(i as int));
            assert(cuts@.take(i + 1).last() == cuts[i as int]);
        }
        if i != 0 {
            out.append(", ");
        }
        let length = format_fixed(cuts[i] as u128, length_decimals);
        out.append(length.as_str());
        proof {
            if i == 0 {
                assert(cuts@.take(1)[0] == cuts[0]);
                assert(so_far =~= old(out)@);
            }
            assert(out@ =~= old(out)@ + lengths_text(cuts@.take(i + 1), length_decimals as nat));
        }
        i = i + 1;
    }
    assert(cuts@.take(i as int) =~= cuts@);
}

/// Renders the report on one solved problem from its parts.
pub fn render_report(
    tag: &str,
    cost: u128,
    efficiency: &str,
    lines: &Vec<Purchase>,
    groups: &Vec<CutOrder>,
    num_price_decimals: u32,
    num_length_decimals: u32,
) -> (text: String)
    ensures
        text@ == report_text(
            tag@,
            cost as nat,
            efficiency@,
            lines@,
            groups@,
            num_price_decimals as nat,
            num_length_decimals as nat,
        ),
{
    let mut out = String::new();
    out.append("For: ");
    out.append(tag);
    out.append(", Cost: ");
    let cost_text = format_fixed(cost, num_price_decimals);
    out.append(cost_text.as_str());
    out.append(", Effiency: ");
    out.append(efficiency);
    out.append("%\n");
    out.append("\tPurchase List (name, quantity):\n");
    let ghost head = out@;
    assert(head =~= "For: "@ + tag@ + ", Cost: "@ + fixed_text(
        cost as nat,
        num_price_decimals as nat,
    ) + ", Effiency: "@ + efficiency@ + "%\n"@ + "\tPurchase List (name, quantity):\n"@);
    let mut i: usize = 0;
    assert(lines@.take(0) =~= Seq::<Purchase>::empty());
    assert(out@ =~= head + purchases_text(lines@.take(0)));
    while i < lines.len()
        invariant
            i <= lines.len(),
            out@ == head + purchases_text(lines@.take(i as int)),
        decreases lines.len() - i,
    {
        proof {
            assert(lines@.take(i + 1).drop_last() =~= lines@.take(i as int));
            assert(lines@.take(i + 1).last() == lines[i as int]);
        }
        let ghost so_far = out@;
        out.append("\t\t");
        out.append(lines[i].name.as_str());
        out.append(", ");
        append_number(&mut out, lines[i].quantity as u128);
        out.append("\n");
        assert(out@ =~= so_far + purchase_text(lines[i as int]));
        assert(out@ =~= head + purchases_text(lines@.take(i + 1)));
        i = i + 1;
    }
    assert(lines@.take(i as int) =~= lines@);
    out.append("\tCut List ((cut quantity) name -> [cutLength1, cutLength2, ...]):\n");
    let ghost middle = out@;
    let mut j: usize = 0;
    assert(groups@.take(0) =~= Seq::<CutOrder>::empty());
    assert(out@ =~= middle + cut_orders_text(groups@.take(0), num_length_decimals as nat));
    while j < groups.len()
        invariant
            j <= groups.len(),
            out@ == middle + cut_orders_text(groups@.take(j as int), num_length_decimals as nat),
        decreases groups.len() - j,
    {
        proof {
            assert(groups@.take(j + 1).drop_last() =~= groups@.take(j as int));
            assert(groups@.take(j + 1).last() == groups[j as int]);
        }
        let ghost so_far = out@;
        out.append("\t\t(");
        append_number(&mut out, groups[j].quantity as u128);
        out.append(") ");
        out.append(groups[j].name.as_str());
        out.append(" -> [");
        append_lengths(&mut out, &groups[j].cuts, num_length_decimals);
        out.append("]\n");
        assert(out@ =~= so_far + cut_order_text(groups[j as int], num_length_decimals as nat));
        assert(out@ =~= middle + cut_orders_text(groups@.take(j + 1), num_length_decimals as nat));
        j = j + 1;
    }
    assert(groups@.take(j as int) =~= groups@);
    out
}

impl Problem {
    /// The report on a solution of this problem, as text: the header, the
    /// purchase list and the cut list. `efficiency` is the solution's
    /// fitness as a percentage, already written out.
    pub fn pretty_print_result(
        &self,
        res: &Layout,
        efficiency: &str,
        num_price_decimals: u32,
        num_length_decimals: u32,
    ) -> (text: String)
        requires
            self.wf(),
            self.covers(res),
        ensures
            exists|lines: Seq<Purchase>, groups: Seq<CutOrder>|
                is_purchase_order(self@.source_names, res.stock_pieces@, lines) && is_cut_list(
                    self@.source_names,
                    res.stock_pieces@,
                    groups,
                ) && text@ == #[trigger] report_text(
                    self@.tag,
                    res.cost(),
                    efficiency@,
                    lines,
                    groups,
                    num_price_decimals as nat,
                    num_length_decimals as nat,
                ),
    {
        let cost = res.get_cumulative_cost();
        let lines = self.get_purchase_order(res);
        let groups = self.get_cut_list(res);
        render_report(
            self.tag().as_str(),
            cost,
            efficiency,
            &lines,
            &groups,
            num_price_decimals,
            num_length_decimals,
        )
    }
}

} // verus!

