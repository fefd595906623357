//! Problems: the stock that may be bought and the cuts that are wanted,
//! gathered under one tag.

use crate::records::{CutRecord, CutRecordView, SourceRecord, SourceRecordView};
use vstd::prelude::*;

verus! {

/// A purchasable piece of stock. A quantity of `None` means that any number
/// can be had.
#[derive(Clone, Copy, Debug, PartialEq, Eq)]
pub struct StockPiece {
    pub length: usize,
    pub price: usize,
    pub quantity: Option<usize>,
}

/// A wanted length and how many pieces of it are wanted.
#[derive(Clone, Copy, Debug, PartialEq, Eq)]
pub struct CutPiece {
    pub length: usize,
    pub quantity: u128,
}

/// A wanted length and how many pieces of it are wanted, as a number
/// without bound.
pub struct CutDemand {
    pub length: usize,
    pub quantity: nat,
}

impl View for CutPiece {
    type V = CutDemand;

    open spec fn view(&self) -> CutDemand {
        CutDemand { length: self.length, quantity: self.quantity as nat }
    }
}

impl SourceRecordView {
    /// The stock piece that the record describes.
    pub open spec fn stock_piece(self) -> StockPiece {
        StockPiece { length: self.length, price: self.cost, quantity: self.quantity }
    }
}

impl SourceRecord {
    /// The stock piece that the record describes.
    pub fn to_stock_piece(&self) -> (piece: StockPiece)
        ensures
            piece == self@.stock_piece(),
    {
        StockPiece { length: self.length, price: self.cost, quantity: self.quantity }
    }
}

impl CutRecordView {
    /// The demand that the record states.
    pub open spec fn cut_demand(self) -> CutDemand {
        CutDemand { length: self.length, quantity: self.quantity as nat }
    }
}

impl CutRecord {
    /// The cut piece that the record describes.
    pub fn to_cut_piece(&self) -> (piece: CutPiece)
        ensures
            piece@ == self@.cut_demand(),
    {
        CutPiece { length: self.length, quantity: self.quantity as u128 }
    }
}

/// The display name of the stock with a given length and price.
#[derive(Clone, Debug)]
struct SourceName {
    length: usize,
    price: usize,
    name: String,
}

/// One problem instance: everything that the input says under one tag.
#[derive(Clone, Debug)]
pub struct Problem {
    tag: String,
    source_names: Vec<SourceName>,
    stock_pieces: Vec<StockPiece>,
    cuts: Vec<CutPiece>,
}

/// What a problem holds.
pub struct ProblemView {
    pub tag: Seq<char>,
    /// The display name for each length and price.
    pub source_names: Map<(usize, usize), Seq<char>>,
    pub stock_pieces: Seq<StockPiece>,
    pub cuts: Seq<CutDemand>,
}

/// Whether the piece at `i` has this length and quantity bound: the two
/// that make a stock piece the same piece.
pub open spec fn holds_identity(
    stock: Seq<StockPiece>,
    i: int,
    length: usize,
    quantity: Option<usize>,
) -> bool {
    0 <= i < stock.len() && stock[i].length == length && stock[i].quantity == quantity
}

/// Where the stock piece with this length and quantity bound stands, if
/// there is one.
pub open spec fn stock_slot(
    stock: Seq<StockPiece>,
    length: usize,
    quantity: Option<usize>,
) -> Option<int> {
    if exists|i: int| holds_identity(stock, i, length, quantity) {
        Some(choose|i: int| holds_identity(stock, i, length, quantity))
    } else {
        None
    }
}

/// Whether the demand at `i` is for this length.
pub open spec fn holds_length(cuts: Seq<CutDemand>, i: int, length: usize) -> bool {
    0 <= i < cuts.len() && cuts[i].length == length
}

/// Where the demand for this length stands, if there is one.
pub open spec fn cut_slot(cuts: Seq<CutDemand>, length: usize) -> Option<int> {
    if exists|i: int| holds_length(cuts, i, length) {
        Some(choose|i: int| holds_length(cuts, i, length))
    } else {
        None
    }
}

impl ProblemView {
    /// The problem with this tag that holds nothing yet.
    pub open spec fn empty(tag: Seq<char>) -> ProblemView {
        ProblemView {
            tag,
            source_names: Map::empty(),
            stock_pieces: Seq::empty(),
            cuts: Seq::empty(),
        }
    }

    /// The problem after one more source record. A record under another tag
    /// changes nothing. Otherwise the record's name becomes the name for its
    /// length and price, and its stock piece takes the place of the piece
    /// with the same length and quantity bound, or is added if there is none.
    pub open spec fn with_source(self, source: SourceRecordView) -> ProblemView {
        if self.tag != source.tag {
            self
        } else {
            ProblemView {
                source_names: self.source_names.insert((source.length, source.cost), source.name),
                stock_pieces: match stock_slot(self.stock_pieces, source.length, source.quantity) {
                    Some(i) => self.stock_pieces.update(i, source.stock_piece()),
                    None => self.stock_pieces.push(source.stock_piece()),
                },
                ..self
            }
        }
    }

    /// The problem after one more cut record. A record under another tag
    /// changes nothing. Otherwise the record's quantity is added to the
    /// demand for its length, or starts that demand if there is none.
    pub open spec fn with_cut(self, cut: CutRecordView) -> ProblemView {
        if self.tag != cut.tag {
            self
        } else {
            ProblemView {
                cuts: match cut_slot(self.cuts, cut.length) {
                    Some(i) => self.cuts.update(
                        i,
                        CutDemand {
                            length: cut.length,
                            quantity: self.cuts[i].quantity + cut.quantity as nat,
                        },
                    ),
                    None => self.cuts.push(cut.cut_demand()),
                },
                ..self
            }
        }
    }

    /// How many pieces of `length` are wanted.
    pub open spec fn demand(self, length: usize) -> nat {
        match cut_slot(self.cuts, length) {
            Some(i) => self.cuts[i].quantity,
            None => 0,
        }
    }

    /// A problem can be solved only if it has stock and cuts.
    pub open spec fn is_solvable(self) -> bool {
        self.stock_pieces.len() > 0 && self.cuts.len() > 0
    }

    /// No two stock pieces share length and quantity bound, no two demands
    /// share a length, and every stock piece has a name.
    pub open spec fn well_formed(self) -> bool {
        &&& forall|i: int, j: int|
            0 <= i < j < self.stock_pieces.len() ==> !(#[trigger] self.stock_pieces[i].length
                == #[trigger] self.stock_pieces[j].length && self.stock_pieces[i].quantity
                == self.stock_pieces[j].quantity)
        &&& forall|i: int, j: int|
            0 <= i < j < self.cuts.len() ==> #[trigger] self.cuts[i].length
                != #[trigger] self.cuts[j].length
        &&& forall|i: int|
            0 <= i < self.stock_pieces.len() ==> self.source_names.contains_key(
                (#[trigger] self.stock_pieces[i].length, self.stock_pieces[i].price),
            )
    }
}

/// Taking in a source record keeps a problem well formed.
pub proof fn lemma_with_source_well_formed(problem: ProblemView, source: SourceRecordView)
    requires
        problem.well_formed(),
    ensures
        problem.with_source(source).well_formed(),
{
    let after = problem.with_source(source);
    if problem.tag == source.tag {
        let stock = problem.stock_pieces;
        match stock_slot(stock, source.length, source.quantity) {
            Some(c) => {
                assert(holds_identity(stock, c, source.length, source.quantity));
                assert forall|i: int, j: int| 0 <= i < j < after.stock_pieces.len() implies !(
                #[trigger] after.stock_pieces[i].length == #[trigger] after.stock_pieces[j].length
                    && after.stock_pieces[i].quantity == after.stock_pieces[j].quantity) by {
                    assert(after.stock_pieces[i].length == stock[i].length);
                    assert(after.stock_pieces[j].length == stock[j].length);
                    assert(after.stock_pieces[i].quantity == stock[i].quantity);
                    assert(after.stock_pieces[j].quantity == stock[j].quantity);
                }
            },
            None => {
                assert forall|i: int, j: int| 0 <= i < j < after.stock_pieces.len() implies !(
                #[trigger] after.stock_pieces[i].length == #[trigger] after.stock_pieces[j].length
                    && after.stock_pieces[i].quantity == after.stock_pieces[j].quantity) by {
                    if j == stock.len() {
                        assert(!holds_identity(stock, i, source.length, source.quantity));
                    }
                }
            },
        }
        assert forall|i: int|
            0 <= i < after.stock_pieces.len() implies after.source_names.contains_key(
            (#[trigger] after.stock_pieces[i].length, after.stock_pieces[i].price),
        ) by {
            if i < stock.len() && after.stock_pieces[i] == stock[i] {
                assert(problem.source_names.contains_key((stock[i].length, stock[i].price)));
            }
        }
    }
}

/// Taking in a cut record keeps a problem well formed.
pub proof fn lemma_with_cut_well_formed(problem: ProblemView, cut: CutRecordView)
    requires
        problem.well_formed(),
    ensures
        problem.with_cut(cut).well_formed(),
{
    let after = problem.with_cut(cut);
    if problem.tag == cut.tag {
        let cuts = problem.cuts;
        match cut_slot(cuts, cut.length) {
            Some(c) => {
                assert(holds_length(cuts, c, cut.length));
                assert forall|i: int, j: int| 0 <= i < j < after.cuts.len() implies #[trigger]
                after.cuts[i].length != #[trigger] after.cuts[j].length by {
                    assert(after.cuts[i].length == cuts[i].length);
                    assert(after.cuts[j].length == cuts[j].length);
                }
            },
            None => {
                assert forall|i: int, j: int| 0 <= i < j < after.cuts.len() implies #[trigger]
                after.cuts[i].length != #[trigger] after.cuts[j].length by {
                    if j == cuts.len() {
                        assert(!holds_length(cuts, i, cut.length));
                    }
                }
            },
        }
    }
}

/// One cut record raises the demand for its own length by its quantity and
/// leaves every other demand as it is.
pub proof fn lemma_with_cut_demand(problem: ProblemView, cut: CutRecordView, length: usize)
    requires
        problem.well_formed(),
    ensures
        problem.with_cut(cut).demand(length) == problem.demand(length) + (if problem.tag == cut.tag
            && cut.length == length {
            cut.quantity as nat
        } else {
            0
        }),
{
    let after = problem.with_cut(cut);
    lemma_with_cut_well_formed(problem, cut);
    if problem.tag == cut.tag {
        let cuts = problem.cuts;
        match cut_slot(cuts, cut.length) {
            Some(c) => {
                assert(holds_length(cuts, c, cut.length));
                assert(holds_length(after.cuts, c, cut.length));
                match cut_slot(cuts, length) {
                    Some(d) => {
                        assert(holds_length(cuts, d, length));
                        assert(holds_length(after.cuts, d, length));
                        let e = cut_slot(after.cuts, length)->0;
                        assert(holds_length(after.cuts, e, length));
                        assert(e == d);
                    },
                    None => {
                        if cut_slot(after.cuts, length) is Some {
                            let e = cut_slot(after.cuts, length)->0;
                            assert(holds_length(after.cuts, e, length));
                            assert(holds_length(cuts, e, length));
                        }
                    },
                }
            },
            None => {
                let last = cuts.len() as int;
                assert(holds_length(after.cuts, last, cut.length));
                match cut_slot(cuts, length) {
                    Some(d) => {
                        assert(holds_length(cuts, d, length));
                        assert(holds_length(after.cuts, d, length));
                        let e = cut_slot(after.cuts, length)->0;
                        assert(holds_length(after.cuts, e, length));
                        assert(e == d);
                    },
                    None => {
                        if cut_slot(after.cuts, length) is Some {
                            let e = cut_slot(after.cuts, length)->0;
                            assert(holds_length(after.cuts, e, length));
                            if e < last {
                                assert(holds_length(cuts, e, length));
                            }
                        }
                    },
                }
            },
        }
    }
}

/// Whether the entry at `i` names this length and price.
spec fn names_key(entries: Seq<SourceName>, i: int, key: (usize, usize)) -> bool {
    0 <= i < entries.len() && entries[i].length == key.0 && entries[i].price == key.1
}

/// No two entries name the same length and price.
spec fn names_distinct(entries: Seq<SourceName>) -> bool {
    forall|i: int, j: int|
        0 <= i < j < entries.len() ==> !(#[trigger] entries[i].length
            == #[trigger] entries[j].length && entries[i].price == entries[j].price)
}

/// The lookup that a list of name entries stands for.
spec fn names_map(entries: Seq<SourceName>) -> Map<(usize, usize), Seq<char>> {
    Map::new(
        |key: (usize, usize)| exists|i: int| names_key(entries, i, key),
        |key: (usize, usize)| entries[choose|i: int| names_key(entries, i, key)].name@,
    )
}

proof fn lemma_names_lookup(entries: Seq<SourceName>, i: int)
    requires
        names_distinct(entries),
        0 <= i < entries.len(),
    ensures
        names_map(entries).contains_key((entries[i].length, entries[i].price)),
        names_map(entries)[(entries[i].length, entries[i].price)] == entries[i].name@,
{
    let key = (entries[i].length, entries[i].price);
    assert(names_key(entries, i, key));
    let c = choose|c: int| names_key(entries, c, key);
    assert(c == i);
}

proof fn lemma_names_renamed(before: Seq<SourceName>, after: Seq<SourceName>, i: int)
    requires
        names_distinct(before),
        0 <= i < before.len(),
        after.len() == before.len(),
        after[i].length == before[i].length,
        after[i].price == before[i].price,
        forall|j: int| 0 <= j < before.len() && j != i ==> after[j] == before[j],
    ensures
        names_distinct(after),
        names_map(after) == names_map(before).insert(
            (before[i].length, before[i].price),
            after[i].name@,
        ),
{
    assert(names_distinct(after)) by {
        assert forall|a: int, b: int| 0 <= a < b < after.len() implies !(#[trigger] after[a].length
            == #[trigger] after[b].length && after[a].price == after[b].price) by {
            assert(after[a].length == before[a].length && after[a].price == before[a].price);
            assert(after[b].length == before[b].length && after[b].price == before[b].price);
        }
    }
    let key = (before[i].length, before[i].price);
    let expected = names_map(before).insert(key, after[i].name@);
    assert forall|k: (usize, usize)| #[trigger]
        names_map(after).dom().contains(k) == expected.dom().contains(k) by {
        if names_map(after).dom().contains(k) {
            let c = choose|c: int| names_key(after, c, k);
            assert(names_key(before, c, k));
        }
        if expected.dom().contains(k) {
            if k == key {
                assert(names_key(after, i, k));
            } else {
                let c = choose|c: int| names_key(before, c, k);
                assert(names_key(after, c, k));
            }
        }
    }
    assert forall|k: (usize, usize)| #[trigger] expected.dom().contains(k) implies names_map(
        after,
    )[k] == expected[k] by {
        if k == key {
            lemma_names_lookup(after, i);
        } else {
            let c = choose|c: int| names_key(before, c, k);
            assert(names_key(after, c, k));
            lemma_names_lookup(after, c);
            lemma_names_lookup(before, c);
        }
    }
    assert(names_map(after) =~= expected);
}

proof fn lemma_names_added(before: Seq<SourceName>, entry: SourceName)
    requires
        names_distinct(before),
        forall|i: int| !names_key(before, i, (entry.length, entry.price)),
    ensures
        names_distinct(before.push(entry)),
        names_map(before.push(entry)) == names_map(before).insert(
            (entry.length, entry.price),
            entry.name@,
        ),
{
    let after = before.push(entry);
    let key = (entry.length, entry.price);
    assert(names_distinct(after)) by {
        assert forall|a: int, b: int| 0 <= a < b < after.len() implies !(#[trigger] after[a].length
            == #[trigger] after[b].length && after[a].price == after[b].price) by {
            if b == before.len() {
                assert(!names_key(before, a, key));
            }
        }
    }
    let expected = names_map(before).insert(key, entry.name@);
    assert forall|k: (usize, usize)| #[trigger]
        names_map(after).dom().contains(k) == expected.dom().contains(k) by {
        if names_map(after).dom().contains(k) {
            let c = choose|c: int| names_key(after, c, k);
            if c < before.len() {
                assert(names_key(before, c, k));
            }
        }
        if expected.dom().contains(k) {
            if k == key {
                assert(names_key(after, before.len() as int, k));
            } else {
                let c = choose|c: int| names_key(before, c, k);
                assert(names_key(after, c, k));
            }
        }
    }
    assert forall|k: (usize, usize)| #[trigger] expected.dom().contains(k) implies names_map(
        after,
    )[k] == expected[k] by {
        if k == key {
            lemma_names_lookup(after, before.len() as int);
        } else {
            let c = choose|c: int| names_key(before, c, k);
            assert(names_key(after, c, k));
            lemma_names_lookup(after, c);
            lemma_names_lookup(before, c);
        }
    }
    assert(names_map(after) =~= expected);
}

/// The demands that a list of cut pieces stands for.
pub open spec fn cut_demands(cuts: Seq<CutPiece>) -> Seq<CutDemand> {
    cuts.map_values(|c: CutPiece| c@)
}

impl View for Problem {
    type V = ProblemView;

    closed spec fn view(&self) -> ProblemView {
        ProblemView {
            tag: self.tag@,
            source_names: names_map(self.source_names@),
            stock_pieces: self.stock_pieces@,
            cuts: cut_demands(self.cuts@),
        }
    }
}

impl Problem {
    /// The invariant of a problem: what `ProblemView::well_formed` says, and
    /// one name entry for each length and price.
    pub closed spec fn wf(&self) -> bool {
        &&& names_distinct(self.source_names@)
        &&& self@.well_formed()
    }

    /// A problem under `tag` without stock or cuts.
    pub fn new(tag: &str) -> (problem: Problem)
        ensures
            problem.wf(),
            problem@ == ProblemView::empty(tag@),
    {
        let problem = Problem {
            tag: String::from_str(tag),
            source_names: Vec::new(),
            stock_pieces: Vec::new(),
            cuts: Vec::new(),
        };
        assert(problem@.source_names =~= Map::empty());
        assert(problem@.cuts =~= Seq::empty());
        problem
    }

    /// The tag that the problem stands under.
    pub fn tag(&self) -> (tag: &String)
        ensures
            tag@ == self@.tag,
    {
        &self.tag
    }

    /// The stock that may be bought.
    pub fn stock_pieces(&self) -> (stock: &Vec<StockPiece>)
        ensures
            stock@ == self@.stock_pieces,
    {
        &self.stock_pieces
    }

    /// The cuts that are wanted.
    pub fn cuts(&self) -> (cuts: &Vec<CutPiece>)
        ensures
            cut_demands(cuts@) == self@.cuts,
    {
        &self.cuts
    }

    fn find_name(&self, length: usize, price: usize) -> (found: Option<usize>)
        ensures
            match found {
                Some(i) => names_key(self.source_names@, i as int, (length, price)),
                None => forall|i: int| !names_key(self.source_names@, i, (length, price)),
            },
    {
        let mut i: usize = 0;
        while i < self.source_names.len()
            invariant
                i <= self.source_names.len(),
                forall|j: int| 0 <= j < i ==> !names_key(self.source_names@, j, (length, price)),
            decreases self.source_names.len() - i,
        {
            if self.source_names[i].length == length && self.source_names[i].price == price {
                return Some(i);
            }
            i = i + 1;
        }
        None
    }

    /// The display name of the stock with this length and price.
    pub fn source_name(&self, length: usize, price: usize) -> (name: Option<&String>)
        requires
            self.wf(),
        ensures
            name is Some <==> self@.source_names.contains_key((length, price)),
            name is Some ==> name->0@ == self@.source_names[(length, price)],
    {
        match self.find_name(length, price) {
            Some(i) => {
                proof {
                    lemma_names_lookup(self.source_names@, i as int);
                }
                Some(&self.source_names[i].name)
            },
            None => None,
        }
    }

    fn find_stock(&self, length: usize, quantity: Option<usize>) -> (found: Option<usize>)
        ensures
            match found {
                Some(i) => holds_identity(self.stock_pieces@, i as int, length, quantity),
                None => forall|i: int| !holds_identity(self.stock_pieces@, i, length, quantity),
            },
    {
        let mut i: usize = 0;
        while i < self.stock_pieces.len()
            invariant
                i <= self.stock_pieces.len(),
                forall|j: int|
                    0 <= j < i ==> !holds_identity(self.stock_pieces@, j, length, quantity),
            decreases self.stock_pieces.len() - i,
        {
            let piece = self.stock_pieces[i];
            let same_quantity = match (piece.quantity, quantity) {
                (Some(a), Some(b)) => a == b,
                (None, None) => true,
                _ => false,
            };
            if piece.length == length && same_quantity {
                return Some(i);
            }
            i = i + 1;
        }
        None
    }

    fn find_cut(&self, length: usize) -> (found: Option<usize>)
        ensures
            match found {
                Some(i) => holds_length(cut_demands(self.cuts@), i as int, length),
                None => forall|i: int| !holds_length(cut_demands(self.cuts@), i, length),
            },
    {
        let mut i: usize = 0;
        while i < self.cuts.len()
            invariant
                i <= self.cuts.len(),
                forall|j: int| 0 <= j < i ==> !holds_length(cut_demands(self.cuts@), j, length),
            decreases self.cuts.len() - i,
        {
            if self.cuts[i].length == length {
                return Some(i);
            }
            i = i + 1;
        }
        None
    }

    /// Takes in one source record: see `ProblemView::with_source`.
    pub fn add_source(&mut self, source: &SourceRecord)
        requires
            old(self).wf(),
        ensures
            final(self).wf(),
            final(self)@ == old(self)@.with_source(source@),
    {
        if !(self.tag == source.tag) {
            return ;
        }
        let piece = source.to_stock_piece();
        let ghost names_before = self.source_names@;
        match self.find_name(source.length, source.cost) {
            Some(i) => {
                let entry = SourceName {
                    length: source.length,
                    price: source.cost,
                    name: source.name.clone(),
                };
                self.source_names.set(i, entry);
                proof {
                    lemma_names_renamed(names_before, self.source_names@, i as int);
                }
            },
            None => {
                let entry = SourceName {
                    length: source.length,
                    price: source.cost,
                    name: source.name.clone(),
                };
                self.source_names.push(entry);
                proof {
                    lemma_names_added(names_before, entry);
                }
            },
        }
        let ghost stock_before = self.stock_pieces@;
        match self.find_stock(source.length, source.quantity) {
            Some(i) => {
                self.stock_pieces.set(i, piece);
                proof {
                    let c = stock_slot(stock_before, source.length, source.quantity)->0;
                    assert(holds_identity(stock_before, i as int, source.length, source.quantity));
                    assert(holds_identity(stock_before, c, source.length, source.quantity));
                    assert(c == i);
                }
            },
            None => {
                self.stock_pieces.push(piece);
            },
        }
        proof {
            assert(self@.source_names == old(self)@.with_source(source@).source_names);
            assert(self@.stock_pieces == old(self)@.with_source(source@).stock_pieces);
            assert(self@.cuts == old(self)@.cuts);
            lemma_with_source_well_formed(old(self)@, source@);
        }
    }

    /// Takes in one cut record: see `ProblemView::with_cut`. The summed
    /// demand has to fit the counter.
    pub fn add_cut(&mut self, piece: &CutRecord)
        requires
            old(self).wf(),
            old(self)@.tag == piece@.tag ==> old(self)@.demand(piece.length) + piece.quantity
                <= u128::MAX,
        ensures
            final(self).wf(),
            final(self)@ == old(self)@.with_cut(piece@),
    {
        if !(self.tag == piece.tag) {
            return ;
        }
        let ghost demands_before = cut_demands(self.cuts@);
        match self.find_cut(piece.length) {
            Some(i) => {
                proof {
                    let c = cut_slot(demands_before, piece.length)->0;
                    assert(holds_length(demands_before, i as int, piece.length));
                    assert(holds_length(demands_before, c, piece.length));
                    assert(c == i);
                }
                let summed = CutPiece {
                    length: piece.length,
                    quantity: self.cuts[i].quantity + piece.quantity as u128,
                };
                self.cuts.set(i, summed);
                assert(cut_demands(self.cuts@) =~= demands_before.update(i as int, summed@));
            },
            None => {
                let first = piece.to_cut_piece();
                self.cuts.push(first);
                assert(cut_demands(self.cuts@) =~= demands_before.push(first@));
            },
        }
        proof {
            assert(self@.cuts == old(self)@.with_cut(piece@).cuts);
            lemma_with_cut_well_formed(old(self)@, piece@);
        }
    }

    /// A problem can be solved only if it has stock and cuts.
    pub fn is_valid_problem(&self) -> (valid: bool)
        ensures
            valid == self@.is_solvable(),
    {
        self.cuts.len() > 0 && self.stock_pieces.len() > 0
    }
}

} // verus!
