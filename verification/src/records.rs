//! The input loader: from the text of an input file to the well-formed
//! source and cut records in it.

use crate::document::{
    entries_under, is_readable, listed_entries, number_field, number_under, parse_document,
    parsed_document, readable, text_field, text_under, text_view,
};
use crate::fixed_point::{fixed_of, to_fixed, Decimal};
use crate::names::text_views;
use vstd::prelude::*;

verus! {

/// A stock source as one input entry describes it.
#[derive(Clone, Debug)]
pub struct SourceRecord {
    pub tag: String,
    pub name: String,
    pub cost: usize,
    pub length: usize,
    pub quantity: Option<usize>,
}

/// What a source record holds.
pub struct SourceRecordView {
    pub tag: Seq<char>,
    pub name: Seq<char>,
    pub cost: usize,
    pub length: usize,
    pub quantity: Option<usize>,
}

impl View for SourceRecord {
    type V = SourceRecordView;

    open spec fn view(&self) -> SourceRecordView {
        SourceRecordView {
            tag: self.tag@,
            name: self.name@,
            cost: self.cost,
            length: self.length,
            quantity: self.quantity,
        }
    }
}

/// A demand for cut pieces as one input entry describes it.
#[derive(Clone, Debug)]
pub struct CutRecord {
    pub tag: String,
    pub length: usize,
    pub quantity: usize,
}

/// What a cut record holds.
pub struct CutRecordView {
    pub tag: Seq<char>,
    pub length: usize,
    pub quantity: usize,
}

impl View for CutRecord {
    type V = CutRecordView;

    open spec fn view(&self) -> CutRecordView {
        CutRecordView { tag: self.tag@, length: self.length, quantity: self.quantity }
    }
}

/// The fields of a source entry as they were found, each absent where the
/// entry lacks it or holds a value of another kind.
#[derive(Clone, Debug)]
pub struct RawSource {
    pub tag: Option<String>,
    pub name: Option<String>,
    pub cost: Option<Decimal>,
    pub length: Option<Decimal>,
    pub quantity: Option<Decimal>,
}

/// What a raw source entry holds.
pub struct RawSourceView {
    pub tag: Option<Seq<char>>,
    pub name: Option<Seq<char>>,
    pub cost: Option<Decimal>,
    pub length: Option<Decimal>,
    pub quantity: Option<Decimal>,
}

impl View for RawSource {
    type V = RawSourceView;

    open spec fn view(&self) -> RawSourceView {
        RawSourceView {
            tag: text_view(self.tag),
            name: text_view(self.name),
            cost: self.cost,
            length: self.length,
            quantity: self.quantity,
        }
    }
}

/// The fields of a cut entry as they were found.
#[derive(Clone, Debug)]
pub struct RawCut {
    pub tag: Option<String>,
    pub length: Option<Decimal>,
    pub quantity: Option<Decimal>,
}

/// What a raw cut entry holds.
pub struct RawCutView {
    pub tag: Option<Seq<char>>,
    pub length: Option<Decimal>,
    pub quantity: Option<Decimal>,
}

impl View for RawCut {
    type V = RawCutView;

    open spec fn view(&self) -> RawCutView {
        RawCutView { tag: text_view(self.tag), length: self.length, quantity: self.quantity }
    }
}

/// The count that a number stands for: a positive number written without
/// fraction or exponent that fits `usize`. Any other number is no count.
pub open spec fn count_of(number: Decimal) -> Option<usize> {
    if number.positive && number.exponent == 0 && number.mantissa <= usize::MAX {
        Some(number.mantissa as usize)
    } else {
        None
    }
}

/// The count that an optional number stands for.
pub open spec fn optional_count_of(number: Option<Decimal>) -> Option<usize> {
    match number {
        Some(n) => count_of(n),
        None => None,
    }
}

/// The source record that a raw entry gives: one exists exactly when tag,
/// name, cost and length are present. A quantity that is missing or is no
/// count leaves the source unlimited.
pub open spec fn source_of(raw: RawSourceView, cost_decimals: nat, length_decimals: nat) -> Option<
    SourceRecordView,
> {
    if raw.tag is Some && raw.name is Some && raw.cost is Some && raw.length is Some {
        Some(
            SourceRecordView {
                tag: raw.tag->0,
                name: raw.name->0,
                cost: fixed_of(raw.cost->0, cost_decimals) as usize,
                length: fixed_of(raw.length->0, length_decimals) as usize,
                quantity: optional_count_of(raw.quantity),
            },
        )
    } else {
        None
    }
}

/// The cut record that a raw entry gives: one exists exactly when tag and
/// length are present and the quantity is a count.
pub open spec fn cut_of(raw: RawCutView, length_decimals: nat) -> Option<CutRecordView> {
    if raw.tag is Some && raw.length is Some && optional_count_of(raw.quantity) is Some {
        Some(
            CutRecordView {
                tag: raw.tag->0,
                length: fixed_of(raw.length->0, length_decimals) as usize,
                quantity: optional_count_of(raw.quantity)->0,
            },
        )
    } else {
        None
    }
}

/// Reads a number as a count.
pub fn whole_count(number: Decimal) -> (count: Option<usize>)
    ensures
        count == count_of(number),
{
    if number.positive && number.exponent == 0 && number.mantissa <= usize::MAX as u64 {
        Some(number.mantissa as usize)
    } else {
        None
    }
}

fn optional_count(number: Option<Decimal>) -> (count: Option<usize>)
    ensures
        count == optional_count_of(number),
{
    match number {
        Some(n) => whole_count(n),
        None => None,
    }
}

/// Validates a raw source entry and encodes its decimal fields.
pub fn source_from_raw(raw: &RawSource, cost_decimals: u32, length_decimals: u32) -> (record:
    Option<SourceRecord>)
    ensures
        record is Some <==> source_of(raw@, cost_decimals as nat, length_decimals as nat) is Some,
        record is Some ==> record->0@ == source_of(
            raw@,
            cost_decimals as nat,
            length_decimals as nat,
        )->0,
{
    match (&raw.tag, &raw.name, raw.cost, raw.length) {
        (Some(tag), Some(name), Some(cost), Some(length)) => Some(
            SourceRecord {
                tag: tag.clone(),
                name: name.clone(),
                cost: to_fixed(cost, cost_decimals),
                length: to_fixed(length, length_decimals),
                quantity: optional_count(raw.quantity),
            },
        ),
        _ => None,
    }
}

/// Validates a raw cut entry and encodes its length.
pub fn cut_from_raw(raw: &RawCut, length_decimals: u32) -> (record: Option<CutRecord>)
    ensures
        record is Some <==> cut_of(raw@, length_decimals as nat) is Some,
        record is Some ==> record->0@ == cut_of(raw@, length_decimals as nat)->0,
{
    match (&raw.tag, raw.length, optional_count(raw.quantity)) {
        (Some(tag), Some(length), Some(quantity)) => Some(
            CutRecord { tag: tag.clone(), length: to_fixed(length, length_decimals), quantity },
        ),
        _ => None,
    }
}

/// A number as the document reader hands it out, as a `Decimal`.
pub open spec fn decimal_of(parts: Option<(bool, u64, i16)>) -> Option<Decimal> {
    match parts {
        Some(p) => Some(Decimal { positive: p.0, mantissa: p.1, exponent: p.2 }),
        None => None,
    }
}

fn decimal_from(parts: Option<(bool, u64, i16)>) -> (number: Option<Decimal>)
    ensures
        number == decimal_of(parts),
{
    match parts {
        Some(p) => Some(Decimal { positive: p.0, mantissa: p.1, exponent: p.2 }),
        None => None,
    }
}

/// The raw source entry that the document reader finds in `entry`.
pub open spec fn raw_source_at(entry: json::JsonValue) -> RawSourceView {
    RawSourceView {
        tag: text_field(entry, "tag"@),
        name: text_field(entry, "name"@),
        cost: decimal_of(number_field(entry, "cost"@)),
        length: decimal_of(number_field(entry, "length"@)),
        quantity: decimal_of(number_field(entry, "quantity"@)),
    }
}

/// The raw cut entry that the document reader finds in `entry`.
pub open spec fn raw_cut_at(entry: json::JsonValue) -> RawCutView {
    RawCutView {
        tag: text_field(entry, "tag"@),
        length: decimal_of(number_field(entry, "length"@)),
        quantity: decimal_of(number_field(entry, "quantity"@)),
    }
}

/// The source records among `entries`, in order, the malformed ones left out.
pub open spec fn sources_among(
    entries: Seq<json::JsonValue>,
    cost_decimals: nat,
    length_decimals: nat,
) -> Seq<SourceRecordView>
    decreases entries.len(),
{
    if entries.len() == 0 {
        Seq::empty()
    } else {
        let before = sources_among(entries.drop_last(), cost_decimals, length_decimals);
        match source_of(raw_source_at(entries.last()), cost_decimals, length_decimals) {
            Some(record) => before.push(record),
            None => before,
        }
    }
}

/// The cut records among `entries`, in order, the malformed ones left out.
pub open spec fn cuts_among(entries: Seq<json::JsonValue>, length_decimals: nat) -> Seq<
    CutRecordView,
>
    decreases entries.len(),
{
    if entries.len() == 0 {
        Seq::empty()
    } else {
        let before = cuts_among(entries.drop_last(), length_decimals);
        match cut_of(raw_cut_at(entries.last()), length_decimals) {
            Some(record) => before.push(record),
            None => before,
        }
    }
}

/// The document that a text holds: what the parser makes of it, or nothing
/// where the text is not readable or not well-formed.
pub open spec fn document_in(text: Seq<char>) -> Option<json::JsonValue> {
    if is_readable(text) {
        parsed_document(text)
    } else {
        None
    }
}

/// The source records that the text of one input file holds: those of its
/// `sources` collection, or none where the text holds no document.
pub open spec fn sources_in(text: Seq<char>, cost_decimals: nat, length_decimals: nat) -> Seq<
    SourceRecordView,
> {
    match document_in(text) {
        Some(document) => sources_among(
            listed_entries(document, "sources"@),
            cost_decimals,
            length_decimals,
        ),
        None => Seq::empty(),
    }
}

/// The cut records that the text of one input file holds: those of its
/// `cuts` collection, or none where the text holds no document.
pub open spec fn cuts_in(text: Seq<char>, length_decimals: nat) -> Seq<CutRecordView> {
    match document_in(text) {
        Some(document) => cuts_among(listed_entries(document, "cuts"@), length_decimals),
        None => Seq::empty(),
    }
}

/// The views of a list of source records.
pub open spec fn source_views(records: Seq<SourceRecord>) -> Seq<SourceRecordView> {
    records.map_values(|r: SourceRecord| r@)
}

/// The views of a list of cut records.
pub open spec fn cut_views(records: Seq<CutRecord>) -> Seq<CutRecordView> {
    records.map_values(|r: CutRecord| r@)
}

fn read_source(entry: &json::JsonValue) -> (raw: RawSource)
    ensures
        raw@ == raw_source_at(*entry),
{
    RawSource {
        tag: text_under(entry, "tag"),
        name: text_under(entry, "name"),
        cost: decimal_from(number_under(entry, "cost")),
        length: decimal_from(number_under(entry, "length")),
        quantity: decimal_from(number_under(entry, "quantity")),
    }
}

fn read_cut(entry: &json::JsonValue) -> (raw: RawCut)
    ensures
        raw@ == raw_cut_at(*entry),
{
    RawCut {
        tag: text_under(entry, "tag"),
        length: decimal_from(number_under(entry, "length")),
        quantity: decimal_from(number_under(entry, "quantity")),
    }
}

fn collect_sources(
    entries: &Vec<json::JsonValue>,
    cost_decimals: u32,
    length_decimals: u32,
) -> (records: Vec<SourceRecord>)
    ensures
        source_views(records@) == sources_among(
            entries@,
            cost_decimals as nat,
            length_decimals as nat,
        ),
{
    let mut records: Vec<SourceRecord> = Vec::new();
    let mut i: usize = 0;
    assert(source_views(records@) =~= Seq::empty());
    while i < entries.len()
        invariant
            i <= entries.len(),
            source_views(records@) == sources_among(
                entries@.take(i as int),
                cost_decimals as nat,
                length_decimals as nat,
            ),
        decreases entries.len() - i,
    {
        let raw = read_source(&entries[i]);
        let ghost before = records@;
        proof {
            assert(entries@.take(i + 1).drop_last() =~= entries@.take(i as int));
        }
        match source_from_raw(&raw, cost_decimals, length_decimals) {
            Some(record) => {
                records.push(record);
                assert(source_views(records@) =~= source_views(before).push(record@));
            },
            None => {},
        }
        i = i + 1;
    }
    assert(entries@.take(i as int) =~= entries@);
    records
}

fn collect_cuts(entries: &Vec<json::JsonValue>, length_decimals: u32) -> (records: Vec<CutRecord>)
    ensures
        cut_views(records@) == cuts_among(entries@, length_decimals as nat),
{
    let mut records: Vec<CutRecord> = Vec::new();
    let mut i: usize = 0;
    assert(cut_views(records@) =~= Seq::empty());
    while i < entries.len()
        invariant
            i <= entries.len(),
            cut_views(records@) == cuts_among(entries@.take(i as int), length_decimals as nat),
        decreases entries.len() - i,
    {
        let raw = read_cut(&entries[i]);
        let ghost before = records@;
        proof {
            assert(entries@.take(i + 1).drop_last() =~= entries@.take(i as int));
        }
        match cut_from_raw(&raw, length_decimals) {
            Some(record) => {
                records.push(record);
                assert(cut_views(records@) =~= cut_views(before).push(record@));
            },
            None => {},
        }
        i = i + 1;
    }
    assert(entries@.take(i as int) =~= entries@);
    records
}

/// Reads the source and cut records out of the text of one input file. A
/// text that holds no document gives no records, and so does one with more
/// digits in a row than the parser takes; an entry that lacks a required
/// field is left out and the others stay.
pub fn parse_json_file(
    contents: &str,
    num_cost_decimals: u32,
    num_length_decimals: u32,
) -> (records: (Vec<SourceRecord>, Vec<CutRecord>))
    ensures
        source_views(records.0@) == sources_in(
            contents@,
            num_cost_decimals as nat,
            num_length_decimals as nat,
        ),
        cut_views(records.1@) == cuts_in(contents@, num_length_decimals as nat),
{
    let document = if readable(contents) {
        parse_document(contents)
    } else {
        None
    };
    match document {
        None => {
            let sources: Vec<SourceRecord> = Vec::new();
            let cuts: Vec<CutRecord> = Vec::new();
            assert(source_views(sources@) =~= Seq::empty());
            assert(cut_views(cuts@) =~= Seq::empty());
            (sources, cuts)
        },
        Some(document) => {
            let source_entries = entries_under(&document, "sources");
            let sources = collect_sources(&source_entries, num_cost_decimals, num_length_decimals);
            let cut_entries = entries_under(&document, "cuts");
            let cuts = collect_cuts(&cut_entries, num_length_decimals);
            (sources, cuts)
        },
    }
}

/// The source records of the texts of several input files, in the order of
/// the files.
pub open spec fn sources_across(
    files: Seq<Seq<char>>,
    cost_decimals: nat,
    length_decimals: nat,
) -> Seq<SourceRecordView>
    decreases files.len(),
{
    if files.len() == 0 {
        Seq::empty()
    } else {
        sources_across(files.drop_last(), cost_decimals, length_decimals) + sources_in(
            files.last(),
            cost_decimals,
            length_decimals,
        )
    }
}

/// The cut records of the texts of several input files, in the order of the
/// files.
pub open spec fn cuts_across(files: Seq<Seq<char>>, length_decimals: nat) -> Seq<CutRecordView>
    decreases files.len(),
{
    if files.len() == 0 {
        Seq::empty()
    } else {
        cuts_across(files.drop_last(), length_decimals) + cuts_in(files.last(), length_decimals)
    }
}

/// Reads the records out of the texts of several input files. Each text is
/// read by itself: one that cannot be parsed gives nothing and leaves the
/// others as they are.
pub fn load_records(
    files: &Vec<String>,
    num_cost_decimals: u32,
    num_length_decimals: u32,
) -> (records: (Vec<SourceRecord>, Vec<CutRecord>))
    ensures
        source_views(records.0@) == sources_across(
            text_views(files@),
            num_cost_decimals as nat,
            num_length_decimals as nat,
        ),
        cut_views(records.1@) == cuts_across(text_views(files@), num_length_decimals as nat),
{
    let mut sources: Vec<SourceRecord> = Vec::new();
    let mut cuts: Vec<CutRecord> = Vec::new();
    let ghost texts = text_views(files@);
    let mut i: usize = 0;
    assert(source_views(sources@) =~= Seq::empty());
    assert(cut_views(cuts@) =~= Seq::empty());
    while i < files.len()
        invariant
            i <= files.len(),
            texts == text_views(files@),
            source_views(sources@) == sources_across(
                texts.take(i as int),
                num_cost_decimals as nat,
                num_length_decimals as nat,
            ),
            cut_views(cuts@) == cuts_across(texts.take(i as int), num_length_decimals as nat),
        decreases files.len() - i,
    {
        proof {
            assert(texts.take(i + 1).drop_last() =~= texts.take(i as int));
        }
        let found = parse_json_file(files[i].as_str(), num_cost_decimals, num_length_decimals);
        let mut found_sources = found.0;
        let mut found_cuts = found.1;
        let ghost sources_before = sources@;
        let ghost cuts_before = cuts@;
        let ghost new_sources = found_sources@;
        let ghost new_cuts = found_cuts@;
        sources.append(&mut found_sources);
        cuts.append(&mut found_cuts);
        assert(source_views(sources@) =~= source_views(sources_before) + source_views(
            new_sources,
        ));
        assert(cut_views(cuts@) =~= cut_views(cuts_before) + cut_views(new_cuts));
        i = i + 1;
    }
    assert(texts.take(i as int) =~= texts);
    (sources, cuts)
}

} // verus!
