//! The structured-text reader behind the input loader. Parsing is the work
//! of the `json` crate; this module says what the library takes from it.

use vstd::prelude::*;
use vstd::utf8::encode_utf8;

verus! {

/// The most digits in a row that a text may hold and still be handed to the
/// parser, which counts the digits of a fraction in 16 bits.
pub const LONGEST_DIGIT_RUN: usize = 32767;

/// Whether the byte is an ASCII digit.
pub open spec fn is_digit(byte: u8) -> bool {
    48 <= byte <= 57
}

/// How many digits in a row the bytes end in.
pub open spec fn trailing_digits(bytes: Seq<u8>) -> nat
    decreases bytes.len(),
{
    if bytes.len() == 0 || !is_digit(bytes.last()) {
        0
    } else {
        1 + trailing_digits(bytes.drop_last())
    }
}

/// Whether nowhere in the bytes more than `limit` digits stand in a row.
pub open spec fn digit_runs_within(bytes: Seq<u8>, limit: nat) -> bool {
    forall|k: int| 0 <= k <= bytes.len() ==> trailing_digits(#[trigger] bytes.take(k)) <= limit
}

/// Whether the text can be handed to the parser: nowhere in it more than
/// `LONGEST_DIGIT_RUN` digits stand in a row.
pub open spec fn is_readable(text: Seq<char>) -> bool {
    digit_runs_within(encode_utf8(text), LONGEST_DIGIT_RUN as nat)
}

/// Tests whether the text can be handed to the parser.
pub fn readable(text: &str) -> (readable: bool)
    ensures
        readable == is_readable(text@),
{
    let bytes = text.as_bytes();
    let mut run: usize = 0;
    let mut i: usize = 0;
    assert(bytes@.take(0) =~= Seq::<u8>::empty());
    while i < bytes.len()
        invariant
            i <= bytes.len(),
            bytes@ == encode_utf8(text@),
            run == trailing_digits(bytes@.take(i as int)),
            run <= LONGEST_DIGIT_RUN,
            forall|k: int|
                0 <= k <= i ==> trailing_digits(#[trigger] bytes@.take(k)) <= LONGEST_DIGIT_RUN,
        decreases bytes.len() - i,
    {
        let byte = bytes[i];
        proof {
            assert(bytes@.take(i + 1).drop_last() =~= bytes@.take(i as int));
            assert(bytes@.take(i + 1).last() == byte);
        }
        if 48 <= byte && byte <= 57 {
            if run == LONGEST_DIGIT_RUN {
                assert(trailing_digits(bytes@.take(i + 1)) > LONGEST_DIGIT_RUN);
                return false;
            }
            run = run + 1;
        } else {
            run = 0;
        }
        i = i + 1;
    }
    true
}

/// A parsed document, or a value inside one, as the `json` crate holds it.
#[verifier::external_type_specification]
#[verifier::external_body]
pub struct ExJsonValue(json::JsonValue);

/// What `json::parse` makes of `text`: the document, or nothing where the
/// text is not well-formed.
pub uninterp spec fn parsed_document(text: Seq<char>) -> Option<json::JsonValue>;

/// The members of the array that `document` holds under `key`, in order;
/// empty where there is no such array.
pub uninterp spec fn listed_entries(document: json::JsonValue, key: Seq<char>) -> Seq<
    json::JsonValue,
>;

/// The string that `entry` holds under `key`, if it holds one.
pub uninterp spec fn text_field(entry: json::JsonValue, key: Seq<char>) -> Option<Seq<char>>;

/// The number that `entry` holds under `key`, if it holds one, as the crate
/// stores it: whether it is positive, its digits, and its power of ten.
pub uninterp spec fn number_field(entry: json::JsonValue, key: Seq<char>) -> Option<
    (bool, u64, i16),
>;

/// The characters of an optional string.
pub open spec fn text_view(text: Option<String>) -> Option<Seq<char>> {
    match text {
        Some(t) => Some(t@),
        None => None,
    }
}

/// `json::parse`, with its error dropped. Trusted: on a readable text the
/// call returns, and its outcome is a function of the text alone.
#[verifier::external_body]
pub(crate) fn parse_document(text: &str) -> (document: Option<json::JsonValue>)
    requires
        is_readable(text@),
    ensures
        document == parsed_document(text@),
{
    json::parse(text).ok()
}

/// `JsonValue::members` of the value indexed by `key`. Trusted: indexing a
/// value that is no object, or by a key it lacks, gives null, and the
/// members of a value that is no array are none.
#[verifier::external_body]
pub(crate) fn entries_under(document: &json::JsonValue, key: &str) -> (entries: Vec<
    json::JsonValue,
>)
    ensures
        entries@ == listed_entries(*document, key@),
{
    document[key].members().cloned().collect()
}

/// `JsonValue::as_str` of the value indexed by `key`. Trusted: the result is
/// a function of the entry and the key alone.
#[verifier::external_body]
pub(crate) fn text_under(entry: &json::JsonValue, key: &str) -> (text: Option<String>)
    ensures
        text_view(text) == text_field(*entry, key@),
{
    entry[key].as_str().map(|text| text.to_owned())
}

/// `JsonValue::as_number` of the value indexed by `key`, taken apart by
/// `Number::as_parts`. Trusted: the result is a function of the entry and the
/// key alone.
#[verifier::external_body]
pub(crate) fn number_under(entry: &json::JsonValue, key: &str) -> (number: Option<
    (bool, u64, i16),
>)
    ensures
        number == number_field(*entry, key@),
{
    entry[key].as_number().map(|number| number.as_parts())
}

} // verus!
