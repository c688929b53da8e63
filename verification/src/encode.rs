//! The encodings of the records that a run found: the delimited payload and
//! the JSON array.

use vstd::prelude::*;
use vstd::string::*;
use crate::numeric::{
    all_decimal_digits, decimal_digit_value, decimal_text, decimal_value, digit_char,
    lemma_decimal_text_value, u64_to_decimal,
};
use crate::records::{record_views, FilteredTransaction, FilteredTransactionView};

verus! {

/// One record of the delimited payload: each of the eight fields behind a bar.
pub open spec fn simple_record(tx: FilteredTransactionView) -> Seq<char> {
    seq!['|'] + tx.hash + seq!['|'] + tx.from + seq!['|'] + tx.to + seq!['|'] + tx.value + seq![
        '|',
    ] + tx.data + seq!['|'] + tx.block_number + seq!['|'] + tx.transaction_index + seq!['|']
        + tx.gas_price
}

/// The records of the delimited payload, one after the other.
pub open spec fn simple_records(txs: Seq<FilteredTransactionView>) -> Seq<char>
    decreases txs.len(),
{
    if txs.len() == 0 {
        Seq::empty()
    } else {
        simple_records(txs.drop_last()) + simple_record(txs.last())
    }
}

/// The delimited payload: the number of records in decimal, then the records.
pub open spec fn simple_payload(txs: Seq<FilteredTransactionView>) -> Seq<char> {
    decimal_text(txs.len()) + simple_records(txs)
}

/// How a character stands inside a JSON string.
pub open spec fn json_escape(c: char) -> Seq<char> {
    if c == '"' {
        seq!['\\', '"']
    } else if c == '\\' {
        seq!['\\', '\\']
    } else if c == '\u{8}' {
        seq!['\\', 'b']
    } else if c == '\t' {
        seq!['\\', 't']
    } else if c == '\n' {
        seq!['\\', 'n']
    } else if c == '\u{c}' {
        seq!['\\', 'f']
    } else if c == '\r' {
        seq!['\\', 'r']
    } else if (c as int) < 32 {
        seq!['\\', 'u', '0', '0', digit_char(c as int / 16), digit_char(c as int % 16)]
    } else {
        seq![c]
    }
}

/// The characters of a text as they stand inside a JSON string.
pub open spec fn json_escaped(s: Seq<char>) -> Seq<char>
    decreases s.len(),
{
    if s.len() == 0 {
        Seq::empty()
    } else {
        json_escaped(s.drop_last()) + json_escape(s.last())
    }
}

/// A text as a JSON string: its characters, escaped, between double quotes.
pub open spec fn json_string(s: Seq<char>) -> Seq<char> {
    seq!['"'] + json_escaped(s) + seq!['"']
}

/// A record as a JSON object, without white space, its members in the order of the fields.
pub open spec fn json_object(tx: FilteredTransactionView) -> Seq<char> {
    "{\"hash\":"@ + json_string(tx.hash) + ",\"from\":"@ + json_string(tx.from) + ",\"to\":"@
        + json_string(tx.to) + ",\"value\":"@ + json_string(tx.value) + ",\"data\":"@ + json_string(
        tx.data,
    ) + ",\"block_number\":"@ + json_string(tx.block_number) + ",\"transaction_index\":"@
        + json_string(tx.transaction_index) + ",\"gas_price\":"@ + json_string(tx.gas_price) + "}"@
}

/// The objects of the records, with a comma between each two.
pub open spec fn json_objects(txs: Seq<FilteredTransactionView>) -> Seq<char>
    decreases txs.len(),
{
    if txs.len() == 0 {
        Seq::empty()
    } else if txs.len() == 1 {
        json_object(txs[0])
    } else {
        json_objects(txs.drop_last()) + ","@ + json_object(txs.last())
    }
}

/// The records as a JSON array without white space.
pub open spec fn json_array(txs: Seq<FilteredTransactionView>) -> Seq<char> {
    "["@ + json_objects(txs) + "]"@
}

/// What the selector picks: the JSON array for `json`, the delimited payload
/// for `simple` and for anything else.
pub open spec fn encoded(txs: Seq<FilteredTransactionView>, output_format: Seq<char>) -> Seq<char> {
    if output_format == "json"@ {
        json_array(txs)
    } else {
        simple_payload(txs)
    }
}

/// How often `c` occurs in `s`.
pub open spec fn count_of(s: Seq<char>, c: char) -> nat
    decreases s.len(),
{
    if s.len() == 0 {
        0
    } else {
        count_of(s.drop_last(), c) + if s.last() == c {
            1nat
        } else {
            0nat
        }
    }
}

/// No field of the record holds a bar.
pub open spec fn bar_free(tx: FilteredTransactionView) -> bool {
    &&& count_of(tx.hash, '|') == 0
    &&& count_of(tx.from, '|') == 0
    &&& count_of(tx.to, '|') == 0
    &&& count_of(tx.value, '|') == 0
    &&& count_of(tx.data, '|') == 0
    &&& count_of(tx.block_number, '|') == 0
    &&& count_of(tx.transaction_index, '|') == 0
    &&& count_of(tx.gas_price, '|') == 0
}

proof fn lemma_count_of_add(a: Seq<char>, b: Seq<char>, c: char)
    ensures
        count_of(a + b, c) == count_of(a, c) + count_of(b, c),
    decreases b.len(),
{
    if b.len() > 0 {
        assert((a + b).drop_last() =~= a + b.drop_last());
        lemma_count_of_add(a, b.drop_last(), c);
    }
}

proof fn lemma_count_of_one(x: char, c: char)
    ensures
        count_of(seq![x], c) == if x == c {
            1nat
        } else {
            0nat
        },
{
    assert(count_of(seq![x].drop_last(), c) == 0);
}

proof fn lemma_no_bar_among_digits(s: Seq<char>)
    requires
        all_decimal_digits(s),
    ensures
        count_of(s, '|') == 0,
    decreases s.len(),
{
    if s.len() > 0 {
        assert(decimal_digit_value(s[s.len() - 1]) is Some);
        lemma_no_bar_among_digits(s.drop_last());
    }
}

proof fn lemma_bars_of_record(tx: FilteredTransactionView)
    requires
        bar_free(tx),
    ensures
        count_of(simple_record(tx), '|') == 8,
        simple_record(tx).len() > 0,
        simple_record(tx)[0] == '|',
{
    let bar = seq!['|'];
    lemma_count_of_one('|', '|');
    let s1 = bar + tx.hash;
    lemma_count_of_add(bar, tx.hash, '|');
    let s2 = s1 + bar + tx.from;
    lemma_count_of_add(s1, bar, '|');
    lemma_count_of_add(s1 + bar, tx.from, '|');
    let s3 = s2 + bar + tx.to;
    lemma_count_of_add(s2, bar, '|');
    lemma_count_of_add(s2 + bar, tx.to, '|');
    let s4 = s3 + bar + tx.value;
    lemma_count_of_add(s3, bar, '|');
    lemma_count_of_add(s3 + bar, tx.value, '|');
    let s5 = s4 + bar + tx.data;
    lemma_count_of_add(s4, bar, '|');
    lemma_count_of_add(s4 + bar, tx.data, '|');
    let s6 = s5 + bar + tx.block_number;
    lemma_count_of_add(s5, bar, '|');
    lemma_count_of_add(s5 + bar, tx.block_number, '|');
    let s7 = s6 + bar + tx.transaction_index;
    lemma_count_of_add(s6, bar, '|');
    lemma_count_of_add(s6 + bar, tx.transaction_index, '|');
    lemma_count_of_add(s7, bar, '|');
    lemma_count_of_add(s7 + bar, tx.gas_price, '|');
}

proof fn lemma_bars_of_records(txs: Seq<FilteredTransactionView>)
    requires
        forall|i: int| 0 <= i < txs.len() ==> bar_free(#[trigger] txs[i]),
    ensures
        count_of(simple_records(txs), '|') == 8 * txs.len(),
    decreases txs.len(),
{
    if txs.len() > 0 {
        lemma_bars_of_records(txs.drop_last());
        lemma_bars_of_record(txs.last());
        lemma_count_of_add(simple_records(txs.drop_last()), simple_record(txs.last()), '|');
    }
}

proof fn lemma_records_begin_with_bar(txs: Seq<FilteredTransactionView>)
    requires
        txs.len() > 0,
    ensures
        simple_records(txs).len() > 0,
        simple_records(txs)[0] == '|',
    decreases txs.len(),
{
    let record = simple_record(txs.last());
    if txs.len() > 1 {
        lemma_records_begin_with_bar(txs.drop_last());
    } else {
        assert(simple_records(txs.drop_last()) + record =~= record);
    }
}

/// No records encode to the single character `0`.
pub proof fn lemma_simple_payload_of_nothing()
    ensures
        simple_payload(Seq::empty()) == seq!['0'],
{
}

/// The delimited payload begins with the number of its records: the decimal
/// text of that number stands at its head, and behind it the payload ends
/// where there is no record and goes on with a bar where there is one.
pub proof fn lemma_simple_payload_leads_with_count(txs: Seq<FilteredTransactionView>)
    ensures
        ({
            let payload = simple_payload(txs);
            let head = decimal_text(txs.len());
            &&& all_decimal_digits(head)
            &&& decimal_value(head) == txs.len()
            &&& head.len() <= payload.len()
            &&& payload.take(head.len() as int) == head
            &&& txs.len() == 0 ==> payload.len() == head.len()
            &&& txs.len() > 0 ==> payload.len() > head.len() && payload[head.len() as int] == '|'
        }),
{
    lemma_decimal_text_value(txs.len());
    if txs.len() > 0 {
        lemma_records_begin_with_bar(txs);
    }
}

/// Where no field holds a bar, the delimited payload holds eight bars for
/// each record, one before each field, and no other.
pub proof fn lemma_simple_payload_holds_each_record(txs: Seq<FilteredTransactionView>)
    requires
        forall|i: int| 0 <= i < txs.len() ==> bar_free(#[trigger] txs[i]),
    ensures
        count_of(simple_payload(txs), '|') == 8 * txs.len(),
{
    lemma_decimal_text_value(txs.len());
    lemma_no_bar_among_digits(decimal_text(txs.len()));
    lemma_bars_of_records(txs);
    lemma_count_of_add(decimal_text(txs.len()), simple_records(txs), '|');
}

/// The error type of `serde_json`, which the encoder only tells from success.
#[verifier::external_type_specification]
#[verifier::external_body]
pub struct ExJsonError(serde_json::Error);

/// Calls `serde_json::to_string` on a string. The serializer writes a double
/// quote, the text with `"` and `\` behind a backslash, the control characters
/// below U+0020 as `\b`, `\t`, `\n`, `\f`, `\r` or `\u00` and two lower-case
/// hexadecimal digits, every other character as it is, and a double quote.
/// It writes to memory and a string holds no map, so the call does not fail.
#[verifier::external_body]
fn json_quote(s: &str) -> (r: Result<String, serde_json::Error>)
    ensures
        r is Ok,
        r matches Ok(quoted) ==> quoted@ == json_string(s@),
{
    serde_json::to_string(s)
}

/// Encodes the records in the delimited format.
pub fn encode_simple_format(transactions: &[FilteredTransaction]) -> (r: String)
    ensures
        r@ == simple_payload(record_views(transactions@)),
{
    let n = transactions.len();
    let ghost txs = record_views(transactions@);
    let mut result = u64_to_decimal(n as u64);
    let mut i: usize = 0;
    proof {
        reveal_strlit("|");
    }
    while i < n
        invariant
            i <= n,
            n == transactions.len(),
            txs == record_views(transactions@),
            "|"@ == seq!['|'],
            result@ == decimal_text(n as nat) + simple_records(txs.take(i as int)),
        decreases n - i,
    {
        let tx = &transactions[i];
        let ghost before = result@;
        result.append("|");
        result.append(tx.hash.as_str());
        result.append("|");
        result.append(tx.from.as_str());
        result.append("|");
        result.append(tx.to.as_str());
        result.append("|");
        result.append(tx.value.as_str());
        result.append("|");
        result.append(tx.data.as_str());
        result.append("|");
        result.append(tx.block_number.as_str());
        result.append("|");
        result.append(tx.transaction_index.as_str());
        result.append("|");
        result.append(tx.gas_price.as_str());
        assert(txs.take(i + 1).drop_last() =~= txs.take(i as int));
        assert(result@ =~= before + simple_record(tx@));
        i = i + 1;
    }
    assert(txs.take(n as int) =~= txs);
    result
}

/// The JSON object of one record.
fn json_object_text(tx: &FilteredTransaction) -> (r: Result<String, serde_json::Error>)
    ensures
        r matches Ok(object) && object@ == json_object(tx@),
{
    let mut object = "{\"hash\":".to_owned();
    object.append(json_quote(tx.hash.as_str())?.as_str());
    object.append(",\"from\":");
    object.append(json_quote(tx.from.as_str())?.as_str());
    object.append(",\"to\":");
    object.append(json_quote(tx.to.as_str())?.as_str());
    object.append(",\"value\":");
    object.append(json_quote(tx.value.as_str())?.as_str());
    object.append(",\"data\":");
    object.append(json_quote(tx.data.as_str())?.as_str());
    object.append(",\"block_number\":");
    object.append(json_quote(tx.block_number.as_str())?.as_str());
    object.append(",\"transaction_index\":");
    object.append(json_quote(tx.transaction_index.as_str())?.as_str());
    object.append(",\"gas_price\":");
    object.append(json_quote(tx.gas_price.as_str())?.as_str());
    object.append("}");
    Ok(object)
}

/// Encodes the records as a JSON array. Should the serializer report an
/// error, the result is the empty array; on strings it reports none.
pub fn encode_json_format(transactions: &[FilteredTransaction]) -> (r: String)
    ensures
        r@ == json_array(record_views(transactions@)),
{
    let n = transactions.len();
    let ghost txs = record_views(transactions@);
    let mut result = "[".to_owned();
    let mut i: usize = 0;
    while i < n
        invariant
            i <= n,
            n == transactions.len(),
            txs == record_views(transactions@),
            result@ == "["@ + json_objects(txs.take(i as int)),
        decreases n - i,
    {
        let object = match json_object_text(&transactions[i]) {
            Ok(object) => object,
            Err(_) => {
                return "[]".to_owned();
            },
        };
        if i > 0 {
            result.append(",");
        }
        result.append(object.as_str());
        assert(txs.take(i + 1).drop_last() =~= txs.take(i as int));
        i = i + 1;
    }
    assert(txs.take(n as int) =~= txs);
    result.append("]");
    result
}

/// Encodes the records in the selected format: `json` for the JSON array,
/// `simple` for the delimited payload. An unknown selector gives the delimited
/// payload as well.
pub fn encode_transactions_for_foundry(
    transactions: &[FilteredTransaction],
    output_format: &str,
) -> (r: String)
    ensures
        r@ == encoded(record_views(transactions@), output_format@),
{
    if output_format.to_owned() == "json".to_owned() {
        encode_json_format(transactions)
    } else {
        encode_simple_format(transactions)
    }
}

} // verus!
