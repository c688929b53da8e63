//! The transaction filter: which transactions of a block are addressed to the
//! target contract, and the canonical record of each.

use vstd::prelude::*;
use vstd::string::*;
use crate::numeric::{normalize_quantity, normalized_quantity};
use crate::records::{
    record_views, text_of, Block, BlockView, FilteredTransaction, FilteredTransactionView,
    TransactionView,
};

verus! {

/// The lower-case form of a text, as `str::to_lowercase` gives it.
pub uninterp spec fn lowercase_of(s: Seq<char>) -> Seq<char>;

/// Calls `str::to_lowercase`, which maps the text to its lower-case equivalent
/// by Unicode's rules. The contract only names that result.
#[verifier::external_body]
fn to_lowercase(s: &str) -> (r: String)
    ensures
        r@ == lowercase_of(s@),
{
    s.to_lowercase()
}

/// Two addresses are the same when their lower-case forms are equal.
pub open spec fn same_address(a: Seq<char>, b: Seq<char>) -> bool {
    lowercase_of(a) == lowercase_of(b)
}

/// A transaction is addressed to `target` when it has a recipient and that
/// recipient is the same address. One that creates a contract never is.
pub open spec fn addressed_to(tx: TransactionView, target: Seq<char>) -> bool {
    match tx.to {
        Some(to) => same_address(to, target),
        None => false,
    }
}

/// For each transaction of a block, whether it is addressed to `target`.
pub open spec fn addressed(txs: Seq<TransactionView>, target: Seq<char>) -> Seq<bool> {
    Seq::new(txs.len(), |i: int| addressed_to(txs[i], target))
}

/// The transaction at `i` is picked by `selected`: it is marked there and has
/// a recipient. Positions that `selected` does not reach are not marked.
pub open spec fn picked(txs: Seq<TransactionView>, selected: Seq<bool>, i: int) -> bool {
    0 <= i < txs.len() && i < selected.len() && selected[i] && txs[i].to is Some
}

/// The picked ones among the first `n` transactions, in the order of the block.
pub open spec fn picked_among(txs: Seq<TransactionView>, selected: Seq<bool>, n: int) -> Seq<
    TransactionView,
>
    decreases n,
{
    if n <= 0 {
        Seq::empty()
    } else if picked(txs, selected, n - 1) {
        picked_among(txs, selected, n - 1).push(txs[n - 1])
    } else {
        picked_among(txs, selected, n - 1)
    }
}

/// The transactions addressed to `target`, in the order of the block.
pub open spec fn matching(txs: Seq<TransactionView>, target: Seq<char>) -> Seq<TransactionView> {
    picked_among(txs, addressed(txs, target), txs.len() as int)
}

/// Why a block could not be filtered.
#[derive(Clone, Debug, PartialEq, Eq)]
pub enum FilterError {
    /// The block's number begins with `0x` and is no hexadecimal `u64`.
    InvalidBlockNumber { text: String },
    /// A matching transaction's index begins with `0x` and is no hexadecimal `u64`.
    InvalidTransactionIndex { text: String },
}

/// A `FilterError` in contracts.
pub enum FilterFailure {
    InvalidBlockNumber { text: Seq<char> },
    InvalidTransactionIndex { text: Seq<char> },
}

impl View for FilterError {
    type V = FilterFailure;

    open spec fn view(&self) -> FilterFailure {
        match self {
            FilterError::InvalidBlockNumber { text } => FilterFailure::InvalidBlockNumber {
                text: text@,
            },
            FilterError::InvalidTransactionIndex { text } => FilterFailure::InvalidTransactionIndex {
                text: text@,
            },
        }
    }
}

/// What is said of a block that could not be filtered.
pub open spec fn failure_message(failure: FilterFailure) -> Seq<char> {
    match failure {
        FilterFailure::InvalidBlockNumber { text } => "Invalid hex block number: "@ + text,
        FilterFailure::InvalidTransactionIndex { text } => "Invalid hex transaction index: "@
            + text,
    }
}

impl FilterError {
    /// The failure in words, with the text that was rejected.
    pub fn message(&self) -> (r: String)
        ensures
            r@ == failure_message(self@),
    {
        match self {
            FilterError::InvalidBlockNumber { text } => {
                let mut r = "Invalid hex block number: ".to_owned();
                r.append(text.as_str());
                r
            },
            FilterError::InvalidTransactionIndex { text } => {
                let mut r = "Invalid hex transaction index: ".to_owned();
                r.append(text.as_str());
                r
            },
        }
    }
}

/// The output record of a matching transaction, given the canonical forms of
/// its block's number and of its index. The input payload is passed on as `data`.
pub open spec fn record_of(
    tx: TransactionView,
    block_number: Seq<char>,
    transaction_index: Seq<char>,
) -> FilteredTransactionView {
    FilteredTransactionView {
        hash: tx.hash,
        from: tx.from,
        to: tx.to.unwrap_or(Seq::empty()),
        value: tx.value,
        data: tx.input,
        block_number,
        transaction_index,
        gas_price: tx.gas_price,
    }
}

/// The index of the transaction has a canonical form.
pub open spec fn index_well_formed(tx: TransactionView) -> bool {
    normalized_quantity(tx.transaction_index) is Some
}

/// The index text of the first transaction in `txs` whose index is malformed.
pub open spec fn first_malformed_index(txs: Seq<TransactionView>) -> Seq<char>
    decreases txs.len(),
{
    if txs.len() == 0 {
        Seq::empty()
    } else if !index_well_formed(txs[0]) {
        txs[0].transaction_index
    } else {
        first_malformed_index(txs.drop_first())
    }
}

/// What a selection makes of a block. With no transaction picked the result
/// is empty, whatever the block's number looks like. Otherwise the block's
/// number and the index of every picked transaction must be well formed; the
/// result then holds one record per picked transaction, in the order of the
/// block. A malformed block number is reported before a malformed index, and of
/// several malformed indices the first.
pub open spec fn selection_outcome(block: BlockView, selected: Seq<bool>) -> Result<
    Seq<FilteredTransactionView>,
    FilterFailure,
> {
    let found = picked_among(block.transactions, selected, block.transactions.len() as int);
    if found.len() == 0 {
        Ok(Seq::empty())
    } else if normalized_quantity(block.number) is None {
        Err(FilterFailure::InvalidBlockNumber { text: block.number })
    } else if forall|i: int| 0 <= i < found.len() ==> index_well_formed(#[trigger] found[i]) {
        Ok(
            found.map_values(
                |tx: TransactionView|
                    record_of(
                        tx,
                        normalized_quantity(block.number).unwrap(),
                        normalized_quantity(tx.transaction_index).unwrap(),
                    ),
            ),
        )
    } else {
        Err(FilterFailure::InvalidTransactionIndex { text: first_malformed_index(found) })
    }
}

/// What the filter makes of a block: what the selection of the transactions
/// addressed to `target` makes of it.
pub open spec fn filter_outcome(block: BlockView, target: Seq<char>) -> Result<
    Seq<FilteredTransactionView>,
    FilterFailure,
> {
    selection_outcome(block, addressed(block.transactions, target))
}

/// The picked transactions among the first `k` stand at the head of those
/// among the first `n`, and a picked transaction at `k` stands right behind them.
proof fn lemma_picked_prefix(txs: Seq<TransactionView>, selected: Seq<bool>, k: int, n: int)
    requires
        0 <= k <= n,
    ensures
        picked_among(txs, selected, k).len() <= picked_among(txs, selected, n).len(),
        picked_among(txs, selected, n).take(picked_among(txs, selected, k).len() as int)
            == picked_among(txs, selected, k),
        k < n && picked(txs, selected, k) ==> picked_among(txs, selected, k).len() < picked_among(
            txs,
            selected,
            n,
        ).len() && picked_among(txs, selected, n)[picked_among(txs, selected, k).len() as int]
            == txs[k],
    decreases n - k,
{
    if k < n {
        lemma_picked_prefix(txs, selected, k, n - 1);
    }
}

proof fn lemma_first_malformed_at(txs: Seq<TransactionView>, m: int)
    requires
        0 <= m < txs.len(),
        forall|i: int| 0 <= i < m ==> index_well_formed(#[trigger] txs[i]),
        !index_well_formed(txs[m]),
    ensures
        first_malformed_index(txs) == txs[m].transaction_index,
    decreases m,
{
    if m > 0 {
        let rest = txs.drop_first();
        lemma_first_malformed_at(rest, m - 1);
    }
}

/// A block in which no transaction is addressed to the target filters to
/// nothing: no record and no error, whatever else the block holds.
pub proof fn lemma_no_match_filters_to_nothing(block: BlockView, target: Seq<char>)
    requires
        forall|i: int|
            0 <= i < block.transactions.len() ==> !addressed_to(
                #[trigger] block.transactions[i],
                target,
            ),
    ensures
        filter_outcome(block, target) == Ok::<Seq<FilteredTransactionView>, FilterFailure>(
            Seq::empty(),
        ),
{
    lemma_none_picked(
        block.transactions,
        addressed(block.transactions, target),
        block.transactions.len() as int,
    );
}

proof fn lemma_none_picked(txs: Seq<TransactionView>, selected: Seq<bool>, n: int)
    requires
        forall|i: int| 0 <= i < n ==> !picked(txs, selected, i),
    ensures
        picked_among(txs, selected, n).len() == 0,
    decreases n,
{
    if n > 0 {
        lemma_none_picked(txs, selected, n - 1);
    }
}

/// Every transaction addressed to the target, in whatever letter case, gives
/// exactly one record where the block filters at all: the record of the
/// transaction at `i` stands behind the records of the matching transactions
/// before it, and there are as many records as matching transactions.
pub proof fn lemma_each_match_is_kept_once(block: BlockView, target: Seq<char>, i: int)
    requires
        0 <= i < block.transactions.len(),
        addressed_to(block.transactions[i], target),
        filter_outcome(block, target) is Ok,
    ensures
        ({
            let records = filter_outcome(block, target)->Ok_0;
            let before = matching(block.transactions.take(i), target).len();
            &&& normalized_quantity(block.number) is Some
            &&& normalized_quantity(block.transactions[i].transaction_index) is Some
            &&& records.len() == matching(block.transactions, target).len()
            &&& before < records.len()
            &&& records[before as int] == record_of(
                block.transactions[i],
                normalized_quantity(block.number).unwrap(),
                normalized_quantity(block.transactions[i].transaction_index).unwrap(),
            )
        }),
{
    let txs = block.transactions;
    let selected = addressed(txs, target);
    lemma_picked_prefix(txs, selected, i, txs.len() as int);
    lemma_matching_of_prefix(txs, target, i, i);
}

/// The matching transactions of a prefix of a block are the matching ones
/// among as many transactions of the block.
proof fn lemma_matching_of_prefix(txs: Seq<TransactionView>, target: Seq<char>, k: int, n: int)
    requires
        0 <= n <= k <= txs.len(),
    ensures
        picked_among(txs.take(k), addressed(txs.take(k), target), n) == picked_among(
            txs,
            addressed(txs, target),
            n,
        ),
    decreases n,
{
    if n > 0 {
        lemma_matching_of_prefix(txs, target, k, n - 1);
    }
}

/// The records keep the order of the block: of two transactions addressed to
/// the target, the record of the earlier one stands before that of the later.
pub proof fn lemma_matches_keep_their_order(
    txs: Seq<TransactionView>,
    target: Seq<char>,
    i: int,
    j: int,
)
    requires
        0 <= i < j < txs.len(),
        addressed_to(txs[i], target),
    ensures
        matching(txs.take(i), target).len() < matching(txs.take(j), target).len(),
{
    lemma_matching_of_prefix(txs, target, i, i);
    lemma_matching_of_prefix(txs, target, j, j);
    lemma_picked_prefix(txs, addressed(txs, target), i, j);
}

/// For each recipient, whether it is there and equal to `target`.
pub open spec fn marks_of(recipients: Seq<Option<Seq<char>>>, target: Seq<char>) -> Seq<bool> {
    Seq::new(recipients.len(), |i: int| recipients[i] == Some(target))
}

/// What a list of optional texts is in contracts.
pub open spec fn texts_of(texts: Seq<Option<String>>) -> Seq<Option<Seq<char>>> {
    texts.map_values(|text: Option<String>| text_of(text))
}

fn is_target(recipient: &Option<String>, target: &String) -> (b: bool)
    ensures
        b == (text_of(*recipient) == Some(target@)),
{
    match recipient {
        Some(recipient) => *recipient == *target,
        None => false,
    }
}

/// Filters a block by addresses that are in canonical form already:
/// `recipients` holds the canonical recipient of each transaction, in the
/// order of the block, and `target` the canonical target. A transaction is
/// picked where its canonical recipient is equal to the target; the result
/// holds the canonical record of each picked transaction.
pub fn filter_by_recipient(
    block: &Block,
    recipients: &Vec<Option<String>>,
    target: &String,
) -> (r: Result<Vec<FilteredTransaction>, FilterError>)
    ensures
        match r {
            Ok(records) => selection_outcome(block@, marks_of(texts_of(recipients@), target@))
                == Ok::<Seq<FilteredTransactionView>, FilterFailure>(record_views(records@)),
            Err(e) => selection_outcome(block@, marks_of(texts_of(recipients@), target@)) == Err::<
                Seq<FilteredTransactionView>,
                FilterFailure,
            >(e@),
        },
{
    let ghost txs = block@.transactions;
    let ghost selected = marks_of(texts_of(recipients@), target@);
    let ghost number_text = normalized_quantity(block@.number);
    let ghost convert = |tx: TransactionView|
        record_of(
            tx,
            normalized_quantity(block@.number).unwrap(),
            normalized_quantity(tx.transaction_index).unwrap(),
        );
    let mut records: Vec<FilteredTransaction> = Vec::new();
    let mut block_number: Option<String> = None;
    let n = block.transactions.len();
    let mut i: usize = 0;
    while i < n
        invariant
            i <= n,
            n == block.transactions.len(),
            txs == block@.transactions,
            txs.len() == n,
            selected == marks_of(texts_of(recipients@), target@),
            convert == (|tx: TransactionView|
                record_of(
                    tx,
                    normalized_quantity(block@.number).unwrap(),
                    normalized_quantity(tx.transaction_index).unwrap(),
                )),
            number_text == normalized_quantity(block@.number),
            match block_number {
                Some(text) => number_text == Some(text@),
                None => picked_among(txs, selected, i as int).len() == 0,
            },
            forall|k: int|
                0 <= k < picked_among(txs, selected, i as int).len() ==> index_well_formed(
                    #[trigger] picked_among(txs, selected, i as int)[k],
                ),
            record_views(records@) == picked_among(txs, selected, i as int).map_values(convert),
        decreases n - i,
    {
        let tx = &block.transactions[i];
        let ghost before = picked_among(txs, selected, i as int);
        let ghost found = picked_among(txs, selected, n as int);
        proof {
            lemma_picked_prefix(txs, selected, i as int, n as int);
        }
        if i < recipients.len() && is_target(&recipients[i], target) {
            match &tx.to {
                Some(to) => {
                    if block_number.is_none() {
                        match normalize_quantity(block.number.as_str()) {
                            Some(text) => {
                                block_number = Some(text);
                            },
                            None => {
                                return Err(
                                    FilterError::InvalidBlockNumber { text: block.number.clone() },
                                );
                            },
                        }
                    }
                    let number = match &block_number {
                        Some(text) => text.clone(),
                        None => String::new(),
                    };
                    let index = match normalize_quantity(tx.transaction_index.as_str()) {
                        Some(text) => text,
                        None => {
                            proof {
                                assert forall|k: int| 0 <= k < before.len() implies index_well_formed(
                                    #[trigger] found[k],
                                ) by {
                                    assert(found.take(before.len() as int)[k] == found[k]);
                                }
                                lemma_first_malformed_at(found, before.len() as int);
                            }
                            return Err(
                                FilterError::InvalidTransactionIndex {
                                    text: tx.transaction_index.clone(),
                                },
                            );
                        },
                    };
                    let record = FilteredTransaction {
                        hash: tx.hash.clone(),
                        from: tx.from.clone(),
                        to: to.clone(),
                        value: tx.value.clone(),
                        data: tx.input.clone(),
                        block_number: number,
                        transaction_index: index,
                        gas_price: tx.gas_price.clone(),
                    };
                    let ghost old_records = records@;
                    records.push(record);
                    assert(record_views(records@) =~= record_views(old_records).push(convert(tx@)));
                },
                None => {},
            }
        }
        i = i + 1;
    }
    proof {
        let found = picked_among(txs, selected, n as int);
        if found.len() == 0 {
            assert(record_views(records@) =~= Seq::<FilteredTransactionView>::empty());
        }
    }
    Ok(records)
}

/// Selects the transactions of `block` that are addressed to `target_contract`,
/// compared without regard to letter case, and gives the canonical record of each.
pub fn filter_block_transactions(block: &Block, target_contract: &str) -> (r: Result<
    Vec<FilteredTransaction>,
    FilterError,
>)
    ensures
        match r {
            Ok(records) => filter_outcome(block@, target_contract@) == Ok::<
                Seq<FilteredTransactionView>,
                FilterFailure,
            >(record_views(records@)),
            Err(e) => filter_outcome(block@, target_contract@) == Err::<
                Seq<FilteredTransactionView>,
                FilterFailure,
            >(e@),
        },
{
    let target_lower = to_lowercase(target_contract);
    let ghost txs = block@.transactions;
    let mut recipients: Vec<Option<String>> = Vec::new();
    let n = block.transactions.len();
    let mut i: usize = 0;
    while i < n
        invariant
            i <= n,
            n == block.transactions.len(),
            txs == block@.transactions,
            recipients@.len() == i,
            forall|k: int|
                0 <= k < i ==> text_of(#[trigger] recipients@[k]) == match txs[k].to {
                    Some(to) => Some(lowercase_of(to)),
                    None => None,
                },
        decreases n - i,
    {
        let recipient = match &block.transactions[i].to {
            Some(to) => Some(to_lowercase(to.as_str())),
            None => None,
        };
        recipients.push(recipient);
        i = i + 1;
    }
    assert(marks_of(texts_of(recipients@), target_lower@) =~= addressed(txs, target_contract@));
    filter_by_recipient(block, &recipients, &target_lower)
}

} // verus!
