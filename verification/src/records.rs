//! The data that passes through the library, and what each value is in contracts.

use vstd::prelude::*;

verus! {

/// A transaction as the remote block source reports it.
#[derive(Clone, Debug, PartialEq, Eq)]
pub struct Transaction {
    pub hash: String,
    pub from: String,
    /// The recipient; absent for a transaction that creates a contract.
    pub to: Option<String>,
    pub value: String,
    pub input: String,
    pub transaction_index: String,
    pub gas_price: String,
}

/// A block as the remote block source reports it.
#[derive(Clone, Debug, PartialEq, Eq)]
pub struct Block {
    pub transactions: Vec<Transaction>,
    pub number: String,
    pub base_fee_per_gas: Option<String>,
}

/// A transaction that passed the filter: the recipient is present, and the block
/// number and the index within the block are in canonical decimal form.
#[derive(Clone, Debug, PartialEq, Eq)]
pub struct FilteredTransaction {
    pub hash: String,
    pub from: String,
    pub to: String,
    pub value: String,
    pub data: String,
    pub block_number: String,
    pub transaction_index: String,
    pub gas_price: String,
}

/// A `Transaction` in contracts.
pub struct TransactionView {
    pub hash: Seq<char>,
    pub from: Seq<char>,
    pub to: Option<Seq<char>>,
    pub value: Seq<char>,
    pub input: Seq<char>,
    pub transaction_index: Seq<char>,
    pub gas_price: Seq<char>,
}

/// A `Block` in contracts.
pub struct BlockView {
    pub transactions: Seq<TransactionView>,
    pub number: Seq<char>,
    pub base_fee_per_gas: Option<Seq<char>>,
}

/// A `FilteredTransaction` in contracts.
pub struct FilteredTransactionView {
    pub hash: Seq<char>,
    pub from: Seq<char>,
    pub to: Seq<char>,
    pub value: Seq<char>,
    pub data: Seq<char>,
    pub block_number: Seq<char>,
    pub transaction_index: Seq<char>,
    pub gas_price: Seq<char>,
}

/// An optional text in contracts.
pub open spec fn text_of(s: Option<String>) -> Option<Seq<char>> {
    match s {
        Some(s) => Some(s@),
        None => None,
    }
}

impl View for Transaction {
    type V = TransactionView;

    open spec fn view(&self) -> TransactionView {
        TransactionView {
            hash: self.hash@,
            from: self.from@,
            to: text_of(self.to),
            value: self.value@,
            input: self.input@,
            transaction_index: self.transaction_index@,
            gas_price: self.gas_price@,
        }
    }
}

impl View for Block {
    type V = BlockView;

    open spec fn view(&self) -> BlockView {
        BlockView {
            transactions: self.transactions@.map_values(|tx: Transaction| tx@),
            number: self.number@,
            base_fee_per_gas: text_of(self.base_fee_per_gas),
        }
    }
}

impl View for FilteredTransaction {
    type V = FilteredTransactionView;

    open spec fn view(&self) -> FilteredTransactionView {
        FilteredTransactionView {
            hash: self.hash@,
            from: self.from@,
            to: self.to@,
            value: self.value@,
            data: self.data@,
            block_number: self.block_number@,
            transaction_index: self.transaction_index@,
            gas_price: self.gas_price@,
        }
    }
}

/// What a list of output records is in contracts.
pub open spec fn record_views(records: Seq<FilteredTransaction>) -> Seq<FilteredTransactionView> {
    records.map_values(|tx: FilteredTransaction| tx@)
}

} // verus!
