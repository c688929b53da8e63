//! The range fetcher: which block is fetched next, how many fetches run at
//! once, and what the outcomes of the blocks add up to.
//!
//! The fetcher does no fetching itself. It hands out one action at a time; the
//! caller starts the fetch it is told to start, waits when told to wait, and
//! reports each fetch that ends. Batches are worked through one after the
//! other, and the records of a batch are taken up in the order of its blocks,
//! whatever the order in which the fetches ended.

use vstd::prelude::*;
use vstd::string::*;
use vstd::arithmetic::div_mod::lemma_mod_add_multiples_vanish;
use vstd::set_lib::lemma_int_range;
use vstd::set_lib::lemma_len_subset;
use vstd::set_lib::set_int_range;
use crate::filter::{failure_message, filter_block_transactions, filter_outcome};
use crate::records::{record_views, Block, FilteredTransaction, FilteredTransactionView};

verus! {

/// Why a run cannot be set up.
#[derive(Clone, Copy, Debug, PartialEq, Eq, Structural)]
pub enum ConfigError {
    /// The first block lies after the last.
    EmptyRange,
    /// The batch size is zero.
    ZeroBatchSize,
    /// The concurrency cap is zero.
    ZeroConcurrency,
}

/// What the caller is to do next.
#[derive(Clone, Copy, Debug, PartialEq, Eq, Structural)]
pub enum Action {
    /// Start the fetch of this block.
    Dispatch { block_number: u64 },
    /// Wait until a fetch that is in flight ends, and report it.
    Wait,
    /// Every block of the range has been reported.
    Finished,
}

/// The failure of one block: its number and what went wrong.
#[derive(Clone, Debug, PartialEq, Eq)]
pub struct FetchError {
    pub block_number: u64,
    pub message: String,
}

/// A `FetchError` in contracts.
pub struct FetchErrorView {
    pub block_number: u64,
    pub message: Seq<char>,
}

impl View for FetchError {
    type V = FetchErrorView;

    open spec fn view(&self) -> FetchErrorView {
        FetchErrorView { block_number: self.block_number, message: self.message@ }
    }
}

/// What became of a reported fetch.
#[derive(Clone, Debug, PartialEq, Eq)]
pub enum Completion {
    /// The block was fetched and filtered; it holds this many matching transactions.
    Found { count: usize },
    /// The block failed, in the fetch or in the filter. It counts as attempted
    /// and adds nothing to the result.
    Failed { error: FetchError },
    /// The block was not in flight; the report was ignored.
    NotInFlight,
}

/// The end of a run.
#[derive(Clone, Debug, PartialEq, Eq)]
pub struct RangeResult {
    /// The matching transactions, by ascending block and, within a block, in
    /// the order of the block.
    pub transactions: Vec<FilteredTransaction>,
    /// The blocks that were fetched, whatever came of them. Wider than a
    /// block number, since a range can hold one block more than `u64` counts.
    pub blocks_attempted: u128,
    /// The blocks that were fetched and filtered.
    pub blocks_succeeded: u128,
    /// The blocks that failed, in the fetch or in the filter.
    pub blocks_failed: u128,
    pub transactions_found: usize,
}

/// What the fetch of one block came to: the matching transactions of the
/// block, or the failure of the fetch or of the filter.
#[derive(Clone, Debug, PartialEq, Eq)]
pub enum FetchOutcome {
    Found(Vec<FilteredTransaction>),
    Failed(FetchError),
}

/// A `FetchOutcome` in contracts.
pub enum BlockOutcome {
    Found(Seq<FilteredTransactionView>),
    Failed(FetchErrorView),
}

impl View for FetchOutcome {
    type V = BlockOutcome;

    open spec fn view(&self) -> BlockOutcome {
        match self {
            FetchOutcome::Found(records) => BlockOutcome::Found(record_views(records@)),
            FetchOutcome::Failed(error) => BlockOutcome::Failed(error@),
        }
    }
}

/// The outcome of a block from what its fetch returned. A block that was
/// fetched comes to the records that the filter finds in it, or to a failure
/// that names the block and says what the filter rejected. A fetch that failed
/// comes to its own failure.
pub open spec fn outcome_of(
    block_number: u64,
    fetched: Result<Block, FetchError>,
    target: Seq<char>,
) -> BlockOutcome {
    match fetched {
        Ok(block) => match filter_outcome(block@, target) {
            Ok(records) => BlockOutcome::Found(records),
            Err(failure) => BlockOutcome::Failed(
                FetchErrorView { block_number, message: failure_message(failure) },
            ),
        },
        Err(error) => BlockOutcome::Failed(error@),
    }
}

/// What is reported back for an outcome that was taken up.
pub open spec fn completion_of(outcome: FetchOutcome) -> Completion {
    match outcome {
        FetchOutcome::Found(records) => Completion::Found { count: records@.len() as usize },
        FetchOutcome::Failed(error) => Completion::Failed { error },
    }
}

/// The records that block `b` adds to the result: those found in it, and none
/// while it is not reported or where it failed.
pub open spec fn records_at(outcomes: Map<int, BlockOutcome>, b: int) -> Seq<
    FilteredTransactionView,
> {
    if outcomes.dom().contains(b) {
        match outcomes[b] {
            BlockOutcome::Found(records) => records,
            BlockOutcome::Failed(_) => Seq::empty(),
        }
    } else {
        Seq::empty()
    }
}

/// Block `b` was reported, fetched and filtered.
pub open spec fn succeeded_at(outcomes: Map<int, BlockOutcome>, b: int) -> bool {
    outcomes.dom().contains(b) && outcomes[b] is Found
}

/// The records of the blocks `first ..= last`, by ascending block.
pub open spec fn aggregate(outcomes: Map<int, BlockOutcome>, first: int, last: int) -> Seq<
    FilteredTransactionView,
>
    decreases last - first + 1,
{
    if last < first {
        Seq::empty()
    } else {
        aggregate(outcomes, first, last - 1) + records_at(outcomes, last)
    }
}

/// How many of the blocks `first ..= last` succeeded.
pub open spec fn succeeded_count(outcomes: Map<int, BlockOutcome>, first: int, last: int) -> nat
    decreases last - first + 1,
{
    if last < first {
        0
    } else {
        succeeded_count(outcomes, first, last - 1) + if succeeded_at(outcomes, last) {
            1nat
        } else {
            0nat
        }
    }
}

/// Which of the three rules a configuration breaks first, if any.
pub open spec fn config_error(
    start_block: u64,
    end_block: u64,
    batch_size: usize,
    max_concurrent: usize,
) -> Option<ConfigError> {
    if start_block > end_block {
        Some(ConfigError::EmptyRange)
    } else if batch_size == 0 {
        Some(ConfigError::ZeroBatchSize)
    } else if max_concurrent == 0 {
        Some(ConfigError::ZeroConcurrency)
    } else {
        None
    }
}

/// Passes a fetched block through the filter, as soon as its fetch has ended.
pub fn filter_fetched(
    block_number: u64,
    fetched: Result<Block, FetchError>,
    target_contract: &str,
) -> (outcome: FetchOutcome)
    ensures
        outcome@ == outcome_of(block_number, fetched, target_contract@),
{
    match fetched {
        Ok(block) => match filter_block_transactions(&block, target_contract) {
            Ok(records) => FetchOutcome::Found(records),
            Err(e) => FetchOutcome::Failed(FetchError { block_number, message: e.message() }),
        },
        Err(error) => FetchOutcome::Failed(error),
    }
}

enum Slot {
    InFlight,
    Found(Vec<FilteredTransaction>),
    Failed,
}

spec fn slot_agrees(slot: Slot, outcomes: Map<int, BlockOutcome>, b: int) -> bool {
    match slot {
        Slot::InFlight => !outcomes.dom().contains(b),
        Slot::Found(records) => outcomes.dom().contains(b) && outcomes[b] == BlockOutcome::Found(
            record_views(records@),
        ),
        Slot::Failed => outcomes.dom().contains(b) && outcomes[b] is Failed,
    }
}

fn slot_in_flight(slot: &Slot) -> (r: bool)
    ensures
        r == (slot is InFlight),
{
    match slot {
        Slot::InFlight => true,
        _ => false,
    }
}

/// Outcomes that agree on the blocks `first ..= last` add up to the same there.
proof fn lemma_aggregate_agrees(
    a: Map<int, BlockOutcome>,
    b: Map<int, BlockOutcome>,
    first: int,
    last: int,
)
    requires
        forall|k: int|
            #![trigger a.dom().contains(k)]
            #![trigger b.dom().contains(k)]
            first <= k <= last ==> (a.dom().contains(k) == b.dom().contains(k)) && (a.dom().contains(
                k,
            ) ==> a[k] == b[k]),
    ensures
        aggregate(a, first, last) == aggregate(b, first, last),
        succeeded_count(a, first, last) == succeeded_count(b, first, last),
    decreases last - first + 1,
{
    if last >= first {
        lemma_aggregate_agrees(a, b, first, last - 1);
    }
}

/// No more blocks of a range succeeded than the range holds.
proof fn lemma_succeeded_count_bound(outcomes: Map<int, BlockOutcome>, first: int, last: int)
    requires
        first <= last + 1,
    ensures
        succeeded_count(outcomes, first, last) <= last - first + 1,
    decreases last - first + 1,
{
    if last >= first {
        lemma_succeeded_count_bound(outcomes, first, last - 1);
    }
}

/// The records of a range are those of its lower part, then those of its upper part.
pub proof fn lemma_aggregate_split(
    outcomes: Map<int, BlockOutcome>,
    first: int,
    middle: int,
    last: int,
)
    requires
        first - 1 <= middle <= last,
    ensures
        aggregate(outcomes, first, last) == aggregate(outcomes, first, middle) + aggregate(
            outcomes,
            middle + 1,
            last,
        ),
        succeeded_count(outcomes, first, last) == succeeded_count(outcomes, first, middle)
            + succeeded_count(outcomes, middle + 1, last),
    decreases last - middle,
{
    if middle < last {
        lemma_aggregate_split(outcomes, first, middle, last - 1);
    }
}

/// A block that failed, or that was not reported, adds nothing to the result
/// and takes nothing from it: the records of a range around it are those of
/// the blocks below it, then those of the blocks above it, and it is not among
/// the blocks that succeeded.
pub proof fn lemma_failure_is_isolated(
    outcomes: Map<int, BlockOutcome>,
    first: int,
    last: int,
    b: int,
)
    requires
        first <= b <= last,
        !succeeded_at(outcomes, b),
    ensures
        aggregate(outcomes, first, last) == aggregate(outcomes, first, b - 1) + aggregate(
            outcomes,
            b + 1,
            last,
        ),
        succeeded_count(outcomes, first, last) == succeeded_count(outcomes, first, b - 1)
            + succeeded_count(outcomes, b + 1, last),
{
    lemma_aggregate_split(outcomes, first, b - 1, last);
    lemma_aggregate_split(outcomes, b, b, last);
    assert(aggregate(outcomes, b, b) == aggregate(outcomes, b, b - 1) + records_at(outcomes, b));
    assert(succeeded_count(outcomes, b, b) == succeeded_count(outcomes, b, b - 1) + 0);
}

/// The records of a block that succeeded stand in the result between those
/// of the blocks below it and those of the blocks above it, whatever became
/// of those blocks.
pub proof fn lemma_success_is_kept(
    outcomes: Map<int, BlockOutcome>,
    first: int,
    last: int,
    b: int,
)
    requires
        first <= b <= last,
        succeeded_at(outcomes, b),
    ensures
        aggregate(outcomes, first, last) == aggregate(outcomes, first, b - 1) + outcomes[b]->Found_0
            + aggregate(outcomes, b + 1, last),
        succeeded_count(outcomes, first, last) == succeeded_count(outcomes, first, b - 1) + 1
            + succeeded_count(outcomes, b + 1, last),
{
    lemma_aggregate_split(outcomes, first, b - 1, last);
    lemma_aggregate_split(outcomes, b, b, last);
    assert(aggregate(outcomes, b, b) == aggregate(outcomes, b, b - 1) + records_at(outcomes, b));
    assert(succeeded_count(outcomes, b, b) == succeeded_count(outcomes, b, b - 1) + 1);
}

proof fn lemma_report_adds_one(
    outcomes: Map<int, BlockOutcome>,
    first: int,
    last: int,
    b: int,
    outcome: BlockOutcome,
)
    requires
        first <= b <= last,
        !outcomes.dom().contains(b),
    ensures
        succeeded_count(outcomes.insert(b, outcome), first, last) == succeeded_count(
            outcomes,
            first,
            last,
        ) + if outcome is Found {
            1nat
        } else {
            0nat
        },
{
    let after = outcomes.insert(b, outcome);
    lemma_aggregate_split(outcomes, first, b - 1, last);
    lemma_aggregate_split(outcomes, b, b, last);
    lemma_aggregate_split(after, first, b - 1, last);
    lemma_aggregate_split(after, b, b, last);
    lemma_aggregate_agrees(outcomes, after, first, b - 1);
    lemma_aggregate_agrees(outcomes, after, b + 1, last);
    assert(succeeded_count(outcomes, b, b) == succeeded_count(outcomes, b, b - 1) + 0);
    assert(succeeded_count(after, b, b) == succeeded_count(after, b, b - 1) + if outcome is Found {
        1nat
    } else {
        0nat
    });
}

proof fn lemma_record_views_add(a: Seq<FilteredTransaction>, b: Seq<FilteredTransaction>)
    ensures
        record_views(a + b) == record_views(a) + record_views(b),
{
}

/// The state of one run over a range of blocks.
pub struct RangeFetcher {
    start_block: u64,
    end_block: u64,
    batch_size: usize,
    max_concurrent: usize,
    target_contract: String,
    /// The first block of the batch being worked on.
    batch_start: u64,
    /// One slot for each block of the batch that was dispatched, in block order.
    slots: Vec<Slot>,
    in_flight: usize,
    /// The records of the batches that are done.
    transactions: Vec<FilteredTransaction>,
    blocks_attempted: u128,
    blocks_succeeded: u128,
    outcomes: Ghost<Map<int, BlockOutcome>>,
}

impl RangeFetcher {
    /// The first block of the range.
    pub closed spec fn range_start(&self) -> u64 {
        self.start_block
    }

    /// The last block of the range.
    pub closed spec fn range_end(&self) -> u64 {
        self.end_block
    }

    /// How many blocks a batch holds; the last batch may hold fewer.
    pub closed spec fn batch_size(&self) -> usize {
        self.batch_size
    }

    /// How many fetches may be in flight at once.
    pub closed spec fn max_concurrent(&self) -> usize {
        self.max_concurrent
    }

    /// The address that the transactions are filtered for.
    pub closed spec fn target(&self) -> Seq<char> {
        self.target_contract@
    }

    /// The first block of the batch that is being worked on.
    pub closed spec fn batch_first(&self) -> int {
        self.batch_start as int
    }

    /// The block that is dispatched next: every block before it was
    /// dispatched, none from it on. One past the range when none is left.
    pub closed spec fn next_block(&self) -> int {
        self.batch_start + self.slots.len()
    }

    /// The blocks in flight among the first `k` that were dispatched in this batch.
    spec fn in_flight_among(&self, k: int) -> Set<int> {
        Set::new(
            |b: int|
                self.batch_start <= b < self.batch_start + k && self.slots[b
                    - self.batch_start] is InFlight,
        )
    }

    /// The blocks whose fetch was started and has not been reported.
    pub closed spec fn in_flight(&self) -> Set<int> {
        self.in_flight_among(self.slots.len() as int)
    }

    /// The outcome of every block that was reported.
    pub closed spec fn outcomes(&self) -> Map<int, BlockOutcome> {
        self.outcomes@
    }

    /// How many blocks have been reported.
    pub closed spec fn attempted(&self) -> nat {
        self.blocks_attempted as nat
    }

    /// How many reported blocks were fetched and filtered.
    pub closed spec fn succeeded(&self) -> nat {
        self.blocks_succeeded as nat
    }

    /// How many reported blocks failed.
    pub open spec fn failed(&self) -> int {
        self.attempted() - self.succeeded()
    }

    /// The last block of the batch that is being worked on.
    pub open spec fn batch_last(&self) -> int {
        if self.batch_first() + self.batch_size() - 1 < self.range_end() {
            self.batch_first() + self.batch_size() - 1
        } else {
            self.range_end() as int
        }
    }

    /// How many dispatches and reports the run still needs: two for each block
    /// that is left to dispatch, one for each block in flight.
    pub open spec fn steps_left(&self) -> int {
        2 * (self.range_end() + 1 - self.next_block()) + self.in_flight().len()
    }

    /// The run is over: every block of the range was dispatched and reported.
    pub open spec fn is_complete(&self) -> bool {
        self.next_block() == self.range_end() + 1 && self.in_flight().len() == 0
    }

    /// The state is one that a run can reach.
    pub closed spec fn wf(&self) -> bool {
        &&& self.start_block <= self.batch_start <= self.end_block
        &&& self.batch_size >= 1
        &&& self.max_concurrent >= 1
        &&& (self.batch_start - self.start_block) % (self.batch_size as int) == 0
        &&& self.slots.len() <= self.batch_size
        &&& self.batch_start + self.slots.len() <= self.end_block + 1
        &&& self.in_flight().finite()
        &&& self.in_flight().len() == self.in_flight
        &&& self.in_flight <= self.max_concurrent
        &&& forall|b: int| #[trigger]
            self.outcomes@.dom().contains(b) ==> self.start_block <= b < self.batch_start
                + self.slots.len()
        &&& forall|b: int|
            self.start_block <= b < self.batch_start ==> #[trigger] self.outcomes@.dom().contains(b)
        &&& forall|i: int|
            0 <= i < self.slots.len() ==> slot_agrees(
                #[trigger] self.slots[i],
                self.outcomes@,
                self.batch_start + i,
            )
        &&& record_views(self.transactions@) == aggregate(
            self.outcomes@,
            self.start_block as int,
            self.batch_start - 1,
        )
        &&& self.blocks_attempted == self.batch_start + self.slots.len() - self.start_block
            - self.in_flight
        &&& self.blocks_succeeded == succeeded_count(
            self.outcomes@,
            self.start_block as int,
            self.batch_start + self.slots.len() - 1,
        )
    }

    /// Two states belong to one run: range, batch size, cap and target agree.
    pub open spec fn same_run(&self, other: &RangeFetcher) -> bool {
        &&& self.range_start() == other.range_start()
        &&& self.range_end() == other.range_end()
        &&& self.batch_size() == other.batch_size()
        &&& self.max_concurrent() == other.max_concurrent()
        &&& self.target() == other.target()
    }

    /// Sets up a run over the blocks `start_block ..= end_block`. Nothing is
    /// dispatched yet.
    pub fn new(
        start_block: u64,
        end_block: u64,
        target_contract: &str,
        batch_size: usize,
        max_concurrent: usize,
    ) -> (r: Result<RangeFetcher, ConfigError>)
        ensures
            match r {
                Ok(_) => config_error(start_block, end_block, batch_size, max_concurrent) is None,
                Err(e) => config_error(start_block, end_block, batch_size, max_concurrent) == Some(
                    e,
                ),
            },
            r matches Ok(fetcher) ==> {
                &&& fetcher.wf()
                &&& fetcher.range_start() == start_block
                &&& fetcher.range_end() == end_block
                &&& fetcher.batch_size() == batch_size
                &&& fetcher.max_concurrent() == max_concurrent
                &&& fetcher.target() == target_contract@
                &&& fetcher.batch_first() == start_block
                &&& fetcher.next_block() == start_block
                &&& fetcher.in_flight() == Set::<int>::empty()
                &&& fetcher.outcomes() == Map::<int, BlockOutcome>::empty()
                &&& fetcher.attempted() == 0
                &&& fetcher.succeeded() == 0
            },
    {
        if start_block > end_block {
            return Err(ConfigError::EmptyRange);
        }
        if batch_size == 0 {
            return Err(ConfigError::ZeroBatchSize);
        }
        if max_concurrent == 0 {
            return Err(ConfigError::ZeroConcurrency);
        }
        let fetcher = RangeFetcher {
            start_block,
            end_block,
            batch_size,
            max_concurrent,
            target_contract: target_contract.to_owned(),
            batch_start: start_block,
            slots: Vec::new(),
            in_flight: 0,
            transactions: Vec::new(),
            blocks_attempted: 0,
            blocks_succeeded: 0,
            outcomes: Ghost(Map::empty()),
        };
        proof {
            assert(fetcher.in_flight() =~= Set::<int>::empty());
            assert(record_views(fetcher.transactions@) =~= Seq::<FilteredTransactionView>::empty());
            assert(fetcher.wf());
        }
        Ok(fetcher)
    }

    /// The action that is due in this state. A block of the batch being worked
    /// on is dispatched while fewer than `max_concurrent` fetches are in flight;
    /// the first block of the next batch only once none is. Otherwise the
    /// caller waits for a fetch to end, and when no block is left and none is
    /// in flight the run is over.
    pub open spec fn due_action(&self) -> Action {
        if self.next_block() > self.range_end() {
            if self.in_flight().len() == 0 {
                Action::Finished
            } else {
                Action::Wait
            }
        } else if self.in_flight().len() == 0 || (self.in_flight().len() < self.max_concurrent()
            && self.next_block() < self.batch_first() + self.batch_size()) {
            Action::Dispatch { block_number: self.next_block() as u64 }
        } else {
            Action::Wait
        }
    }

    /// Every state of a run keeps the fetches in flight within the cap and
    /// within one batch: at most `max_concurrent` and at most `batch_size`
    /// blocks are in flight, all of them in the batch being worked on, which
    /// begins a whole number of batches after the start of the range.
    pub proof fn lemma_in_flight_is_bounded(&self)
        requires
            self.wf(),
        ensures
            self.in_flight().finite(),
            self.in_flight().len() <= self.max_concurrent(),
            self.in_flight().len() <= self.batch_size(),
            forall|b: int| #[trigger]
                self.in_flight().contains(b) ==> self.batch_first() <= b < self.next_block(),
            self.range_start() <= self.batch_first() <= self.range_end(),
            self.batch_size() >= 1,
            (self.batch_first() - self.range_start()) % (self.batch_size() as int) == 0,
            self.batch_first() <= self.next_block() <= self.batch_first() + self.batch_size(),
            self.next_block() <= self.range_end() + 1,
    {
        let all = set_int_range(self.batch_first(), self.next_block());
        lemma_int_range(self.batch_first(), self.next_block());
        lemma_len_subset(self.in_flight(), all);
    }

    /// A run ends: every dispatch and every report of a block in flight takes
    /// one step off a count that never falls below zero, and the run is over
    /// exactly when none is left.
    pub proof fn lemma_run_ends(&self)
        requires
            self.wf(),
        ensures
            self.steps_left() >= 0,
            self.steps_left() == 0 <==> self.is_complete(),
    {
    }

    /// Every state of a run has reported exactly the blocks that were
    /// dispatched and are no longer in flight, and counts them so. When the
    /// run is over, that is every block of the range.
    pub proof fn lemma_reported_blocks_are_counted(&self)
        requires
            self.wf(),
        ensures
            forall|b: int|
                self.outcomes().dom().contains(b) <==> self.range_start() <= b < self.next_block()
                    && !self.in_flight().contains(b),
            self.attempted() == self.next_block() - self.range_start() - self.in_flight().len(),
            self.succeeded() == succeeded_count(
                self.outcomes(),
                self.range_start() as int,
                self.next_block() - 1,
            ),
            self.succeeded() <= self.attempted(),
            self.is_complete() ==> forall|b: int|
                self.range_start() <= b <= self.range_end() ==> #[trigger] self.outcomes().dom().contains(
                    b,
                ),
    {
        if self.is_complete() {
            self.in_flight().lemma_len0_is_empty();
            assert forall|b: int| self.range_start() <= b <= self.range_end() implies #[trigger]
                self.outcomes().dom().contains(b) by {
                if self.batch_start <= b {
                    assert(!self.in_flight().contains(b));
                }
            }
        }
        self.lemma_succeeded_le_attempted();
    }

    proof fn lemma_succeeded_le_attempted(&self)
        requires
            self.wf(),
        ensures
            self.blocks_succeeded <= self.blocks_attempted,
    {
        let first = self.start_block as int;
        let middle = self.batch_start - 1;
        let last = self.batch_start + self.slots.len() - 1;
        lemma_aggregate_split(self.outcomes@, first, middle, last);
        lemma_succeeded_count_bound(self.outcomes@, first, middle);
        self.lemma_slots_succeeded(self.slots.len() as int);
    }

    proof fn lemma_slots_succeeded(&self, k: int)
        requires
            self.wf(),
            0 <= k <= self.slots.len(),
        ensures
            self.in_flight_among(k).finite(),
            succeeded_count(self.outcomes@, self.batch_start as int, self.batch_start + k - 1)
                + self.in_flight_among(k).len() <= k,
        decreases k,
    {
        if k == 0 {
            assert(self.in_flight_among(0) =~= Set::<int>::empty());
        } else {
            self.lemma_slots_succeeded(k - 1);
            let b = self.batch_start + k - 1;
            if self.slots[k - 1] is InFlight {
                assert(self.in_flight_among(k) =~= self.in_flight_among(k - 1).insert(b));
            } else {
                assert(self.in_flight_among(k) =~= self.in_flight_among(k - 1));
            }
        }
    }

    /// Takes the records of the batch, in the order of its blocks, into the
    /// result and empties the slots.
    fn merge_batch(&mut self)
        requires
            old(self).wf(),
            old(self).in_flight == 0,
        ensures
            final(self).slots@.len() == 0,
            record_views(final(self).transactions@) == aggregate(
                old(self).outcomes@,
                old(self).start_block as int,
                old(self).batch_start + old(self).slots.len() - 1,
            ),
            final(self).start_block == old(self).start_block,
            final(self).end_block == old(self).end_block,
            final(self).batch_size == old(self).batch_size,
            final(self).max_concurrent == old(self).max_concurrent,
            final(self).target_contract == old(self).target_contract,
            final(self).batch_start == old(self).batch_start,
            final(self).in_flight == old(self).in_flight,
            final(self).blocks_attempted == old(self).blocks_attempted,
            final(self).blocks_succeeded == old(self).blocks_succeeded,
            final(self).outcomes == old(self).outcomes,
    {
        let mut slots: Vec<Slot> = Vec::new();
        core::mem::swap(&mut slots, &mut self.slots);
        let ghost all = slots@;
        let ghost base = self.batch_start as int;
        let ghost first = self.start_block as int;
        let ghost outcomes = self.outcomes@;
        proof {
            assert forall|i: int| 0 <= i < all.len() implies !(#[trigger] all[i] is InFlight) by {
                assert(old(self).in_flight().contains(base + i) == (all[i] is InFlight));
            }
        }
        for slot in it: slots
            invariant
                it.seq() == all,
                first <= base,
                forall|i: int| 0 <= i < all.len() ==> slot_agrees(#[trigger] all[i], outcomes, base + i),
                forall|i: int| 0 <= i < all.len() ==> !(#[trigger] all[i] is InFlight),
                record_views(self.transactions@) == aggregate(outcomes, first, base + it.index() - 1),
                self.slots@.len() == 0,
                self.start_block == old(self).start_block,
                self.end_block == old(self).end_block,
                self.batch_size == old(self).batch_size,
                self.max_concurrent == old(self).max_concurrent,
                self.target_contract == old(self).target_contract,
                self.batch_start == old(self).batch_start,
                self.in_flight == old(self).in_flight,
                self.blocks_attempted == old(self).blocks_attempted,
                self.blocks_succeeded == old(self).blocks_succeeded,
                self.outcomes == old(self).outcomes,
        {
            let ghost before = self.transactions@;
            match slot {
                Slot::Found(records) => {
                    let mut records = records;
                    let ghost taken = records@;
                    self.transactions.append(&mut records);
                    proof {
                        lemma_record_views_add(before, taken);
                    }
                },
                _ => {},
            }
        }
    }

    /// Decides what the caller is to do next. A dispatch is recorded at once:
    /// the block counts as in flight from this call on.
    pub fn next_action(&mut self) -> (action: Action)
        requires
            old(self).wf(),
        ensures
            final(self).wf(),
            final(self).same_run(old(self)),
            action == old(self).due_action(),
            final(self).outcomes() == old(self).outcomes(),
            final(self).attempted() == old(self).attempted(),
            final(self).succeeded() == old(self).succeeded(),
            match action {
                Action::Dispatch { block_number } => {
                    &&& final(self).in_flight() == old(self).in_flight().insert(block_number as int)
                    &&& final(self).next_block() == block_number + 1
                    &&& final(self).steps_left() == old(self).steps_left() - 1
                    &&& final(self).batch_first() == if block_number < old(self).batch_first()
                        + old(self).batch_size() {
                        old(self).batch_first()
                    } else {
                        block_number as int
                    }
                },
                _ => *final(self) == *old(self),
            },
    {
        let dispatched = self.slots.len();
        let batch_ends_range = dispatched as u64 > self.end_block - self.batch_start;
        if !batch_ends_range && dispatched < self.batch_size {
            if self.in_flight >= self.max_concurrent {
                return Action::Wait;
            }
            let block_number = self.batch_start + dispatched as u64;
            self.slots.push(Slot::InFlight);
            self.in_flight = self.in_flight + 1;
            assert(self.in_flight() =~= old(self).in_flight().insert(block_number as int));
            return Action::Dispatch { block_number };
        }
        if self.in_flight > 0 {
            return Action::Wait;
        }
        if batch_ends_range {
            return Action::Finished;
        }
        let block_number = self.batch_start + dispatched as u64;
        proof {
            assert forall|b: int| self.batch_start <= b < block_number implies #[trigger]
                self.outcomes@.dom().contains(b) by {
                let i = b - self.batch_start;
                assert(old(self).in_flight().contains(b) == (self.slots[i] is InFlight));
            }
            lemma_mod_add_multiples_vanish(
                self.batch_start - self.start_block,
                self.batch_size as int,
            );
        }
        self.merge_batch();
        self.batch_start = block_number;
        self.slots.push(Slot::InFlight);
        self.in_flight = 1;
        assert(self.in_flight() =~= Set::<int>::empty().insert(block_number as int));
        Action::Dispatch { block_number }
    }

    /// Takes up the outcome of a fetch that ended. A block that failed counts
    /// as attempted and stops nothing. An outcome for a block that is not in
    /// flight changes nothing.
    pub fn record(&mut self, block_number: u64, outcome: FetchOutcome) -> (report: Completion)
        requires
            old(self).wf(),
        ensures
            final(self).wf(),
            final(self).same_run(old(self)),
            final(self).next_block() == old(self).next_block(),
            final(self).batch_first() == old(self).batch_first(),
            old(self).in_flight().contains(block_number as int) ==> {
                &&& final(self).in_flight() == old(self).in_flight().remove(block_number as int)
                &&& final(self).outcomes() == old(self).outcomes().insert(
                    block_number as int,
                    outcome@,
                )
                &&& final(self).attempted() == old(self).attempted() + 1
                &&& final(self).succeeded() == old(self).succeeded() + if outcome is Found {
                    1nat
                } else {
                    0nat
                }
                &&& final(self).failed() == old(self).failed() + if outcome is Failed {
                    1int
                } else {
                    0int
                }
                &&& final(self).steps_left() == old(self).steps_left() - 1
                &&& report == completion_of(outcome)
            },
            !old(self).in_flight().contains(block_number as int) ==> report is NotInFlight
                && *final(self) == *old(self),
    {
        if block_number < self.batch_start {
            return Completion::NotInFlight;
        }
        let offset = block_number - self.batch_start;
        if offset >= self.slots.len() as u64 {
            return Completion::NotInFlight;
        }
        let index = offset as usize;
        if !slot_in_flight(&self.slots[index]) {
            return Completion::NotInFlight;
        }
        let ghost before = self.outcomes@;
        let ghost b = block_number as int;
        proof {
            self.lemma_succeeded_le_attempted();
            assert(self.in_flight().contains(b));
            lemma_report_adds_one(
                before,
                self.start_block as int,
                self.batch_start + self.slots.len() - 1,
                b,
                outcome@,
            );
            lemma_aggregate_agrees(
                before,
                before.insert(b, outcome@),
                self.start_block as int,
                self.batch_start - 1,
            );
        }
        self.outcomes = Ghost(before.insert(b, outcome@));
        self.in_flight = self.in_flight - 1;
        self.blocks_attempted = self.blocks_attempted + 1;
        let report = match outcome {
            FetchOutcome::Found(records) => {
                let count = records.len();
                self.blocks_succeeded = self.blocks_succeeded + 1;
                self.slots.set(index, Slot::Found(records));
                Completion::Found { count }
            },
            FetchOutcome::Failed(error) => {
                self.slots.set(index, Slot::Failed);
                Completion::Failed { error }
            },
        };
        assert(self.in_flight() =~= old(self).in_flight().remove(b));
        report
    }

    /// Takes the report of a fetch that ended: the block is filtered at once
    /// and its outcome taken up. A block that failed, in the fetch or in the
    /// filter, counts as attempted and stops nothing. A report for a block
    /// that is not in flight changes nothing.
    pub fn complete(&mut self, block_number: u64, fetched: Result<Block, FetchError>) -> (report:
        Completion)
        requires
            old(self).wf(),
        ensures
            final(self).wf(),
            final(self).same_run(old(self)),
            final(self).next_block() == old(self).next_block(),
            final(self).batch_first() == old(self).batch_first(),
            old(self).in_flight().contains(block_number as int) ==> {
                let outcome = outcome_of(block_number, fetched, old(self).target());
                &&& final(self).in_flight() == old(self).in_flight().remove(block_number as int)
                &&& final(self).outcomes() == old(self).outcomes().insert(
                    block_number as int,
                    outcome,
                )
                &&& final(self).attempted() == old(self).attempted() + 1
                &&& final(self).succeeded() == old(self).succeeded() + if outcome is Found {
                    1nat
                } else {
                    0nat
                }
                &&& final(self).failed() == old(self).failed() + if outcome is Failed {
                    1int
                } else {
                    0int
                }
                &&& final(self).steps_left() == old(self).steps_left() - 1
                &&& match outcome {
                    BlockOutcome::Found(records) => report == (Completion::Found {
                        count: records.len() as usize,
                    }),
                    BlockOutcome::Failed(failure) => report matches Completion::Failed { error }
                        && error@ == failure,
                }
            },
            !old(self).in_flight().contains(block_number as int) ==> report is NotInFlight
                && *final(self) == *old(self),
    {
        let outcome = filter_fetched(block_number, fetched, self.target_contract.as_str());
        self.record(block_number, outcome)
    }

    /// The first and the last block of the batch that is being worked on.
    pub fn batch_bounds(&self) -> (bounds: (u64, u64))
        requires
            self.wf(),
        ensures
            bounds.0 == self.batch_first(),
            bounds.1 == self.batch_last(),
    {
        let width = (self.batch_size - 1) as u64;
        if width < self.end_block - self.batch_start {
            (self.batch_start, self.batch_start + width)
        } else {
            (self.batch_start, self.end_block)
        }
    }

    /// How many blocks have been reported so far.
    pub fn blocks_attempted(&self) -> (n: u128)
        ensures
            n == self.attempted(),
    {
        self.blocks_attempted
    }

    /// How many of the reported blocks were fetched and filtered.
    pub fn blocks_succeeded(&self) -> (n: u128)
        ensures
            n == self.succeeded(),
    {
        self.blocks_succeeded
    }

    /// Ends the run and hands out what it found; `None` while blocks are left
    /// to dispatch or in flight.
    pub fn into_result(self) -> (r: Option<RangeResult>)
        requires
            self.wf(),
        ensures
            match r {
                Some(result) => {
                    &&& self.is_complete()
                    &&& record_views(result.transactions@) == aggregate(
                        self.outcomes(),
                        self.range_start() as int,
                        self.range_end() as int,
                    )
                    &&& result.blocks_attempted == self.range_end() - self.range_start() + 1
                    &&& result.blocks_succeeded == succeeded_count(
                        self.outcomes(),
                        self.range_start() as int,
                        self.range_end() as int,
                    )
                    &&& result.blocks_failed == result.blocks_attempted - result.blocks_succeeded
                    &&& result.transactions_found == result.transactions.len()
                },
                None => !self.is_complete(),
            },
    {
        proof {
            self.lemma_succeeded_le_attempted();
        }
        if self.in_flight > 0 || self.slots.len() as u64 <= self.end_block - self.batch_start {
            return None;
        }
        let mut run = self;
        run.merge_batch();
        let transactions_found = run.transactions.len();
        Some(
            RangeResult {
                transactions: run.transactions,
                blocks_attempted: run.blocks_attempted,
                blocks_succeeded: run.blocks_succeeded,
                blocks_failed: run.blocks_attempted - run.blocks_succeeded,
                transactions_found,
            },
        )
    }
}

} // verus!
