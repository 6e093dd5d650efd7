//! Scenarios: a list of blocks to ingest and a list of accounts to query,
//! played out against a service into one event for each.

use vstd::prelude::*;
use vstd::string::*;
use crate::chain::{block_views, Block, BlockView};
use crate::service::Service;

verus! {

/// An event as contracts see it.
pub enum EventView {
    BlockIngestion(Seq<char>),
    IngestionError(Seq<char>, Seq<char>),
    QueryResult(Seq<char>, Seq<char>),
    QueryError(Seq<char>, Seq<char>),
}

/// What came of one step of a scenario.
#[derive(Debug, PartialEq, Eq)]
pub enum Event {
    /// The block of this name was taken in.
    BlockIngestion(String),
    /// The block of this name was refused, with the reason.
    IngestionError(String, String),
    /// The account of this name has this balance.
    QueryResult(String, String),
    /// The query for the account of this name failed, with the reason.
    QueryError(String, String),
}

impl View for Event {
    type V = EventView;

    open spec fn view(&self) -> EventView {
        match *self {
            Event::BlockIngestion(block) => EventView::BlockIngestion(block@),
            Event::IngestionError(block, reason) => EventView::IngestionError(block@, reason@),
            Event::QueryResult(account, balance) => EventView::QueryResult(account@, balance@),
            Event::QueryError(account, reason) => EventView::QueryError(account@, reason@),
        }
    }
}

/// The views of a sequence of events, in order.
pub open spec fn event_views(events: Seq<Event>) -> Seq<EventView> {
    events.map_values(|event: Event| event@)
}

/// The views of a sequence of account names, in order.
pub open spec fn query_views(queries: Seq<String>) -> Seq<Seq<char>> {
    queries.map_values(|query: String| query@)
}

/// The event for ingesting `block` in `state`.
pub open spec fn ingestion_event<S: Service>(state: S::V, block: BlockView) -> EventView {
    match S::outcome_of(state, block) {
        Ok(_) => EventView::BlockIngestion(block.block_id),
        Err(error) => EventView::IngestionError(block.block_id, error.text()),
    }
}

/// The event for querying `account` in `state`.
pub open spec fn query_event<S: Service>(state: S::V, account: Seq<char>) -> EventView {
    match S::balance_of(state, account) {
        Ok(balance) => EventView::QueryResult(account, S::balance_text(balance)),
        Err(error) => EventView::QueryError(account, error.text()),
    }
}

/// The state that ingesting the blocks in order leaves.
pub open spec fn state_after_all<S: Service>(state: S::V, blocks: Seq<BlockView>) -> S::V
    decreases blocks.len(),
{
    if blocks.len() == 0 {
        state
    } else {
        S::state_after(state_after_all::<S>(state, blocks.drop_last()), blocks.last())
    }
}

/// The events of ingesting the blocks in order, each in the state that the
/// blocks before it left.
pub open spec fn ingestion_events<S: Service>(state: S::V, blocks: Seq<BlockView>) -> Seq<
    EventView,
> {
    Seq::new(
        blocks.len(),
        |i: int| ingestion_event::<S>(state_after_all::<S>(state, blocks.take(i)), blocks[i]),
    )
}

/// The events of querying the accounts in order, all in the same state.
pub open spec fn query_events<S: Service>(state: S::V, accounts: Seq<Seq<char>>) -> Seq<
    EventView,
> {
    Seq::new(accounts.len(), |i: int| query_event::<S>(state, accounts[i]))
}

/// The events of a scenario: those of all ingestions, then those of all
/// queries in the state that the ingestions left.
pub open spec fn played<S: Service>(
    state: S::V,
    blocks: Seq<BlockView>,
    accounts: Seq<Seq<char>>,
) -> Seq<EventView> {
    ingestion_events::<S>(state, blocks) + query_events::<S>(
        state_after_all::<S>(state, blocks),
        accounts,
    )
}

/// Ingests one block and says what came of it.
pub fn record_ingestion<S: Service>(service: &mut S, block: &Block) -> (event: Event)
    ensures
        final(service)@ == S::state_after(old(service)@, block@),
        event@ == ingestion_event::<S>(old(service)@, block@),
{
    match service.ingest_block(block) {
        Ok(()) => Event::BlockIngestion(block.block_id.clone()),
        Err(error) => Event::IngestionError(block.block_id.clone(), error.message()),
    }
}

/// Queries one account and says what came of it.
pub fn record_query<S: Service>(service: &S, account: &String) -> (event: Event)
    ensures
        event@ == query_event::<S>(service@, account@),
{
    match service.get_balance(account.as_str()) {
        Ok(balance) => Event::QueryResult(account.clone(), S::show_balance(&balance)),
        Err(error) => Event::QueryError(account.clone(), error.message()),
    }
}

/// Blocks to ingest and accounts to query.
pub struct Scenario {
    pub blocks: Vec<Block>,
    pub queries: Vec<String>,
}

impl Scenario {
    /// Ingests every block in order, then queries every account in order,
    /// and reports one event for each.
    pub fn play_out<S: Service>(&self, service: &mut S) -> (events: Vec<Event>)
        ensures
            final(service)@ == state_after_all::<S>(old(service)@, block_views(self.blocks@)),
            event_views(events@) == played::<S>(
                old(service)@,
                block_views(self.blocks@),
                query_views(self.queries@),
            ),
    {
        let ghost start = service@;
        let ghost blocks = block_views(self.blocks@);
        let ghost accounts = query_views(self.queries@);
        let mut events: Vec<Event> = Vec::new();
        let mut i: usize = 0;
        assert(blocks.take(0) =~= Seq::<BlockView>::empty());
        while i < self.blocks.len()
            invariant
                i <= self.blocks.len(),
                blocks == block_views(self.blocks@),
                service@ == state_after_all::<S>(start, blocks.take(i as int)),
                events.len() == i,
                forall|k: int|
                    0 <= k < i ==> (#[trigger] events[k])@ == ingestion_events::<S>(start, blocks)[k],
            decreases self.blocks.len() - i,
        {
            proof {
                assert(blocks.take(i + 1).drop_last() =~= blocks.take(i as int));
                assert(blocks.take(i + 1).last() == blocks[i as int]);
            }
            let event = record_ingestion(service, &self.blocks[i]);
            events.push(event);
            i += 1;
        }
        assert(blocks.take(i as int) =~= blocks);
        let ghost ingested = service@;
        let mut j: usize = 0;
        while j < self.queries.len()
            invariant
                j <= self.queries.len(),
                blocks == block_views(self.blocks@),
                accounts == query_views(self.queries@),
                service@ == ingested,
                events.len() == self.blocks.len() + j,
                forall|k: int|
                    0 <= k < self.blocks.len() ==> (#[trigger] events[k])@ == ingestion_events::<S>(
                        start,
                        blocks,
                    )[k],
                forall|k: int|
                    0 <= k < j ==> (#[trigger] events[self.blocks.len() + k])@ == query_events::<S>(
                        ingested,
                        accounts,
                    )[k],
            decreases self.queries.len() - j,
        {
            let event = record_query(service, &self.queries[j]);
            events.push(event);
            j += 1;
        }
        proof {
            let whole = played::<S>(start, blocks, accounts);
            assert forall|k: int| 0 <= k < events.len() implies event_views(events@)[k]
                == whole[k] by {
                if k >= self.blocks.len() {
                    assert(events[self.blocks.len() + (k - self.blocks.len())]@
                        == query_events::<S>(ingested, accounts)[k - self.blocks.len()]);
                }
            }
            assert(event_views(events@) =~= whole);
        }
        events
    }
}

} // verus!
