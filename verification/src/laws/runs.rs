//! What is counted in a run that makes training data.

use crate::bulk::{collected, considered, entry_board, is_calm, BulkEvent, Collector, Entry, Intake};
use crate::selfplay::{Collector as Gatherer, Event};
use vstd::prelude::*;

verus! {

/// Every entry is scanned, and left out for one reason at most: because it is not calm,
/// where only calm ones are wanted, or else because it gives no position.
pub proof fn each_entry_is_counted_once(intake: Intake, entry: Entry)
    requires
        intake.scanned < u64::MAX,
        intake.filtered < u64::MAX,
        intake.invalid < u64::MAX,
    ensures
        ({
            let after = considered(intake, entry);
            let left_out = !intake.include_tactical && !is_calm(entry);
            &&& after.scanned == intake.scanned + 1
            &&& left_out ==> after.filtered == intake.filtered + 1 && after.invalid
                == intake.invalid
            &&& !left_out && entry_board(entry) is None ==> after.invalid == intake.invalid + 1
                && after.filtered == intake.filtered
            &&& !left_out && entry_board(entry) is Some ==> after.invalid == intake.invalid
                && after.filtered == intake.filtered
            &&& after.queued == intake.queued && after.target == intake.target
                && after.include_tactical == intake.include_tactical
        }),
{
}

/// What a collector is after some events, one after the other.
pub open spec fn after_events(c: Collector, events: Seq<BulkEvent>) -> Collector
    decreases events.len(),
{
    if events.len() == 0 {
        c
    } else {
        collected(after_events(c, events.drop_last()), events.last())
    }
}

/// How many of some events are of a kind.
pub open spec fn how_many(events: Seq<BulkEvent>, kind: spec_fn(BulkEvent) -> bool) -> nat
    decreases events.len(),
{
    if events.len() == 0 {
        0
    } else {
        how_many(events.drop_last(), kind) + if kind(events.last()) {
            1nat
        } else {
            0nat
        }
    }
}

/// The error that an event tells of.
pub open spec fn told_error(event: BulkEvent) -> Option<String> {
    match event {
        BulkEvent::WorkerError(error) => Some(error),
        BulkEvent::ReaderDone(Err(error)) => Some(error),
        _ => None,
    }
}

/// A run of bulk evaluation has written as many lines as were evaluated, and as many
/// workers are done as said so; it fails by an error exactly where one was told of,
/// and then by the first.
pub proof fn a_run_counts_its_events(c: Collector, events: Seq<BulkEvent>, i: int)
    requires
        c.evaluated == 0,
        c.workers_done == 0,
        !c.reader_done,
        c.first_error is None,
        events.len() < usize::MAX,
        events.len() < u64::MAX,
    ensures
        ({
            let after = after_events(c, events);
            &&& after.evaluated == how_many(events, |e: BulkEvent| e is Evaluated)
            &&& after.workers_done == how_many(events, |e: BulkEvent| e is WorkerDone)
            &&& after.evaluated <= events.len() && after.workers_done <= events.len()
            &&& after.positions == c.positions && after.threads == c.threads
            &&& 0 <= i < events.len() && events[i] is ReaderDone ==> after.reader_done
            &&& after.reader_done ==> how_many(events, |e: BulkEvent| e is ReaderDone) > 0
            &&& 0 <= i < events.len() && told_error(events[i]) is Some && (forall|j: int|
                0 <= j < i ==> told_error(#[trigger] events[j]) is None) ==> after.first_error
                == told_error(events[i])
            &&& (forall|j: int| 0 <= j < events.len() ==> told_error(#[trigger] events[j]) is None)
                ==> after.first_error is None
        }),
    decreases events.len(),
{
    if events.len() > 0 {
        let before = events.drop_last();
        let n = before.len() as int;
        a_run_counts_its_events(c, before, i);
        assert forall|j: int| 0 <= j < n implies before[j] == #[trigger] events[j] by {}
        if i < n {
            assert(0 <= i ==> before[i] == events[i]);
        }
        if (forall|j: int| 0 <= j < i ==> told_error(#[trigger] events[j]) is None) && i <= n {
            assert forall|j: int| 0 <= j < i implies told_error(#[trigger] before[j]) is None by {
                assert(before[j] == events[j]);
            }
        }
        if forall|j: int| 0 <= j < n ==> told_error(#[trigger] events[j]) is None {
            assert forall|j: int| 0 <= j < n implies told_error(#[trigger] before[j]) is None by {
                assert(before[j] == events[j]);
            }
        }
        assert(events[n] == events.last());
    }
}

/// What a collector of games is after some events, one after the other.
pub open spec fn after_games(c: Gatherer, events: Seq<Event>) -> Gatherer
    decreases events.len(),
{
    if events.len() == 0 {
        c
    } else {
        crate::selfplay::collected(after_games(c, events.drop_last()), events.last())
    }
}

/// How many positions some events bring.
pub open spec fn brought(events: Seq<Event>) -> nat
    decreases events.len(),
{
    if events.len() == 0 {
        0
    } else {
        brought(events.drop_last()) + match events.last() {
            Event::Game(game) => game@.records.len(),
            _ => 0,
        }
    }
}

/// A self-play run writes all positions that its games bring, up to the number that is
/// asked for, and no more.
pub proof fn a_run_writes_what_is_asked_for(c: Gatherer, events: Seq<Event>)
    requires
        c.written == 0,
    ensures
        ({
            let after = after_games(c, events);
            &&& brought(events) <= c.positions ==> after.written == brought(events)
            &&& brought(events) >= c.positions ==> after.written == c.positions
            &&& after.positions == c.positions
            &&& after.threads == c.threads
        }),
    decreases events.len(),
{
    if events.len() > 0 {
        a_run_writes_what_is_asked_for(c, events.drop_last());
    }
}

} // verus!
