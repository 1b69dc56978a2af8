//! The cursor-based change feed: what a subscriber is handed for a cursor,
//! and the guarantees that follow for repeated subscriptions.

use vstd::prelude::*;

use crate::session::ChangeRecord;

verus! {

/// The records a subscriber gets for `cursor` from `log`, and the cursor to
/// pass next time.
pub open spec fn feed(log: Seq<ChangeRecord>, cursor: int) -> (Seq<ChangeRecord>, int) {
    (log.subrange(cursor, log.len() as int), log.len() as int)
}

/// `a` is an earlier state of the append-only log `b`.
pub open spec fn is_prefix(a: Seq<ChangeRecord>, b: Seq<ChangeRecord>) -> bool {
    a.len() <= b.len() && b.subrange(0, a.len() as int) == a
}

/// Every log of the chain is an earlier state of the next one.
pub open spec fn log_chain(logs: Seq<Seq<ChangeRecord>>) -> bool {
    forall|k: int| 0 <= k < logs.len() - 1 ==> is_prefix(#[trigger] logs[k], logs[k + 1])
}

/// All records a subscriber collects by calling once on each log of `logs`
/// in turn, starting at `cursor` and passing each returned cursor on.
pub open spec fn replay(logs: Seq<Seq<ChangeRecord>>, cursor: int) -> Seq<ChangeRecord>
    decreases logs.len(),
{
    if logs.len() == 0 {
        Seq::empty()
    } else {
        let (messages, next) = feed(logs[0], cursor);
        messages + replay(logs.drop_first(), next)
    }
}

/// The cursor returned never goes backwards: it is at least the one passed
/// in, and a later call with it on a grown log returns at least as much.
pub proof fn lemma_cursor_monotonic(log1: Seq<ChangeRecord>, log2: Seq<ChangeRecord>, cursor: int)
    requires
        0 <= cursor <= log1.len(),
        is_prefix(log1, log2),
    ensures
        cursor <= feed(log1, cursor).1,
        feed(log1, cursor).1 <= feed(log2, feed(log1, cursor).1).1,
{
}

/// Subscribing repeatedly, each time with the cursor last returned, while
/// the log grows, collects exactly the history after the first cursor: no
/// record is skipped or repeated.
pub proof fn lemma_no_lost_updates(logs: Seq<Seq<ChangeRecord>>, cursor: int)
    requires
        logs.len() > 0,
        log_chain(logs),
        0 <= cursor <= logs[0].len(),
    ensures
        replay(logs, cursor) == logs.last().subrange(cursor, logs.last().len() as int),
    decreases logs.len(),
{
    let first = logs[0];
    if logs.len() == 1 {
        assert(replay(logs.drop_first(), first.len() as int) == Seq::<ChangeRecord>::empty());
        assert(replay(logs, cursor) =~= first.subrange(cursor, first.len() as int));
    } else {
        let rest = logs.drop_first();
        assert(is_prefix(logs[0], logs[1]));
        assert forall|k: int| 0 <= k < rest.len() - 1 implies is_prefix(#[trigger] rest[k], rest[k + 1]) by {
            assert(is_prefix(logs[k + 1], logs[k + 2]));
        }
        lemma_no_lost_updates(rest, first.len() as int);
        lemma_chain_prefix(logs, 0, logs.len() - 1);
        let last = logs.last();
        assert(rest.last() == last);
        let tail = last.subrange(first.len() as int, last.len() as int);
        assert(replay(logs, cursor) == first.subrange(cursor, first.len() as int) + tail);
        assert(last.subrange(0, first.len() as int) == first);
        assert(first.subrange(cursor, first.len() as int) + tail =~= last.subrange(
            cursor,
            last.len() as int,
        ));
    }
}

/// In a chain of logs, an earlier one is a prefix of any later one.
proof fn lemma_chain_prefix(logs: Seq<Seq<ChangeRecord>>, i: int, j: int)
    requires
        log_chain(logs),
        0 <= i <= j < logs.len(),
    ensures
        is_prefix(logs[i], logs[j]),
    decreases j - i,
{
    if i == j {
        assert(logs[i].subrange(0, logs[i].len() as int) =~= logs[i]);
    } else {
        lemma_chain_prefix(logs, i, j - 1);
        assert(is_prefix(logs[j - 1], logs[j]));
        assert(logs[j].subrange(0, logs[i].len() as int) =~= logs[j].subrange(
            0,
            logs[j - 1].len() as int,
        ).subrange(0, logs[i].len() as int));
    }
}

/// A subscriber that is already up to date is handed nothing and keeps its
/// cursor.
pub proof fn lemma_idle_wait(log: Seq<ChangeRecord>)
    ensures
        feed(log, log.len() as int).0 == Seq::<ChangeRecord>::empty(),
        feed(log, log.len() as int).1 == log.len(),
{
    assert(log.subrange(log.len() as int, log.len() as int) =~= Seq::<ChangeRecord>::empty());
}

} // verus!
