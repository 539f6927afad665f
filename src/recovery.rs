use vstd::prelude::*;

use crate::book::BookView;
use crate::matching::{empty_view, replay_step, rest_all, MatchingEngine};
use crate::protocol::EngineCommand;
use crate::snapshot::{restorable, Snapshot, SnapshotError};
use crate::wal::{iter_next, lemma_iter_next_bounds, overwrite, scan_from, zeros, Wal, WalError, DEFAULT_INITIAL_SIZE};

verus! {

#[derive(Debug, Clone, Copy, PartialEq, Eq, Structural)]
pub enum RecoveryError {
    Wal(WalError),
    Snapshot(SnapshotError),
}

/// One more record replayed, counting up to `u64::MAX` and no further.
pub open spec fn count_up(count: int) -> int {
    if count < u64::MAX { count + 1 } else { count }
}

/// Replaying the log from `pos` onto `v`: the book after, the offset of a
/// truncated or corrupted record that ends the log, whether a record failed
/// to decode, and the record count reached.
pub open spec fn replay_from(
    v: BookView,
    region: Seq<u8>,
    pos: int,
    end: int,
    cur: int,
    start: int,
    capacity: nat,
    count: int,
) -> (BookView, Option<u64>, bool, int)
    decreases end - pos,
{
    if pos > end {
        (v, None, false, count)
    } else {
        let step = iter_next(region, pos, end, cur, start);
        match step.0 {
            None => (v, None, false, count),
            Some(Ok((_n, c))) => if pos < step.1 <= end {
                replay_from(replay_step(v, c, capacity), region, step.1, end, step.2, start, capacity, count_up(count))
            } else {
                (v, None, false, count)
            },
            Some(Err(WalError::TruncatedRecord { offset })) => (v, Some(offset), false, count),
            Some(Err(WalError::Corruption { offset })) => (v, Some(offset), false, count),
            Some(Err(WalError::Protocol(_))) => (v, None, true, count),
        }
    }
}

/// The bytes a log opened over `region` holds.
pub open spec fn opened_bytes(region: Seq<u8>) -> Seq<u8> {
    if region.len() < DEFAULT_INITIAL_SIZE {
        region + zeros((DEFAULT_INITIAL_SIZE - region.len()) as nat)
    } else {
        region
    }
}

/// What recovery from `snapshot` and the log bytes `region` gives.
pub open spec fn recovery_outcome(snapshot: Option<Snapshot>, region: Seq<u8>, capacity: nat) -> (
    BookView,
    Option<u64>,
    bool,
    int,
) {
    let base = match snapshot {
        Some(s) => rest_all(empty_view(), s.orders@),
        None => empty_view(),
    };
    let start: int = match snapshot {
        Some(s) => s.wal_record_count as int,
        None => 0,
    };
    let bytes = opened_bytes(region);
    let end = scan_from(bytes, 0, bytes.len() as int).0;
    replay_from(base, bytes, 0, end, 0, start, capacity, start)
}

/// Applies one logged command; the engine's own errors are ignored, so that
/// replay goes on whatever state the log finds.
pub fn replay_command(engine: &mut MatchingEngine, cmd: EngineCommand)
    requires
        old(engine).wf(),
    ensures
        final(engine).wf(),
        final(engine).book_spec().capacity_spec() == old(engine).book_spec().capacity_spec(),
        cmd matches EngineCommand::CancelOrder { order_id } ==> final(engine).book_spec().resting()
            == old(engine).book_spec().resting().remove(order_id),
        final(engine).book_spec().model() == replay_step(
            old(engine).book_spec().model(),
            cmd,
            old(engine).book_spec().capacity_spec(),
        ),
{
    match cmd {
        EngineCommand::NewOrder(order) => {
            let _ = engine.add_order(order);
        },
        EngineCommand::CancelOrder { order_id } => {
            let _ = engine.cancel_order(order_id);
        },
    }
}

/// Rebuilds the engine from the newest valid snapshot, if any, and the log
/// region: records after the snapshot's count are replayed in order, and
/// the first truncated or corrupted record ends the log, which is cut there.
pub fn recover(snapshot: Option<Snapshot>, region: &[u8], arena_capacity: u32) -> (r: Result<
    (MatchingEngine, Wal),
    RecoveryError,
>)
    ensures
        ({
            let out = recovery_outcome(snapshot, region@, arena_capacity as nat);
            let bytes = opened_bytes(region@);
            let end = scan_from(bytes, 0, bytes.len() as int);
            &&& r matches Ok((engine, wal)) ==> {
                &&& engine.wf()
                &&& engine.book_spec().capacity_spec() == arena_capacity
                &&& wal.wf()
                &&& engine.book_spec().model() == out.0
                &&& !out.2
                &&& out.1 is None ==> wal.bytes() == bytes && wal.pos() == end.0 && wal.count() == end.1
                &&& out.1 matches Some(off) ==> wal.pos() == off && wal.count() == out.3 && wal.bytes() == overwrite(
                    bytes,
                    off as int,
                    zeros((end.0 - off) as nat),
                )
            }
            &&& r matches Err(e) ==> (e is Snapshot && snapshot is Some) || (e is Wal && out.2)
            &&& r matches Err(RecoveryError::Wal(w)) ==> w is Protocol
            &&& (snapshot matches Some(s) ==> restorable(s.orders@, arena_capacity as nat)) && !out.2 ==> r is Ok
        }),
{
    let ghost snap_in = snapshot;
    let ghost region0 = region@;
    let ghost out = recovery_outcome(snapshot, region@, arena_capacity as nat);
    let (mut engine, start_record) = match &snapshot {
        Some(snap) => {
            let engine = match snap.restore(arena_capacity) {
                Ok(e) => e,
                Err(e) => {
                    return Err(RecoveryError::Snapshot(e));
                },
            };
            (engine, snap.wal_record_count)
        },
        None => (MatchingEngine::with_capacity(arena_capacity), 0),
    };
    let mut wal = Wal::open(vstd::slice::slice_to_vec(region), DEFAULT_INITIAL_SIZE);
    let ghost bytes = wal.bytes();
    let ghost end = wal.pos();
    let ghost cnt = wal.count();
    let mut record_count_at_replay = start_record;
    let mut it = wal.iter_from(start_record);
    let ghost mut cut: Option<u64> = None;
    loop
        invariant_except_break
            it.wf(),
            it.state().1 == end,
            it.state().3 == start_record,
            it.state().0 <= it.state().1,
            wal.bytes() == bytes,
            wal.pos() == end,
            wal.count() == cnt,
            cut == None::<u64>,
            out == replay_from(
                engine.book_spec().model(),
                bytes,
                it.state().0,
                end,
                it.state().2,
                start_record as int,
                arena_capacity as nat,
                record_count_at_replay as int,
            ),
        invariant
            engine.wf(),
            engine.book_spec().capacity_spec() == arena_capacity,
            wal.wf(),
            out == recovery_outcome(snapshot, region@, arena_capacity as nat),
            bytes == opened_bytes(region@),
            (end, cnt) == scan_from(bytes, 0, bytes.len() as int),
        ensures
            engine.book_spec().model() == out.0,
            !out.2,
            out.1 == cut,
            cut is None ==> wal.bytes() == bytes && wal.pos() == end && wal.count() == cnt,
            cut matches Some(off) ==> wal.pos() == off && wal.count() == out.3 && wal.bytes() == overwrite(
                bytes,
                off as int,
                zeros((end - off) as nat),
            ),
        decreases it.state().1 - it.state().0,
    {
        let ghost (pos, e2, cur, start) = it.state();
        proof {
            lemma_iter_next_bounds(wal.bytes(), pos, e2, cur, start);
        }
        let ghost model = engine.book_spec().model();
        let ghost count = record_count_at_replay as int;
        let item = it.next(&wal);
        proof {
            assert(item == iter_next(bytes, pos, end, cur, start).0);
            assert(out == replay_from(model, bytes, pos, end, cur, start, arena_capacity as nat, count));
        }
        match item {
            None => {
                proof {
                    assert(out == (model, None::<u64>, false, count));
                }
                break;
            },
            Some(Ok((_record_num, cmd))) => {
                replay_command(&mut engine, cmd);
                if record_count_at_replay < u64::MAX {
                    record_count_at_replay = record_count_at_replay + 1;
                }
            },
            Some(Err(WalError::Corruption { offset })) => {
                let _ = wal.truncate_to(offset, record_count_at_replay);
                proof {
                    cut = Some(offset);
                }
                break;
            },
            Some(Err(WalError::TruncatedRecord { offset })) => {
                let _ = wal.truncate_to(offset, record_count_at_replay);
                proof {
                    cut = Some(offset);
                }
                break;
            },
            Some(Err(e)) => {
                proof {
                    assert(e is Protocol);
                    assert(out.2);

                }
                return Err(RecoveryError::Wal(e));
            },
        }
    }
    Ok((engine, wal))
}

} // verus!
