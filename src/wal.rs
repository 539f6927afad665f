use vstd::prelude::*;

use crate::protocol::{
    as_decoded, command_frame, decode_message, encodable, encode_cancel_order, encode_new_order,
    lemma_command_round_trip, lemma_u32_round_trip, le_u32, message_result, read_u32, u32_at,
    EngineCommand, ProtocolError, NEW_ORDER_SIZE,
};

verus! {

/// Length prefix and checksum in front of every payload.
pub const HEADER_SIZE: usize = 8;

pub const ALIGNMENT: usize = 8;

/// Mapped size of a log that is opened without one.
pub const DEFAULT_INITIAL_SIZE: u64 = 67108864;

/// The CRC-32 (IEEE) checksum of a byte string.
pub uninterp spec fn crc32_of(bytes: Seq<u8>) -> u32;

/// Relies on crc32fast::hash: the CRC-32 (IEEE) checksum of `bytes`, which
/// depends on the bytes alone.
#[verifier::external_body]
pub(crate) fn crc32(bytes: &[u8]) -> (r: u32)
    ensures
        r == crc32_of(bytes@),
{
    crc32fast::hash(bytes)
}

/// `n` rounded up to a multiple of 8.
pub open spec fn aligned(n: int) -> int {
    (n + 7) / 8 * 8
}

pub fn align_up(n: usize) -> (r: usize)
    requires
        n + 7 <= usize::MAX,
    ensures
        r == aligned(n as int),
{
    (n + 7) / 8 * 8
}

#[derive(Debug, Clone, Copy, PartialEq, Eq, Structural)]
pub enum WalError {
    Protocol(ProtocolError),
    Corruption { offset: u64 },
    TruncatedRecord { offset: u64 },
}

pub open spec fn zeros(n: nat) -> Seq<u8> {
    Seq::new(n, |i: int| 0u8)
}

/// One record: payload length, payload checksum, payload, zero padding to
/// the next 8-byte boundary.
pub open spec fn record_bytes(payload: Seq<u8>) -> Seq<u8> {
    le_u32(payload.len() as u32) + le_u32(crc32_of(payload)) + payload + zeros(
        (aligned(8 + payload.len() as int) - 8 - payload.len()) as nat,
    )
}

pub open spec fn record_of(c: EngineCommand) -> Seq<u8> {
    record_bytes(command_frame(c))
}

/// The bytes of a log that holds `cmds`, in order.
pub open spec fn log_image(cmds: Seq<EngineCommand>) -> Seq<u8>
    decreases cmds.len(),
{
    if cmds.len() == 0 {
        Seq::empty()
    } else {
        record_of(cmds[0]) + log_image(cmds.drop_first())
    }
}

/// What lies at a position of the log, looking no further than `end`.
#[derive(Debug, Clone, Copy, PartialEq, Eq, Structural)]
pub enum Probe {
    /// No record: the header does not fit, or the length prefix is zero.
    End,
    /// The length prefix runs past `end`.
    Truncated,
    /// The stored checksum does not match the payload.
    Corrupt,
    /// A whole record of this many bytes, payload of the other many.
    Valid(usize, usize),
}

pub open spec fn probe(region: Seq<u8>, pos: int, end: int) -> Probe {
    if pos + 8 > end {
        Probe::End
    } else {
        let n = u32_at(region, pos) as int;
        if n == 0 {
            Probe::End
        } else if pos + aligned(8 + n) > end {
            Probe::Truncated
        } else if u32_at(region, pos + 4) != crc32_of(region.subrange(pos + 8, pos + 8 + n)) {
            Probe::Corrupt
        } else {
            Probe::Valid(aligned(8 + n) as usize, n as usize)
        }
    }
}

/// Where a scan from `pos` stops, and how many valid records it passed.
pub open spec fn scan_from(region: Seq<u8>, pos: int, end: int) -> (int, int)
    decreases end - pos,
{
    if pos <= end {
        match probe(region, pos, end) {
            Probe::Valid(size, n) => {
                if size > 0 {
                    let r = scan_from(region, pos + size, end);
                    (r.0, r.1 + 1)
                } else {
                    (pos, 0)
                }
            },
            _ => (pos, 0),
        }
    } else {
        (pos, 0)
    }
}

/// A scan never goes back, never passes `end`, and passes at most one
/// record per byte.
pub proof fn lemma_scan_bounds(region: Seq<u8>, pos: int, end: int)
    requires
        pos <= end,
    ensures
        pos <= scan_from(region, pos, end).0 <= end,
        0 <= scan_from(region, pos, end).1 <= scan_from(region, pos, end).0 - pos,
    decreases end - pos,
{
    match probe(region, pos, end) {
        Probe::Valid(size, n) => {
            if size > 0 {
                lemma_scan_bounds(region, pos + size, end);
            }
        },
        _ => {},
    }
}

/// Looks at the record that starts at `pos`.
pub fn probe_at(region: &[u8], pos: usize, end: usize) -> (r: Probe)
    requires
        end <= region@.len(),
    ensures
        r == probe(region@, pos as int, end as int),
{
    if pos > end || end - pos < HEADER_SIZE {
        return Probe::End;
    }
    let n = match read_u32(region, pos) {
        Ok(v) => v as usize,
        Err(_) => {
            return Probe::End;
        },
    };
    if n == 0 {
        return Probe::End;
    }
    if n > end - pos - HEADER_SIZE {
        return Probe::Truncated;
    }
    let body = HEADER_SIZE + n;
    let pad = (ALIGNMENT - body % ALIGNMENT) % ALIGNMENT;
    if pad > end - pos - body {
        return Probe::Truncated;
    }
    let size = body + pad;
    assert(size == aligned(body as int));
    let stored = match read_u32(region, pos + 4) {
        Ok(v) => v,
        Err(_) => {
            return Probe::End;
        },
    };
    let computed = crc32(&region[pos + HEADER_SIZE..pos + HEADER_SIZE + n]);
    if stored != computed {
        return Probe::Corrupt;
    }
    Probe::Valid(size, n)
}

/// Walks the valid records from the start of `region` and returns the
/// position after the last one and their number.
pub fn scan_to_end(region: &[u8]) -> (r: (usize, u64))
    ensures
        r.0 as int == scan_from(region@, 0, region@.len() as int).0,
        r.1 as int == scan_from(region@, 0, region@.len() as int).1,
{
    let end = region.len();
    let mut pos: usize = 0;
    let mut count: u64 = 0;
    let mut done = false;
    while !done
        invariant
            end == region@.len(),
            pos <= end,
            count <= pos,
            scan_from(region@, 0, end as int) == (scan_from(region@, pos as int, end as int).0, scan_from(
                region@,
                pos as int,
                end as int,
            ).1 + count),
            done ==> scan_from(region@, pos as int, end as int) == (pos as int, 0int),
        decreases end - pos + (if done { 0int } else { 1int }),
    {
        match probe_at(region, pos, end) {
            Probe::Valid(size, _) => {
                if size == 0 {
                    done = true;
                } else {
                    pos = pos + size;
                    count = count + 1;
                }
            },
            _ => {
                done = true;
            },
        }
    }
    (pos, count)
}

/// What one step of iteration yields from `pos`, and where it leaves the
/// read position and the record number: records numbered up to `start` are
/// passed over.
pub open spec fn iter_next(region: Seq<u8>, pos: int, end: int, cur: int, start: int) -> (
    Option<Result<(u64, EngineCommand), WalError>>,
    int,
    int,
)
    decreases end - pos,
{
    if pos > end {
        (None, pos, cur)
    } else {
        match probe(region, pos, end) {
            Probe::End => (None, pos, cur),
            Probe::Truncated => (Some(Err(WalError::TruncatedRecord { offset: pos as u64 })), pos, cur),
            Probe::Corrupt => (Some(Err(WalError::Corruption { offset: pos as u64 })), pos, cur),
            Probe::Valid(size, n) => {
                if size == 0 {
                    (None, pos, cur)
                } else if cur + 1 <= start {
                    iter_next(region, pos + size, end, cur + 1, start)
                } else {
                    let item = match message_result(region.subrange(pos + 8, pos + 8 + n)) {
                        Ok(c) => Ok(((cur + 1) as u64, c)),
                        Err(e) => Err(WalError::Protocol(e)),
                    };
                    (Some(item), pos + size, cur + 1)
                }
            },
        }
    }
}

/// Everything iteration from `pos` yields until it ends, or its first error.
pub open spec fn collect_from(region: Seq<u8>, pos: int, end: int, cur: int, start: int) -> Result<
    Seq<(u64, EngineCommand)>,
    WalError,
>
    decreases end - pos,
{
    if pos > end {
        Ok(Seq::empty())
    } else {
        match probe(region, pos, end) {
            Probe::End => Ok(Seq::empty()),
            Probe::Truncated => Err(WalError::TruncatedRecord { offset: pos as u64 }),
            Probe::Corrupt => Err(WalError::Corruption { offset: pos as u64 }),
            Probe::Valid(size, n) => {
                if size == 0 {
                    Ok(Seq::empty())
                } else {
                    let rest = collect_from(region, pos + size, end, cur + 1, start);
                    if cur + 1 <= start {
                        rest
                    } else {
                        match message_result(region.subrange(pos + 8, pos + 8 + n)) {
                            Err(e) => Err(WalError::Protocol(e)),
                            Ok(c) => match rest {
                                Ok(s) => Ok(seq![((cur + 1) as u64, c)] + s),
                                Err(e) => Err(e),
                            },
                        }
                    }
                }
            },
        }
    }
}

pub open spec fn prepend(acc: Seq<(u64, EngineCommand)>, r: Result<Seq<(u64, EngineCommand)>, WalError>) -> Result<
    Seq<(u64, EngineCommand)>,
    WalError,
> {
    match r {
        Ok(s) => Ok(acc + s),
        Err(e) => Err(e),
    }
}

/// A step of iteration stays within `end`, moves forward exactly when it
/// yields a record, and reports an error at a position within `end`.
pub proof fn lemma_iter_next_bounds(region: Seq<u8>, pos: int, end: int, cur: int, start: int)
    requires
        0 <= pos <= end,
        0 <= cur <= pos,
    ensures
        ({
            let step = iter_next(region, pos, end, cur, start);
            &&& pos <= step.1 <= end
            &&& cur <= step.2 <= step.1
            &&& step.0 matches Some(Ok(_)) ==> step.1 > pos
            &&& step.0 matches Some(Err(WalError::TruncatedRecord { offset })) ==> offset <= end
            &&& step.0 matches Some(Err(WalError::Corruption { offset })) ==> offset <= end
        }),
    decreases end - pos,
{
    match probe(region, pos, end) {
        Probe::Valid(size, n) => {
            if size > 0 && cur + 1 <= start {
                lemma_iter_next_bounds(region, pos + size, end, cur + 1, start);
            }
        },
        _ => {},
    }
}

/// A read position over a log, yielding the records numbered after
/// `start_record`.
pub struct WalIterator {
    read_pos: usize,
    end_pos: usize,
    current_record: u64,
    start_record: u64,
}

impl WalIterator {
    pub closed spec fn state(&self) -> (int, int, int, int) {
        (self.read_pos as int, self.end_pos as int, self.current_record as int, self.start_record as int)
    }

    pub open spec fn wf(&self) -> bool {
        0 <= self.state().2 <= self.state().0
    }

    /// The next record after the start, or the error that stops iteration
    /// (an error leaves the read position where it is).
    pub fn next(&mut self, wal: &Wal) -> (r: Option<Result<(u64, EngineCommand), WalError>>)
        requires
            old(self).wf(),
            old(self).state().1 <= wal.bytes().len(),
        ensures
            final(self).wf(),
            final(self).state().1 == old(self).state().1,
            final(self).state().3 == old(self).state().3,
            ({
                let (pos, end, cur, start) = old(self).state();
                let step = iter_next(wal.bytes(), pos, end, cur, start);
                &&& r == step.0
                &&& final(self).state().0 == step.1
                &&& final(self).state().2 == step.2
            }),
    {
        let region = wal.region();
        loop
            invariant
                region@ == wal.bytes(),
                self.end_pos == old(self).end_pos,
                self.start_record == old(self).start_record,
                self.end_pos <= region@.len(),
                self.current_record <= self.read_pos,
                iter_next(region@, old(self).read_pos as int, self.end_pos as int, old(self).current_record as int, self.start_record as int)
                    == iter_next(region@, self.read_pos as int, self.end_pos as int, self.current_record as int, self.start_record as int),
            decreases self.end_pos - self.read_pos,
        {
            let pos = self.read_pos;
            match probe_at(region, pos, self.end_pos) {
                Probe::End => {
                    return None;
                },
                Probe::Truncated => {
                    return Some(Err(WalError::TruncatedRecord { offset: pos as u64 }));
                },
                Probe::Corrupt => {
                    return Some(Err(WalError::Corruption { offset: pos as u64 }));
                },
                Probe::Valid(size, n) => {
                    if size == 0 {
                        return None;
                    }
                    self.read_pos = pos + size;
                    self.current_record = self.current_record + 1;
                    if self.current_record > self.start_record {
                        let item = match decode_message(&region[pos + HEADER_SIZE..pos + HEADER_SIZE + n]) {
                            Ok(cmd) => Ok((self.current_record, cmd)),
                            Err(e) => Err(WalError::Protocol(e)),
                        };
                        return Some(item);
                    }
                },
            }
        }
    }
}

/// Sum of the aligned sizes of the records of `cmds`.
pub open spec fn record_sizes(cmds: Seq<EngineCommand>) -> int
    decreases cmds.len(),
{
    if cmds.len() == 0 {
        0
    } else {
        aligned(8 + command_frame(cmds[0]).len() as int) + record_sizes(cmds.drop_first())
    }
}

pub proof fn lemma_image_len(cmds: Seq<EngineCommand>)
    ensures
        log_image(cmds).len() == record_sizes(cmds),
    decreases cmds.len(),
{
    if cmds.len() > 0 {
        lemma_image_len(cmds.drop_first());
    }
}

/// Where the record of `c` lies whole within `end`, probing there finds it.
proof fn lemma_probe_record(region: Seq<u8>, p: int, end: int, c: EngineCommand)
    requires
        encodable(c),
        0 <= p,
        p + record_of(c).len() <= end <= region.len(),
        region.subrange(p, p + record_of(c).len()) == record_of(c),
    ensures
        record_of(c).len() == aligned(8 + command_frame(c).len() as int),
        record_of(c).len() >= 8,
        probe(region, p, end) == Probe::Valid(record_of(c).len() as usize, command_frame(c).len() as usize),
        region.subrange(p + 8, p + 8 + command_frame(c).len()) == command_frame(c),
        message_result(command_frame(c)) == Ok::<EngineCommand, ProtocolError>(as_decoded(c)),
{
    let f = command_frame(c);
    let rec = record_of(c);
    lemma_command_round_trip(c);
    let n = f.len();
    assert(n == 40 || n == 16);
    assert(rec.len() == aligned(8 + n as int));
    lemma_u32_round_trip(n as u32);
    lemma_u32_round_trip(crc32_of(f));
    assert forall|j: int| 0 <= j < rec.len() implies #[trigger] region[p + j] == rec[j] by {
        assert(region.subrange(p, p + rec.len())[j] == region[p + j]);
    }
    let h1 = le_u32(n as u32);
    let h2 = le_u32(crc32_of(f));
    assert(rec == h1 + h2 + f + zeros((aligned(8 + n as int) - 8 - n) as nat));
    assert(region[p] == h1[0] && region[p + 1] == h1[1] && region[p + 2] == h1[2] && region[p + 3] == h1[3]) by {
        assert(rec[0] == h1[0] && rec[1] == h1[1] && rec[2] == h1[2] && rec[3] == h1[3]);
        assert(region[p + 0] == rec[0]);
    }
    assert(region[p + 4] == h2[0] && region[p + 5] == h2[1] && region[p + 6] == h2[2] && region[p + 7] == h2[3]) by {
        assert(rec[4] == h2[0] && rec[5] == h2[1] && rec[6] == h2[2] && rec[7] == h2[3]);
        assert(region[p + 4] == rec[4]);
        assert(region[p + 5] == rec[5]);
        assert(region[p + 6] == rec[6]);
        assert(region[p + 7] == rec[7]);
    }
    assert(u32_at(region, p) == u32_at(h1, 0));
    assert(u32_at(region, p + 4) == u32_at(h2, 0));
    assert(region.subrange(p + 8, p + 8 + n) =~= f) by {
        assert forall|j: int| 0 <= j < n implies #[trigger] region.subrange(p + 8, p + 8 + n)[j] == f[j] by {
            assert(rec[8 + j] == f[j]);
            assert(region[p + (8 + j)] == rec[8 + j]);
        }
    }
}

/// A region that holds the records of `cmds` from `p` on, followed by zeros
/// to its end, scans to the end of the last record having passed each one.
#[verifier::rlimit(100)]
pub proof fn lemma_scan_image(region: Seq<u8>, p: int, cmds: Seq<EngineCommand>)
    requires
        forall|i: int| 0 <= i < cmds.len() ==> encodable(#[trigger] cmds[i]),
        0 <= p,
        p + log_image(cmds).len() <= region.len(),
        region.subrange(p, p + log_image(cmds).len()) == log_image(cmds),
        forall|j: int| p + log_image(cmds).len() <= j < region.len() ==> region[j] == 0,
    ensures
        scan_from(region, p, region.len() as int) == (p + log_image(cmds).len(), cmds.len() as int),
    decreases cmds.len(),
{
    let end = region.len() as int;
    if cmds.len() == 0 {
        if p + 8 <= end {
            assert(region[p] == 0 && region[p + 1] == 0 && region[p + 2] == 0 && region[p + 3] == 0);
            assert(crate::protocol::u32_from(0, 0, 0, 0) == 0) by (bit_vector);
        }
    } else {
        let c = cmds[0];
        let rest = cmds.drop_first();
        let rec = record_of(c);
        let img = log_image(cmds);
        assert(img == rec + log_image(rest));
        assert(region.subrange(p, p + rec.len()) =~= rec) by {
            assert forall|j: int| 0 <= j < rec.len() implies region.subrange(p, p + rec.len())[j] == rec[j] by {
                assert(region.subrange(p, p + img.len())[j] == img[j]);
            }
        }
        lemma_probe_record(region, p, end, c);
        let q = p + rec.len();
        assert(region.subrange(q, q + log_image(rest).len()) =~= log_image(rest)) by {
            assert forall|j: int| 0 <= j < log_image(rest).len() implies region.subrange(q, q + log_image(rest).len())[j]
                == log_image(rest)[j] by {
                assert(region.subrange(p, p + img.len())[rec.len() + j] == img[rec.len() + j]);
            }
        }
        assert forall|i: int| 0 <= i < rest.len() implies encodable(#[trigger] rest[i]) by {
            assert(rest[i] == cmds[i + 1]);
        }
        lemma_scan_image(region, q, rest);
    }
}

/// Iterating a region that holds the records of `cmds` from `p` to `end`
/// yields each command, as its frame gives it back, under its number.
#[verifier::rlimit(100)]
pub proof fn lemma_collect_image(region: Seq<u8>, p: int, cmds: Seq<EngineCommand>, cur: int)
    requires
        forall|i: int| 0 <= i < cmds.len() ==> encodable(#[trigger] cmds[i]),
        0 <= p,
        0 <= cur,
        cur + cmds.len() <= u64::MAX,
        p + log_image(cmds).len() <= region.len(),
        region.subrange(p, p + log_image(cmds).len()) == log_image(cmds),
    ensures
        collect_from(region, p, p + log_image(cmds).len(), cur, 0) == Ok::<Seq<(u64, EngineCommand)>, WalError>(
            Seq::new(cmds.len(), |i: int| ((cur + i + 1) as u64, as_decoded(cmds[i]))),
        ),
    decreases cmds.len(),
{
    let end = p + log_image(cmds).len();
    if cmds.len() == 0 {
        assert(Seq::new(cmds.len(), |i: int| ((cur + i + 1) as u64, as_decoded(cmds[i]))) =~= Seq::empty());
    } else {
        let c = cmds[0];
        let rest = cmds.drop_first();
        let rec = record_of(c);
        let img = log_image(cmds);
        assert(img == rec + log_image(rest));
        assert(region.subrange(p, p + rec.len()) =~= rec) by {
            assert forall|j: int| 0 <= j < rec.len() implies region.subrange(p, p + rec.len())[j] == rec[j] by {
                assert(region.subrange(p, p + img.len())[j] == img[j]);
            }
        }
        lemma_probe_record(region, p, end, c);
        let q = p + rec.len();
        assert(region.subrange(q, q + log_image(rest).len()) =~= log_image(rest)) by {
            assert forall|j: int| 0 <= j < log_image(rest).len() implies region.subrange(q, q + log_image(rest).len())[j]
                == log_image(rest)[j] by {
                assert(region.subrange(p, p + img.len())[rec.len() + j] == img[rec.len() + j]);
            }
        }
        assert forall|i: int| 0 <= i < rest.len() implies encodable(#[trigger] rest[i]) by {
            assert(rest[i] == cmds[i + 1]);
        }
        lemma_collect_image(region, q, rest, cur + 1);
        assert(q + log_image(rest).len() == end);
        assert(seq![((cur + 1) as u64, as_decoded(c))] + Seq::new(rest.len(), |i: int| ((cur + 1 + i + 1) as u64, as_decoded(rest[i])))
            =~= Seq::new(cmds.len(), |i: int| ((cur + i + 1) as u64, as_decoded(cmds[i]))));
    }
}

/// Reopening a log after appending `cmds` to an empty one: the region holds
/// their records followed by zeros, and the scan that opening makes finds
/// every record, ending after the last, at the sum of their aligned sizes.
pub proof fn lemma_reopen_after_appends(cmds: Seq<EngineCommand>, spare: nat)
    requires
        forall|i: int| 0 <= i < cmds.len() ==> encodable(#[trigger] cmds[i]),
    ensures
        ({
            let region = log_image(cmds) + zeros(spare);
            scan_from(region, 0, region.len() as int) == (record_sizes(cmds), cmds.len() as int)
        }),
{
    let region = log_image(cmds) + zeros(spare);
    assert(region.subrange(0, log_image(cmds).len() as int) =~= log_image(cmds));
    lemma_scan_image(region, 0, cmds);
    lemma_image_len(cmds);
}

/// Appending `cmds` and iterating from the start yields the same commands
/// in the same order, numbered from 1, each as its frame gives it back
/// (a new order without its ingress timestamp).
pub proof fn lemma_append_then_iterate(cmds: Seq<EngineCommand>, spare: nat)
    requires
        forall|i: int| 0 <= i < cmds.len() ==> encodable(#[trigger] cmds[i]),
        cmds.len() <= u64::MAX,
    ensures
        ({
            let region = log_image(cmds) + zeros(spare);
            collect_from(region, 0, log_image(cmds).len() as int, 0, 0) == Ok::<Seq<(u64, EngineCommand)>, WalError>(
                Seq::new(cmds.len(), |i: int| ((i + 1) as u64, as_decoded(cmds[i]))),
            )
        }),
{
    let region = log_image(cmds) + zeros(spare);
    assert(region.subrange(0, log_image(cmds).len() as int) =~= log_image(cmds));
    lemma_collect_image(region, 0, cmds, 0);
    assert(Seq::new(cmds.len(), |i: int| ((0 + i + 1) as u64, as_decoded(cmds[i]))) =~= Seq::new(
        cmds.len(),
        |i: int| ((i + 1) as u64, as_decoded(cmds[i])),
    ));
}

/// The region after appending `c` to a log that holds the records of
/// `cmds` followed by zeros holds the records of `cmds` and then `c`,
/// followed by zeros.
pub proof fn lemma_append_image(cmds: Seq<EngineCommand>, c: EngineCommand, spare: nat)
    ensures
        ({
            let before = log_image(cmds) + zeros(spare);
            let after = overwrite(grown(before, (log_image(cmds).len() + record_of(c).len()) as int), log_image(cmds).len() as int, record_of(c));
            &&& after.subrange(0, log_image(cmds.push(c)).len() as int) == log_image(cmds.push(c))
            &&& forall|j: int| log_image(cmds.push(c)).len() <= j < after.len() ==> after[j] == 0
        }),
{
    lemma_image_push(cmds, c);
    let before = log_image(cmds) + zeros(spare);
    let after = overwrite(grown(before, (log_image(cmds).len() + record_of(c).len()) as int), log_image(cmds).len() as int, record_of(c));
    assert(after.subrange(0, log_image(cmds.push(c)).len() as int) =~= log_image(cmds.push(c)));
}

pub proof fn lemma_image_push(cmds: Seq<EngineCommand>, c: EngineCommand)
    ensures
        log_image(cmds.push(c)) == log_image(cmds) + record_of(c),
    decreases cmds.len(),
{
    if cmds.len() == 0 {
        assert(cmds.push(c).drop_first() =~= Seq::<EngineCommand>::empty());
        assert(cmds.push(c)[0] == c);
        assert(log_image(cmds.push(c)) == record_of(c) + log_image(Seq::<EngineCommand>::empty()));
        assert(log_image(cmds.push(c)) =~= log_image(cmds) + record_of(c));
    } else {
        lemma_image_push(cmds.drop_first(), c);
        assert(cmds.push(c).drop_first() =~= cmds.drop_first().push(c));
        assert(cmds.push(c)[0] == cmds[0]);
        assert(log_image(cmds.push(c)) == record_of(cmds[0]) + log_image(cmds.drop_first().push(c)));
        assert(log_image(cmds) == record_of(cmds[0]) + log_image(cmds.drop_first()));
        let r0 = record_of(cmds[0]);
        let lr = log_image(cmds.drop_first());
        let rc = record_of(c);
        assert((r0 + lr) + rc =~= r0 + (lr + rc));
    }
}

/// `b` with `bytes` written over it from `off` on.
pub open spec fn overwrite(b: Seq<u8>, off: int, bytes: Seq<u8>) -> Seq<u8> {
    crate::protocol::overwrite(b, off, bytes)
}

/// The region once it is large enough for `needed` bytes: doubled, or
/// grown to `needed` if doubling is not enough, with zeros.
pub open spec fn grown(b: Seq<u8>, needed: int) -> Seq<u8> {
    if needed <= b.len() {
        b
    } else {
        b + zeros((if 2 * b.len() >= needed { 2 * b.len() as int } else { needed } - b.len()) as nat)
    }
}

/// Appends zeros to `v` until it is `new_len` long.
fn grow_zeroed(v: &mut Vec<u8>, new_len: usize)
    requires
        old(v)@.len() <= new_len,
    ensures
        final(v)@ == old(v)@ + zeros((new_len - old(v)@.len()) as nat),
{
    let ghost start = v@;
    while v.len() < new_len
        invariant
            start.len() <= v@.len() <= new_len,
            v@ == start + zeros((v@.len() - start.len()) as nat),
        decreases new_len - v@.len(),
    {
        v.push(0);
        proof {
            assert(v@ =~= start + zeros((v@.len() - start.len()) as nat));
        }
    }
}

/// Append-only log of engine commands over the bytes of its mapped region.
///
/// Record layout: payload length (u32 LE), CRC-32 of the payload (u32 LE),
/// the payload (a framed command), zero padding to an 8-byte boundary.
pub struct Wal {
    region: Vec<u8>,
    write_pos: usize,
    record_count: u64,
}

impl Wal {
    /// The bytes of the mapped region.
    pub closed spec fn bytes(&self) -> Seq<u8> {
        self.region@
    }

    pub closed spec fn pos(&self) -> int {
        self.write_pos as int
    }

    pub closed spec fn count(&self) -> int {
        self.record_count as int
    }

    pub open spec fn wf(&self) -> bool {
        &&& 0 <= self.pos() <= self.bytes().len()
    }

    /// Opens a log over the bytes of an existing region, extended with zeros
    /// to `initial_size` if shorter. The write position and record count are
    /// those after the last valid record: a zero length prefix, a record
    /// that runs past the region or a checksum mismatch ends the log.
    pub fn open(region: Vec<u8>, initial_size: u64) -> (r: Wal)
        requires
            initial_size <= usize::MAX,
        ensures
            r.wf(),
            r.bytes() == (if region@.len() < initial_size {
                region@ + zeros((initial_size - region@.len()) as nat)
            } else {
                region@
            }),
            (r.pos(), r.count()) == scan_from(r.bytes(), 0, r.bytes().len() as int),
    {
        let mut region = region;
        if region.len() < initial_size as usize {
            grow_zeroed(&mut region, initial_size as usize);
        }
        let (pos, count) = scan_to_end(region.as_slice());
        proof {
            lemma_scan_bounds(region@, 0, region@.len() as int);
        }
        Wal { region, write_pos: pos, record_count: count }
    }

    /// A new, empty log of `initial_size` zero bytes.
    pub fn with_size(initial_size: u64) -> (r: Wal)
        requires
            initial_size <= usize::MAX,
        ensures
            r.wf(),
            r.bytes() == zeros(initial_size as nat),
            r.pos() == 0,
            r.count() == 0,
    {
        let r = Wal::open(Vec::new(), initial_size);
        proof {
            assert(r.bytes() =~= zeros(initial_size as nat));
            if initial_size >= 8 {
                assert(u32_at(r.bytes(), 0) == 0) by {
                    assert(r.bytes()[0] == 0 && r.bytes()[1] == 0 && r.bytes()[2] == 0 && r.bytes()[3] == 0);
                    assert(crate::protocol::u32_from(0, 0, 0, 0) == 0) by (bit_vector);
                }
            }
        }
        r
    }

    pub fn record_count(&self) -> (r: u64)
        ensures
            r == self.count(),
    {
        self.record_count
    }

    pub fn write_pos(&self) -> (r: u64)
        ensures
            r == self.pos(),
    {
        self.write_pos as u64
    }

    pub fn mapped_size(&self) -> (r: u64)
        ensures
            r == self.bytes().len(),
    {
        self.region.len() as u64
    }

    /// The bytes of the mapped region, for whoever persists them.
    pub fn region(&self) -> (r: &[u8])
        ensures
            r@ == self.bytes(),
    {
        self.region.as_slice()
    }

    /// Makes room for `needed` more bytes at the write position.
    fn ensure_capacity(&mut self, needed: usize)
        requires
            old(self).wf(),
            old(self).pos() + needed <= usize::MAX,
            old(self).bytes().len() <= usize::MAX / 2,
        ensures
            final(self).wf(),
            final(self).bytes() == grown(old(self).bytes(), old(self).pos() + needed),
            final(self).pos() == old(self).pos(),
            final(self).count() == old(self).count(),
    {
        let len = self.region.len();
        if self.write_pos + needed <= len {
            return;
        }
        let new_size = if 2 * len >= self.write_pos + needed {
            2 * len
        } else {
            self.write_pos + needed
        };
        grow_zeroed(&mut self.region, new_size);
    }

    /// Appends one command and returns its record number (1-based).
    pub fn append(&mut self, cmd: &EngineCommand) -> (r: Result<u64, WalError>)
        requires
            old(self).wf(),
            old(self).pos() + 64 <= usize::MAX,
            old(self).bytes().len() <= usize::MAX / 2,
            old(self).count() < u64::MAX,
        ensures
            final(self).wf(),
            r == Ok::<u64, WalError>((old(self).count() + 1) as u64),
            final(self).count() == old(self).count() + 1,
            final(self).pos() == old(self).pos() + record_of(*cmd).len(),
            final(self).bytes() == overwrite(
                grown(old(self).bytes(), old(self).pos() + record_of(*cmd).len()),
                old(self).pos(),
                record_of(*cmd),
            ),
    {
        let mut buf: Vec<u8> = Vec::with_capacity(NEW_ORDER_SIZE);
        grow_zeroed(&mut buf, NEW_ORDER_SIZE);
        let n = match cmd {
            EngineCommand::NewOrder(order) => encode_new_order(buf.as_mut_slice(), order),
            EngineCommand::CancelOrder { order_id } => encode_cancel_order(buf.as_mut_slice(), *order_id),
        };
        let n = match n {
            Ok(n) => n,
            Err(e) => {
                return Err(WalError::Protocol(e));
            },
        };
        buf.truncate(n);
        proof {
            assert(buf@ =~= command_frame(*cmd));
        }
        let crc = crc32(buf.as_slice());
        let record_size = align_up(HEADER_SIZE + n);
        self.ensure_capacity(record_size);
        let pos = self.write_pos;
        let ghost before = self.region@;
        let mut rec: Vec<u8> = Vec::with_capacity(record_size);
        rec.push(n as u8);
        rec.push((n as u32 >> 8u32) as u8);
        rec.push((n as u32 >> 16u32) as u8);
        rec.push((n as u32 >> 24u32) as u8);
        rec.push(crc as u8);
        rec.push((crc >> 8u32) as u8);
        rec.push((crc >> 16u32) as u8);
        rec.push((crc >> 24u32) as u8);
        let mut i: usize = 0;
        while i < n
            invariant
                i <= n,
                n == buf@.len(),
                n <= 40,
                rec@.len() == 8 + i,
                forall|j: int| 0 <= j < i ==> rec@[8 + j] == buf@[j],
                forall|j: int| 0 <= j < 8 ==> rec@[j] == (le_u32(n as u32) + le_u32(crc))[j],
            decreases n - i,
        {
            rec.push(buf[i]);
            i = i + 1;
        }
        while rec.len() < record_size
            invariant
                8 + n <= rec@.len() <= record_size,
                n == buf@.len(),
                n <= 40,
                forall|j: int| 0 <= j < n ==> rec@[8 + j] == buf@[j],
                forall|j: int| 0 <= j < 8 ==> rec@[j] == (le_u32(n as u32) + le_u32(crc))[j],
                forall|j: int| 8 + n <= j < rec@.len() ==> rec@[j] == 0,
            decreases record_size - rec@.len(),
        {
            rec.push(0);
        }
        proof {
            assert(rec@ =~= record_of(*cmd));
        }
        let rlen = self.region.len();
        let mut k: usize = 0;
        while k < record_size
            invariant
                k <= record_size,
                rlen == self.region@.len(),
                rec@.len() == record_size,
                pos + record_size <= self.region@.len(),
                self.region@.len() == before.len(),
                self.write_pos == pos,
                self.record_count == old(self).record_count,
                self.record_count < u64::MAX,
                forall|j: int| 0 <= j < before.len() && !(pos <= j < pos + k) ==> self.region@[j] == before[j],
                forall|j: int| pos <= j < pos + k ==> self.region@[j] == rec@[j - pos],
            decreases record_size - k,
        {
            self.region.set(pos + k, rec[k]);
            k = k + 1;
        }
        self.write_pos = pos + record_size;
        self.record_count = self.record_count + 1;
        proof {
            assert(self.region@ =~= overwrite(before, pos as int, rec@));
        }
        Ok(self.record_count)
    }

    /// Overwrites one byte of the mapped region in place, as a torn or
    /// damaged write would; the write position and count stay.
    pub fn set_byte(&mut self, offset: usize, value: u8)
        requires
            old(self).wf(),
            offset < old(self).bytes().len(),
        ensures
            final(self).wf(),
            final(self).bytes() == old(self).bytes().update(offset as int, value),
            final(self).pos() == old(self).pos(),
            final(self).count() == old(self).count(),
    {
        self.region.set(offset, value);
    }

    /// Iteration over the records numbered after `start_record` (1-based).
    pub fn iter_from(&self, start_record: u64) -> (r: WalIterator)
        ensures
            r.wf(),
            r.state() == (0int, self.pos(), 0int, start_record as int),
    {
        WalIterator { read_pos: 0, end_pos: self.write_pos, current_record: 0, start_record }
    }

    /// All records numbered after `start_record`, with their numbers, or
    /// the first error that iteration meets.
    pub fn records_from(&self, start_record: u64) -> (r: Result<Vec<(u64, EngineCommand)>, WalError>)
        requires
            self.wf(),
        ensures
            match (r, collect_from(self.bytes(), 0, self.pos(), 0, start_record as int)) {
                (Ok(v), Ok(s)) => v@ == s,
                (Err(e1), Err(e2)) => e1 == e2,
                _ => false,
            },
    {
        let region = self.region.as_slice();
        let end = self.write_pos;
        let mut out: Vec<(u64, EngineCommand)> = Vec::new();
        let mut pos: usize = 0;
        let mut cur: u64 = 0;
        let ghost whole = collect_from(region@, 0, end as int, 0, start_record as int);
        loop
            invariant
                region@ == self.bytes(),
                end == self.pos(),
                end <= region@.len(),
                pos <= end,
                cur <= pos,
                whole == collect_from(region@, 0, end as int, 0, start_record as int),
                whole == prepend(out@, collect_from(region@, pos as int, end as int, cur as int, start_record as int)),
            decreases end - pos,
        {
            match probe_at(region, pos, end) {
                Probe::Valid(size, n) => {
                    if size == 0 {
                        proof {
                            assert(out@ + Seq::<(u64, EngineCommand)>::empty() =~= out@);
                        }
                        return Ok(out);
                    }
                    let at = pos;
                    pos = pos + size;
                    cur = cur + 1;
                    if cur > start_record {
                        match decode_message(&region[at + HEADER_SIZE..at + HEADER_SIZE + n]) {
                            Ok(cmd) => {
                                let ghost before = out@;
                                out.push((cur, cmd));
                                proof {
                                    match collect_from(region@, pos as int, end as int, cur as int, start_record as int) {
                                        Ok(s) => {
                                            assert(before + (seq![(cur, cmd)] + s) =~= out@ + s);
                                        },
                                        Err(_) => {},
                                    }
                                }
                            },
                            Err(e) => {
                                return Err(WalError::Protocol(e));
                            },
                        }
                    }
                },
                Probe::End => {
                    proof {
                        assert(out@ + Seq::<(u64, EngineCommand)>::empty() =~= out@);
                    }
                    return Ok(out);
                },
                Probe::Truncated => {
                    return Err(WalError::TruncatedRecord { offset: pos as u64 });
                },
                Probe::Corrupt => {
                    return Err(WalError::Corruption { offset: pos as u64 });
                },
            }
        }
    }

    /// Zeroes the log from `offset` to the write position and makes
    /// `offset` and `record_count` the new write position and count.
    pub fn truncate_to(&mut self, offset: u64, record_count: u64) -> (r: Result<(), WalError>)
        requires
            old(self).wf(),
            offset <= old(self).pos(),
        ensures
            final(self).wf(),
            r is Ok,
            final(self).pos() == offset,
            final(self).count() == record_count,
            final(self).bytes() == overwrite(old(self).bytes(), offset as int, zeros((old(self).pos() - offset) as nat)),
    {
        let start = offset as usize;
        let end = self.write_pos;
        let mut i = start;
        while i < end
            invariant
                start <= i <= end,
                end <= self.region@.len(),
                self.region@.len() == old(self).region@.len(),
                forall|j: int| 0 <= j < self.region@.len() && !(start <= j < i) ==> self.region@[j] == old(self).region@[j],
                forall|j: int| start <= j < i ==> self.region@[j] == 0,
            decreases end - i,
        {
            self.region.set(i, 0);
            i = i + 1;
        }
        self.write_pos = start;
        self.record_count = record_count;
        proof {
            assert(self.region@ =~= overwrite(old(self).bytes(), offset as int, zeros((old(self).pos() - offset) as nat)));
        }
        Ok(())
    }
}

} // verus!
