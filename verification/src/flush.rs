//! Moving records from the volatile ring to the persistent ring.
//!
//! One step of the flush daemon reads what the volatile ring holds, adds it
//! to the records still waiting from earlier steps, and writes up to a batch
//! of those to the persistent ring, oldest first, stopping at the first write
//! that fails; the rest wait for the next step.  Waiting for data, timing,
//! keeping the waiting records and choosing the batch size are up to the
//! caller.
use vstd::prelude::*;
use crate::disk::persistent::{
    control_after_write, disk_header_for, lemma_write_extends_scan_raw, record_view_of,
    region_after_write, scan, write_in_region, PersistentError, PersistentRingBuffer,
};
use crate::disk::{ControlBlock, Header};
use crate::memory::{Record, RecordView};
use crate::memory::volatile::{read_effect, VolatileRingBuffer};

verus! {

/// The region and control block after writing `recs` one by one; a record
/// too large for the data area, or one that would pass the end of the
/// region, is refused and changes nothing.
pub open spec fn after_writes(
    region: Seq<u8>,
    c: ControlBlock,
    size: nat,
    recs: Seq<RecordView>,
) -> (Seq<u8>, ControlBlock)
    decreases recs.len(),
{
    if recs.len() == 0 {
        (region, c)
    } else {
        let (r0, c0) = after_writes(region, c, size, recs.drop_last());
        let rec = recs.last();
        let total = Header::SIZE + rec.data.len();
        if total > size || !write_in_region(r0.len(), c0, size, total) {
            (r0, c0)
        } else {
            (region_after_write(r0, c0, size, rec), control_after_write(c0, size, total))
        }
    }
}

/// The number of records a batch may write: `batch_size`, but at least one,
/// and no more than there are.
pub open spec fn batch_limit(batch_size: nat, available: nat) -> nat {
    let b = if batch_size == 0 {
        1
    } else {
        batch_size
    };
    if b < available {
        b
    } else {
        available
    }
}

/// Whether a record of `len` data bytes fits the data area of a ring of
/// `size` bytes, header included.
pub open spec fn fits_disk(len: nat, size: nat) -> bool {
    Header::SIZE + len <= size
}

/// Why a batch of `recs` (at most `n` of them) written from the state
/// `(region, c)` stopped after `written` records, given the outcome `last`
/// of the last write made:
/// - `Ok`: no write failed, and all `n` were written;
/// - `InvalidRecord`: the next record does not fit the data area;
/// - `InvalidBuffer`: it fits the data area but would pass the end of the
///   region where it is due;
/// - `Io`: it was stored, and the flush after it failed.
pub open spec fn batch_stop(
    region: Seq<u8>,
    c: ControlBlock,
    size: nat,
    recs: Seq<RecordView>,
    n: nat,
    written: nat,
    last: Result<(), PersistentError>,
) -> bool {
    let st = after_writes(region, c, size, recs.subrange(0, written as int));
    let total = Header::SIZE + recs[written as int].data.len();
    &&& written <= n <= recs.len()
    &&& match last {
        Ok(()) => written == n,
        Err(PersistentError::InvalidRecord) => written < n && !fits_disk(
            recs[written as int].data.len(),
            size,
        ),
        Err(PersistentError::InvalidBuffer) => written < n && fits_disk(
            recs[written as int].data.len(),
            size,
        ) && !write_in_region(st.0.len(), st.1, size, total),
        Err(PersistentError::Io(_)) => written < n && fits_disk(
            recs[written as int].data.len(),
            size,
        ) && write_in_region(st.0.len(), st.1, size, total),
    }
}

/// How many records a batch that stopped with `last` after `written` records
/// has dealt with: the written ones, and the failed one if a write failed.
pub open spec fn batch_consumed(written: nat, last: Result<(), PersistentError>) -> nat {
    if last is Ok {
        written
    } else {
        written + 1
    }
}

/// Write up to `batch_size` (at least one) of `records` to `disk`, in order,
/// stopping at the first write that fails.  Returns how many were written
/// without error, and the outcome of the last write made (`Ok` when none
/// failed); `batch_stop` says what each outcome means.  The region is
/// flushed once more when anything was written; the outcome of that flush is
/// not reported.
pub fn flush_batch(disk: &mut PersistentRingBuffer, records: &[Record], batch_size: usize) -> (res: (
    usize,
    Result<(), PersistentError>,
))
    requires
        old(disk).wf(),
    ensures
        final(disk).wf(),
        final(disk).size_spec() == old(disk).size_spec(),
        ({
            let (written, last) = res;
            let recs = records@.map_values(|r: Record| r@);
            &&& batch_stop(
                old(disk).region(),
                old(disk).control(),
                old(disk).size_spec(),
                recs,
                batch_limit(batch_size as nat, records@.len()),
                written as nat,
                last,
            )
            &&& (final(disk).region(), final(disk).control()) == after_writes(
                old(disk).region(),
                old(disk).control(),
                old(disk).size_spec(),
                recs.subrange(0, batch_consumed(written as nat, last) as int),
            )
        }),
{
    let limit: usize = if batch_size == 0 {
        1
    } else {
        batch_size
    };
    let ghost recs = records@.map_values(|r: Record| r@);
    let ghost size = disk.size_spec();
    let ghost r0 = disk.region();
    let ghost c0 = disk.control();
    let ghost n = batch_limit(batch_size as nat, records@.len());
    let mut written: usize = 0;
    let mut last: Result<(), PersistentError> = Ok(());
    proof {
        assert(recs.subrange(0, 0) =~= Seq::<RecordView>::empty());
    }
    while last.is_ok() && written < records.len() && written < limit
        invariant
            disk.wf(),
            disk.size_spec() == size,
            written <= records@.len(),
            written <= limit,
            recs == records@.map_values(|r: Record| r@),
            limit == if batch_size == 0 {
                1
            } else {
                batch_size
            },
            n == batch_limit(batch_size as nat, records@.len()),
            last is Ok ==> written <= n,
            last is Ok ==> (disk.region(), disk.control()) == after_writes(
                r0,
                c0,
                size,
                recs.subrange(0, written as int),
            ),
            !(last is Ok) ==> batch_stop(r0, c0, size, recs, n, written as nat, last),
            !(last is Ok) ==> (disk.region(), disk.control()) == after_writes(
                r0,
                c0,
                size,
                recs.subrange(0, written + 1),
            ),
        decreases records@.len() - written + if last is Ok {
            1int
        } else {
            0int
        },
    {
        let result = disk.write(&records[written]);
        proof {
            let s = recs.subrange(0, written + 1);
            assert(s.drop_last() =~= recs.subrange(0, written as int));
            assert(s.last() == records@[written as int]@);
            assert(recs[written as int] == records@[written as int]@);
        }
        match result {
            Ok(()) => {
                written = written + 1;
            },
            Err(e) => {
                last = Err(e);
            },
        }
    }
    if written > 0 {
        let _ = disk.flush();
    }
    (written, last)
}

/// One flush step.  The records read from the volatile ring join `backlog`,
/// the records still waiting from earlier steps; then up to `batch_size` of
/// them, oldest first, are written to the persistent ring as `flush_batch`
/// does, and leave the backlog.  The record whose write failed leaves it too:
/// it is too large ever to fit, would pass the end of the region where it is
/// due, or was stored despite the failed flush.  Every other record stays in
/// the backlog, in order, for the next step.  Returns what `flush_batch`
/// returns.
pub fn flush_step(
    memory: &mut VolatileRingBuffer,
    disk: &mut PersistentRingBuffer,
    backlog: &mut Vec<Record>,
    batch_size: usize,
) -> (res: (usize, Result<(), PersistentError>))
    requires
        old(memory).wf(),
        old(disk).wf(),
    ensures
        read_effect(*old(memory), *final(memory), old(memory).pending()),
        final(disk).wf(),
        final(disk).size_spec() == old(disk).size_spec(),
        ({
            let (written, last) = res;
            let queue = old(backlog)@.map_values(|r: Record| r@) + old(memory).pending();
            let consumed = batch_consumed(written as nat, last);
            &&& batch_stop(
                old(disk).region(),
                old(disk).control(),
                old(disk).size_spec(),
                queue,
                batch_limit(batch_size as nat, queue.len()),
                written as nat,
                last,
            )
            &&& final(backlog)@.map_values(|r: Record| r@) == queue.subrange(
                consumed as int,
                queue.len() as int,
            )
            &&& (final(disk).region(), final(disk).control()) == after_writes(
                old(disk).region(),
                old(disk).control(),
                old(disk).size_spec(),
                queue.subrange(0, consumed as int),
            )
        }),
{
    let mut records = memory.read();
    let ghost old_q = backlog@;
    backlog.append(&mut records);
    proof {
        assert(backlog@.map_values(|r: Record| r@) =~= old_q.map_values(|r: Record| r@)
            + old(memory).pending());
    }
    let ghost q = backlog@;
    let (written, last) = flush_batch(disk, backlog.as_slice(), batch_size);
    let consumed = if last.is_ok() {
        written
    } else {
        written + 1
    };
    let rest = backlog.split_off(consumed);
    *backlog = rest;
    proof {
        let qv = q.map_values(|r: Record| r@);
        assert(backlog@.map_values(|r: Record| r@) =~= qv.subrange(
            consumed as int,
            qv.len() as int,
        ));
    }
    (written, last)
}

/// The bytes that `recs` take in the data area: a header and the data of
/// each.
pub open spec fn disk_span(recs: Seq<RecordView>) -> nat
    decreases recs.len(),
{
    if recs.len() == 0 {
        0
    } else {
        disk_span(recs.drop_last()) + (Header::SIZE as nat) + recs.last().data.len()
    }
}

/// How a record reads back from the data area.
pub open spec fn stored_record(r: RecordView) -> RecordView {
    record_view_of(disk_header_for(r), r.data)
}

/// A run of writes reads back in order: when the walk from `from` reaches
/// exactly the write position and the records fit after it without wrapping,
/// writing them one by one makes the walk to the new write position yield
/// what it yielded before followed by the records, in the order written.
pub proof fn lemma_writes_read_back(
    region: Seq<u8>,
    c: ControlBlock,
    size: nat,
    recs: Seq<RecordView>,
    from: int,
)
    requires
        ControlBlock::SIZE + size <= region.len() <= usize::MAX,
        0 <= from <= c.write_pos,
        c.write_pos + disk_span(recs) <= size,
        forall|i: int| 0 <= i < recs.len() ==> (#[trigger] recs[i]).data.len() <= u32::MAX,
        scan(region, size, from, c.write_pos as int) matches Some((_, e)) && e == c.write_pos,
    ensures
        ({
            let (r2, c2) = after_writes(region, c, size, recs);
            &&& r2.len() == region.len()
            &&& c2.write_pos == c.write_pos + disk_span(recs)
            &&& c2.read_pos == c.read_pos
            &&& scan(r2, size, from, c2.write_pos as int) == Some(
                (
                    scan(region, size, from, c.write_pos as int).unwrap().0 + recs.map_values(
                        |r: RecordView| stored_record(r),
                    ),
                    c2.write_pos as int,
                ),
            )
        }),
    decreases recs.len(),
{
    let before = scan(region, size, from, c.write_pos as int).unwrap().0;
    if recs.len() == 0 {
        assert(before + recs.map_values(|r: RecordView| stored_record(r)) =~= before);
    } else {
        let init = recs.drop_last();
        let rec = recs.last();
        assert forall|i: int| 0 <= i < init.len() implies (#[trigger] init[i]).data.len()
            <= u32::MAX by {
            assert(init[i] == recs[i]);
        }
        lemma_writes_read_back(region, c, size, init, from);
        let (r0, c0) = after_writes(region, c, size, init);
        let total = Header::SIZE + rec.data.len();
        assert(rec.data.len() <= u32::MAX) by {
            assert(recs[recs.len() - 1] == rec);
        }
        lemma_write_extends_scan_raw(r0, c0, size, rec, from);
        crate::disk::persistent::lemma_write_then_read_at_raw(r0, c0, size, rec);
        let mid = scan(r0, size, from, c0.write_pos as int).unwrap().0;
        assert(mid == before + init.map_values(|r: RecordView| stored_record(r)));
        assert(mid.push(stored_record(rec)) =~= before + recs.map_values(
            |r: RecordView| stored_record(r),
        ));
    }
}

/// After a run of writes that a caught-up reader has not seen, a read of
/// everything returns exactly those records, in the order written; a second
/// read then finds nothing, since the read position has caught up.
pub proof fn lemma_caught_up_writes_read_back(
    region: Seq<u8>,
    c: ControlBlock,
    size: nat,
    recs: Seq<RecordView>,
)
    requires
        ControlBlock::SIZE + size <= region.len() <= usize::MAX,
        c.read_pos == c.write_pos,
        c.write_pos + disk_span(recs) <= size,
        forall|i: int| 0 <= i < recs.len() ==> (#[trigger] recs[i]).data.len() <= u32::MAX,
    ensures
        ({
            let (r2, c2) = after_writes(region, c, size, recs);
            &&& scan(r2, size, c2.read_pos as int, c2.write_pos as int) == Some(
                (recs.map_values(|r: RecordView| stored_record(r)), c2.write_pos as int),
            )
            &&& scan(r2, size, c2.write_pos as int, c2.write_pos as int) == Some(
                (Seq::<RecordView>::empty(), c2.write_pos as int),
            )
        }),
{
    lemma_writes_read_back(region, c, size, recs, c.read_pos as int);
    let e = Seq::<RecordView>::empty();
    assert(e + recs.map_values(|r: RecordView| stored_record(r)) =~= recs.map_values(
        |r: RecordView| stored_record(r),
    ));
}

/// A flush step delivers in order and drops nothing: when no write of the
/// step failed, the whole batch was written; and when the reader had caught
/// up and the batch fits after the write position without wrapping, reading
/// everything afterwards gives exactly the batch, in the order it was queued
/// (waiting records first, then those just read from memory).  The records
/// beyond the batch are the ones left waiting (`flush_step`'s contract).
pub proof fn lemma_flush_delivers_in_order(
    region: Seq<u8>,
    c: ControlBlock,
    size: nat,
    queue: Seq<RecordView>,
    n: nat,
    written: nat,
    last: Result<(), PersistentError>,
)
    requires
        batch_stop(region, c, size, queue, n, written, last),
        last is Ok,
        ControlBlock::SIZE + size <= region.len() <= usize::MAX,
        c.read_pos == c.write_pos,
        c.write_pos + disk_span(queue.subrange(0, n as int)) <= size,
        forall|i: int| 0 <= i < n ==> (#[trigger] queue[i]).data.len() <= u32::MAX,
    ensures
        written == n,
        ({
            let (r2, c2) = after_writes(region, c, size, queue.subrange(0, written as int));
            scan(r2, size, c2.read_pos as int, c2.write_pos as int) == Some(
                (
                    queue.subrange(0, n as int).map_values(|r: RecordView| stored_record(r)),
                    c2.write_pos as int,
                ),
            )
        }),
{
    let batch = queue.subrange(0, n as int);
    assert forall|i: int| 0 <= i < batch.len() implies (#[trigger] batch[i]).data.len()
        <= u32::MAX by {
        assert(batch[i] == queue[i]);
    }
    lemma_caught_up_writes_read_back(region, c, size, batch);
}

} // verus!
