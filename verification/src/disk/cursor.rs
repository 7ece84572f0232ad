//! Cursor for reading records from the persistent ring buffer.
//!
//! A cursor holds a position (an offset into the data area and the wrap
//! count it belongs to) and whether it has reached the end of the written
//! data.  It reads from a buffer passed to each call, so several cursors can
//! read the same buffer, and one of them can commit its position back as the
//! buffer's read position.
use vstd::prelude::*;
use crate::disk::{ControlBlock, Header};
use crate::disk::persistent::{
    control_with_read_pos, ok_or_io, read_at_spec, record_view_of, PersistentError,
    PersistentRingBuffer, ReadOutcome, Result,
};
use crate::memory::{Record, RecordView};
use crate::region::splice;
use crate::disk::control_block_bytes;

verus! {

/// A position in the persistent ring buffer
#[derive(Debug, Clone, Copy, PartialEq, Eq, Structural)]
pub struct Position {
    /// Position in the buffer
    pub offset: u64,
    /// Wrap count when this position was created
    pub wrap_count: u64,
}

impl Position {
    /// Create a new position
    pub fn new(offset: u64, wrap_count: u64) -> (p: Self)
        ensures
            p == (Position { offset, wrap_count }),
    {
        Self { offset, wrap_count }
    }

    /// Create a position from the beginning of the buffer
    pub fn begin() -> (p: Self)
        ensures
            p == (Position { offset: 0, wrap_count: 0 }),
    {
        Self { offset: 0, wrap_count: 0 }
    }
}

/// The position a cursor starts from when none is given: the buffer's read
/// position in the current wrap.
pub open spec fn start_position(c: ControlBlock) -> Position {
    Position { offset: c.read_pos, wrap_count: c.wrap_count }
}

/// A position is at the end when it is the write position of the current wrap.
pub open spec fn is_end(c: ControlBlock, p: Position) -> bool {
    p.offset == c.write_pos && p.wrap_count == c.wrap_count
}

/// The outcome of one step of a cursor.
pub enum Step {
    /// Nothing more to read.
    End,
    /// A record whose data does not match its checksum.
    Corrupt,
    /// The next record.
    Found(RecordView),
}

/// `a + b`, or `u64::MAX` when that does not fit.
pub open spec fn saturating_sum(a: u64, b: u64) -> u64 {
    if a + b > u64::MAX {
        u64::MAX
    } else {
        (a + b) as u64
    }
}

/// One step of a cursor at `pos`: what it yields, where it then stands and
/// whether it is then at the end.
///
/// Where no record can be read the cursor moves on by a header's size and
/// tries again, until it reaches the write position of the current wrap (or
/// passes it in a later wrap) or leaves the data area; either way it is then
/// at the end.
pub open spec fn next_outcome(
    region: Seq<u8>,
    size: nat,
    c: ControlBlock,
    pos: Position,
    at_end: bool,
) -> (Step, Position, bool)
    decreases u64::MAX - pos.offset,
{
    if at_end {
        (Step::End, pos, true)
    } else {
        match read_at_spec(region, size, pos.offset as int) {
            ReadOutcome::Corrupt => (Step::Corrupt, pos, false),
            ReadOutcome::Found(h, d) => {
                let p2 = Position {
                    offset: (pos.offset + Header::SIZE + d.len()) as u64,
                    wrap_count: pos.wrap_count,
                };
                (Step::Found(record_view_of(h, d)), p2, is_end(c, p2))
            },
            ReadOutcome::Nothing => {
                let off = saturating_sum(pos.offset, Header::SIZE as u64);
                let p2 = Position { offset: off, wrap_count: pos.wrap_count };
                let e = off >= c.write_pos && pos.wrap_count >= c.wrap_count;
                if e || off >= size || off == u64::MAX {
                    (Step::End, p2, true)
                } else {
                    next_outcome(region, size, c, p2, e)
                }
            },
        }
    }
}

/// Up to `n` steps of a cursor, stopping at the end: the records read (or
/// `None` when a corrupt record is met) and where the cursor then stands.
pub open spec fn batch_outcome(
    region: Seq<u8>,
    size: nat,
    c: ControlBlock,
    pos: Position,
    at_end: bool,
    n: nat,
) -> (Option<Seq<RecordView>>, Position, bool)
    decreases n,
{
    if n == 0 {
        (Some(Seq::empty()), pos, at_end)
    } else {
        let (st, p2, e2) = next_outcome(region, size, c, pos, at_end);
        match st {
            Step::End => (Some(Seq::empty()), p2, e2),
            Step::Corrupt => (None, p2, e2),
            Step::Found(v) => {
                let (rest, p3, e3) = batch_outcome(region, size, c, p2, e2, (n - 1) as nat);
                (
                    match rest {
                        Some(rs) => Some(seq![v] + rs),
                        None => None,
                    },
                    p3,
                    e3,
                )
            },
        }
    }
}

/// A batch read is repeated single steps: reading `n + 1` records takes one
/// step of `next`; it stops there when that step yields nothing (or meets a
/// corrupt record), and otherwise yields that record followed by a batch of
/// `n` from where the step left the cursor.
pub proof fn lemma_batch_is_repeated_next(
    region: Seq<u8>,
    size: nat,
    c: ControlBlock,
    pos: Position,
    at_end: bool,
    n: nat,
)
    ensures
        ({
            let (st, p2, e2) = next_outcome(region, size, c, pos, at_end);
            batch_outcome(region, size, c, pos, at_end, n + 1) == match st {
                Step::End => (Some(Seq::<RecordView>::empty()), p2, e2),
                Step::Corrupt => (None, p2, e2),
                Step::Found(v) => {
                    let (rest, p3, e3) = batch_outcome(region, size, c, p2, e2, n);
                    (
                        match rest {
                            Some(rs) => Some(seq![v] + rs),
                            None => None,
                        },
                        p3,
                        e3,
                    )
                },
            }
        }),
{
}

/// A step that yields nothing leaves the cursor at the end.
pub proof fn lemma_next_end_is_ended(
    region: Seq<u8>,
    size: nat,
    c: ControlBlock,
    pos: Position,
    at_end: bool,
)
    ensures
        next_outcome(region, size, c, pos, at_end).0 is End ==> next_outcome(
            region,
            size,
            c,
            pos,
            at_end,
        ).2,
    decreases u64::MAX - pos.offset,
{
    if !at_end {
        if let ReadOutcome::Nothing = read_at_spec(region, size, pos.offset as int) {
            let off = saturating_sum(pos.offset, Header::SIZE as u64);
            let p2 = Position { offset: off, wrap_count: pos.wrap_count };
            let e = off >= c.write_pos && pos.wrap_count >= c.wrap_count;
            if !(e || off >= size || off == u64::MAX) {
                lemma_next_end_is_ended(region, size, c, p2, e);
            }
        }
    }
}

/// A batch that yields fewer records than asked for leaves the cursor at the
/// end (unless a corrupt record stopped it).
pub proof fn lemma_short_batch_is_ended(
    region: Seq<u8>,
    size: nat,
    c: ControlBlock,
    pos: Position,
    at_end: bool,
    n: nat,
)
    ensures
        batch_outcome(region, size, c, pos, at_end, n).0 matches Some(rs) && rs.len() < n
            ==> batch_outcome(region, size, c, pos, at_end, n).2,
        batch_outcome(region, size, c, pos, at_end, n).0 matches Some(rs) ==> rs.len() <= n,
    decreases n,
{
    if n > 0 {
        lemma_next_end_is_ended(region, size, c, pos, at_end);
        let (st, p2, e2) = next_outcome(region, size, c, pos, at_end);
        if let Step::Found(v) = st {
            lemma_short_batch_is_ended(region, size, c, p2, e2, (n - 1) as nat);
        }
    }
}

/// Where `seek_to(p)` puts a cursor, and whether it is then at the end.
///
/// A position beyond the write position is clamped to it; a position from an
/// earlier wrap, whose data may have been overwritten, moves to the start of
/// the current wrap.
pub open spec fn seek_outcome(c: ControlBlock, p: Position) -> (Position, bool) {
    if p.wrap_count > c.wrap_count || (p.wrap_count == c.wrap_count && p.offset > c.write_pos) {
        (Position { offset: c.write_pos, wrap_count: c.wrap_count }, true)
    } else if p.wrap_count < c.wrap_count {
        (Position { offset: 0, wrap_count: c.wrap_count }, false)
    } else {
        (p, p.offset == c.write_pos)
    }
}

/// Whether committing position `p` moves the buffer's read position: it must
/// be in the current wrap, past the read position and not past the write
/// position.
pub open spec fn commit_moves(c: ControlBlock, p: Position) -> bool {
    p.wrap_count == c.wrap_count && p.offset > c.read_pos && p.offset <= c.write_pos
}

/// A cursor for reading records from the persistent ring buffer
pub struct Cursor {
    /// Current position in the buffer
    position: Position,
    /// Whether the cursor has reached the end of available data
    at_end: bool,
}

impl Cursor {
    /// The cursor's position.
    pub closed spec fn pos(&self) -> Position {
        self.position
    }

    /// Whether the cursor is at the end of the data.
    pub closed spec fn ended(&self) -> bool {
        self.at_end
    }

    /// Create a new cursor for reading from the buffer, at `position` or,
    /// when none is given, at the buffer's read position.
    pub fn new(buffer: &PersistentRingBuffer, position: Option<Position>) -> (cur: Self)
        ensures
            cur.pos() == match position {
                Some(p) => p,
                None => start_position(buffer.control()),
            },
            cur.ended() == is_end(buffer.control(), cur.pos()),
    {
        let control = buffer.control_block();
        let position = match position {
            Some(p) => p,
            None => Position::new(control.read_pos, control.wrap_count),
        };
        let at_end = position.offset == control.write_pos && position.wrap_count
            == control.wrap_count;
        Self { position, at_end }
    }

    /// Get the current position
    pub fn position(&self) -> (p: Position)
        ensures
            p == self.pos(),
    {
        self.position
    }

    /// Check if the cursor has reached the end of available data
    pub fn at_end(&self) -> (e: bool)
        ensures
            e == self.ended(),
    {
        self.at_end
    }

    /// Read the next record from the buffer
    pub fn next(&mut self, buffer: &PersistentRingBuffer) -> (r: Result<Option<Record>>)
        requires
            buffer.wf(),
        ensures
            ({
                let (st, p2, e2) = next_outcome(
                    buffer.region(),
                    buffer.size_spec(),
                    buffer.control(),
                    old(self).pos(),
                    old(self).ended(),
                );
                &&& final(self).pos() == p2
                &&& final(self).ended() == e2
                &&& match st {
                    Step::End => r matches Ok(None),
                    Step::Corrupt => r matches Err(PersistentError::InvalidRecord),
                    Step::Found(v) => r matches Ok(Some(rec)) && rec@ == v,
                }
            }),
            r matches Ok(None) ==> final(self).ended(),
    {
        proof {
            lemma_next_end_is_ended(
                buffer.region(),
                buffer.size_spec(),
                buffer.control(),
                self.pos(),
                self.ended(),
            );
        }
        let ghost region = buffer.region();
        let ghost size = buffer.size_spec();
        let ghost c = buffer.control();
        let size_u64 = buffer.size() as u64;
        proof {
            buffer.lemma_wf_bounds();
        }
        loop
            invariant
                buffer.wf(),
                buffer.region() == region,
                buffer.size_spec() == size,
                buffer.control() == c,
                size_u64 == size,
                next_outcome(region, size, c, old(self).pos(), old(self).ended())
                    == next_outcome(region, size, c, self.position, self.at_end),
            decreases u64::MAX - self.position.offset,
        {
            proof {
                buffer.lemma_wf_bounds();
            }
            if self.at_end {
                return Ok(None);
            }
            match buffer.read_at(self.position.offset) {
                Err(e) => {
                    return Err(e);
                },
                Ok(Some((record, n))) => {
                    self.position.offset = self.position.offset + n as u64;
                    let control = buffer.control_block();
                    self.at_end = self.position.offset == control.write_pos
                        && self.position.wrap_count == control.wrap_count;
                    return Ok(Some(record));
                },
                Ok(None) => {
                    let off = self.position.offset;
                    self.position.offset = if off > u64::MAX - (Header::SIZE as u64) {
                        u64::MAX
                    } else {
                        off + Header::SIZE as u64
                    };
                    let control = buffer.control_block();
                    self.at_end = self.position.offset >= control.write_pos
                        && self.position.wrap_count >= control.wrap_count;
                    if self.at_end || self.position.offset >= size_u64
                        || self.position.offset == u64::MAX {
                        self.at_end = true;
                        return Ok(None);
                    }
                },
            }
        }
    }

    /// Read up to `max_count` records from the buffer
    pub fn read_batch(&mut self, buffer: &PersistentRingBuffer, max_count: usize) -> (r: Result<
        Vec<Record>,
    >)
        requires
            buffer.wf(),
        ensures
            ({
                let (out, p2, e2) = batch_outcome(
                    buffer.region(),
                    buffer.size_spec(),
                    buffer.control(),
                    old(self).pos(),
                    old(self).ended(),
                    max_count as nat,
                );
                &&& final(self).pos() == p2
                &&& final(self).ended() == e2
                &&& match out {
                    None => r matches Err(PersistentError::InvalidRecord),
                    Some(rs) => r matches Ok(v) && v@.map_values(|x: Record| x@) == rs,
                }
            }),
            r matches Ok(v) ==> v@.len() <= max_count,
            r matches Ok(v) && v@.len() < max_count ==> final(self).ended(),
    {
        proof {
            lemma_short_batch_is_ended(
                buffer.region(),
                buffer.size_spec(),
                buffer.control(),
                self.pos(),
                self.ended(),
                max_count as nat,
            );
        }
        let ghost region = buffer.region();
        let ghost size = buffer.size_spec();
        let ghost c = buffer.control();
        let ghost total = batch_outcome(
            region,
            size,
            c,
            self.position,
            self.at_end,
            max_count as nat,
        );
        let mut records: Vec<Record> = Vec::new();
        let mut i: usize = 0;
        while i < max_count
            invariant
                i <= max_count,
                records@.len() == i,
                buffer.wf(),
                buffer.region() == region,
                buffer.size_spec() == size,
                buffer.control() == c,
                total == batch_outcome(
                    region,
                    size,
                    c,
                    old(self).pos(),
                    old(self).ended(),
                    max_count as nat,
                ),
                ({
                    let (rest, p, e) = batch_outcome(
                        region,
                        size,
                        c,
                        self.position,
                        self.at_end,
                        (max_count - i) as nat,
                    );
                    total == (
                        match rest {
                            Some(rs) => Some(records@.map_values(|x: Record| x@) + rs),
                            None => None,
                        },
                        p,
                        e,
                    )
                }),
            decreases max_count - i,
        {
            let ghost before = records@.map_values(|x: Record| x@);
            let ghost p0 = self.position;
            let ghost e0 = self.at_end;
            proof {
                assert((max_count - i) as nat > 0);
                assert(batch_outcome(region, size, c, p0, e0, (max_count - i) as nat) == {
                    let (st, p2, e2) = next_outcome(region, size, c, p0, e0);
                    match st {
                        Step::End => (Some(Seq::<RecordView>::empty()), p2, e2),
                        Step::Corrupt => (None, p2, e2),
                        Step::Found(v) => {
                            let (rest, p3, e3) = batch_outcome(
                                region,
                                size,
                                c,
                                p2,
                                e2,
                                (max_count - i - 1) as nat,
                            );
                            (
                                match rest {
                                    Some(rs) => Some(seq![v] + rs),
                                    None => None,
                                },
                                p3,
                                e3,
                            )
                        },
                    }
                });
            }
            match self.next(buffer) {
                Err(e) => {
                    return Err(e);
                },
                Ok(Some(record)) => {
                    proof {
                        let v = record@;
                        assert(records@.push(record).map_values(|x: Record| x@) =~= before.push(
                            v,
                        ));
                        let (rest, p, e) = batch_outcome(
                            region,
                            size,
                            c,
                            self.position,
                            self.at_end,
                            (max_count - i - 1) as nat,
                        );
                        match rest {
                            Some(rs) => {
                                assert(before + (seq![v] + rs) =~= before.push(v) + rs);
                            },
                            None => {},
                        }
                    }
                    records.push(record);
                },
                Ok(None) => {
                    proof {
                        assert(records@.map_values(|x: Record| x@) + Seq::<RecordView>::empty()
                            =~= records@.map_values(|x: Record| x@));
                    }
                    return Ok(records);
                },
            }
            i = i + 1;
        }
        proof {
            assert(records@.map_values(|x: Record| x@) + Seq::<RecordView>::empty()
                =~= records@.map_values(|x: Record| x@));
        }
        Ok(records)
    }

    /// Skip to the given position
    pub fn seek_to(&mut self, buffer: &PersistentRingBuffer, position: Position) -> (r: Result<()>)
        ensures
            r is Ok,
            (final(self).pos(), final(self).ended()) == seek_outcome(buffer.control(), position),
            position.wrap_count < buffer.control().wrap_count ==> final(self).pos() == (Position {
                offset: 0,
                wrap_count: buffer.control().wrap_count,
            }) && !final(self).ended(),
            position.wrap_count > buffer.control().wrap_count ==> final(self).pos() == (Position {
                offset: buffer.control().write_pos,
                wrap_count: buffer.control().wrap_count,
            }) && final(self).ended(),
    {
        let control = buffer.control_block();
        if position.wrap_count > control.wrap_count || (position.wrap_count == control.wrap_count
            && position.offset > control.write_pos) {
            self.position = Position::new(control.write_pos, control.wrap_count);
            self.at_end = true;
        } else if position.wrap_count < control.wrap_count {
            self.position = Position::new(0, control.wrap_count);
            self.at_end = false;
        } else {
            self.position = position;
            self.at_end = position.offset == control.write_pos;
        }
        Ok(())
    }

    /// Skip to the end of available data
    pub fn seek_to_end(&mut self, buffer: &PersistentRingBuffer) -> (r: Result<()>)
        ensures
            r is Ok,
            final(self).pos() == (Position {
                offset: buffer.control().write_pos,
                wrap_count: buffer.control().wrap_count,
            }),
            final(self).ended(),
    {
        let control = buffer.control_block();
        self.position = Position::new(control.write_pos, control.wrap_count);
        self.at_end = true;
        Ok(())
    }

    /// Commit the current position as the new read position in the buffer
    pub fn commit(&self, buffer: &mut PersistentRingBuffer) -> (r: Result<()>)
        requires
            old(buffer).wf(),
        ensures
            final(buffer).wf(),
            final(buffer).size_spec() == old(buffer).size_spec(),
            if commit_moves(old(buffer).control(), self.pos()) {
                &&& ok_or_io(r)
                &&& final(buffer).control() == control_with_read_pos(
                    old(buffer).control(),
                    self.pos().offset,
                )
                &&& final(buffer).region() == splice(
                    old(buffer).region(),
                    0,
                    control_block_bytes(final(buffer).control()),
                )
            } else {
                &&& r is Ok
                &&& final(buffer).control() == old(buffer).control()
                &&& final(buffer).region() == old(buffer).region()
            },
            ({
                let c = old(buffer).control();
                let p = self.pos();
                p.wrap_count == c.wrap_count && c.read_pos < p.offset <= c.write_pos
                    ==> final(buffer).control().read_pos == p.offset
            }),
            final(buffer).control().write_pos == old(buffer).control().write_pos,
            final(buffer).control().wrap_count == old(buffer).control().wrap_count,
    {
        let control = buffer.control_block();
        if self.position.wrap_count == control.wrap_count && self.position.offset
            > control.read_pos && self.position.offset <= control.write_pos {
            buffer.set_read_position(self.position.offset)
        } else {
            Ok(())
        }
    }
}

/// After a commit that moves the read position, a cursor created without a
/// position starts where the committing cursor stood.
pub proof fn lemma_commit_then_resume(c: ControlBlock, p: Position)
    requires
        commit_moves(c, p),
    ensures
        start_position(control_with_read_pos(c, p.offset)) == p,
{
}

/// Seeking back to a position of the current wrap that is not past the write
/// position puts the cursor exactly there.
pub proof fn lemma_seek_within_wrap(c: ControlBlock, p: Position)
    requires
        p.wrap_count == c.wrap_count,
        p.offset <= c.write_pos,
    ensures
        seek_outcome(c, p) == (p, p.offset == c.write_pos),
{
}

/// A cursor that has read everything in the current wrap and commits moves
/// the read position to the write position: a cursor created afterwards
/// without a position starts at the end and reads nothing.
pub proof fn lemma_commit_at_end(c: ControlBlock, p: Position, region: Seq<u8>, size: nat)
    requires
        p.wrap_count == c.wrap_count,
        c.read_pos < p.offset,
        p.offset == c.write_pos,
    ensures
        commit_moves(c, p),
        control_with_read_pos(c, p.offset).read_pos == c.write_pos,
        is_end(
            control_with_read_pos(c, p.offset),
            start_position(control_with_read_pos(c, p.offset)),
        ),
        next_outcome(
            region,
            size,
            control_with_read_pos(c, p.offset),
            start_position(control_with_read_pos(c, p.offset)),
            true,
        ).0 is End,
{
}

/// Committing a position of the current wrap that lies past the read
/// position, up to and including the write position, moves the read position
/// exactly there and leaves everything else of the control block as it was.
pub proof fn lemma_commit_sets_read_pos(c: ControlBlock, p: Position)
    requires
        p.wrap_count == c.wrap_count,
        c.read_pos < p.offset <= c.write_pos,
    ensures
        commit_moves(c, p),
        control_with_read_pos(c, p.offset).read_pos == p.offset,
        control_with_read_pos(c, p.offset).write_pos == c.write_pos,
        control_with_read_pos(c, p.offset).wrap_count == c.wrap_count,
        control_with_read_pos(c, p.offset).buffer_size == c.buffer_size,
{
}

/// Seeking to a position of an earlier wrap, whatever its offset, lands
/// where seeking to the start of the current wrap lands: at offset 0 of the
/// current wrap, at the end only when nothing has been written in it.
pub proof fn lemma_seek_stale_restarts_wrap(c: ControlBlock, p: Position)
    requires
        p.wrap_count < c.wrap_count,
    ensures
        c.write_pos > 0 ==> seek_outcome(c, p) == seek_outcome(
            c,
            Position { offset: 0, wrap_count: c.wrap_count },
        ),
        seek_outcome(c, p).0.offset == 0,
        seek_outcome(c, p).0.wrap_count == c.wrap_count,
        !seek_outcome(c, p).1,
{
}

} // verus!
