//! Volatile ring buffer for in-memory logging.
//!
//! Records are appended to a ring of bytes by the reserve-write-commit
//! pattern: a reservation claims room for a header and data at the write
//! index, and the record is written into it and committed.  The reader sees
//! the committed reservations at the front of the ring, up to the first one
//! not yet committed, and consumes them in ring order.  When the ring has no
//! room, a record waits in an overflow queue and is moved into the ring by
//! the next read that frees enough room.
//!
//! Each call works on the buffer it is given; a caller that shares one buffer
//! between threads serialises the calls.
use vstd::prelude::*;
use std::collections::VecDeque;
use crate::memory::{
    decode_record_header, lemma_record_header_roundtrip, record_header_bytes, Record,
    RecordHeader, RecordView, Slot, SlotState,
};
use crate::memory::layout::{
    extent_record, extents_hold_headers, lemma_prefix_len_drop_first, lemma_prefix_len_mono,
    lemma_prefix_len_step, lemma_ready_records_all, lemma_ready_records_prefix,
    lemma_ready_records_push_prefix, lemma_ready_records_snoc, lemma_total_len_push,
    lemma_total_len_update, lemma_find_from, find_from, prefix_len, ready_prefix, records_bytes, ready_records, reservation_index, ring_distance,
    stored_view, total_len, wrap_add, ExtentView,
};
use crate::region::splice;

verus! {

/// `n` is a power of two.
pub open spec fn is_pow2(n: nat) -> bool
    decreases n,
{
    if n == 0 {
        false
    } else if n == 1 {
        true
    } else {
        n % 2 == 0 && is_pow2(n / 2)
    }
}

/// The smallest power of two not below `x`.
fn next_power_of_two(x: usize) -> (p: usize)
    requires
        x <= usize::MAX / 2 + 1,
    ensures
        is_pow2(p as nat),
        p >= x,
        p == 1 || p / 2 < x,
{
    let mut p: usize = 1;
    while p < x
        invariant
            is_pow2(p as nat),
            p == 1 || p / 2 < x,
            x <= usize::MAX / 2 + 1,
        decreases usize::MAX - p,
    {
        assert((p * 2) as nat / 2 == p as nat);
        p = p * 2;
    }
    p
}

/// A reservation in the ring: its slot (state and start index) and the
/// number of bytes it spans.
#[derive(Clone, Copy)]
struct Extent {
    slot: Slot,
    len: usize,
}

impl Extent {
    spec fn view(&self) -> ExtentView {
        ExtentView {
            start: self.slot.seq_spec() as nat,
            len: self.len as nat,
            ready: self.slot.state_spec() == SlotState::Ready,
        }
    }
}

/// Lock-free reservation in the ring buffer
pub struct Reservation {
    /// Index where this reservation starts
    start_idx: usize,
    /// Size of the reservation, header included
    size: usize,
}

impl Reservation {
    /// The ring index where the reservation starts.
    pub closed spec fn start(&self) -> nat {
        self.start_idx as nat
    }

    /// The bytes the reservation spans, header included.
    pub closed spec fn span(&self) -> nat {
        self.size as nat
    }
}

/// What a read does: it returns the pending records, consumes the committed
/// reservations at the front, and moves records from the overflow queue into the ring,
/// oldest first, as long as they fit; `k` of them are moved.
pub open spec fn read_effect(
    old: VolatileRingBuffer,
    new: VolatileRingBuffer,
    records: Seq<RecordView>,
) -> bool {
    &&& new.wf()
    &&& new.capacity_spec() == old.capacity_spec()
    &&& new.max_overflow_spec() == old.max_overflow_spec()
    &&& records == old.pending()
    &&& new.overflow().len() <= old.overflow().len()
    &&& ({
        let k = old.overflow().len() - new.overflow().len();
        let moved = old.overflow().subrange(0, k);
        &&& new.overflow() == old.overflow().subrange(
            k,
            old.overflow().len() as int,
        )
        &&& new.all_ready() == old.unread_ready() + moved.map_values(
            |r: RecordView| stored_view(r),
        )
        &&& new.used() == old.used() - prefix_len(
            old.ext_views(),
            old.visible_count() as int,
        ) + records_bytes(moved)
        &&& ready_prefix(new.ext_views(), new.visible_count())
        &&& new.ext_views().len() == old.ext_views().len() - old.visible_count() + k
        &&& new.ext_views().subrange(0, old.ext_views().len() - old.visible_count())
            == old.ext_views().subrange(old.visible_count() as int, old.ext_views().len() as int)
        &&& forall|i: int|
            old.ext_views().len() - old.visible_count() <= i < new.ext_views().len()
                ==> #[trigger] new.ext_views()[i].ready
        &&& k < old.overflow().len() ==> !new.fits(
            old.overflow()[k].data.len(),
        )
    })
}

/// What writing record `rec` does, with `stored` the result.  A record
/// needing more than half the ring is dropped; one that fits is stored and
/// committed; otherwise it joins the overflow queue, whose oldest record
/// makes way when the queue is full.
pub open spec fn write_effect(
    old: VolatileRingBuffer,
    new: VolatileRingBuffer,
    rec: RecordView,
    stored: bool,
) -> bool {
    let len = rec.data.len();
    &&& new.wf()
    &&& new.overflow().len() <= new.max_overflow_spec()
    &&& new.capacity_spec() == old.capacity_spec()
    &&& new.max_overflow_spec() == old.max_overflow_spec()
    &&& if len > old.capacity_spec() / 2 {
        &&& !stored
        &&& new == old
    } else if old.fits(len) {
        &&& stored
        &&& new.all_ready() == old.all_ready().push(stored_view(rec))
        &&& ready_prefix(new.ext_views(), new.visible_count())
        &&& new.pending() == if old.visible_count() == old.ext_views().len() {
            new.all_ready()
        } else {
            old.pending()
        }
        &&& new.used() == old.used() + RecordHeader::SIZE + len
        &&& new.overflow() == old.overflow()
    } else {
        &&& !stored
        &&& new.ext_views() == old.ext_views()
        &&& new.rel() == old.rel()
        &&& new.visible_count() == old.visible_count()
        &&& new.overflow() == if old.overflow().len() < old.max_overflow_spec() {
            old.overflow().push(rec)
        } else {
            old.overflow().drop_first().push(rec)
        }
    }
}

/// Multi-producer, single-consumer ring buffer for volatile memory
pub struct VolatileRingBuffer {
    /// Raw buffer storage
    buffer: Vec<u8>,
    /// Buffer capacity (power of 2)
    capacity: usize,
    /// Consumption read index
    read_idx: usize,
    /// Production write index
    write_idx: usize,
    /// Outstanding reservations, in ring order from the read index
    extents: Vec<Extent>,
    /// How many reservations at the front are committed: the reader consumes
    /// these and stops at the first uncommitted one
    visible: usize,
    /// Queue for writing log entries when buffer is full
    overflow_queue: VecDeque<Record>,
    /// Maximum overflow queue size
    max_overflow: usize,
}

impl VolatileRingBuffer {
    /// The outstanding reservations.
    pub closed spec fn ext_views(&self) -> Seq<ExtentView> {
        self.extents@.map_values(|x: Extent| x.view())
    }

    /// The ring's capacity in bytes.
    pub closed spec fn capacity_spec(&self) -> nat {
        self.capacity as nat
    }

    /// The bytes held by outstanding reservations.
    pub open spec fn used(&self) -> nat {
        total_len(self.ext_views())
    }

    /// The ring index reads start from.
    pub closed spec fn read_index(&self) -> nat {
        self.read_idx as nat
    }

    /// The ring index the next reservation starts at.
    pub closed spec fn write_index(&self) -> nat {
        self.write_idx as nat
    }

    /// The reserved bytes, seen from the read index.
    pub closed spec fn rel(&self) -> Seq<u8> {
        Seq::new(
            self.used(),
            |r: int| self.buffer@[wrap_add(self.read_idx as int, r, self.capacity as int)],
        )
    }

    /// How many reservations the reader will consume: the committed ones at
    /// the front, up to the first uncommitted one.
    pub closed spec fn visible_count(&self) -> nat {
        self.visible as nat
    }

    /// The records waiting for room, oldest first.
    pub closed spec fn overflow(&self) -> Seq<RecordView> {
        self.overflow_queue@.map_values(|r: Record| r@)
    }

    /// How many records the overflow queue keeps at most.
    pub closed spec fn max_overflow_spec(&self) -> nat {
        self.max_overflow as nat
    }

    /// The records the next read returns.
    pub open spec fn pending(&self) -> Seq<RecordView> {
        ready_records(self.rel(), self.ext_views(), self.visible_count())
    }

    /// The records of all committed reservations, visible or not.
    pub open spec fn all_ready(&self) -> Seq<RecordView> {
        ready_records(self.rel(), self.ext_views(), self.ext_views().len())
    }

    /// The records of the committed reservations that the next read leaves.
    pub open spec fn unread_ready(&self) -> Seq<RecordView> {
        let v = self.visible_count() as int;
        ready_records(
            self.rel().subrange(prefix_len(self.ext_views(), v) as int, self.rel().len() as int),
            self.ext_views().subrange(v, self.ext_views().len() as int),
            (self.ext_views().len() - v) as nat,
        )
    }

    /// Whether a reservation for `len` data bytes succeeds: the data may take
    /// at most half the ring, and the ring must keep more free bytes than the
    /// header and data need.
    pub open spec fn fits(&self, len: nat) -> bool {
        &&& len <= self.capacity_spec() / 2
        &&& self.capacity_spec() - self.used() > RecordHeader::SIZE + len
    }

    pub closed spec fn wf(&self) -> bool {
        let ev = self.ext_views();
        let cap = self.capacity as int;
        let read = self.read_idx as int;
        &&& cap > 0
        &&& is_pow2(cap as nat)
        &&& self.buffer@.len() == cap
        &&& read < cap
        &&& total_len(ev) < cap
        &&& self.write_idx == wrap_add(read, total_len(ev) as int, cap)
        &&& extents_hold_headers(ev)
        &&& forall|i: int|
            0 <= i < ev.len() ==> #[trigger] ev[i].start == wrap_add(
                read,
                prefix_len(ev, i) as int,
                cap,
            )
        &&& forall|i: int|
            0 <= i < ev.len() ==> {
                let st = #[trigger] self.extents@[i].slot.state_spec();
                st == SlotState::Reserved || st == SlotState::Ready
            }
        &&& ready_prefix(ev, self.visible as nat)
        &&& forall|i: int|
            0 <= i < self.overflow_queue@.len() ==> #[trigger] self.overflow_queue@[i].data@.len()
                <= cap / 2
        &&& self.overflow_queue@.len() <= self.max_overflow
        &&& self.max_overflow > 0
    }

    /// Create a new volatile ring buffer with the given capacity
    ///
    /// Capacity is rounded up to the next power of 2
    pub fn new(capacity: usize) -> (b: Self)
        requires
            capacity <= usize::MAX / 2 + 1,
        ensures
            b.wf(),
            is_pow2(b.capacity_spec()),
            b.capacity_spec() >= capacity,
            b.capacity_spec() == 1 || b.capacity_spec() / 2 < capacity,
            b.ext_views().len() == 0,
            b.used() == 0,
            b.visible_count() == 0,
            b.overflow().len() == 0,
            b.max_overflow_spec() == 1000,
    {
        let capacity = next_power_of_two(capacity);
        let buffer = vec![0u8; capacity];
        let b = Self {
            buffer,
            capacity,
            read_idx: 0,
            write_idx: 0,
            extents: Vec::new(),
            visible: 0,
            overflow_queue: VecDeque::new(),
            max_overflow: 1000,
        };
        assert(b.ext_views() =~= Seq::<ExtentView>::empty());
        assert(b.overflow() =~= Seq::<RecordView>::empty());
        b
    }

    /// Get the current buffer capacity
    pub fn capacity(&self) -> (c: usize)
        ensures
            c == self.capacity_spec(),
    {
        self.capacity
    }

    /// The bytes held by outstanding reservations.
    pub fn used_bytes(&self) -> (n: usize)
        requires
            self.wf(),
        ensures
            n == self.used(),
    {
        if self.write_idx >= self.read_idx {
            self.write_idx - self.read_idx
        } else {
            self.capacity - (self.read_idx - self.write_idx)
        }
    }

    /// The number of records waiting in the overflow queue.
    pub fn overflow_len(&self) -> (n: usize)
        ensures
            n == self.overflow().len(),
    {
        self.overflow_queue.len()
    }

    /// Write `src` into the ring from index `start` on, wrapping at the end.
    fn ring_write(&mut self, start: usize, src: &[u8])
        requires
            old(self).capacity > 0,
            old(self).buffer@.len() == old(self).capacity,
            start < old(self).capacity,
            src@.len() <= old(self).capacity,
        ensures
            final(self).buffer@.len() == old(self).buffer@.len(),
            final(self).capacity == old(self).capacity,
            final(self).read_idx == old(self).read_idx,
            final(self).write_idx == old(self).write_idx,
            final(self).extents == old(self).extents,
            final(self).visible == old(self).visible,
            final(self).overflow_queue == old(self).overflow_queue,
            final(self).max_overflow == old(self).max_overflow,
            forall|p: int|
                0 <= p < old(self).capacity ==> #[trigger] final(self).buffer@[p] == if ring_distance(
                    start as int,
                    p,
                    old(self).capacity as int,
                ) < src@.len() {
                    src@[ring_distance(start as int, p, old(self).capacity as int)]
                } else {
                    old(self).buffer@[p]
                },
    {
        let cap = self.capacity;
        let mut k: usize = 0;
        let mut pos: usize = start;
        while k < src.len()
            invariant
                self.capacity == cap,
                cap == old(self).capacity,
                self.buffer@.len() == cap,
                start < cap,
                src@.len() <= cap,
                k <= src@.len(),
                pos < cap,
                pos == wrap_add(start as int, k as int, cap as int) || k == cap,
                self.read_idx == old(self).read_idx,
                self.write_idx == old(self).write_idx,
                self.extents == old(self).extents,
                self.visible == old(self).visible,
                self.overflow_queue == old(self).overflow_queue,
                self.max_overflow == old(self).max_overflow,
                forall|p: int|
                    0 <= p < cap ==> #[trigger] self.buffer@[p] == if ring_distance(
                        start as int,
                        p,
                        cap as int,
                    ) < k {
                        src@[ring_distance(start as int, p, cap as int)]
                    } else {
                        old(self).buffer@[p]
                    },
            decreases src@.len() - k,
        {
            self.buffer.set(pos, src[k]);
            k = k + 1;
            pos = if pos + 1 == cap {
                0
            } else {
                pos + 1
            };
        }
    }

    /// Copy `n` bytes out of the ring from index `start` on, wrapping at the
    /// end.
    fn ring_read(&self, start: usize, n: usize) -> (v: Vec<u8>)
        requires
            self.capacity > 0,
            self.buffer@.len() == self.capacity,
            start < self.capacity,
            n <= self.capacity,
        ensures
            v@ == Seq::new(
                n as nat,
                |q: int| self.buffer@[wrap_add(start as int, q, self.capacity as int)],
            ),
    {
        let cap = self.capacity;
        let mut v: Vec<u8> = Vec::new();
        let mut pos: usize = start;
        let mut k: usize = 0;
        while k < n
            invariant
                cap == self.capacity,
                self.buffer@.len() == cap,
                start < cap,
                n <= cap,
                k <= n,
                pos < cap,
                pos == wrap_add(start as int, k as int, cap as int) || k == cap,
                v@ == Seq::new(k as nat, |q: int| self.buffer@[wrap_add(start as int, q, cap as int)]),
            decreases n - k,
        {
            v.push(self.buffer[pos]);
            k = k + 1;
            pos = if pos + 1 == cap {
                0
            } else {
                pos + 1
            };
            assert(v@ =~= Seq::new(
                k as nat,
                |q: int| self.buffer@[wrap_add(start as int, q, cap as int)],
            ));
        }
        v
    }

    /// The ring index `k` bytes after `idx`.
    fn advance(&self, idx: usize, k: usize) -> (r: usize)
        requires
            idx < self.capacity,
            k < self.capacity,
        ensures
            r == wrap_add(idx as int, k as int, self.capacity as int),
            r < self.capacity,
    {
        if k < self.capacity - idx {
            idx + k
        } else {
            k - (self.capacity - idx)
        }
    }

    /// Reserve space in the buffer for a record of `size` data bytes.
    ///
    /// Fails when the data would take more than half the ring, or when the
    /// ring does not keep more free bytes than the header and data need.
    pub fn reserve(&mut self, size: usize) -> (r: Option<Reservation>)
        requires
            old(self).wf(),
        ensures
            final(self).wf(),
            final(self).capacity_spec() == old(self).capacity_spec(),
            final(self).overflow() == old(self).overflow(),
            final(self).max_overflow_spec() == old(self).max_overflow_spec(),
            if old(self).fits(size as nat) {
                r matches Some(res) && {
                    &&& res.start() == old(self).write_index()
                    &&& res.span() == size + RecordHeader::SIZE
                    &&& final(self).write_index() == wrap_add(
                        old(self).write_index() as int,
                        size + RecordHeader::SIZE,
                        old(self).capacity_spec() as int,
                    )
                    &&& final(self).ext_views() == old(self).ext_views().push(
                        ExtentView {
                            start: old(self).write_index(),
                            len: (size + RecordHeader::SIZE) as nat,
                            ready: false,
                        },
                    )
                    &&& final(self).used() == old(self).used() + size + RecordHeader::SIZE
                    &&& final(self).rel().subrange(0, old(self).used() as int) == old(self).rel()
                    &&& final(self).read_index() == old(self).read_index()
                    &&& final(self).visible_count() == old(self).visible_count()
                    &&& final(self).pending() == old(self).pending()
                    &&& final(self).all_ready() == old(self).all_ready()
                }
            } else {
                &&& r is None
                &&& *final(self) == *old(self)
            },
    {
        if size > self.capacity / 2 {
            return None;
        }
        let total = size + RecordHeader::SIZE;
        let write = self.write_idx;
        let read = self.read_idx;
        let available = if write >= read {
            self.capacity - (write - read)
        } else {
            read - write
        };
        assert(available == self.capacity - self.used());
        if available <= total {
            return None;
        }
        let ghost old_ev = self.ext_views();
        let ghost old_rel = self.rel();
        let mut slot = Slot::new();
        slot.set_state(SlotState::Reserved);
        slot.set_seq(write);
        let e = Extent { slot, len: total };
        self.extents.push(e);
        self.write_idx = self.advance(write, total);
        proof {
            let ev = self.ext_views();
            assert(ev =~= old_ev.push(e.view()));
            lemma_total_len_push(old_ev, e.view());
            lemma_prefix_len_step(ev, old_ev.len() as int);
            assert forall|i: int| 0 <= i < ev.len() implies #[trigger] ev[i].start == wrap_add(
                read as int,
                prefix_len(ev, i) as int,
                self.capacity as int,
            ) by {
                if i < old_ev.len() {
                    assert(ev.subrange(0, i) =~= old_ev.subrange(0, i));
                    assert(ev[i] == old_ev[i]);
                } else {
                    assert(ev.subrange(0, i) =~= old_ev);
                }
            }
            assert(extents_hold_headers(ev)) by {
                assert forall|i: int| 0 <= i < ev.len() implies #[trigger] ev[i].len
                    >= RecordHeader::SIZE by {
                    if i < old_ev.len() {
                        assert(ev[i] == old_ev[i]);
                    }
                }
            }
            assert forall|i: int| 0 <= i < ev.len() implies {
                let st = #[trigger] self.extents@[i].slot.state_spec();
                st == SlotState::Reserved || st == SlotState::Ready
            } by {
                if i < old_ev.len() {
                    assert(self.extents@[i] == old(self).extents@[i]);
                }
            }
            let rel = self.rel();
            assert(rel.subrange(0, old_ev.len() as int) == rel.subrange(0, old_ev.len() as int));
            assert(rel.subrange(0, total_len(old_ev) as int) =~= old_rel);
            lemma_prefix_len_mono(old_ev, self.visible as int, old_ev.len() as int);
            lemma_prefix_len_mono(ev, self.visible as int, old_ev.len() as int);
            assert(ev.subrange(0, self.visible as int) =~= old_ev.subrange(0, self.visible as int));
            assert(rel.subrange(0, prefix_len(old_ev, self.visible as int) as int) =~= old_rel.subrange(
                0,
                prefix_len(old_ev, self.visible as int) as int,
            ));
            lemma_ready_records_push_prefix(rel, old_ev, e.view(), self.visible as nat);
            lemma_ready_records_prefix(rel, old_rel, old_ev, self.visible as nat);
            lemma_ready_records_snoc(rel, old_ev, e.view());
            assert(rel.subrange(0, prefix_len(old_ev, old_ev.len() as int) as int) =~= old_rel);
            assert(old_rel.subrange(0, old_rel.len() as int) =~= old_rel);
            lemma_ready_records_prefix(rel, old_rel, old_ev, old_ev.len());
            assert(ready_records(rel, old_ev, old_ev.len()) + Seq::<RecordView>::empty()
                =~= ready_records(rel, old_ev, old_ev.len()));
        }
        Some(Reservation { start_idx: write, size: total })
    }

    /// Writing bytes into the ring where a reservation lies updates the
    /// reserved bytes, seen from the read index, in exactly that place.
    proof fn lemma_ring_write_rel(
        old_buf: Seq<u8>,
        new_buf: Seq<u8>,
        read: int,
        cap: int,
        used: int,
        w: int,
        src: Seq<u8>,
    )
        requires
            0 <= read < cap,
            0 <= used < cap,
            old_buf.len() == cap,
            new_buf.len() == cap,
            0 <= w,
            w + src.len() <= used,
            forall|p: int|
                0 <= p < cap ==> #[trigger] new_buf[p] == if ring_distance(
                    wrap_add(read, w, cap),
                    p,
                    cap,
                ) < src.len() {
                    src[ring_distance(wrap_add(read, w, cap), p, cap)]
                } else {
                    old_buf[p]
                },
        ensures
            Seq::new(used as nat, |r: int| new_buf[wrap_add(read, r, cap)]) == splice(
                Seq::new(used as nat, |r: int| old_buf[wrap_add(read, r, cap)]),
                w,
                src,
            ),
    {
        let o = Seq::new(used as nat, |r: int| old_buf[wrap_add(read, r, cap)]);
        let n = Seq::new(used as nat, |r: int| new_buf[wrap_add(read, r, cap)]);
        let start = wrap_add(read, w, cap);
        assert forall|r: int| 0 <= r < used implies #[trigger] n[r] == splice(o, w, src)[r] by {
            let p = wrap_add(read, r, cap);
            assert(0 <= p < cap);
            assert(new_buf[p] == if ring_distance(start, p, cap) < src.len() {
                src[ring_distance(start, p, cap)]
            } else {
                old_buf[p]
            });
            if r >= w {
                assert(ring_distance(start, p, cap) == r - w);
            } else {
                assert(ring_distance(start, p, cap) == r - w + cap);
            }
        }
        assert(n =~= splice(o, w, src));
    }

    /// Reading bytes from the ring where a reservation lies gives the reserved
    /// bytes, seen from the read index, at that place.
    proof fn lemma_ring_read_rel(buf: Seq<u8>, read: int, cap: int, used: int, w: int, n: int)
        requires
            0 <= read < cap,
            0 <= used < cap,
            buf.len() == cap,
            0 <= w,
            0 <= n,
            w + n <= used,
        ensures
            Seq::new(n as nat, |q: int| buf[wrap_add(wrap_add(read, w, cap), q, cap)]) == Seq::new(
                used as nat,
                |r: int| buf[wrap_add(read, r, cap)],
            ).subrange(w, w + n),
    {
        let a = Seq::new(n as nat, |q: int| buf[wrap_add(wrap_add(read, w, cap), q, cap)]);
        let b = Seq::new(used as nat, |r: int| buf[wrap_add(read, r, cap)]).subrange(w, w + n);
        assert forall|q: int| 0 <= q < n implies #[trigger] a[q] == b[q] by {
            assert(wrap_add(wrap_add(read, w, cap), q, cap) == wrap_add(read, w + q, cap));
        }
        assert(a =~= b);
    }

    /// Find the outstanding, uncommitted reservation that starts at `start`
    /// and spans `len` bytes.
    fn find_reserved(&self, start: usize, len: usize) -> (r: Option<usize>)
        requires
            self.wf(),
        ensures
            match r {
                Some(j) => reservation_index(self.ext_views(), start as nat, len as nat) == Some(
                    j as nat,
                ) && j < self.ext_views().len(),
                None => reservation_index(self.ext_views(), start as nat, len as nat) is None,
            },
    {
        let ghost ev = self.ext_views();
        let mut i: usize = 0;
        while i < self.extents.len()
            invariant
                self.wf(),
                ev == self.ext_views(),
                i <= self.extents@.len(),
                ev.len() == self.extents@.len(),
                find_from(ev, start as nat, len as nat, 0) == find_from(
                    ev,
                    start as nat,
                    len as nat,
                    i as nat,
                ),
            decreases self.extents@.len() - i,
        {
            let e = self.extents[i];
            assert(ev[i as int] == e.view());
            if e.slot.seq() == start && e.len == len && e.slot.state() == SlotState::Reserved {
                return Some(i);
            }
            i = i + 1;
        }
        None
    }

    /// Store a record in the ring by reserve, write and commit; fails, leaving
    /// the buffer as it was, when the reservation does.
    fn try_store(&mut self, record: &Record) -> (stored: bool)
        requires
            old(self).wf(),
            record.data@.len() <= old(self).capacity_spec() / 2,
        ensures
            final(self).wf(),
            final(self).capacity_spec() == old(self).capacity_spec(),
            final(self).overflow() == old(self).overflow(),
            final(self).max_overflow_spec() == old(self).max_overflow_spec(),
            if old(self).fits(record.data@.len()) {
                &&& stored
                &&& final(self).all_ready() == old(self).all_ready().push(stored_view(record@))
                &&& final(self).ext_views().len() == old(self).ext_views().len() + 1
                &&& final(self).ext_views().subrange(0, old(self).ext_views().len() as int)
                    == old(self).ext_views()
                &&& final(self).ext_views()[old(self).ext_views().len() as int].ready
                &&& ready_prefix(final(self).ext_views(), final(self).visible_count())
                &&& final(self).pending() == if old(self).visible_count() == old(
                    self,
                ).ext_views().len() {
                    final(self).all_ready()
                } else {
                    old(self).pending()
                }
                &&& final(self).used() == old(self).used() + RecordHeader::SIZE
                    + record.data@.len()
            } else {
                &&& !stored
                &&& *final(self) == *old(self)
            },
    {
        let ghost old_ev = self.ext_views();
        let ghost old_rel = self.rel();
        let ghost old_all = self.all_ready();
        match self.reserve(record.data.len()) {
            None => false,
            Some(mut res) => {
                let ghost ev1 = self.ext_views();
                let ghost n = old_ev.len();
                let ghost t = res.span();
                proof {
                    lemma_prefix_len_mono(old_ev, 0, n as int);
                    lemma_find_from(ev1, res.start(), res.span(), 0);
                    assert forall|i: int| 0 <= i < n implies !(#[trigger] ev1[i].start
                        == res.start() && ev1[i].len == res.span() && !ev1[i].ready) by {
                        assert(ev1[i] == old_ev[i]);
                        lemma_prefix_len_step(old_ev, i);
                        lemma_prefix_len_mono(old_ev, i + 1, n as int);
                        assert(old_ev[i].len >= RecordHeader::SIZE);
                    }
                    assert(ev1[n as int].start == res.start());
                    assert(reservation_index(ev1, res.start(), res.span()) == Some(n));
                    lemma_prefix_len_mono(ev1, n as int, n as int);
                    assert(ev1.subrange(0, n as int) =~= old_ev);
                }
                res.write(self, record.header, record.data.as_slice());
                let ghost rel2 = self.rel();
                res.commit(self);
                proof {
                    let ev2 = self.ext_views();
                    let x = ExtentView { start: res.start(), len: t, ready: true };
                    assert(ev2 =~= old_ev.push(x));
                    let used0 = total_len(old_ev) as int;
                    let hb = record_header_bytes(record.header);
                    lemma_record_header_roundtrip(record.header);
                    assert(rel2 == splice(self.rel(), used0, hb + record.data@));
                    lemma_ready_records_snoc(rel2, old_ev, x);
                    assert(rel2.subrange(0, used0) =~= old_rel);
                    lemma_prefix_len_mono(old_ev, n as int, n as int);
                    assert(old_rel.subrange(0, used0) =~= old_rel);
                    assert(rel2.subrange(0, used0).subrange(0, used0) =~= rel2.subrange(0, used0));
                    lemma_ready_records_prefix(rel2, old_rel, old_ev, n);
                    let tail = rel2.subrange(used0, rel2.len() as int);
                    assert(tail =~= hb + record.data@);
                    assert(tail.subrange(0, RecordHeader::SIZE as int) =~= hb);
                    let h = record.header;
                    let dlen = if h.size <= t - RecordHeader::SIZE {
                        h.size as int
                    } else {
                        t - RecordHeader::SIZE
                    };
                    assert(tail.subrange(RecordHeader::SIZE as int, RecordHeader::SIZE + dlen)
                        =~= stored_view(record@).data);
                    assert(extent_record(tail, t as int) == stored_view(record@));
                    let v0 = old(self).visible as nat;
                    if v0 == n {
                        assert(ready_prefix(ev2, (n + 1) as nat));
                        crate::memory::layout::lemma_ready_prefix_unique(
                            ev2,
                            self.visible as nat,
                            (n + 1) as nat,
                        );
                    } else {
                        assert(ready_prefix(ev2, v0));
                        crate::memory::layout::lemma_ready_prefix_unique(
                            ev2,
                            self.visible as nat,
                            v0,
                        );
                        lemma_ready_records_push_prefix(self.rel(), old_ev, x, v0);
                        lemma_prefix_len_mono(old_ev, v0 as int, n as int);
                        assert(self.rel().subrange(0, prefix_len(old_ev, v0 as int) as int)
                            =~= old_rel.subrange(0, prefix_len(old_ev, v0 as int) as int)) by {
                            assert(rel2.subrange(0, used0) =~= old_rel);
                        }
                        lemma_ready_records_prefix(self.rel(), old_rel, old_ev, v0);
                    }
                }
                true
            },
        }
    }

    /// Write a record to the buffer, either directly or to the overflow queue
    ///
    /// Returns true if the record was written directly to the buffer, false if
    /// it was queued, or dropped for needing more than half the ring.  When
    /// the overflow queue is full, its oldest record makes way.
    pub fn write(&mut self, record: Record) -> (stored: bool)
        requires
            old(self).wf(),
        ensures
            write_effect(*old(self), *final(self), record@, stored),
    {
        if record.data.len() > self.capacity / 2 {
            return false;
        }
        if self.try_store(&record) {
            true
        } else {
            let ghost ov = self.overflow_queue@;
            if self.overflow_queue.len() < self.max_overflow {
                self.overflow_queue.push_back(record);
                proof {
                    assert(self.overflow_queue@.map_values(|r: Record| r@) =~= ov.map_values(
                        |r: Record| r@,
                    ).push(record@));
                }
            } else {
                let _ = self.overflow_queue.pop_front();
                self.overflow_queue.push_back(record);
                proof {
                    assert(self.overflow_queue@.map_values(|r: Record| r@) =~= ov.map_values(
                        |r: Record| r@,
                    ).drop_first().push(record@));
                }
            }
            proof {
                let q = self.overflow_queue@;
                assert forall|i: int| 0 <= i < q.len() implies #[trigger] q[i].data@.len()
                    <= self.capacity / 2 by {
                    if i < q.len() - 1 {
                        if ov.len() < self.max_overflow {
                            assert(q[i] == ov[i]);
                        } else {
                            assert(q[i] == ov[i + 1]);
                        }
                    }
                }
            }
            false
        }
    }

    /// Read records from the buffer, advancing the read index
    ///
    /// Consumes the committed reservations at the front of the ring, up to
    /// the first uncommitted one, and returns their records in ring order.
    /// Then moves records
    /// from the overflow queue into the ring, oldest first, while they fit.
    pub fn read(&mut self) -> (records: Vec<Record>)
        requires
            old(self).wf(),
        ensures
            final(self).wf(),
            final(self).capacity_spec() == old(self).capacity_spec(),
            final(self).max_overflow_spec() == old(self).max_overflow_spec(),
            read_effect(*old(self), *final(self), records@.map_values(|r: Record| r@)),
    {
        let ghost old_ev = self.ext_views();
        let ghost old_rel = self.rel();
        let ghost n = old_ev.len();
        let ghost used0 = self.used();
        let v = self.visible;
        let mut records: Vec<Record> = Vec::new();
        let mut k: usize = 0;
        proof {
            lemma_prefix_len_mono(old_ev, 0, n as int);
            assert(old_ev.subrange(0, n as int) =~= old_ev);
            assert(old_ev.subrange(0, 0) =~= Seq::<ExtentView>::empty());
            assert(self.ext_views() =~= old_ev.subrange(0, n as int));
            assert(old_rel.subrange(0, old_rel.len() as int) =~= old_rel);
            assert(records@.map_values(|r: Record| r@) + ready_records(old_rel, old_ev, v as nat)
                =~= ready_records(old_rel, old_ev, v as nat));
        }
        while k < v
            invariant
                self.wf(),
                self.visible == v - k,
                k <= v,
                v <= n,
                n == old_ev.len(),
                self.ext_views() == old_ev.subrange(k as int, n as int),
                self.rel() == old_rel.subrange(prefix_len(old_ev, k as int) as int, used0 as int),
                prefix_len(old_ev, k as int) <= used0,
                used0 == total_len(old_ev),
                old_rel.len() == used0,
                self.used() == used0 - prefix_len(old_ev, k as int),
                self.capacity == old(self).capacity,
                self.max_overflow == old(self).max_overflow,
                self.overflow_queue == old(self).overflow_queue,
                records@.map_values(|r: Record| r@) + ready_records(
                    self.rel(),
                    self.ext_views(),
                    (v - k) as nat,
                ) == ready_records(old_rel, old_ev, v as nat),
            decreases v - k,
        {
            let ghost ev = self.ext_views();
            let ghost rel = self.rel();
            let ghost read = self.read_idx as int;
            let ghost cap = self.capacity as int;
            let ghost before = records@.map_values(|r: Record| r@);
            let ghost exts_before = self.extents@;
            let e = self.extents.remove(0);
            self.visible = self.visible - 1;
            proof {
                assert(ev[0] == e.view());
                assert(ev[0] == old_ev[k as int]);
                assert(e.len >= RecordHeader::SIZE);
                lemma_prefix_len_step(old_ev, k as int);
                lemma_prefix_len_mono(old_ev, k as int + 1, n as int);
                assert(total_len(ev) == e.len + total_len(ev.drop_first()));
            }
            let ghost item: Seq<RecordView> = if e.view().ready {
                seq![extent_record(rel, e.len as int)]
            } else {
                Seq::empty()
            };
            if e.slot.state() == SlotState::Ready {
                let hb = self.ring_read(self.read_idx, RecordHeader::SIZE);
                proof {
                    VolatileRingBuffer::lemma_ring_read_rel(
                        self.buffer@,
                        read,
                        cap,
                        total_len(ev) as int,
                        0,
                        RecordHeader::SIZE as int,
                    );
                    assert(hb@ =~= rel.subrange(0, RecordHeader::SIZE as int));
                }
                let header = RecordHeader::from_bytes(hb.as_slice());
                let room = e.len - RecordHeader::SIZE;
                let dlen = if (header.size as usize) <= room {
                    header.size as usize
                } else {
                    room
                };
                let ds = self.advance(self.read_idx, RecordHeader::SIZE);
                let data = self.ring_read(ds, dlen);
                proof {
                    VolatileRingBuffer::lemma_ring_read_rel(
                        self.buffer@,
                        read,
                        cap,
                        total_len(ev) as int,
                        RecordHeader::SIZE as int,
                        dlen as int,
                    );
                }
                let record = Record { header, data };
                proof {
                    assert(record@ == extent_record(rel, e.len as int));
                    assert(records@.push(record).map_values(|r: Record| r@) =~= before.push(
                        record@,
                    ));
                }
                records.push(record);
            }
            self.read_idx = self.advance(self.read_idx, e.len);
            k = k + 1;
            proof {
                let ev2 = self.ext_views();
                assert(ev2 =~= ev.drop_first());
                assert(ev2 =~= old_ev.subrange(k as int, n as int));
                let read2 = self.read_idx as int;
                assert(self.rel() =~= rel.subrange(e.len as int, rel.len() as int));
                assert(self.rel() =~= old_rel.subrange(
                    prefix_len(old_ev, k as int) as int,
                    used0 as int,
                ));
                assert forall|i: int| 0 <= i < ev2.len() implies #[trigger] ev2[i].start
                    == wrap_add(read2, prefix_len(ev2, i) as int, cap) by {
                    assert(ev2[i] == ev[i + 1]);
                    lemma_prefix_len_drop_first(ev, i + 1);
                    lemma_prefix_len_mono(ev, i + 1, ev.len() as int);
                }
                assert(extents_hold_headers(ev2)) by {
                    assert forall|i: int| 0 <= i < ev2.len() implies #[trigger] ev2[i].len
                        >= RecordHeader::SIZE by {
                        assert(ev2[i] == ev[i + 1]);
                    }
                }
                assert forall|i: int| 0 <= i < ev2.len() implies {
                    let st = #[trigger] self.extents@[i].slot.state_spec();
                    st == SlotState::Reserved || st == SlotState::Ready
                } by {
                    assert(self.extents@[i] == exts_before[i + 1]);
                }
                let rest = ready_records(
                    rel.subrange(e.len as int, rel.len() as int),
                    ev.drop_first(),
                    (v - k) as nat,
                );
                assert(ready_records(rel, ev, (v - k + 1) as nat) == item + rest);
                assert(records@.map_values(|r: Record| r@) =~= before + item);
                assert(before + (item + rest) =~= (before + item) + rest);
            }
        }
        proof {
            assert(records@.map_values(|r: Record| r@) + ready_records(
                self.rel(),
                self.ext_views(),
                0,
            ) =~= records@.map_values(|r: Record| r@));
        }
        // move waiting records into the freed room
        let ghost mid_all = self.all_ready();
        let ghost base = self.ext_views();
        proof {
            assert(base.subrange(0, base.len() as int) =~= base);
        }
        let ghost mid_used = self.used();
        let ghost ov0 = self.overflow();
        let ghost mut moved: int = 0;
        let mut done = false;
        proof {
            assert(ov0.subrange(0, 0).map_values(|r: RecordView| stored_view(r)) =~= Seq::<
                RecordView,
            >::empty());
            assert(mid_all + Seq::<RecordView>::empty() =~= mid_all);
            assert(ov0.subrange(0, ov0.len() as int) =~= ov0);
        }
        while !done
            invariant
                self.wf(),
                self.capacity == old(self).capacity,
                self.max_overflow == old(self).max_overflow,
                0 <= moved <= ov0.len(),
                self.ext_views().len() == base.len() + moved,
                self.ext_views().subrange(0, base.len() as int) == base,
                forall|i: int|
                    base.len() <= i < self.ext_views().len() ==> #[trigger] self.ext_views()[i].ready,
                self.overflow() == ov0.subrange(moved, ov0.len() as int),
                self.all_ready() == mid_all + ov0.subrange(0, moved).map_values(
                    |r: RecordView| stored_view(r),
                ),
                self.used() == mid_used + records_bytes(ov0.subrange(0, moved)),
                done ==> moved == ov0.len() || !self.fits(ov0[moved].data.len()),
            decreases self.overflow_queue@.len() + if done {
                0int
            } else {
                1int
            },
        {
            let ghost q = self.overflow_queue@;
            let ghost ov_cur = self.overflow();
            let ghost ev_cur = self.ext_views();
            match self.overflow_queue.pop_front() {
                None => {
                    done = true;
                    proof {
                        assert(ov_cur.len() == 0);
                    }
                },
                Some(rec) => {
                    proof {
                        assert(q[0] == rec);
                        assert(ov_cur[0] == rec@);
                        assert(ov_cur[0] == ov0[moved]);
                        assert(rec@ == ov0[moved]);
                        assert(self.overflow() =~= ov_cur.subrange(1, ov_cur.len() as int));
                        assert(rec.data@.len() <= self.capacity / 2);
                        let q2 = self.overflow_queue@;
                        assert forall|i: int| 0 <= i < q2.len() implies #[trigger] q2[i].data@.len()
                            <= self.capacity / 2 by {
                            assert(q2[i] == q[i + 1]);
                        }
                    }
                    if self.try_store(&rec) {
                        proof {
                            let ev_new = self.ext_views();
                            assert(ev_new.subrange(0, base.len() as int) =~= ev_cur.subrange(
                                0,
                                base.len() as int,
                            )) by {
                                assert forall|i: int| 0 <= i < base.len() implies ev_new[i]
                                    == ev_cur[i] by {
                                    assert(ev_new.subrange(0, ev_cur.len() as int)[i] == ev_cur[i]);
                                }
                            }
                            assert forall|i: int|
                                base.len() <= i < ev_new.len() implies #[trigger] ev_new[i].ready by {
                                if i < ev_cur.len() {
                                    assert(ev_new.subrange(0, ev_cur.len() as int)[i] == ev_cur[i]);
                                }
                            }
                            let before = ov0.subrange(0, moved).map_values(
                                |r: RecordView| stored_view(r),
                            );
                            assert(ov0.subrange(0, moved + 1).map_values(
                                |r: RecordView| stored_view(r),
                            ) =~= before.push(stored_view(rec@)));
                            assert((mid_all + before).push(stored_view(rec@)) =~= mid_all
                                + before.push(stored_view(rec@)));
                            assert(ov0.subrange(0, moved + 1).drop_last() =~= ov0.subrange(
                                0,
                                moved,
                            ));
                            assert(ov0.subrange(0, moved + 1).last() == rec@);
                            assert(self.overflow() =~= ov0.subrange(moved + 1, ov0.len() as int));
                            moved = moved + 1;
                        }
                    } else {
                        self.overflow_queue.push_front(rec);
                        done = true;
                        proof {
                            assert(self.overflow_queue@ =~= q);
                        }
                    }
                },
            }
        }
        proof {
            assert(self.overflow().len() == ov0.len() - moved);
            lemma_prefix_len_mono(old_ev, v as int, n as int);
        }
        records
    }
}

impl Reservation {
    /// The bytes this reservation spans, header included.
    pub fn size(&self) -> (n: usize)
        ensures
            n == self.span(),
    {
        self.size
    }

    /// Write data to this reservation
    ///
    /// The header and data are written into the reservation if it is still
    /// outstanding and uncommitted in `buffer`; otherwise nothing happens.
    pub fn write(&mut self, buffer: &mut VolatileRingBuffer, header: RecordHeader, data: &[u8])
        requires
            old(buffer).wf(),
            data@.len() + RecordHeader::SIZE <= old(self).span(),
        ensures
            *final(self) == *old(self),
            final(buffer).wf(),
            final(buffer).ext_views() == old(buffer).ext_views(),
            final(buffer).visible_count() == old(buffer).visible_count(),
            final(buffer).overflow() == old(buffer).overflow(),
            final(buffer).capacity_spec() == old(buffer).capacity_spec(),
            final(buffer).max_overflow_spec() == old(buffer).max_overflow_spec(),
            final(buffer).read_index() == old(buffer).read_index(),
            final(buffer).write_index() == old(buffer).write_index(),
            match reservation_index(old(buffer).ext_views(), old(self).start(), old(self).span()) {
                None => final(buffer).rel() == old(buffer).rel(),
                Some(j) => final(buffer).rel() == splice(
                    old(buffer).rel(),
                    prefix_len(old(buffer).ext_views(), j as int) as int,
                    record_header_bytes(header) + data@,
                ),
            },
    {
        match buffer.find_reserved(self.start_idx, self.size) {
            None => {},
            Some(j) => {
                let ghost ev = buffer.ext_views();
                let ghost old_buf = buffer.buffer@;
                let ghost read = buffer.read_idx as int;
                let ghost cap = buffer.capacity as int;
                let ghost w = prefix_len(ev, j as int) as int;
                let ghost used = buffer.used() as int;
                let ghost old_rel = buffer.rel();
                proof {
                    lemma_find_from(ev, self.start_idx as nat, self.size as nat, 0);
                    lemma_prefix_len_step(ev, j as int);
                    lemma_prefix_len_mono(ev, j as int + 1, ev.len() as int);
                }
                let hb = header.to_bytes();
                proof {
                    lemma_record_header_roundtrip(header);
                }
                buffer.ring_write(self.start_idx, hb.as_slice());
                proof {
                    VolatileRingBuffer::lemma_ring_write_rel(
                        old_buf,
                        buffer.buffer@,
                        read,
                        cap,
                        used,
                        w,
                        hb@,
                    );
                }
                let ghost mid_buf = buffer.buffer@;
                let ds = buffer.advance(self.start_idx, RecordHeader::SIZE);
                buffer.ring_write(ds, data);
                proof {
                    assert(ds == wrap_add(read, w + RecordHeader::SIZE, cap));
                    VolatileRingBuffer::lemma_ring_write_rel(
                        mid_buf,
                        buffer.buffer@,
                        read,
                        cap,
                        used,
                        w + RecordHeader::SIZE,
                        data@,
                    );
                    assert(splice(splice(old_rel, w, hb@), w + RecordHeader::SIZE, data@) =~= splice(
                        old_rel,
                        w,
                        hb@ + data@,
                    ));
                }
            },
        }
    }

    /// Commit this reservation.  The reader sees committed reservations from
    /// the front up to the first uncommitted one, so a reservation committed
    /// before an earlier one becomes visible only with it.
    ///
    /// Nothing happens if the reservation is no longer outstanding and
    /// uncommitted in `buffer`.
    pub fn commit(self, buffer: &mut VolatileRingBuffer)
        requires
            old(buffer).wf(),
        ensures
            final(buffer).wf(),
            final(buffer).rel() == old(buffer).rel(),
            final(buffer).used() == old(buffer).used(),
            final(buffer).overflow() == old(buffer).overflow(),
            final(buffer).capacity_spec() == old(buffer).capacity_spec(),
            final(buffer).max_overflow_spec() == old(buffer).max_overflow_spec(),
            final(buffer).read_index() == old(buffer).read_index(),
            final(buffer).write_index() == old(buffer).write_index(),
            match reservation_index(old(buffer).ext_views(), self.start(), self.span()) {
                None => {
                    &&& final(buffer).ext_views() == old(buffer).ext_views()
                    &&& final(buffer).visible_count() == old(buffer).visible_count()
                },
                Some(j) => {
                    &&& final(buffer).ext_views() == old(buffer).ext_views().update(
                        j as int,
                        ExtentView { ready: true, ..old(buffer).ext_views()[j as int] },
                    )
                    &&& old(buffer).visible_count() <= j
                    &&& ready_prefix(final(buffer).ext_views(), final(buffer).visible_count())
                    &&& (j > old(buffer).visible_count() ==> final(buffer).visible_count()
                        == old(buffer).visible_count())
                },
            },
    {
        match buffer.find_reserved(self.start_idx, self.size) {
            None => {},
            Some(j) => {
                let ghost ev = buffer.ext_views();
                let _n = buffer.extents.len();
                let mut e = buffer.extents[j];
                proof {
                    lemma_find_from(ev, self.start_idx as nat, self.size as nat, 0);
                    assert(ev[j as int] == e.view());
                }
                let _ = e.slot.try_transition(SlotState::Reserved, SlotState::Ready);
                buffer.extents.set(j, e);
                let ghost x = ExtentView { ready: true, ..ev[j as int] };
                proof {
                    assert(buffer.ext_views() =~= ev.update(j as int, x));
                    if j < buffer.visible {
                        assert(ev[j as int].ready);
                    }
                }
                let ghost ev2 = buffer.ext_views();
                let n = buffer.extents.len();
                let mut v = buffer.visible;
                let mut more = v == j;
                while more
                    invariant
                        n == ev2.len(),
                        buffer.ext_views() == ev2,
                        buffer.extents@.len() == n,
                        old(buffer).visible <= v <= n,
                        j != old(buffer).visible ==> v == old(buffer).visible && !more,
                        forall|i: int| 0 <= i < v ==> #[trigger] ev2[i].ready,
                        !more ==> (v < n ==> !ev2[v as int].ready),
                    decreases n - v + if more {
                        1int
                    } else {
                        0int
                    },
                {
                    if v < n && buffer.extents[v].slot.state() == SlotState::Ready {
                        proof {
                            assert(ev2[v as int] == buffer.extents@[v as int].view());
                        }
                        v = v + 1;
                    } else {
                        proof {
                            if v < n {
                                assert(ev2[v as int] == buffer.extents@[v as int].view());
                            }
                        }
                        more = false;
                    }
                }
                buffer.visible = v;
                proof {
                    assert(ready_prefix(ev2, v as nat));
                    lemma_total_len_update(ev, j as int, x);
                    let ev2 = buffer.ext_views();
                    assert(buffer.rel() =~= old(buffer).rel());
                    assert forall|i: int| 0 <= i < ev2.len() implies #[trigger] ev2[i].start
                        == wrap_add(
                        buffer.read_idx as int,
                        prefix_len(ev2, i) as int,
                        buffer.capacity as int,
                    ) by {
                        assert(ev2[i].start == ev[i].start);
                    }
                    assert(extents_hold_headers(ev2)) by {
                        assert forall|i: int| 0 <= i < ev2.len() implies #[trigger] ev2[i].len
                            >= RecordHeader::SIZE by {
                            assert(ev2[i].len == ev[i].len);
                        }
                    }
                    assert forall|i: int| 0 <= i < ev2.len() implies {
                        let st = #[trigger] buffer.extents@[i].slot.state_spec();
                        st == SlotState::Reserved || st == SlotState::Ready
                    } by {
                        if i != j {
                            assert(buffer.extents@[i] == old(buffer).extents@[i]);
                        }
                    }
                }
            },
        }
    }
}

impl Clone for VolatileRingBuffer {
    /// A new, empty ring with the same capacity and overflow limit; no record
    /// is copied.
    fn clone(&self) -> (b: Self)
        ensures
            self.wf() ==> b.wf(),
            b.capacity_spec() == self.capacity_spec(),
            b.max_overflow_spec() == self.max_overflow_spec(),
            b.ext_views().len() == 0,
            b.used() == 0,
            b.visible_count() == 0,
            b.overflow().len() == 0,
    {
        let b = Self {
            buffer: vec![0u8; self.capacity],
            capacity: self.capacity,
            read_idx: 0,
            write_idx: 0,
            extents: Vec::new(),
            visible: 0,
            overflow_queue: VecDeque::new(),
            max_overflow: self.max_overflow,
        };
        assert(b.ext_views() =~= Seq::<ExtentView>::empty());
        assert(b.overflow() =~= Seq::<RecordView>::empty());
        b
    }
}

/// What a well-formed ring keeps: the reservations lie one after the other
/// from the read index, so each starts where the ones before it end and the
/// next reservation starts after the last; the reader consumes exactly the
/// committed ones at the front; the overflow queue stays within its limit.
pub proof fn lemma_ring_layout(b: VolatileRingBuffer)
    requires
        b.wf(),
    ensures
        b.capacity_spec() > 0,
        b.read_index() < b.capacity_spec(),
        b.used() < b.capacity_spec(),
        b.write_index() == wrap_add(
            b.read_index() as int,
            b.used() as int,
            b.capacity_spec() as int,
        ),
        forall|i: int|
            0 <= i < b.ext_views().len() ==> #[trigger] b.ext_views()[i].start == wrap_add(
                b.read_index() as int,
                prefix_len(b.ext_views(), i) as int,
                b.capacity_spec() as int,
            ),
        forall|i: int|
            0 <= i < b.ext_views().len() ==> #[trigger] b.ext_views()[i].len
                >= RecordHeader::SIZE,
        forall|i: int, j: int|
            0 <= i < j < b.ext_views().len() ==> #[trigger] b.ext_views()[i].start
                != #[trigger] b.ext_views()[j].start,
        ready_prefix(b.ext_views(), b.visible_count()),
        b.overflow().len() <= b.max_overflow_spec(),
{
    let ev = b.ext_views();
    let cap = b.capacity_spec() as int;
    let read = b.read_index() as int;
    assert forall|i: int, j: int| 0 <= i < j < ev.len() implies #[trigger] ev[i].start
        != #[trigger] ev[j].start by {
        lemma_prefix_len_step(ev, i);
        lemma_prefix_len_mono(ev, i + 1, j);
        lemma_prefix_len_mono(ev, j, ev.len() as int);
        assert(ev[i].len >= RecordHeader::SIZE);
        assert(prefix_len(ev, i) < prefix_len(ev, j) < cap);
    }
}

/// Once every outstanding reservation is committed, in whatever order, the
/// next read returns all their records, in ring order.
pub proof fn lemma_all_committed_all_read(b: VolatileRingBuffer)
    requires
        b.wf(),
        forall|i: int| 0 <= i < b.ext_views().len() ==> #[trigger] b.ext_views()[i].ready,
    ensures
        b.visible_count() == b.ext_views().len(),
        b.pending() == b.all_ready(),
{
    let ev = b.ext_views();
    assert(ready_prefix(ev, ev.len()));
    crate::memory::layout::lemma_ready_prefix_unique(ev, b.visible_count(), ev.len());
}

/// A reservation that is not yet committed hides every reservation after it
/// from the reader: while the first one is uncommitted, a read returns
/// nothing and consumes nothing.
pub proof fn lemma_uncommitted_front_hides(b: VolatileRingBuffer)
    requires
        b.wf(),
        b.ext_views().len() > 0,
        !b.ext_views()[0].ready,
    ensures
        b.visible_count() == 0,
        b.pending() == Seq::<RecordView>::empty(),
{
    let ev = b.ext_views();
    assert(ready_prefix(ev, 0));
    crate::memory::layout::lemma_ready_prefix_unique(ev, b.visible_count(), 0);
}

/// Committed records are read once, in ring order, and the waiting records
/// follow in FIFO order: when every reservation was committed, a read returns
/// the records of all of them, and afterwards exactly the records it moved in
/// from the overflow queue are pending, oldest first.
pub proof fn lemma_read_once_then_overflow(
    old: VolatileRingBuffer,
    new: VolatileRingBuffer,
    recs: Seq<RecordView>,
)
    requires
        read_effect(old, new, recs),
        old.visible_count() == old.ext_views().len(),
    ensures
        recs == old.all_ready(),
        new.pending() == new.all_ready(),
        new.pending() == old.overflow().subrange(
            0,
            old.overflow().len() - new.overflow().len(),
        ).map_values(|r: RecordView| stored_view(r)),
{
    let ev = old.ext_views();
    let nev = new.ext_views();
    assert(ev.subrange(ev.len() as int, ev.len() as int) =~= Seq::<ExtentView>::empty());
    assert(old.unread_ready() == Seq::<RecordView>::empty());
    assert(ready_prefix(nev, nev.len()));
    crate::memory::layout::lemma_ready_prefix_unique(nev, new.visible_count(), nev.len());
    let moved = old.overflow().subrange(0, old.overflow().len() - new.overflow().len());
    assert(Seq::<RecordView>::empty() + moved.map_values(|r: RecordView| stored_view(r))
        =~= moved.map_values(|r: RecordView| stored_view(r)));
}

/// Out-of-order commits: of two outstanding reservations `a` before `b`,
/// committing `b` first leaves the reader stopped before `a`, so neither is
/// read; once `a` is committed too, and every other reservation before `b`
/// is committed, both are visible, in ring order (`a`'s record before `b`'s).
pub proof fn lemma_out_of_order_commits(
    b0: VolatileRingBuffer,
    b1: VolatileRingBuffer,
    b2: VolatileRingBuffer,
    a: int,
    b: int,
)
    requires
        b0.wf(),
        b1.wf(),
        b2.wf(),
        0 <= a < b < b0.ext_views().len(),
        !b0.ext_views()[a].ready,
        b1.ext_views() == b0.ext_views().update(b, ExtentView { ready: true, ..b0.ext_views()[b] }),
        b2.ext_views() == b1.ext_views().update(a, ExtentView { ready: true, ..b1.ext_views()[a] }),
    ensures
        b1.visible_count() <= a,
        (forall|i: int| 0 <= i < b && i != a ==> #[trigger] b0.ext_views()[i].ready)
            ==> b2.visible_count() > b,
{
    lemma_ring_layout(b1);
    lemma_ring_layout(b2);
    let ev1 = b1.ext_views();
    let ev2 = b2.ext_views();
    if b1.visible_count() > a {
        assert(ev1[a].ready);
        assert(ev1[a] == b0.ext_views()[a]);
    }
    if forall|i: int| 0 <= i < b && i != a ==> #[trigger] b0.ext_views()[i].ready {
        if b2.visible_count() <= b {
            let v = b2.visible_count() as int;
            assert(!ev2[v].ready);
            if v != a {
                assert(ev2[v] == ev1[v]);
                if v != b {
                    assert(ev1[v] == b0.ext_views()[v]);
                }
            }
        }
    }
}

/// Commit, then read: when one reservation is outstanding, committing it
/// makes the next read return exactly its record, as its bytes hold it.
pub proof fn lemma_commit_then_read(b0: VolatileRingBuffer, b1: VolatileRingBuffer)
    requires
        b0.wf(),
        b1.wf(),
        b0.ext_views().len() == 1,
        b1.ext_views() == b0.ext_views().update(0, ExtentView { ready: true, ..b0.ext_views()[0] }),
        b1.rel() == b0.rel(),
    ensures
        b1.pending() == seq![extent_record(b0.rel(), b0.ext_views()[0].len as int)],
{
    lemma_ring_layout(b1);
    let ev1 = b1.ext_views();
    assert(ready_prefix(ev1, 1));
    crate::memory::layout::lemma_ready_prefix_unique(ev1, b1.visible_count(), 1);
    let rest = ready_records(
        b1.rel().subrange(ev1[0].len as int, b1.rel().len() as int),
        ev1.drop_first(),
        0,
    );
    assert(rest == Seq::<RecordView>::empty());
    assert(seq![extent_record(b0.rel(), b0.ext_views()[0].len as int)] + rest =~= seq![
        extent_record(b0.rel(), b0.ext_views()[0].len as int),
    ]);
}

/// Records come back in the order they were written: when every
/// reservation is committed, storing a record whose header gives its data
/// length makes the next read return what it would have returned, followed by
/// that record.
pub proof fn lemma_write_read_fifo(b: VolatileRingBuffer, r: RecordView)
    requires
        b.visible_count() == b.ext_views().len(),
        r.header.size == r.data.len(),
    ensures
        b.all_ready().push(stored_view(r)) == b.pending().push(r),
{
    assert(r.data.subrange(0, r.header.size as int) =~= r.data);
}

/// With no reservation made visible, a read returns nothing.
pub proof fn lemma_nothing_visible_nothing_read(b: VolatileRingBuffer)
    requires
        b.visible_count() == 0,
    ensures
        b.pending() == Seq::<RecordView>::empty(),
{
}

/// A read that finds every reservation visible and no record waiting leaves
/// the ring empty.
pub proof fn lemma_read_empties(old: VolatileRingBuffer, new: VolatileRingBuffer, recs: Seq<RecordView>)
    requires
        read_effect(old, new, recs),
        old.visible_count() == old.ext_views().len(),
        old.overflow().len() == 0,
    ensures
        new.used() == 0,
        new.all_ready() == Seq::<RecordView>::empty(),
        recs == old.all_ready(),
{
    let ev = old.ext_views();
    lemma_prefix_len_mono(ev, ev.len() as int, ev.len() as int);
    assert(old.overflow().subrange(0, 0) =~= Seq::<RecordView>::empty());
    assert(ev.subrange(ev.len() as int, ev.len() as int) =~= Seq::<ExtentView>::empty());
    assert(Seq::<RecordView>::empty() + Seq::<RecordView>::empty().map_values(
        |r: RecordView| stored_view(r),
    ) =~= Seq::<RecordView>::empty());
}

} // verus!
