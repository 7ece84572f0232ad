//! How the in-memory ring lays out its reservations.
//!
//! The ring is read from its read index onwards.  Seen from there, the bytes
//! form a sequence (`rel` below) in which the outstanding reservations lie one
//! after the other, each starting with a record header.  Positions of the
//! ring are reached by wrapping around the end of the storage.
use vstd::prelude::*;
use crate::memory::{decode_record_header, RecordHeader, RecordView};

verus! {

/// The ring position `r` bytes after `start`, for `start < cap` and `r < cap`.
pub open spec fn wrap_add(start: int, r: int, cap: int) -> int {
    if start + r < cap {
        start + r
    } else {
        start + r - cap
    }
}

/// How far ring position `p` lies after `start`, for both below `cap`.
pub open spec fn ring_distance(start: int, p: int, cap: int) -> int {
    if p >= start {
        p - start
    } else {
        p + cap - start
    }
}

/// A reservation as the ring sees it: where it starts, how many bytes it
/// spans, and whether it has been committed.
pub struct ExtentView {
    pub start: nat,
    pub len: nat,
    pub ready: bool,
}

/// The bytes spanned by a sequence of reservations.
pub open spec fn total_len(ev: Seq<ExtentView>) -> nat
    decreases ev.len(),
{
    if ev.len() == 0 {
        0
    } else {
        ev[0].len + total_len(ev.drop_first())
    }
}

/// The record stored at the start of `rel` by a reservation of `len` bytes:
/// its header, and as many data bytes as the header's size asks for, but no
/// more than the reservation holds.
pub open spec fn extent_record(rel: Seq<u8>, len: int) -> RecordView {
    let h = decode_record_header(rel.subrange(0, RecordHeader::SIZE as int));
    let dlen = if h.size <= len - RecordHeader::SIZE {
        h.size as int
    } else {
        len - RecordHeader::SIZE
    };
    RecordView {
        header: h,
        data: rel.subrange(RecordHeader::SIZE as int, RecordHeader::SIZE + dlen),
    }
}

/// The records held by the committed reservations among the first `k`.
pub open spec fn ready_records(rel: Seq<u8>, ev: Seq<ExtentView>, k: nat) -> Seq<RecordView>
    decreases k,
{
    if k == 0 || ev.len() == 0 {
        Seq::empty()
    } else {
        let e = ev[0];
        let rest = ready_records(
            rel.subrange(e.len as int, rel.len() as int),
            ev.drop_first(),
            (k - 1) as nat,
        );
        if e.ready {
            seq![extent_record(rel, e.len as int)] + rest
        } else {
            rest
        }
    }
}

/// What a record looks like once stored and read back: its header, and its
/// data cut to the size the header gives.
pub open spec fn stored_view(r: RecordView) -> RecordView {
    RecordView {
        header: r.header,
        data: if r.header.size <= r.data.len() {
            r.data.subrange(0, r.header.size as int)
        } else {
            r.data
        },
    }
}

/// Every reservation spans at least a header.
pub open spec fn extents_hold_headers(ev: Seq<ExtentView>) -> bool {
    forall|i: int| 0 <= i < ev.len() ==> #[trigger] ev[i].len >= RecordHeader::SIZE
}

pub proof fn lemma_total_len_push(ev: Seq<ExtentView>, e: ExtentView)
    ensures
        total_len(ev.push(e)) == total_len(ev) + e.len,
    decreases ev.len(),
{
    assert(ev.push(e).len() > 0);
    if ev.len() > 0 {
        assert(ev.push(e)[0] == ev[0]);
        assert(ev.push(e).drop_first() =~= ev.drop_first().push(e));
        lemma_total_len_push(ev.drop_first(), e);
    } else {
        assert(ev.push(e)[0] == e);
        assert(ev.push(e).drop_first() =~= Seq::<ExtentView>::empty());
        assert(total_len(Seq::<ExtentView>::empty()) == 0);
    }
}

/// The bytes spanned by the first `k` reservations.
pub open spec fn prefix_len(ev: Seq<ExtentView>, k: int) -> nat {
    total_len(ev.subrange(0, k))
}

pub proof fn lemma_prefix_len_step(ev: Seq<ExtentView>, k: int)
    requires
        0 <= k < ev.len(),
    ensures
        prefix_len(ev, k + 1) == prefix_len(ev, k) + ev[k].len,
        prefix_len(ev, 0) == 0,
        prefix_len(ev, ev.len() as int) == total_len(ev),
{
    assert(ev.subrange(0, k + 1) =~= ev.subrange(0, k).push(ev[k]));
    lemma_total_len_push(ev.subrange(0, k), ev[k]);
    assert(ev.subrange(0, ev.len() as int) =~= ev);
    assert(ev.subrange(0, 0) =~= Seq::<ExtentView>::empty());
}

proof fn lemma_prefix_len_grows(ev: Seq<ExtentView>, j: int, k: int)
    requires
        0 <= j <= k <= ev.len(),
    ensures
        prefix_len(ev, j) <= prefix_len(ev, k),
    decreases k - j,
{
    if j < k {
        lemma_prefix_len_step(ev, k - 1);
        lemma_prefix_len_grows(ev, j, k - 1);
    }
}

/// Prefix lengths grow with the prefix and stay within the total.
pub proof fn lemma_prefix_len_mono(ev: Seq<ExtentView>, j: int, k: int)
    requires
        0 <= j <= k <= ev.len(),
    ensures
        prefix_len(ev, j) <= prefix_len(ev, k) <= total_len(ev),
        prefix_len(ev, ev.len() as int) == total_len(ev),
{
    lemma_prefix_len_grows(ev, j, k);
    lemma_prefix_len_grows(ev, k, ev.len() as int);
    assert(ev.subrange(0, ev.len() as int) =~= ev);
}

/// Dropping the first reservation shifts the prefix lengths by its length.
pub proof fn lemma_prefix_len_drop_first(ev: Seq<ExtentView>, k: int)
    requires
        1 <= k <= ev.len(),
    ensures
        prefix_len(ev, k) == ev[0].len + prefix_len(ev.drop_first(), k - 1),
{
    let s = ev.subrange(0, k);
    assert(s.drop_first() =~= ev.drop_first().subrange(0, k - 1));
    assert(s[0] == ev[0]);
}

/// The records of the first `k` reservations only depend on the bytes those
/// reservations span.
pub proof fn lemma_ready_records_prefix(
    rel1: Seq<u8>,
    rel2: Seq<u8>,
    ev: Seq<ExtentView>,
    k: nat,
)
    requires
        extents_hold_headers(ev),
        k <= ev.len(),
        rel1.len() >= prefix_len(ev, k as int),
        rel2.len() >= prefix_len(ev, k as int),
        rel1.subrange(0, prefix_len(ev, k as int) as int) == rel2.subrange(
            0,
            prefix_len(ev, k as int) as int,
        ),
    ensures
        ready_records(rel1, ev, k) == ready_records(rel2, ev, k),
    decreases k,
{
    if k > 0 {
        let l = prefix_len(ev, k as int) as int;
        let e = ev[0];
        lemma_prefix_len_drop_first(ev, k as int);
        assert(ev[0].len >= RecordHeader::SIZE);
        let t1 = rel1.subrange(e.len as int, rel1.len() as int);
        let t2 = rel2.subrange(e.len as int, rel2.len() as int);
        let ev2 = ev.drop_first();
        assert(extents_hold_headers(ev2)) by {
            assert forall|i: int| 0 <= i < ev2.len() implies #[trigger] ev2[i].len
                >= RecordHeader::SIZE by {
                assert(ev2[i] == ev[i + 1]);
            }
        }
        assert(t1.subrange(0, prefix_len(ev2, k - 1) as int) =~= t2.subrange(
            0,
            prefix_len(ev2, k - 1) as int,
        )) by {
            assert forall|i: int| 0 <= i < prefix_len(ev2, k - 1) implies t1[i] == t2[i] by {
                assert(rel1.subrange(0, l)[e.len + i] == rel2.subrange(0, l)[e.len + i]);
            }
        }
        lemma_ready_records_prefix(t1, t2, ev2, (k - 1) as nat);
        assert(rel1.subrange(0, RecordHeader::SIZE as int) =~= rel2.subrange(
            0,
            RecordHeader::SIZE as int,
        )) by {
            assert forall|i: int| 0 <= i < RecordHeader::SIZE implies rel1[i] == rel2[i] by {
                assert(rel1.subrange(0, l)[i] == rel2.subrange(0, l)[i]);
            }
        }
        let h = decode_record_header(rel1.subrange(0, RecordHeader::SIZE as int));
        let dlen = if h.size <= e.len - RecordHeader::SIZE {
            h.size as int
        } else {
            e.len - RecordHeader::SIZE
        };
        assert(rel1.subrange(RecordHeader::SIZE as int, RecordHeader::SIZE + dlen)
            =~= rel2.subrange(RecordHeader::SIZE as int, RecordHeader::SIZE + dlen)) by {
            assert forall|j: int| RecordHeader::SIZE <= j < RecordHeader::SIZE + dlen implies #[trigger] rel1[j]
                == rel2[j] by {
                assert(rel1.subrange(0, l)[j] == rel2.subrange(0, l)[j]);
            }
        }
    }
}

/// Appending a reservation appends its record, if committed, to the records.
pub proof fn lemma_ready_records_snoc(rel: Seq<u8>, ev: Seq<ExtentView>, e: ExtentView)
    requires
        rel.len() >= total_len(ev) + e.len,
    ensures
        ready_records(rel, ev.push(e), (ev.len() + 1) as nat) == ready_records(
            rel,
            ev,
            ev.len(),
        ) + if e.ready {
            seq![extent_record(rel.subrange(total_len(ev) as int, rel.len() as int), e.len as int)]
        } else {
            Seq::<RecordView>::empty()
        },
    decreases ev.len(),
{
    let tail = if e.ready {
        seq![extent_record(rel.subrange(total_len(ev) as int, rel.len() as int), e.len as int)]
    } else {
        Seq::<RecordView>::empty()
    };
    if ev.len() == 0 {
        let pe = ev.push(e);
        assert(pe[0] == e);
        assert(pe.drop_first() =~= Seq::<ExtentView>::empty());
        assert(total_len(ev) == 0);
        assert(rel.subrange(0, rel.len() as int) =~= rel);
        let rest = ready_records(rel.subrange(e.len as int, rel.len() as int), pe.drop_first(), 0);
        assert(rest == Seq::<RecordView>::empty());
        assert(ready_records(rel, ev, ev.len()) == Seq::<RecordView>::empty());
        assert(Seq::<RecordView>::empty() + tail =~= tail);
        if e.ready {
            assert(ready_records(rel, pe, 1) == seq![extent_record(rel, e.len as int)] + rest);
            assert(seq![extent_record(rel, e.len as int)] + Seq::<RecordView>::empty() =~= tail);
        } else {
            assert(ready_records(rel, pe, 1) == rest);
        }
    } else {
        let f = ev[0];
        let pe = ev.push(e);
        let rel2 = rel.subrange(f.len as int, rel.len() as int);
        assert(pe.drop_first() =~= ev.drop_first().push(e));
        assert(pe[0] == f);
        lemma_ready_records_snoc(rel2, ev.drop_first(), e);
        assert(rel2.subrange(total_len(ev.drop_first()) as int, rel2.len() as int) =~= rel.subrange(
            total_len(ev) as int,
            rel.len() as int,
        ));
        let rest = ready_records(rel2, ev.drop_first(), (ev.len() - 1) as nat);
        let rest2 = ready_records(rel2, pe.drop_first(), ev.len() as nat);
        assert(ev.drop_first().len() + 1 == ev.len());
        assert(rest2 == rest + tail);
        if f.ready {
            assert(ready_records(rel, pe, (ev.len() + 1) as nat) == seq![extent_record(rel, f.len as int)] + rest2);
            assert(ready_records(rel, ev, ev.len()) == seq![extent_record(rel, f.len as int)] + rest);
            assert(seq![extent_record(rel, f.len as int)] + (rest + tail) =~= (seq![
                extent_record(rel, f.len as int),
            ] + rest) + tail);
        } else {
            assert(ready_records(rel, pe, (ev.len() + 1) as nat) == rest2);
            assert(ready_records(rel, ev, ev.len()) == rest);
        }
    }
}

/// Committing the last reservation, which no record follows, adds its record.
pub proof fn lemma_ready_records_all(rel: Seq<u8>, ev: Seq<ExtentView>, k: nat)
    requires
        k >= ev.len(),
    ensures
        ready_records(rel, ev, k) == ready_records(rel, ev, ev.len()),
    decreases ev.len(),
{
    if ev.len() > 0 {
        lemma_ready_records_all(
            rel.subrange(ev[0].len as int, rel.len() as int),
            ev.drop_first(),
            (k - 1) as nat,
        );
    }
}

/// The records of a prefix of the reservations do not depend on what
/// follows it.
pub proof fn lemma_ready_records_push_prefix(
    rel: Seq<u8>,
    ev: Seq<ExtentView>,
    e: ExtentView,
    k: nat,
)
    requires
        k <= ev.len(),
    ensures
        ready_records(rel, ev.push(e), k) == ready_records(rel, ev, k),
    decreases k,
{
    if k > 0 {
        assert(ev.push(e)[0] == ev[0]);
        assert(ev.push(e).drop_first() =~= ev.drop_first().push(e));
        lemma_ready_records_push_prefix(
            rel.subrange(ev[0].len as int, rel.len() as int),
            ev.drop_first(),
            e,
            (k - 1) as nat,
        );
    }
}

proof fn lemma_total_len_update_whole(ev: Seq<ExtentView>, j: int, e: ExtentView)
    requires
        0 <= j < ev.len(),
        e.len == ev[j].len,
    ensures
        total_len(ev.update(j, e)) == total_len(ev),
    decreases ev.len(),
{
    if j == 0 {
        assert(ev.update(j, e).drop_first() =~= ev.drop_first());
    } else {
        assert(ev.update(j, e).drop_first() =~= ev.drop_first().update(j - 1, e));
        lemma_total_len_update_whole(ev.drop_first(), j - 1, e);
    }
}

/// Changing a reservation's commit flag keeps every length.
pub proof fn lemma_total_len_update(ev: Seq<ExtentView>, j: int, e: ExtentView)
    requires
        0 <= j < ev.len(),
        e.len == ev[j].len,
    ensures
        total_len(ev.update(j, e)) == total_len(ev),
        forall|k: int| 0 <= k <= ev.len() ==> #[trigger] prefix_len(ev.update(j, e), k) == prefix_len(ev, k),
{
    lemma_total_len_update_whole(ev, j, e);
    assert forall|k: int| 0 <= k <= ev.len() implies #[trigger] prefix_len(ev.update(j, e), k)
        == prefix_len(ev, k) by {
        if k <= j {
            assert(ev.update(j, e).subrange(0, k) =~= ev.subrange(0, k));
        } else {
            assert(ev.update(j, e).subrange(0, k) =~= ev.subrange(0, k).update(j, e));
            lemma_total_len_update_whole(ev.subrange(0, k), j, e);
        }
    }
}

/// The first reservation, at or after index `i`, that starts at `start`,
/// spans `len` bytes and is not committed.
pub open spec fn find_from(ev: Seq<ExtentView>, start: nat, len: nat, i: nat) -> Option<nat>
    decreases ev.len() - i,
{
    if i >= ev.len() {
        None
    } else if ev[i as int].start == start && ev[i as int].len == len && !ev[i as int].ready {
        Some(i)
    } else {
        find_from(ev, start, len, i + 1)
    }
}

/// The outstanding, uncommitted reservation that starts at `start` and spans
/// `len` bytes, if any.
pub open spec fn reservation_index(ev: Seq<ExtentView>, start: nat, len: nat) -> Option<nat> {
    find_from(ev, start, len, 0)
}

pub proof fn lemma_find_from(ev: Seq<ExtentView>, start: nat, len: nat, i: nat)
    ensures
        find_from(ev, start, len, i) matches Some(j) ==> i <= j < ev.len() && ev[j as int].start
            == start && ev[j as int].len == len && !ev[j as int].ready,
        find_from(ev, start, len, i) is None ==> forall|k: int|
            i <= k < ev.len() ==> !(#[trigger] ev[k].start == start && ev[k].len == len
                && !ev[k].ready),
    decreases ev.len() - i,
{
    if i < ev.len() {
        lemma_find_from(ev, start, len, i + 1);
    }
}

/// The ring bytes that a sequence of records takes when stored: a header
/// and the data of each.
pub open spec fn records_bytes(s: Seq<RecordView>) -> nat
    decreases s.len(),
{
    if s.len() == 0 {
        0
    } else {
        records_bytes(s.drop_last()) + (RecordHeader::SIZE as nat) + s.last().data.len()
    }
}

/// `n` counts the committed reservations at the front: the first `n` are
/// ready and the next one, if there is one, is not.
pub open spec fn ready_prefix(ev: Seq<ExtentView>, n: nat) -> bool {
    &&& n <= ev.len()
    &&& forall|i: int| 0 <= i < n ==> #[trigger] ev[i].ready
    &&& n < ev.len() ==> !ev[n as int].ready
}

/// There is only one such count.
pub proof fn lemma_ready_prefix_unique(ev: Seq<ExtentView>, a: nat, b: nat)
    requires
        ready_prefix(ev, a),
        ready_prefix(ev, b),
    ensures
        a == b,
{
    if a < b {
        assert(ev[a as int].ready);
    } else if b < a {
        assert(ev[b as int].ready);
    }
}

} // verus!
