//! Out-of-order byte reassembly: a sliding window of optional bytes
//! starting at the read cursor. Writes land at absolute stream offsets,
//! reads drain the contiguous prefix.

use vstd::prelude::*;

use crate::errors::Error;

verus! {

/// A flow-control bounded reassembly window. `next_index` is the offset
/// of the first unread byte; the window holds bytes received but not yet
/// read, `None` marking holes.
#[derive(Clone, Debug, PartialEq)]
pub struct StreamBuffer {
    pub capacity: usize,
    pub next_index: u64,
    pub buffer: Vec<Option<u8>>,
}

/// The larger of two positions.
pub open spec fn pos_max(a: int, b: int) -> int {
    if a > b {
        a
    } else {
        b
    }
}

/// The window after writing `data` at window-relative position `start`:
/// written positions hold the new bytes, others keep their old contents,
/// and the window grows (with holes) as far as the write reaches.
pub open spec fn window_after_add(w: Seq<Option<u8>>, start: int, data: Seq<u8>) -> Seq<
    Option<u8>,
> {
    Seq::new(
        pos_max(w.len() as int, start + data.len()) as nat,
        |j: int|
            if start <= j < start + data.len() {
                Some(data[j - start])
            } else if j < w.len() {
                w[j]
            } else {
                None
            },
    )
}

/// A stored byte under the write disagrees with the new data.
pub open spec fn add_conflicts(w: Seq<Option<u8>>, start: int, data: Seq<u8>) -> bool {
    exists|i: int|
        0 <= i < data.len() && start + i < w.len() && (#[trigger] w[start + i]) is Some && w[start
            + i] != Some(data[i])
}

/// A write of `dl` bytes at `offset` stays inside the flow-control
/// window and inside the offset space.
pub open spec fn add_within_window(next: int, cap: int, offset: int, dl: int) -> bool {
    offset + dl <= next + cap && offset + dl <= u64::MAX - cap
}

/// Length of the readable contiguous prefix.
pub open spec fn readable_run(w: Seq<Option<u8>>) -> int
    decreases w.len(),
{
    if w.len() == 0 {
        0
    } else {
        match w[0] {
            Some(b) => 1 + readable_run(w.drop_first()),
            None => 0,
        }
    }
}

pub proof fn lemma_readable_run_facts(w: Seq<Option<u8>>)
    ensures
        0 <= readable_run(w) <= w.len(),
        forall|i: int| 0 <= i < readable_run(w) ==> w[i] is Some,
        readable_run(w) < w.len() ==> w[readable_run(w)] is None,
    decreases w.len(),
{
    if w.len() > 0 && w[0] is Some {
        lemma_readable_run_facts(w.drop_first());
        assert forall|i: int| 0 <= i < readable_run(w) implies w[i] is Some by {
            if i > 0 {
                assert(w.drop_first()[i - 1] is Some);
            }
        }
    }
}

/// A stored prefix bounds the readable run from below.
pub proof fn lemma_readable_run_at_least(w: Seq<Option<u8>>, n: int)
    requires
        0 <= n <= w.len(),
        forall|i: int| 0 <= i < n ==> (#[trigger] w[i]) is Some,
    ensures
        readable_run(w) >= n,
    decreases n,
{
    lemma_readable_run_facts(w);
    if n > 0 {
        assert(w[0] is Some);
        assert forall|i: int| 0 <= i < n - 1 implies (#[trigger] w.drop_first()[i]) is Some by {
            assert(w.drop_first()[i] == w[i + 1]);
        }
        lemma_readable_run_at_least(w.drop_first(), n - 1);
    }
}

/// A stored prefix followed by a hole or the window's end pins the
/// readable run exactly.
pub proof fn lemma_readable_run_is(w: Seq<Option<u8>>, n: int)
    requires
        0 <= n <= w.len(),
        forall|i: int| 0 <= i < n ==> (#[trigger] w[i]) is Some,
        n < w.len() ==> w[n] is None,
    ensures
        readable_run(w) == n,
    decreases n,
{
    if w.len() == 0 {
    } else if n == 0 {
    } else {
        assert(w[0] is Some);
        lemma_readable_run_is(w.drop_first(), n - 1);
    }
}

/// Re-adding an already-stored range with identical bytes conflicts with
/// nothing and leaves the window as it was: duplicate deliveries of one
/// range are absorbed without duplicating output.
pub proof fn lemma_add_data_idempotent(w: Seq<Option<u8>>, start: int, data: Seq<u8>)
    requires
        0 <= start,
        !add_conflicts(w, start, data),
    ensures
        !add_conflicts(window_after_add(w, start, data), start, data),
        window_after_add(window_after_add(w, start, data), start, data) == window_after_add(
            w,
            start,
            data,
        ),
{
    let w1 = window_after_add(w, start, data);
    assert(window_after_add(w1, start, data) =~= w1);
}

/// Writes of non-overlapping ranges commute: the window they leave does
/// not depend on the order of arrival, and neither write conflicts after
/// the other has landed unless it conflicted before.
pub proof fn lemma_add_data_commutes(
    w: Seq<Option<u8>>,
    s1: int,
    d1: Seq<u8>,
    s2: int,
    d2: Seq<u8>,
)
    requires
        0 <= s1,
        0 <= s2,
        s1 + d1.len() <= s2 || s2 + d2.len() <= s1,
    ensures
        window_after_add(window_after_add(w, s1, d1), s2, d2) == window_after_add(
            window_after_add(w, s2, d2),
            s1,
            d1,
        ),
        add_conflicts(window_after_add(w, s2, d2), s1, d1) == add_conflicts(w, s1, d1),
{
    assert(window_after_add(window_after_add(w, s1, d1), s2, d2) =~= window_after_add(
        window_after_add(w, s2, d2),
        s1,
        d1,
    ));
    let w2 = window_after_add(w, s2, d2);
    if add_conflicts(w, s1, d1) {
        let i = choose|i: int|
            0 <= i < d1.len() && s1 + i < w.len() && (#[trigger] w[s1 + i]) is Some && w[s1 + i]
                != Some(d1[i]);
        assert(w2[s1 + i] == w[s1 + i]);
        assert(add_conflicts(w2, s1, d1));
    }
    if add_conflicts(w2, s1, d1) {
        let i = choose|i: int|
            0 <= i < d1.len() && s1 + i < w2.len() && (#[trigger] w2[s1 + i]) is Some && w2[s1 + i]
                != Some(d1[i]);
        if s1 + i < w.len() {
            assert(w2[s1 + i] == w[s1 + i]);
            assert(add_conflicts(w, s1, d1));
        } else {
            assert(!(w2[s1 + i] is Some));
        }
    }
}

/// One range of a reassembly workload: its window-relative starting
/// position and its bytes.
pub open spec fn write_covers(wr: (int, Seq<u8>), j: int) -> bool {
    wr.0 <= j < wr.0 + wr.1.len()
}

/// No two of the ranges touch a common position.
pub open spec fn writes_disjoint(ws: Seq<(int, Seq<u8>)>) -> bool {
    forall|i: int, k: int|
        0 <= i < ws.len() && 0 <= k < ws.len() && i != k ==> (#[trigger] ws[i]).0 + ws[i].1.len()
            <= (#[trigger] ws[k]).0 || ws[k].0 + ws[k].1.len() <= ws[i].0
}

/// The window after storing the ranges first to last.
pub open spec fn window_after_adds(w: Seq<Option<u8>>, ws: Seq<(int, Seq<u8>)>) -> Seq<Option<u8>>
    decreases ws.len(),
{
    if ws.len() == 0 {
        w
    } else {
        window_after_adds(window_after_add(w, ws[0].0, ws[0].1), ws.drop_first())
    }
}

/// One past the furthest position the ranges reach.
pub open spec fn writes_end(ws: Seq<(int, Seq<u8>)>) -> int
    decreases ws.len(),
{
    if ws.len() == 0 {
        0
    } else {
        pos_max(ws[0].0 + ws[0].1.len(), writes_end(ws.drop_first()))
    }
}

/// Each range reaches no further than the furthest.
proof fn lemma_writes_end_bound(ws: Seq<(int, Seq<u8>)>)
    ensures
        forall|i: int|
            0 <= i < ws.len() ==> (#[trigger] ws[i]).0 + ws[i].1.len() <= writes_end(ws),
        forall|x: (int, Seq<u8>)| ws.contains(x) ==> x.0 + x.1.len() <= writes_end(ws),
    decreases ws.len(),
{
    if ws.len() > 0 {
        lemma_writes_end_bound(ws.drop_first());
        assert forall|i: int|
            0 <= i < ws.len() implies (#[trigger] ws[i]).0 + ws[i].1.len() <= writes_end(ws) by {
            if i > 0 {
                assert(ws.drop_first()[i - 1] == ws[i]);
            }
        }
        assert forall|x: (int, Seq<u8>)| ws.contains(x) implies x.0 + x.1.len() <= writes_end(
            ws,
        ) by {
            let i = choose|i: int| 0 <= i < ws.len() && ws[i] == x;
            assert(ws[i].0 + ws[i].1.len() <= writes_end(ws));
        }
    }
}

/// The furthest reach is achieved by one of the ranges, and is never
/// negative.
proof fn lemma_writes_end_witness(ws: Seq<(int, Seq<u8>)>)
    requires
        forall|i: int| 0 <= i < ws.len() ==> (#[trigger] ws[i]).0 >= 0,
    ensures
        ws.len() > 0 ==> exists|i: int|
            0 <= i < ws.len() && (#[trigger] ws[i]).0 + ws[i].1.len() == writes_end(ws),
        writes_end(ws) >= 0,
    decreases ws.len(),
{
    if ws.len() > 0 {
        let tail = ws.drop_first();
        assert forall|i: int| 0 <= i < tail.len() implies (#[trigger] tail[i]).0 >= 0 by {
            assert(tail[i] == ws[i + 1]);
        }
        lemma_writes_end_witness(tail);
        if ws.len() > 1 && writes_end(tail) > ws[0].0 + ws[0].1.len() {
            let i = choose|i: int|
                0 <= i < tail.len() && (#[trigger] tail[i]).0 + tail[i].1.len() == writes_end(
                    tail,
                );
            assert(ws[i + 1] == tail[i]);
            assert(ws[i + 1].0 + ws[i + 1].1.len() == writes_end(ws));
        } else {
            assert(ws[0].0 + ws[0].1.len() == writes_end(ws));
        }
    }
}

/// What a run of disjoint stored ranges leaves at every position: the
/// covering range's byte where one covers it, the old contents (or a
/// hole) elsewhere.
pub proof fn lemma_window_after_adds_pointwise(w: Seq<Option<u8>>, ws: Seq<(int, Seq<u8>)>)
    requires
        forall|i: int| 0 <= i < ws.len() ==> (#[trigger] ws[i]).0 >= 0,
        writes_disjoint(ws),
    ensures
        window_after_adds(w, ws).len() == pos_max(w.len() as int, writes_end(ws)),
        forall|i: int, j: int|
            #![trigger ws[i], window_after_adds(w, ws)[j]]
            0 <= i < ws.len() && write_covers(ws[i], j) ==> window_after_adds(w, ws)[j] == Some(
                ws[i].1[j - ws[i].0],
            ),
        forall|j: int|
            #![trigger window_after_adds(w, ws)[j]]
            0 <= j < window_after_adds(w, ws).len() && (forall|i: int|
                0 <= i < ws.len() ==> !write_covers(#[trigger] ws[i], j)) ==> window_after_adds(
                w,
                ws,
            )[j] == (if j < w.len() {
                w[j]
            } else {
                None
            }),
    decreases ws.len(),
{
    if ws.len() > 0 {
        let h = ws[0];
        let tail = ws.drop_first();
        let w1 = window_after_add(w, h.0, h.1);
        assert forall|i: int, k: int|
            0 <= i < tail.len() && 0 <= k < tail.len() && i != k implies (#[trigger] tail[i]).0
            + tail[i].1.len() <= (#[trigger] tail[k]).0 || tail[k].0 + tail[k].1.len()
            <= tail[i].0 by {
            assert(tail[i] == ws[i + 1] && tail[k] == ws[k + 1]);
        }
        assert forall|i: int| 0 <= i < tail.len() implies (#[trigger] tail[i]).0 >= 0 by {
            assert(tail[i] == ws[i + 1]);
        }
        lemma_window_after_adds_pointwise(w1, tail);
        assert(w1.len() == pos_max(w.len() as int, h.0 + h.1.len()));
        assert(window_after_adds(w, ws).len() == pos_max(w.len() as int, writes_end(ws)));
        assert forall|i: int, j: int|
            #![trigger ws[i], window_after_adds(w, ws)[j]]
            0 <= i < ws.len() && write_covers(ws[i], j) implies window_after_adds(w, ws)[j]
            == Some(ws[i].1[j - ws[i].0]) by {
            if i == 0 {
                assert forall|t: int|
                    0 <= t < tail.len() implies !write_covers(#[trigger] tail[t], j) by {
                    assert(tail[t] == ws[t + 1]);
                }
                assert(j < window_after_adds(w1, tail).len());
                assert(window_after_adds(w1, tail)[j] == (if j < w1.len() {
                    w1[j]
                } else {
                    None
                }));
                assert(w1[j] == Some(h.1[j - h.0]));
            } else {
                assert(tail[i - 1] == ws[i]);
                assert(window_after_adds(w1, tail)[j] == Some(ws[i].1[j - ws[i].0]));
            }
        }
        assert forall|j: int|
            #![trigger window_after_adds(w, ws)[j]]
            0 <= j < window_after_adds(w, ws).len() && (forall|i: int|
                0 <= i < ws.len() ==> !write_covers(#[trigger] ws[i], j)) implies
            window_after_adds(w, ws)[j] == (if j < w.len() {
            w[j]
        } else {
            None
        }) by {
            assert forall|t: int|
                0 <= t < tail.len() implies !write_covers(#[trigger] tail[t], j) by {
                assert(tail[t] == ws[t + 1]);
            }
            assert(!write_covers(ws[0], j));
            assert(window_after_adds(w1, tail)[j] == (if j < w1.len() {
                w1[j]
            } else {
                None
            }));
        }
    }
}

/// Reassembly is insensitive to arrival order, in full: storing the same
/// set of non-overlapping ranges in any two orders leaves the very same
/// window — so the bytes that repeated pulls then return are those of
/// the ranges in ascending offset order, whatever the arrival order was.
pub proof fn lemma_adds_order_independent(
    w: Seq<Option<u8>>,
    ws1: Seq<(int, Seq<u8>)>,
    ws2: Seq<(int, Seq<u8>)>,
)
    requires
        forall|i: int| 0 <= i < ws1.len() ==> (#[trigger] ws1[i]).0 >= 0,
        writes_disjoint(ws1),
        writes_disjoint(ws2),
        ws1.to_multiset() == ws2.to_multiset(),
    ensures
        window_after_adds(w, ws1) == window_after_adds(w, ws2),
{
    ws1.to_multiset_ensures();
    ws2.to_multiset_ensures();
    assert forall|x: (int, Seq<u8>)| #[trigger] ws1.contains(x) implies ws2.contains(x) by {
        assert(ws1.to_multiset().count(x) > 0);
        assert(ws2.to_multiset().count(x) > 0);
    }
    assert forall|x: (int, Seq<u8>)| #[trigger] ws2.contains(x) implies ws1.contains(x) by {
        assert(ws2.to_multiset().count(x) > 0);
        assert(ws1.to_multiset().count(x) > 0);
    }
    assert forall|i: int| 0 <= i < ws2.len() implies (#[trigger] ws2[i]).0 >= 0 by {
        assert(ws2.contains(ws2[i]));
        assert(ws1.contains(ws2[i]));
        let k = choose|k: int| 0 <= k < ws1.len() && ws1[k] == ws2[i];
        assert(ws1[k].0 >= 0);
    }
    lemma_writes_end_bound(ws1);
    lemma_writes_end_bound(ws2);
    lemma_writes_end_witness(ws1);
    lemma_writes_end_witness(ws2);
    assert(writes_end(ws1) == writes_end(ws2)) by {
        if ws1.len() > 0 {
            let i = choose|i: int|
                0 <= i < ws1.len() && (#[trigger] ws1[i]).0 + ws1[i].1.len() == writes_end(ws1);
            assert(ws1.contains(ws1[i]));
            assert(ws2.contains(ws1[i]));
            assert(writes_end(ws1) <= writes_end(ws2));
        } else {
            assert(ws2.len() == ws2.to_multiset().len());
            assert(ws2.len() == 0);
        }
        if ws2.len() > 0 {
            let i = choose|i: int|
                0 <= i < ws2.len() && (#[trigger] ws2[i]).0 + ws2[i].1.len() == writes_end(ws2);
            assert(ws2.contains(ws2[i]));
            assert(ws1.contains(ws2[i]));
            assert(writes_end(ws2) <= writes_end(ws1));
        } else {
            assert(ws1.len() == ws1.to_multiset().len());
            assert(ws1.len() == 0);
        }
    }
    lemma_window_after_adds_pointwise(w, ws1);
    lemma_window_after_adds_pointwise(w, ws2);
    let a = window_after_adds(w, ws1);
    let b = window_after_adds(w, ws2);
    assert(a.len() == b.len());
    assert forall|j: int| 0 <= j < a.len() implies a[j] == b[j] by {
        if exists|i: int| 0 <= i < ws1.len() && write_covers(#[trigger] ws1[i], j) {
            let i = choose|i: int| 0 <= i < ws1.len() && write_covers(#[trigger] ws1[i], j);
            assert(a[j] == Some(ws1[i].1[j - ws1[i].0]));
            assert(ws1.contains(ws1[i]));
            assert(ws2.contains(ws1[i]));
            let k = choose|k: int| 0 <= k < ws2.len() && ws2[k] == ws1[i];
            assert(write_covers(ws2[k], j));
            assert(b[j] == Some(ws2[k].1[j - ws2[k].0]));
        } else {
            assert forall|k: int|
                0 <= k < ws2.len() implies !write_covers(#[trigger] ws2[k], j) by {
                if write_covers(ws2[k], j) {
                    assert(ws2.contains(ws2[k]));
                    assert(ws1.contains(ws2[k]));
                    let i = choose|i: int| 0 <= i < ws1.len() && ws1[i] == ws2[k];
                    assert(write_covers(ws1[i], j));
                }
            }
            assert forall|i: int|
                0 <= i < ws1.len() implies !write_covers(#[trigger] ws1[i], j) by {
            }
            assert(a[j] == (if j < w.len() {
                w[j]
            } else {
                None
            }));
            assert(b[j] == (if j < w.len() {
                w[j]
            } else {
                None
            }));
        }
    }
    assert(a =~= b);
}

/// A write whose highest target offset is exactly the window ceiling is
/// accepted by the flow-control check; one byte beyond it is not. The
/// window must not already abut the end of the 64-bit offset space.
pub proof fn lemma_flow_control_boundary(next: int, cap: int, offset: int, dl: int)
    requires
        1 <= cap,
        0 <= next,
        dl >= 1,
        next + 2 * cap <= u64::MAX,
    ensures
        offset + dl - 1 == next + cap - 1 ==> add_within_window(next, cap, offset, dl),
        offset + dl - 1 == next + cap ==> !add_within_window(next, cap, offset, dl),
{
}

impl StreamBuffer {
    /// Window capacity in bytes.
    pub open spec fn cap(&self) -> int {
        self.capacity as int
    }

    /// Offset of the first unread byte.
    pub open spec fn next(&self) -> int {
        self.next_index as int
    }

    /// The window's contents from the read cursor on.
    pub open spec fn window(&self) -> Seq<Option<u8>> {
        self.buffer@
    }

    /// Structural soundness: the window fits the capacity, ends on a
    /// stored byte, and the whole window stays a capacity short of the
    /// end of the offset space.
    pub open spec fn wf(&self) -> bool {
        &&& 1 <= self.cap()
        &&& self.window().len() <= self.cap()
        &&& self.next() + self.cap() <= u64::MAX
        &&& self.window().len() > 0 ==> {
            &&& self.next() + self.window().len() + self.cap() <= u64::MAX
            &&& self.window().last() is Some
        }
    }

    pub fn new(capacity: usize) -> (r: StreamBuffer)
        requires
            capacity >= 1,
        ensures
            r.wf(),
            r.cap() == capacity,
            r.next() == 0,
            r.window() == Seq::<Option<u8>>::empty(),
    {
        StreamBuffer { capacity, next_index: 0, buffer: Vec::new() }
    }

    /// Store `data` at absolute offset `offset`. Empty input is a no-op;
    /// a write past the window fails with `BufferOverflow`; a write below
    /// the read cursor, or one disagreeing with a stored byte, fails with
    /// `InvalidData`; otherwise the bytes are stored and the window
    /// extended.
    pub fn add_data(&mut self, offset: u64, data: &Vec<u8>) -> (r: Result<(), Error>)
        requires
            old(self).wf(),
        ensures
            final(self).wf(),
            final(self).cap() == old(self).cap(),
            ({
                let o = offset as int;
                let dl = data@.len() as int;
                let next = old(self).next();
                let cap = old(self).cap();
                let w = old(self).window();
                if dl == 0 {
                    &&& r == Ok::<(), Error>(())
                    &&& final(self).next() == next
                    &&& final(self).window() == w
                } else if !add_within_window(next, cap, o, dl) {
                    &&& r == Err::<(), Error>(Error::BufferOverflow)
                    &&& final(self).next() == next
                    &&& final(self).window() == w
                } else if o < next {
                    &&& r == Err::<(), Error>(Error::InvalidData)
                    &&& final(self).next() == next
                    &&& final(self).window() == w
                } else if add_conflicts(w, o - next, data@) {
                    &&& r == Err::<(), Error>(Error::InvalidData)
                    &&& final(self).next() == next
                    &&& final(self).window() == w
                } else {
                    &&& r == Ok::<(), Error>(())
                    &&& final(self).next() == next
                    &&& final(self).window() == window_after_add(w, o - next, data@)
                }
            }),
    {
        let dl = data.len();
        if dl == 0 {
            return Ok(());
        }
        let reach: u128 = offset as u128 + dl as u128;
        if reach > self.next_index as u128 + self.capacity as u128 || reach > u64::MAX as u128
            - self.capacity as u128 {
            return Err(Error::BufferOverflow);
        }
        if offset < self.next_index {
            return Err(Error::InvalidData);
        }
        let start: usize = (offset - self.next_index) as usize;
        let ghost w = self.buffer@;
        let overlap: usize = if self.buffer.len() > start {
            let avail = self.buffer.len() - start;
            if avail < dl {
                avail
            } else {
                dl
            }
        } else {
            0
        };
        let mut conflict: bool = false;
        let mut i: usize = 0;
        while i < overlap && !conflict
            invariant
                *self == *old(self),
                i <= overlap,
                dl == data@.len(),
                overlap <= dl,
                overlap > 0 ==> start + overlap <= w.len(),
                start + dl <= self.cap(),
                w == self.buffer@,
                conflict ==> add_conflicts(w, start as int, data@),
                !conflict ==> forall|j: int|
                    0 <= j < i ==> !((#[trigger] w[start + j]) is Some && w[start + j] != Some(
                        data@[j],
                    )),
            decreases overlap - i + (if conflict {
                0int
            } else {
                1int
            }),
        {
            let idx = start + i;
            match self.buffer[idx] {
                Some(b) => {
                    if b != data[i] {
                        proof {
                            assert(w[start + i] is Some && w[start + i] != Some(data@[i as int]));
                            assert(add_conflicts(w, start as int, data@));
                        }
                        conflict = true;
                    } else {
                        i = i + 1;
                    }
                },
                None => {
                    i = i + 1;
                },
            }
        }
        if conflict {
            return Err(Error::InvalidData);
        }
        proof {
            assert forall|j: int|
                0 <= j < data@.len() && start + j < w.len() implies !((#[trigger] w[start
                + j]) is Some && w[start + j] != Some(data@[j])) by {
                if j >= overlap {
                    assert(start + j >= w.len());
                }
            }
            assert(!add_conflicts(w, start as int, data@));
        }
        while self.buffer.len() < start
            invariant
                self.buffer@.len() <= pos_max(w.len() as int, start as int),
                start + dl <= self.cap(),
                self.cap() == old(self).cap(),
                self.next() == old(self).next(),
                self.buffer@.len() >= w.len(),
                forall|j: int|
                    0 <= j < self.buffer@.len() ==> (#[trigger] self.buffer@[j]) == (if j
                        < w.len() {
                        w[j]
                    } else {
                        None
                    }),
            decreases start - self.buffer@.len(),
        {
            self.buffer.push(None);
        }
        proof {
            assert(self.buffer@.len() == pos_max(w.len() as int, start as int));
        }
        let ghost base = self.buffer@;
        let mut i: usize = 0;
        while i < dl
            invariant
                i <= dl,
                dl == data@.len(),
                dl >= 1,
                start + dl <= self.cap(),
                self.cap() == old(self).cap(),
                self.next() == old(self).next(),
                base.len() == pos_max(w.len() as int, start as int),
                self.buffer@.len() == pos_max(base.len() as int, start + i),
                forall|j: int|
                    0 <= j < self.buffer@.len() ==> (#[trigger] self.buffer@[j]) == (if start <= j
                        < start + i {
                        Some(data@[j - start])
                    } else if j < w.len() {
                        w[j]
                    } else {
                        None
                    }),
            decreases dl - i,
        {
            let idx = start + i;
            if idx < self.buffer.len() {
                self.buffer.set(idx, Some(data[i]));
            } else {
                self.buffer.push(Some(data[i]));
            }
            i = i + 1;
        }
        proof {
            assert(self.buffer@ =~= window_after_add(w, start as int, data@));
            assert(self.buffer@.last() is Some);
        }
        Ok(())
    }

    /// Copy the readable prefix into `buf` (bounded by its length),
    /// advance the read cursor by the amount copied, and return it.
    pub fn pull_data(&mut self, buf: &mut Vec<u8>) -> (r: usize)
        requires
            old(self).wf(),
        ensures
            final(self).wf(),
            final(self).cap() == old(self).cap(),
            r == vstd::math::min(old(buf)@.len() as int, readable_run(old(self).window())),
            final(buf)@.len() == old(buf)@.len(),
            forall|i: int|
                0 <= i < r ==> (#[trigger] final(buf)@[i]) == old(self).window()[i].unwrap(),
            forall|i: int| r <= i < old(buf)@.len() ==> (#[trigger] final(buf)@[i]) == old(buf)@[i],
            final(self).next() == old(self).next() + r,
            final(self).window() == old(self).window().skip(r as int),
    {
        proof {
            lemma_readable_run_facts(self.buffer@);
        }
        let ghost w = self.buffer@;
        let mut n: usize = 0;
        let limit: usize = if buf.len() < self.buffer.len() {
            buf.len()
        } else {
            self.buffer.len()
        };
        let mut stopped_at_hole: bool = false;
        while n < limit && !stopped_at_hole
            invariant
                n <= limit,
                limit == vstd::math::min(buf@.len() as int, w.len() as int),
                w == self.buffer@,
                buf@.len() == old(buf)@.len(),
                !stopped_at_hole ==> forall|i: int| 0 <= i < n ==> (#[trigger] w[i]) is Some,
                !stopped_at_hole ==> forall|i: int|
                    0 <= i < n ==> (#[trigger] buf@[i]) == w[i].unwrap(),
                stopped_at_hole ==> (w[n as int] is None && forall|i: int|
                    0 <= i < n ==> (#[trigger] w[i]) is Some) && n < w.len() && forall|i: int|
                    0 <= i < n ==> (#[trigger] buf@[i]) == w[i].unwrap(),
                forall|i: int| n <= i < buf@.len() ==> (#[trigger] buf@[i]) == old(buf)@[i],
            decreases limit - n + (if stopped_at_hole {
                0int
            } else {
                1int
            }),
        {
            match self.buffer[n] {
                Some(b) => {
                    buf.set(n, b);
                    n = n + 1;
                },
                None => {
                    stopped_at_hole = true;
                },
            }
        }
        proof {
            if stopped_at_hole {
                lemma_readable_run_is(w, n as int);
            } else if n < w.len() {
                lemma_readable_run_at_least(w, n as int);
            } else {
                lemma_readable_run_is(w, w.len() as int);
            }
        }
        let mut nb: Vec<Option<u8>> = Vec::new();
        let mut j: usize = n;
        while j < self.buffer.len()
            invariant
                n <= j <= self.buffer@.len(),
                w == self.buffer@,
                nb@ == w.subrange(n as int, j as int),
            decreases self.buffer@.len() - j,
        {
            proof {
                assert(w.subrange(n as int, j + 1) =~= w.subrange(n as int, j as int).push(
                    w[j as int],
                ));
            }
            nb.push(self.buffer[j]);
            j = j + 1;
        }
        self.buffer = nb;
        self.next_index = self.next_index + (n as u64);
        proof {
            assert(self.buffer@ =~= w.skip(n as int));
        }
        n
    }

    /// At least one byte can be pulled.
    pub fn is_readable(&self) -> (r: bool)
        ensures
            r == (readable_run(self.window()) > 0),
    {
        proof {
            lemma_readable_run_facts(self.window());
            if self.window().len() > 0 && self.window()[0] is Some {
                assert(readable_run(self.window()) > 0);
            }
        }
        self.buffer.len() > 0 && self.buffer[0].is_some()
    }

    /// No byte is stored anywhere in the window.
    pub fn is_empty(&self) -> (r: bool)
        ensures
            r == (forall|i: int| 0 <= i < self.window().len() ==> !((#[trigger] self.window()[i]) is Some)),
    {
        let mut i: usize = 0;
        while i < self.buffer.len()
            invariant
                i <= self.window().len(),
                forall|j: int| 0 <= j < i ==> !((#[trigger] self.window()[j]) is Some),
            decreases self.window().len() - i,
        {
            if self.buffer[i].is_some() {
                return false;
            }
            i = i + 1;
        }
        true
    }

    /// The highest absolute offset a write may touch.
    pub fn maximum_accepted_offset(&self) -> (r: u64)
        requires
            self.wf(),
        ensures
            r == self.next() + self.cap() - 1,
    {
        self.next_index + (self.capacity as u64) - 1
    }
}

} // verus!
