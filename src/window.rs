//! The monotone window shared by both queues: a deque of entries whose hashes
//! never decrease from front to back, each entry tagged with the cyclic slot it
//! was inserted in.
use std::collections::VecDeque;
use strength_reduce::StrengthReducedU16;
use vstd::prelude::*;

use crate::reduce::{divisor_of, new_reducer, reduced_divisor, rem_reduced};

verus! {

/// The hashes of a sequence of `(payload, hash)` pairs.
pub open spec fn hashes_of<V>(s: Seq<(V, u64)>) -> Seq<u64> {
    s.map_values(|e: (V, u64)| e.1)
}

/// `hs[i]` is a smallest value of `hs`.
pub open spec fn is_min_at(hs: Seq<u64>, i: int) -> bool {
    &&& 0 <= i < hs.len()
    &&& forall|j: int| 0 <= j < hs.len() ==> hs[i] <= #[trigger] hs[j]
}

/// `hs[i]` is the first smallest value of `hs`.
pub open spec fn is_leftmost_min_at(hs: Seq<u64>, i: int) -> bool {
    &&& is_min_at(hs, i)
    &&& forall|j: int| 0 <= j < i ==> hs[i] < #[trigger] hs[j]
}

/// Distance from position `p` to the nearer edge of a window of `width` positions.
pub open spec fn centrality(width: int, p: int) -> int {
    if p <= width - 1 - p {
        p
    } else {
        width - 1 - p
    }
}

/// Values of a sequence never decrease.
pub open spec fn non_decreasing(hs: Seq<u64>) -> bool {
    forall|a: int, b: int| 0 <= a < b < hs.len() ==> hs[a] <= hs[b]
}

/// The slot that an element `rel` positions from the left edge of the window
/// occupies, when `pos` is the slot of the next insertion.
spec fn slot_at(rel: int, pos: int, width: int) -> int {
    if rel + pos < width {
        rel + pos
    } else {
        rel + pos - width
    }
}

/// Sliding-window minimum over a stream of `(payload, hash)` pairs.
///
/// The model is the history of insertions since creation (or the last
/// `clear`) and the width `W`; the window is the last `min(n, W)` of them.
/// Positions run from `0` (the oldest element of a full window) to `W - 1`
/// (the newest); while the window fills, the elements sit at the right end.
pub struct MonotoneWindow<V> {
    deq: VecDeque<(V, u64, u16)>,
    width: StrengthReducedU16,
    pos: u16,
    hist: Ghost<Seq<(V, u64)>>,
    idx: Ghost<Seq<int>>,
}

impl<V: Copy> MonotoneWindow<V> {
    /// The width `W` of the window.
    pub closed spec fn width_spec(self) -> int {
        reduced_divisor(self.width) as int
    }

    /// Every `(payload, hash)` pair inserted so far, oldest first.
    pub closed spec fn history(self) -> Seq<(V, u64)> {
        self.hist@
    }

    /// The hashes held in the monotone buffer, front to back.
    pub closed spec fn buffer_hashes(self) -> Seq<u64> {
        self.deq@.map_values(|e: (V, u64, u16)| e.1)
    }

    /// The buffer's entries as `(payload, hash, slot)`, front to back.
    pub closed spec fn buffer(self) -> Seq<(V, u64, u16)> {
        self.deq@
    }

    /// The slot that the next insertion occupies.
    pub closed spec fn next_slot(self) -> int {
        self.pos as int
    }

    /// The position in the window of the element inserted in slot `s`.
    pub open spec fn position_of_slot(self, s: int) -> int {
        if s >= self.next_slot() {
            s - self.next_slot()
        } else {
            s + self.width_spec() - self.next_slot()
        }
    }

    /// No later element of the window has a smaller hash than the one at `p`.
    pub open spec fn is_suffix_min_position(self, p: int) -> bool {
        &&& self.offset() <= p < self.width_spec()
        &&& forall|q: int|
            p < q < self.width_spec() ==> self.at_position(p).1 <= #[trigger] self.at_position(q).1
    }

    /// The buffer holds exactly the elements of the window whose hash is at
    /// most that of every later element, oldest first, each with the slot it
    /// was inserted in; its front is the oldest element of minimal hash.
    pub open spec fn buffer_is_suffix_minima(self) -> bool {
        let b = self.buffer();
        &&& 0 < self.width_spec() <= u16::MAX
        &&& 0 <= self.next_slot() < self.width_spec()
        &&& b.len() <= self.width_spec()
        &&& forall|j: int|
            0 <= j < b.len() ==> self.is_suffix_min_position(
                self.position_of_slot((#[trigger] b[j]).2 as int),
            ) && (b[j].0, b[j].1) == self.at_position(self.position_of_slot(b[j].2 as int))
        &&& forall|j: int, l: int|
            0 <= j < l < b.len() ==> self.position_of_slot(b[j].2 as int) < self.position_of_slot(
                b[l].2 as int,
            )
        &&& forall|p: int| #[trigger]
            self.is_suffix_min_position(p) ==> exists|j: int|
                0 <= j < b.len() && self.position_of_slot((#[trigger] b[j]).2 as int) == p
        &&& (self.history().len() > 0) == (b.len() > 0)
        &&& b.len() > 0 ==> self.is_leftmost_min_position(self.position_of_slot(b[0].2 as int))
    }

    /// Where the window begins in the history.
    pub open spec fn window_start(self) -> int {
        let n = self.history().len() as int;
        if n >= self.width_spec() {
            n - self.width_spec()
        } else {
            0
        }
    }

    /// The last `min(n, W)` inserted pairs, oldest first.
    pub open spec fn window(self) -> Seq<(V, u64)> {
        self.history().subrange(self.window_start(), self.history().len() as int)
    }

    /// The hashes of the window, oldest first.
    pub open spec fn window_hashes(self) -> Seq<u64> {
        hashes_of(self.window())
    }

    /// The position of the oldest element of the window.
    pub open spec fn offset(self) -> int {
        self.width_spec() - self.window().len()
    }

    /// The pair at position `p` of the window.
    pub open spec fn at_position(self, p: int) -> (V, u64) {
        self.window()[p - self.offset()]
    }

    /// Position `p` holds an element of the window of minimal hash.
    pub open spec fn is_min_position(self, p: int) -> bool {
        self.offset() <= p && is_min_at(self.window_hashes(), p - self.offset())
    }

    /// Position `p` holds an element of minimal hash that is nearest to the
    /// middle of the window, and no older one is as near.
    pub open spec fn is_inner_min_position(self, p: int) -> bool {
        let w = self.width_spec();
        &&& self.is_min_position(p)
        &&& forall|q: int| #[trigger]
            self.is_min_position(q) ==> centrality(w, q) <= centrality(w, p)
        &&& forall|q: int| #[trigger]
            self.is_min_position(q) && q < p ==> centrality(w, q) < centrality(w, p)
    }

    /// Position `p` holds the oldest element of minimal hash.
    pub open spec fn is_leftmost_min_position(self, p: int) -> bool {
        self.offset() <= p && is_leftmost_min_at(self.window_hashes(), p - self.offset())
    }

    /// The width is positive, the next slot lies below it, and the buffer
    /// keeps the monotone invariant against the history.
    pub closed spec fn wf(self) -> bool {
        &&& self.width_spec() > 0
        &&& self.pos < self.width_spec()
        &&& monotone(
            self.deq@,
            self.idx@,
            self.hist@,
            self.pos as int,
            self.width_spec(),
            self.window_start(),
        )
    }

    /// An empty window of the given width.
    pub fn new(width: u16) -> (r: Self)
        requires
            width > 0,
        ensures
            r.wf(),
            r.width_spec() == width,
            r.history() == Seq::<(V, u64)>::empty(),
            r.next_slot() == 0,
            r.buffer_is_suffix_minima(),
    {
        let r = MonotoneWindow {
            deq: VecDeque::with_capacity(width as usize),
            width: new_reducer(width),
            pos: 0,
            hist: Ghost(Seq::empty()),
            idx: Ghost(Seq::empty()),
        };
        proof {
            r.lemma_buffer_shape();
        }
        r
    }

    /// Appends `(x, hash)` to the stream: drops the front entry if it leaves the
    /// window, drops the trailing entries of larger hash, and pushes the new one.
    pub fn insert_with_hash(&mut self, x: V, hash: u64)
        requires
            old(self).wf(),
        ensures
            final(self).wf(),
            final(self).width_spec() == old(self).width_spec(),
            final(self).history() == old(self).history().push((x, hash)),
            non_decreasing(final(self).buffer_hashes()),
            final(self).buffer_hashes().len() <= final(self).width_spec(),
            final(self).buffer_is_suffix_minima(),
            final(self).buffer().last().0 == x,
            final(self).buffer().last().1 == hash,
            final(self).buffer().last().2 as int == old(self).next_slot(),
            final(self).next_slot() == (old(self).next_slot() + 1) % old(self).width_spec(),
    {
        let ghost w = self.width_spec();
        let ghost n = self.hist@.len() as int;
        let ghost start1 = if n + 1 >= w { n + 1 - w } else { 0 };
        let ghost old_pos = self.pos as int;
        // The entry in the current slot was inserted W steps ago: it leaves.
        if self.deq.len() > 0 && self.deq[0].2 == self.pos {
            proof {
                lemma_evict(self.deq@, self.idx@, self.hist@, old_pos, w);
            }
            self.deq.pop_front();
            proof {
                self.idx@ = self.idx@.drop_first();
            }
        } else {
            proof {
                lemma_keep(self.deq@, self.idx@, self.hist@, old_pos, w);
            }
        }
        let mut i: usize = self.deq.len();
        while i > 0 && hash < self.deq[i - 1].1
            invariant
                i <= self.deq@.len(),
                forall|j: int| i <= j < self.deq@.len() ==> hash < #[trigger] self.deq@[j].1,
            decreases i,
        {
            i -= 1;
        }
        let ghost mid_deq = self.deq@;
        let ghost mid_idx = self.idx@;
        self.deq.truncate(i);
        self.deq.push_back((x, hash, self.pos));
        self.pos = rem_reduced(self.pos + 1, self.width);
        proof {
            if old_pos + 1 < w {
                vstd::arithmetic::div_mod::lemma_small_mod((old_pos + 1) as nat, w as nat);
            } else {
                vstd::arithmetic::div_mod::lemma_mod_self_0(w);
            }
            lemma_push(mid_deq, mid_idx, self.hist@, old_pos, w, start1, i as int, x, hash);
            assert(self.deq@ =~= mid_deq.subrange(0, i as int).push((x, hash, old_pos as u16)));
            self.idx@ = mid_idx.subrange(0, i as int).push(n);
            self.hist@ = self.hist@.push((x, hash));
            assert(self.window_start() == start1);
            assert forall|a: int, b: int|
                0 <= a < b < self.deq@.len() implies self.buffer_hashes()[a]
                <= self.buffer_hashes()[b] by {}
            self.lemma_buffer_shape();
        }
    }

    /// Position of the `j`-th buffer entry.
    spec fn entry_position(self, j: int) -> int {
        self.idx@[j] + self.width_spec() - self.hist@.len()
    }

    /// The `j`-th buffer entry shares the hash of the front entry.
    spec fn is_tie_entry(self, j: int) -> bool {
        0 <= j < self.deq@.len() && self.deq@[j].1 == self.deq@[0].1
    }

    /// The front entry is the oldest element of minimal hash; the elements of
    /// minimal hash are exactly the entries tied with the front.
    proof fn lemma_minima(self)
        requires
            self.wf(),
            self.hist@.len() > 0,
        ensures
            self.deq@.len() > 0,
            self.is_leftmost_min_position(self.entry_position(0)),
            forall|j: int| 0 <= j < self.deq@.len() ==> self.offset() <= #[trigger] self.entry_position(j)
                < self.width_spec(),
            forall|j: int| #[trigger]
                self.is_tie_entry(j) ==> self.is_min_position(self.entry_position(j))
                    && self.at_position(self.entry_position(j)) == (self.deq@[j].0, self.deq@[j].1),
            forall|q: int|
                #[trigger] self.is_min_position(q) ==> exists|j: int| #[trigger]
                    self.is_tie_entry(j) && self.entry_position(j) == q,
            forall|j: int, l: int|
                0 <= j < l < self.deq@.len() ==> self.entry_position(j) < self.entry_position(l),
    {
        let n = self.hist@.len() as int;
        let w = self.width_spec();
        let start = self.window_start();
        let k = self.deq@.len() as int;
        let idx = self.idx@;
        let deq = self.deq@;
        let wh = self.window_hashes();
        let h0 = deq[0].1;
        assert(k > 0);
        assert forall|t: int| 0 <= t < wh.len() implies wh[t] == self.hist@[start + t].1 by {}
        // Every element of the window has a hash at least that of the front,
        // strictly more before the front, and equal only at a tied entry.
        assert forall|a: int| start <= a < n implies h0 <= (#[trigger] self.hist@[a]).1
            && (a < idx[0] ==> h0 < self.hist@[a].1)
            && (self.hist@[a].1 == h0 ==> exists|j: int| #[trigger]
                self.is_tie_entry(j) && idx[j] == a) by {
            assert(idx.last() == n - 1);
            let t = lemma_first_covering(idx, start, a);
            assert(deq[0].1 <= deq[t].1 || t == 0);
            if a < idx[t] {
                assert(deq[t].1 < self.hist@[a].1);
            } else {
                assert(deq[t].1 == self.hist@[idx[t]].1);
                if self.hist@[a].1 == h0 {
                    assert(self.is_tie_entry(t));
                }
            }
        }
        assert forall|j: int| 0 <= j < k implies self.offset() <= #[trigger] self.entry_position(j)
            < w by {}
        assert(deq[0].1 == self.hist@[idx[0]].1);
        assert(wh[idx[0] - start] == h0);
        assert forall|j: int| #[trigger]
            self.is_tie_entry(j) implies self.is_min_position(self.entry_position(j))
                && self.at_position(self.entry_position(j)) == (deq[j].0, deq[j].1) by {
            assert(deq[j].1 == self.hist@[idx[j]].1);
            assert(self.window()[idx[j] - start] == self.hist@[idx[j]]);
            assert forall|t: int| 0 <= t < wh.len() implies wh[idx[j] - start] <= #[trigger] wh[t] by {
                assert(h0 <= self.hist@[start + t].1);
            }
        }
        assert forall|q: int| #[trigger] self.is_min_position(q) implies exists|j: int| #[trigger]
            self.is_tie_entry(j) && self.entry_position(j) == q by {
            let a = q - self.offset() + start;
            assert(wh[q - self.offset()] <= wh[idx[0] - start]);
            assert(self.hist@[a].1 == h0);
            let j = choose|j: int| #[trigger] self.is_tie_entry(j) && idx[j] == a;
            assert(self.entry_position(j) == q);
        }
        assert(self.is_min_position(self.entry_position(0)));
        assert forall|t: int| 0 <= t < idx[0] - start implies wh[idx[0] - start] < #[trigger] wh[t] by {
            assert(h0 < self.hist@[start + t].1);
        }
    }

    /// What the invariant says of the buffer, in terms of the window.
    pub proof fn lemma_buffer_shape(self)
        requires
            self.wf(),
        ensures
            self.buffer_is_suffix_minima(),
    {
        let n = self.hist@.len() as int;
        let w = self.width_spec();
        let start = self.window_start();
        let k = self.deq@.len() as int;
        let idx = self.idx@;
        let deq = self.deq@;
        let off = self.offset();
        assert(self.window().len() == n - start);
        if k > 0 {
            assert(start <= idx[0] <= n - k);
        }
        assert forall|q: int| off <= q < w implies #[trigger] self.at_position(q) == self.hist@[q + n
            - w] by {}
        assert forall|j: int| 0 <= j < k implies self.position_of_slot(
            (#[trigger] deq[j]).2 as int,
        ) == self.entry_position(j) by {}
        assert forall|j: int| 0 <= j < k implies self.is_suffix_min_position(
            self.entry_position(j),
        ) && (deq[j].0, deq[j].1) == self.at_position(self.entry_position(j)) by {
            let ep = self.entry_position(j);
            assert forall|q: int| ep < q < w implies self.at_position(ep).1
                <= #[trigger] self.at_position(q).1 by {
                let b = q + n - w;
                assert(idx.last() == n - 1);
                let t = lemma_first_covering(idx, start, b);
                if t <= j {
                    assert(idx[t] <= idx[j]);
                }
                assert(deq[j].1 <= deq[t].1);
                if b < idx[t] {
                    assert(deq[t].1 < self.hist@[b].1);
                } else {
                    assert(deq[t].1 == self.hist@[idx[t]].1);
                }
            }
        }
        assert forall|p: int| #[trigger] self.is_suffix_min_position(p) implies exists|j: int|
            0 <= j < k && self.position_of_slot((#[trigger] deq[j]).2 as int) == p by {
            let b = p + n - w;
            assert(k > 0);
            assert(idx.last() == n - 1);
            let t = lemma_first_covering(idx, start, b);
            if b < idx[t] {
                assert(deq[t].1 < self.hist@[b].1);
                assert(deq[t].1 == self.hist@[idx[t]].1);
                assert(self.at_position(self.entry_position(t)).1 < self.at_position(p).1);
            }
            assert(self.position_of_slot(deq[t].2 as int) == p);
        }
        assert forall|j: int, l: int| 0 <= j < l < k implies self.position_of_slot(
            (#[trigger] deq[j]).2 as int,
        ) < self.position_of_slot((#[trigger] deq[l]).2 as int) by {
            assert(idx[j] < idx[l]);
        }
        if n > 0 {
            self.lemma_minima();
            assert(self.position_of_slot(deq[0].2 as int) == self.entry_position(0));
        }
        assert(k <= w);
        assert((n > 0) == (k > 0));
        let b = self.buffer();
        assert(b == deq);
        assert(0 < self.width_spec() <= u16::MAX);
        assert(0 <= self.next_slot() < self.width_spec());
        assert(forall|j: int|
            0 <= j < b.len() ==> self.is_suffix_min_position(
                self.position_of_slot((#[trigger] b[j]).2 as int),
            ) && (b[j].0, b[j].1) == self.at_position(self.position_of_slot(b[j].2 as int)));
        assert(forall|p: int| #[trigger]
            self.is_suffix_min_position(p) ==> exists|j: int|
                0 <= j < b.len() && self.position_of_slot((#[trigger] b[j]).2 as int) == p);
        assert(b.len() > 0 ==> self.is_leftmost_min_position(self.position_of_slot(b[0].2 as int)));
    }

    /// Position of the front entry, from the slot it was inserted in.
    fn relative_position(&self, slot: u16, Ghost(rel): Ghost<int>) -> (r: u16)
        requires
            self.wf(),
            0 <= rel < self.width_spec(),
            slot == slot_at(rel, self.pos as int, self.width_spec()),
        ensures
            r == rel,
    {
        if slot >= self.pos {
            slot - self.pos
        } else {
            let w = divisor_of(&self.width);
            slot + (w - self.pos)
        }
    }

    /// The width `W`.
    pub fn width(&self) -> (r: usize)
        ensures
            r == self.width_spec(),
            0 < r <= u16::MAX,
    {
        divisor_of(&self.width) as usize
    }

    /// Whether nothing was inserted since creation or the last `clear`.
    pub fn is_empty(&self) -> (r: bool)
        requires
            self.wf(),
        ensures
            r == (self.history().len() == 0),
    {
        proof {
            if self.hist@.len() > 0 {
                self.lemma_minima();
            }
        }
        self.deq.len() == 0
    }

    /// Whether two positions of the window hold elements of minimal hash.
    pub fn multiple_mins(&self) -> (r: bool)
        requires
            self.wf(),
        ensures
            r == exists|p: int, q: int|
                p != q && #[trigger] self.is_min_position(p) && #[trigger] self.is_min_position(q),
    {
        proof {
            if self.hist@.len() > 0 {
                self.lemma_minima();
                if self.deq@.len() >= 2 && self.deq@[0].1 == self.deq@[1].1 {
                    assert(self.is_tie_entry(0) && self.is_tie_entry(1));
                    assert(self.is_min_position(self.entry_position(0)));
                    assert(self.is_min_position(self.entry_position(1)));
                }
                if exists|p: int, q: int|
                    p != q && #[trigger] self.is_min_position(p) && #[trigger] self.is_min_position(q) {
                    let (p, q) = choose|p: int, q: int|
                        p != q && #[trigger] self.is_min_position(p) && #[trigger] self.is_min_position(q);
                    let jp = choose|j: int| #[trigger] self.is_tie_entry(j) && self.entry_position(j) == p;
                    let jq = choose|j: int| #[trigger] self.is_tie_entry(j) && self.entry_position(j) == q;
                    let j = if jp > 0 { jp } else { jq };
                    assert(j >= 1);
                    assert(self.deq@[1].1 <= self.deq@[j].1 || j == 1);
                }
            } else {
                assert(self.offset() == self.width_spec());
            }
        }
        self.deq.len() >= 2 && self.deq[0].1 == self.deq[1].1
    }

    /// The payload of the oldest element of minimal hash, and its position.
    pub fn get_min_pos(&self) -> (r: (V, usize))
        requires
            self.wf(),
            self.history().len() > 0,
        ensures
            self.is_leftmost_min_position(r.1 as int),
            r.1 < self.width_spec(),
            r.0 == self.at_position(r.1 as int).0,
    {
        proof {
            self.lemma_minima();
            assert(self.is_tie_entry(0));
        }
        let e = self.deq[0];
        let p = self.relative_position(e.2, Ghost(self.entry_position(0)));
        (e.0, p as usize)
    }

    /// The payload of the oldest element of minimal hash.
    pub fn get_min(&self) -> (r: V)
        requires
            self.wf(),
            self.history().len() > 0,
        ensures
            exists|p: int| #[trigger]
                self.is_leftmost_min_position(p) && r == self.at_position(p).0,
    {
        proof {
            self.lemma_minima();
            assert(self.is_tie_entry(0));
        }
        self.deq[0].0
    }

    /// The element of minimal hash nearest to the middle of the window, the
    /// oldest such if two are equally near, and then the other one as well.
    pub fn get_inner_min_pos(&self) -> (r: (V, usize, Option<(V, usize)>))
        requires
            self.wf(),
            self.history().len() > 0,
        ensures
            self.is_inner_min_position(r.1 as int),
            r.1 < self.width_spec(),
            r.0 == self.at_position(r.1 as int).0,
            r.2.is_some() == exists|q: int| #[trigger]
                self.is_min_position(q) && q != r.1 && centrality(self.width_spec(), q)
                    == centrality(self.width_spec(), r.1 as int),
            r.2 matches Some((y, q)) ==> {
                &&& q == self.width_spec() - 1 - r.1
                &&& r.1 < q
                &&& self.is_min_position(q as int)
                &&& y == self.at_position(q as int).0
            },
    {
        proof {
            self.lemma_minima();
            assert(self.is_tie_entry(0));
        }
        let ghost w = self.width_spec();
        let ghost k = self.deq@.len() as int;
        let width = divisor_of(&self.width);
        let front = self.deq[0];
        let hash = front.1;
        let mut x = front.0;
        let mut x_pos = self.relative_position(front.2, Ghost(self.entry_position(0)));
        let mut i: usize = 1;
        while i < self.deq.len() && self.deq[i].1 == hash
            invariant
                self.wf(),
                self.hist@.len() > 0,
                width == w,
                w == self.width_spec(),
                hash == self.deq@[0].1,
                k == self.deq@.len(),
                1 <= i <= k,
                forall|j: int| 0 <= j < i ==> #[trigger] self.is_tie_entry(j),
                x == self.deq@[i - 1].0,
                x_pos == self.entry_position(i - 1),
                forall|j: int| 0 <= j < i - 1 ==> #[trigger] self.entry_position(j)
                    + self.entry_position(i - 1) < w - 1,
                forall|j: int| 0 <= j < k ==> self.offset() <= #[trigger] self.entry_position(j) < w,
                forall|j: int, l: int| 0 <= j < l < k ==> self.entry_position(j) < self.entry_position(l),
            decreases k - i,
        {
            let e = self.deq[i];
            let y_pos = self.relative_position(e.2, Ghost(self.entry_position(i as int)));
            proof {
                assert(self.is_tie_entry(i as int));
            }
            if x_pos < width - 1 - y_pos {
                x = e.0;
                x_pos = y_pos;
            } else if x_pos == width - 1 - y_pos {
                proof {
                    let b = i as int - 1;
                    self.lemma_inner_choice(b, true);
                }
                return (x, x_pos as usize, Some((e.0, y_pos as usize)));
            } else {
                proof {
                    self.lemma_inner_choice(i as int - 1, false);
                }
                return (x, x_pos as usize, None);
            }
            i += 1;
        }
        proof {
            if (i as int) < k {
                assert(self.deq@[i as int].1 != hash);
            }
            self.lemma_inner_choice(i as int - 1, false);
        }
        (x, x_pos as usize, None)
    }

    /// The choice made by `get_inner_min_pos` when it stops at tie entry `b`:
    /// the entries before `b` are nearer to the left edge than `b` is to the
    /// right one, and those after `b` (except `b + 1` when `paired`) are
    /// nearer to the right edge than `b` is to the left one.
    proof fn lemma_inner_choice(self, b: int, paired: bool)
        requires
            self.wf(),
            self.hist@.len() > 0,
            0 <= b < self.deq@.len(),
            forall|j: int| 0 <= j <= b ==> #[trigger] self.is_tie_entry(j),
            forall|j: int| 0 <= j < b ==> #[trigger] self.entry_position(j)
                + self.entry_position(b) < self.width_spec() - 1,
            paired ==> b + 1 < self.deq@.len() && self.is_tie_entry(b + 1)
                && self.entry_position(b) + self.entry_position(b + 1) == self.width_spec() - 1,
            !paired ==> b + 1 == self.deq@.len() || !self.is_tie_entry(b + 1)
                || self.entry_position(b) + self.entry_position(b + 1) > self.width_spec() - 1,
        ensures
            ({
                let w = self.width_spec();
                let p = self.entry_position(b);
                &&& self.is_min_position(p)
                &&& self.at_position(p).0 == self.deq@[b].0
                &&& forall|q: int| #[trigger] self.is_min_position(q) ==> centrality(w, q) <= centrality(w, p)
                &&& forall|q: int| #[trigger] self.is_min_position(q) && q < p ==> centrality(w, q) < centrality(w, p)
                &&& paired == exists|q: int| #[trigger]
                    self.is_min_position(q) && q != p && centrality(w, q) == centrality(w, p)
                &&& paired ==> self.is_min_position(self.entry_position(b + 1))
                    && self.at_position(self.entry_position(b + 1)).0 == self.deq@[b + 1].0
                    && p < self.entry_position(b + 1)
            }),
    {
        self.lemma_minima();
        let w = self.width_spec();
        let p = self.entry_position(b);
        let k = self.deq@.len() as int;
        assert(self.is_tie_entry(b));
        // Tie entries form a prefix of the buffer.
        assert forall|j: int| #[trigger] self.is_tie_entry(j) && j > b implies self.is_tie_entry(b + 1) by {
            if !self.is_tie_entry(b + 1) {
                assert(self.deq@[b + 1].1 <= self.deq@[j].1 || j == b + 1);
                assert(self.deq@[0].1 <= self.deq@[b + 1].1);
            }
        }
        assert forall|q: int| #[trigger] self.is_min_position(q) implies centrality(w, q) <= centrality(w, p)
            && (q < p ==> centrality(w, q) < centrality(w, p))
            && (q != p && centrality(w, q) == centrality(w, p) ==> paired && q == self.entry_position(b + 1)) by {
            let j = choose|j: int| #[trigger] self.is_tie_entry(j) && self.entry_position(j) == q;
            if j < b {
                assert(self.entry_position(j) < p);
            } else if j > b {
                assert(self.is_tie_entry(b + 1));
                assert(self.entry_position(b + 1) <= q);
            }
        }
        if paired {
            assert(self.is_tie_entry(b + 1));
            assert(self.is_min_position(self.entry_position(b + 1)));
        }
    }

    /// Forgets every insertion; the next one starts a fresh window.
    pub fn clear(&mut self)
        requires
            old(self).wf(),
        ensures
            final(self).wf(),
            final(self).width_spec() == old(self).width_spec(),
            final(self).history() == Seq::<(V, u64)>::empty(),
            final(self).next_slot() == 0,
            final(self).buffer_is_suffix_minima(),
    {
        self.deq.clear();
        self.pos = 0;
        proof {
            self.hist@ = Seq::empty();
            self.idx@ = Seq::empty();
            self.lemma_buffer_shape();
        }
    }
}

/// The invariant of the buffer `deq`, with `idx` the place in `hist` of each
/// entry, `pos` the slot of the next insertion and `start` the place in `hist`
/// where the window begins.
pub closed spec fn monotone<V>(
    deq: Seq<(V, u64, u16)>,
    idx: Seq<int>,
    hist: Seq<(V, u64)>,
    pos: int,
    w: int,
    start: int,
) -> bool {
    let n = hist.len() as int;
    let k = deq.len() as int;
    &&& idx.len() == k
    &&& 0 <= start
    &&& forall|j: int| 0 <= j < k ==> start <= #[trigger] idx[j] <= n - k + j
    &&& forall|j: int, l: int| 0 <= j < l < k ==> idx[j] < idx[l]
    &&& forall|j: int|
        0 <= j < k ==> (#[trigger] deq[j]).0 == hist[idx[j]].0 && deq[j].1 == hist[idx[j]].1
            && deq[j].2 == slot_at(idx[j] + w - n, pos, w)
    &&& forall|j: int, l: int| 0 <= j < l < k ==> deq[j].1 <= deq[l].1
    &&& k > 0 ==> idx[k - 1] == n - 1
    &&& n > start ==> k > 0
    &&& forall|j: int, i: int|
        0 <= j < k && (if j == 0 {
            start
        } else {
            idx[j - 1] + 1
        }) <= i < idx[j] ==> (#[trigger] deq[j]).1 < (#[trigger] hist[i]).1
}

spec fn window_start_of(n: int, w: int) -> int {
    if n >= w {
        n - w
    } else {
        0
    }
}

/// The front entry sits in the slot of the next insertion: it is the oldest
/// element of a full window, and dropping it leaves the invariant of the
/// window that the next insertion makes.
proof fn lemma_evict<V>(deq: Seq<(V, u64, u16)>, idx: Seq<int>, hist: Seq<(V, u64)>, pos: int, w: int)
    requires
        0 <= pos < w,
        monotone(deq, idx, hist, pos, w, window_start_of(hist.len() as int, w)),
        deq.len() > 0,
        deq[0].2 == pos,
    ensures
        monotone(
            deq.drop_first(),
            idx.drop_first(),
            hist,
            pos,
            w,
            window_start_of(hist.len() as int + 1, w),
        ),
{
    let n = hist.len() as int;
    let d = deq.drop_first();
    let ix = idx.drop_first();
    let s1 = window_start_of(n + 1, w);
    assert(idx[0] == n - w);
    assert forall|j: int| 0 <= j < d.len() implies s1 <= #[trigger] ix[j] <= n - d.len() + j by {
        assert(idx[0] < idx[j + 1]);
    }
    assert forall|j: int| 0 <= j < d.len() implies (#[trigger] d[j]).0 == hist[ix[j]].0
        && d[j].1 == hist[ix[j]].1 && d[j].2 == slot_at(ix[j] + w - n, pos, w) by {
        assert(deq[j + 1] == d[j]);
    }
    assert forall|j: int, i: int|
        0 <= j < d.len() && (if j == 0 {
            s1
        } else {
            ix[j - 1] + 1
        }) <= i < ix[j] implies (#[trigger] d[j]).1 < (#[trigger] hist[i]).1 by {
        assert(deq[j + 1] == d[j]);
    }
    assert forall|j: int, l: int| 0 <= j < l < d.len() implies ix[j] < ix[l] && d[j].1
        <= d[l].1 by {
        assert(deq[j + 1] == d[j] && deq[l + 1] == d[l]);
    }
    if d.len() > 0 {
        assert(ix[d.len() - 1] == idx[deq.len() - 1]);
    }
}

/// The front entry stays in the window that the next insertion makes.
proof fn lemma_keep<V>(deq: Seq<(V, u64, u16)>, idx: Seq<int>, hist: Seq<(V, u64)>, pos: int, w: int)
    requires
        0 <= pos < w,
        monotone(deq, idx, hist, pos, w, window_start_of(hist.len() as int, w)),
        deq.len() == 0 || deq[0].2 != pos,
    ensures
        monotone(deq, idx, hist, pos, w, window_start_of(hist.len() as int + 1, w)),
{
    let n = hist.len() as int;
    let s1 = window_start_of(n + 1, w);
    if deq.len() > 0 {
        assert(idx[0] != n - w);
        assert forall|j: int| 0 <= j < deq.len() implies s1 <= #[trigger] idx[j] by {
            assert(idx[0] <= idx[j]);
        }
    }
}

/// Dropping the entries of hash above `hash` from `i` on and pushing the new
/// pair restores the invariant one insertion later.
proof fn lemma_push<V>(
    deq: Seq<(V, u64, u16)>,
    idx: Seq<int>,
    hist: Seq<(V, u64)>,
    pos: int,
    w: int,
    start: int,
    i: int,
    x: V,
    hash: u64,
)
    requires
        0 <= pos < w <= u16::MAX,
        start == window_start_of(hist.len() as int + 1, w),
        monotone(deq, idx, hist, pos, w, start),
        0 <= i <= deq.len(),
        forall|j: int| i <= j < deq.len() ==> hash < #[trigger] deq[j].1,
        i == 0 || deq[i - 1].1 <= hash,
    ensures
        monotone(
            deq.subrange(0, i).push((x, hash, pos as u16)),
            idx.subrange(0, i).push(hist.len() as int),
            hist.push((x, hash)),
            if pos + 1 < w {
                pos + 1
            } else {
                0
            },
            w,
            start,
        ),
{
    let n = hist.len() as int;
    let nd = deq.subrange(0, i).push((x, hash, pos as u16));
    let ni = idx.subrange(0, i).push(n);
    let nh = hist.push((x, hash));
    let np = if pos + 1 < w {
        pos + 1
    } else {
        0
    };
    let gs = if i == 0 {
        start
    } else {
        idx[i - 1] + 1
    };
    assert forall|j: int| 0 <= j < i implies nd[j] == deq[j] && ni[j] == idx[j] by {}
    assert forall|j: int| 0 <= j < i implies deq[j].1 <= hash by {
        assert(deq[j].1 <= deq[i - 1].1 || j == i - 1);
    }
    assert forall|q: int| 0 <= q < n implies nh[q] == hist[q] by {}
    assert forall|q: int| gs <= q < n implies hash < (#[trigger] hist[q]).1 by {
        let k = deq.len() as int;
        assert(k > 0 && idx[k - 1] == n - 1);
        assert(idx.last() == n - 1);
        let t = lemma_first_covering(idx, gs, q);
        if t < i {
            assert(idx[t] <= idx[i - 1]);
        }
        assert(t >= i);
        assert(hash < deq[t].1);
        if q < idx[t] {
            assert(deq[t].1 < hist[q].1);
        } else {
            assert(deq[t].1 == hist[idx[t]].1);
        }
    }
    assert forall|j: int| 0 <= j < nd.len() implies (#[trigger] nd[j]).0 == nh[ni[j]].0
        && nd[j].1 == nh[ni[j]].1 && nd[j].2 == slot_at(ni[j] + w - (n + 1), np, w) by {
        if j < i {
            assert(deq[j].2 == slot_at(idx[j] + w - n, pos, w));
            assert(idx[j] + w - n >= 1);
            assert(nh[idx[j]] == hist[idx[j]]);
        } else {
            assert(nd[j] == (x, hash, pos as u16));
            assert(ni[j] == n);
        }
    }
    assert forall|j: int, q: int|
        0 <= j < nd.len() && (if j == 0 {
            start
        } else {
            ni[j - 1] + 1
        }) <= q < ni[j] implies (#[trigger] nd[j]).1 < (#[trigger] nh[q]).1 by {
        if j == i {
            assert(hash < hist[q].1);
        }
    }
}

/// In a strictly increasing sequence whose last value is at least `q`, the
/// first value at least `q`: all earlier ones are below `q`.
proof fn lemma_first_covering(s: Seq<int>, lo: int, q: int) -> (t: int)
    requires
        s.len() > 0,
        lo <= q <= s.last(),
    ensures
        0 <= t < s.len(),
        q <= s[t],
        t > 0 ==> s[t - 1] < q,
    decreases s.len(),
{
    if s.len() == 1 || q > s[s.len() - 2] {
        (s.len() - 1) as int
    } else {
        lemma_first_covering(s.drop_last(), lo, q)
    }
}

} // verus!
