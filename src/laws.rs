//! Laws relating several calls on the queues.
use vstd::prelude::*;

use crate::window::{centrality, MonotoneWindow};

verus! {

/// The element that `get_min` returns is the one at the position that
/// `get_min_pos` reports.
pub proof fn lemma_min_pos_matches_min<V: Copy>(w: MonotoneWindow<V>, m: V, v: V, p: int)
    requires
        w.wf(),
        w.history().len() > 0,
        exists|p2: int| #[trigger] w.is_leftmost_min_position(p2) && m == w.at_position(p2).0,
        w.is_leftmost_min_position(p),
        p < w.width_spec(),
        v == w.at_position(p).0,
    ensures
        m == v,
{
    let p2 = choose|p2: int| #[trigger] w.is_leftmost_min_position(p2) && m == w.at_position(p2).0;
    lemma_leftmost_min_position_unique(w, p, p2);
}

/// At most one position holds the oldest element of minimal hash.
pub proof fn lemma_leftmost_min_position_unique<V: Copy>(w: MonotoneWindow<V>, p: int, q: int)
    requires
        w.is_leftmost_min_position(p),
        w.is_leftmost_min_position(q),
    ensures
        p == q,
{
    let hs = w.window_hashes();
    let o = w.offset();
    if p < q {
        assert(hs[q - o] < hs[p - o]);
    } else if q < p {
        assert(hs[p - o] < hs[q - o]);
    }
}

/// At most one position is the innermost minimal one in the sense of
/// `get_inner_min_pos`.
pub proof fn lemma_inner_min_position_unique<V: Copy>(w: MonotoneWindow<V>, p: int, q: int)
    requires
        w.is_inner_min_position(p),
        w.is_inner_min_position(q),
    ensures
        p == q,
{
    let width = w.width_spec();
    assert(centrality(width, q) <= centrality(width, p));
    assert(centrality(width, p) <= centrality(width, q));
}

/// Two windows of the same width fed the same pairs give the same answers:
/// the positions that `get_min_pos` and `get_inner_min_pos` may report, and
/// the elements there, are the same for both.
pub proof fn lemma_same_inputs_same_answers<V: Copy>(
    a: MonotoneWindow<V>,
    b: MonotoneWindow<V>,
    p: int,
    q: int,
)
    requires
        a.width_spec() == b.width_spec(),
        a.history() == b.history(),
    ensures
        a.is_leftmost_min_position(p) && b.is_leftmost_min_position(q) ==> p == q
            && a.at_position(p) == b.at_position(q),
        a.is_inner_min_position(p) && b.is_inner_min_position(q) ==> p == q
            && a.at_position(p) == b.at_position(q),
        a.is_min_position(p) == b.is_min_position(p),
{
    if a.is_leftmost_min_position(p) && b.is_leftmost_min_position(q) {
        lemma_leftmost_min_position_unique(a, p, q);
    }
    assert(a.window() == b.window());
    assert forall|x: int| a.is_min_position(x) == #[trigger] b.is_min_position(x) by {}
    if a.is_inner_min_position(p) && b.is_inner_min_position(q) {
        let w = a.width_spec();
        assert forall|x: int| #[trigger] a.is_min_position(x) implies centrality(w, x) <= centrality(w, q)
            && (x < q ==> centrality(w, x) < centrality(w, q)) by {
            assert(b.is_min_position(x));
        }
        assert(a.is_inner_min_position(q));
        lemma_inner_min_position_unique(a, p, q);
    }
}

/// A hash below every hash in the buffer leaves the new element alone in the
/// buffer: it is the minimum of the window, at position `W - 1`, and no other
/// position holds the minimum.
pub proof fn lemma_new_strict_minimum<V: Copy>(
    a: MonotoneWindow<V>,
    b: MonotoneWindow<V>,
    x: V,
    hash: u64,
)
    requires
        a.buffer_is_suffix_minima(),
        b.buffer_is_suffix_minima(),
        b.width_spec() == a.width_spec(),
        b.history() == a.history().push((x, hash)),
        forall|j: int| 0 <= j < a.buffer().len() ==> hash < #[trigger] a.buffer()[j].1,
    ensures
        b.buffer().len() == 1,
        b.position_of_slot(b.buffer()[0].2 as int) == b.width_spec() - 1,
        b.is_leftmost_min_position(b.width_spec() - 1),
        forall|q: int| #[trigger] b.is_min_position(q) ==> q == b.width_spec() - 1,
{
    let w = a.width_spec();
    let n = a.history().len() as int;
    assert(a.window().len() == n - a.window_start());
    assert(b.window().len() == n + 1 - b.window_start());
    assert forall|q: int| a.offset() <= q < w implies #[trigger] a.at_position(q) == a.history()[q
        + n - w] by {}
    assert forall|q: int| b.offset() <= q < w implies #[trigger] b.at_position(q) == b.history()[q
        + n + 1 - w] by {}
    // Every element of the window before the new one has a larger hash.
    assert forall|q: int| b.offset() <= q < w - 1 implies hash < (#[trigger] b.at_position(q)).1 by {
        assert(b.at_position(q) == a.at_position(q + 1));
        let f = a.position_of_slot(a.buffer()[0].2 as int);
        assert(a.buffer().len() > 0);
        assert(hash < a.buffer()[0].1);
        assert(a.at_position(f).1 == a.buffer()[0].1);
        let hs = a.window_hashes();
        assert(hs[f - a.offset()] <= hs[q + 1 - a.offset()]);
    }
    assert(b.at_position(w - 1) == (x, hash));
    assert(b.is_suffix_min_position(w - 1));
    assert forall|p: int| b.offset() <= p < w - 1 implies !b.is_suffix_min_position(p) by {
        assert(b.at_position(w - 1).1 < b.at_position(p).1);
    }
    let bb = b.buffer();
    assert forall|j: int| 0 <= j < bb.len() implies b.position_of_slot((#[trigger] bb[j]).2 as int)
        == w - 1 by {
        assert(b.is_suffix_min_position(b.position_of_slot(bb[j].2 as int)));
    }
    assert(bb.len() > 0);
    if bb.len() > 1 {
        assert(b.position_of_slot(bb[0].2 as int) < b.position_of_slot(bb[1].2 as int));
    }
    let hs = b.window_hashes();
    assert forall|q: int| #[trigger] b.is_min_position(q) implies q == w - 1 by {
        if q < w - 1 {
            assert(hs[q - b.offset()] <= hs[w - 1 - b.offset()]);
            assert(b.at_position(q).1 == hs[q - b.offset()]);
        }
    }
}

} // verus!
