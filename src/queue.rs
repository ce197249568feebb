//! The two public queues: one that reports the minimizing element itself, and
//! one that only reports where it stands in the window.
use core::hash::{BuildHasher, Hash};
use vstd::prelude::*;

use crate::hashing::{default_hasher, hash_one_with, DefaultHashBuilder};
use crate::window::{centrality, non_decreasing, MonotoneWindow};

verus! {

/// A monotone queue that computes consecutive minimizers in constant time.
pub struct MinimizerQueue<T, S = DefaultHashBuilder> {
    window: MonotoneWindow<T>,
    hash_builder: S,
}

impl<T: Hash + Copy> MinimizerQueue<T> {
    /// An empty queue of the given width, hashing with the default hasher
    /// seeded by the width.
    pub fn new(width: u16) -> (r: Self)
        requires
            width > 0,
        ensures
            r.wf(),
            r.model().width_spec() == width,
            r.model().history().len() == 0,
    {
        Self::with_seed(width, width as u64)
    }

    /// An empty queue of the given width, hashing with the default hasher
    /// built from `seed`.
    pub fn with_seed(width: u16, seed: u64) -> (r: Self)
        requires
            width > 0,
        ensures
            r.wf(),
            r.model().width_spec() == width,
            r.model().history().len() == 0,
    {
        Self::with_hasher(width, default_hasher(seed))
    }
}

impl<T: Hash + Copy, S: BuildHasher> MinimizerQueue<T, S> {
    /// The window of `(element, hash)` pairs behind the queue.
    pub closed spec fn model(self) -> MonotoneWindow<T> {
        self.window
    }

    /// The hasher that `insert` hashes with.
    pub closed spec fn hasher(self) -> S {
        self.hash_builder
    }

    pub open spec fn wf(self) -> bool {
        self.model().wf()
    }

    /// An empty queue of the given width, whose hashes come from `hash_builder`.
    pub fn with_hasher(width: u16, hash_builder: S) -> (r: Self)
        requires
            width > 0,
        ensures
            r.wf(),
            r.model().width_spec() == width,
            r.model().history().len() == 0,
            r.model().next_slot() == 0,
            r.model().buffer_is_suffix_minima(),
            r.hasher() == hash_builder,
    {
        MinimizerQueue { window: MonotoneWindow::new(width), hash_builder }
    }

    /// The width of the queue.
    pub fn width(&self) -> (r: usize)
        ensures
            r == self.model().width_spec(),
            0 < r <= u16::MAX,
    {
        self.window.width()
    }

    /// Whether nothing was inserted since creation or the last `clear`.
    pub fn is_empty(&self) -> (r: bool)
        requires
            self.wf(),
        ensures
            r == (self.model().history().len() == 0),
    {
        self.window.is_empty()
    }

    /// Whether the window holds several elements of minimal hash.
    pub fn multiple_mins(&self) -> (r: bool)
        requires
            self.wf(),
        ensures
            r == exists|p: int, q: int|
                p != q && #[trigger] self.model().is_min_position(p) && #[trigger] self.model().is_min_position(
                    q,
                ),
    {
        self.window.multiple_mins()
    }

    /// The oldest element of minimal hash in the window.
    pub fn get_min(&self) -> (r: T)
        requires
            self.wf(),
            self.model().history().len() > 0,
        ensures
            exists|p: int| #[trigger]
                self.model().is_leftmost_min_position(p) && r == self.model().at_position(p).0,
    {
        self.window.get_min()
    }

    /// The oldest element of minimal hash and its position in the window.
    pub fn get_min_pos(&self) -> (r: (T, usize))
        requires
            self.wf(),
            self.model().history().len() > 0,
        ensures
            self.model().is_leftmost_min_position(r.1 as int),
            r.1 < self.model().width_spec(),
            r.0 == self.model().at_position(r.1 as int).0,
    {
        self.window.get_min_pos()
    }

    /// The innermost element of minimal hash and its position, with the
    /// element opposite to it when both are equally near the middle.
    pub fn get_inner_min_pos(&self) -> (r: (T, usize, Option<(T, usize)>))
        requires
            self.wf(),
            self.model().history().len() > 0,
        ensures
            self.model().is_inner_min_position(r.1 as int),
            r.1 < self.model().width_spec(),
            r.0 == self.model().at_position(r.1 as int).0,
            r.2.is_some() == exists|q: int| #[trigger]
                self.model().is_min_position(q) && q != r.1 && centrality(self.model().width_spec(), q)
                    == centrality(self.model().width_spec(), r.1 as int),
            r.2 matches Some((y, q)) ==> {
                &&& q == self.model().width_spec() - 1 - r.1
                &&& r.1 < q
                &&& self.model().is_min_position(q as int)
                &&& y == self.model().at_position(q as int).0
            },
    {
        self.window.get_inner_min_pos()
    }

    /// Inserts `x`, hashed by the queue's hasher, and updates the minimizer.
    pub fn insert(&mut self, x: T)
        requires
            old(self).wf(),
        ensures
            final(self).wf(),
            final(self).model().width_spec() == old(self).model().width_spec(),
            exists|h: u64| #[trigger]
                old(self).model().history().push((x, h)) == final(self).model().history(),
            non_decreasing(final(self).model().buffer_hashes()),
            final(self).model().buffer_hashes().len() <= final(self).model().width_spec(),
            final(self).model().buffer_is_suffix_minima(),
            final(self).model().buffer().last().0 == x,
            final(self).model().buffer().last().1 == final(self).model().history().last().1,
            final(self).model().buffer().last().2 as int == old(self).model().next_slot(),
            final(self).model().next_slot() == (old(self).model().next_slot() + 1) % old(
                self,
            ).model().width_spec(),
            final(self).hasher() == old(self).hasher(),
    {
        let hash = hash_one_with(&self.hash_builder, &x);
        self.insert_with_hash(x, hash);
    }

    /// Inserts `x` with the given hash and updates the minimizer.
    pub fn insert_with_hash(&mut self, x: T, hash: u64)
        requires
            old(self).wf(),
        ensures
            final(self).wf(),
            final(self).model().width_spec() == old(self).model().width_spec(),
            final(self).model().history() == old(self).model().history().push((x, hash)),
            non_decreasing(final(self).model().buffer_hashes()),
            final(self).model().buffer_hashes().len() <= final(self).model().width_spec(),
            final(self).model().buffer_is_suffix_minima(),
            final(self).model().buffer().last().0 == x,
            final(self).model().buffer().last().1 == final(self).model().history().last().1,
            final(self).model().buffer().last().2 as int == old(self).model().next_slot(),
            final(self).model().next_slot() == (old(self).model().next_slot() + 1) % old(
                self,
            ).model().width_spec(),
            final(self).hasher() == old(self).hasher(),
    {
        self.window.insert_with_hash(x, hash);
    }

    /// Empties the queue; the next insertion starts a fresh window.
    pub fn clear(&mut self)
        requires
            old(self).wf(),
        ensures
            final(self).wf(),
            final(self).model().width_spec() == old(self).model().width_spec(),
            final(self).model().history().len() == 0,
            final(self).model().next_slot() == 0,
            final(self).model().buffer_is_suffix_minima(),
            final(self).hasher() == old(self).hasher(),
    {
        self.window.clear();
    }
}

/// A monotone queue that computes the positions of consecutive minimizers in
/// constant time, without keeping the elements.
pub struct ImplicitMinimizerQueue<S = DefaultHashBuilder> {
    window: MonotoneWindow<()>,
    hash_builder: S,
}

impl ImplicitMinimizerQueue {
    /// An empty queue of the given width, hashing with the default hasher
    /// seeded by the width.
    pub fn new(width: u16) -> (r: Self)
        requires
            width > 0,
        ensures
            r.wf(),
            r.model().width_spec() == width,
            r.model().history().len() == 0,
    {
        Self::with_seed(width, width as u64)
    }

    /// An empty queue of the given width, hashing with the default hasher
    /// built from `seed`.
    pub fn with_seed(width: u16, seed: u64) -> (r: Self)
        requires
            width > 0,
        ensures
            r.wf(),
            r.model().width_spec() == width,
            r.model().history().len() == 0,
    {
        Self::with_hasher(width, default_hasher(seed))
    }
}

impl<S: BuildHasher> ImplicitMinimizerQueue<S> {
    /// The window of hashes behind the queue.
    pub closed spec fn model(self) -> MonotoneWindow<()> {
        self.window
    }

    /// The hasher that `insert` hashes with.
    pub closed spec fn hasher(self) -> S {
        self.hash_builder
    }

    pub open spec fn wf(self) -> bool {
        self.model().wf()
    }

    /// An empty queue of the given width, whose hashes come from `hash_builder`.
    pub fn with_hasher(width: u16, hash_builder: S) -> (r: Self)
        requires
            width > 0,
        ensures
            r.wf(),
            r.model().width_spec() == width,
            r.model().history().len() == 0,
            r.model().next_slot() == 0,
            r.model().buffer_is_suffix_minima(),
            r.hasher() == hash_builder,
    {
        ImplicitMinimizerQueue { window: MonotoneWindow::new(width), hash_builder }
    }

    /// The width of the queue.
    pub fn width(&self) -> (r: usize)
        ensures
            r == self.model().width_spec(),
            0 < r <= u16::MAX,
    {
        self.window.width()
    }

    /// Whether nothing was inserted since creation or the last `clear`.
    pub fn is_empty(&self) -> (r: bool)
        requires
            self.wf(),
        ensures
            r == (self.model().history().len() == 0),
    {
        self.window.is_empty()
    }

    /// Whether the window holds several elements of minimal hash.
    pub fn multiple_mins(&self) -> (r: bool)
        requires
            self.wf(),
        ensures
            r == exists|p: int, q: int|
                p != q && #[trigger] self.model().is_min_position(p) && #[trigger] self.model().is_min_position(
                    q,
                ),
    {
        self.window.multiple_mins()
    }

    /// The position of the oldest element of minimal hash.
    pub fn get_min_pos(&self) -> (r: usize)
        requires
            self.wf(),
            self.model().history().len() > 0,
        ensures
            self.model().is_leftmost_min_position(r as int),
            r < self.model().width_spec(),
    {
        self.window.get_min_pos().1
    }

    /// The position of the innermost element of minimal hash, with the
    /// position opposite to it when both are equally near the middle.
    pub fn get_inner_min_pos(&self) -> (r: (usize, Option<usize>))
        requires
            self.wf(),
            self.model().history().len() > 0,
        ensures
            self.model().is_inner_min_position(r.0 as int),
            r.0 < self.model().width_spec(),
            r.1.is_some() == exists|q: int| #[trigger]
                self.model().is_min_position(q) && q != r.0 && centrality(self.model().width_spec(), q)
                    == centrality(self.model().width_spec(), r.0 as int),
            r.1 matches Some(q) ==> {
                &&& q == self.model().width_spec() - 1 - r.0
                &&& r.0 < q
                &&& self.model().is_min_position(q as int)
            },
    {
        let (_, p, second) = self.window.get_inner_min_pos();
        match second {
            Some((_, q)) => (p, Some(q)),
            None => (p, None),
        }
    }

    /// Inserts the hash of `x` under the queue's hasher and updates the minimizer.
    pub fn insert<T: Hash>(&mut self, x: &T)
        requires
            old(self).wf(),
        ensures
            final(self).wf(),
            final(self).model().width_spec() == old(self).model().width_spec(),
            exists|h: u64| #[trigger]
                old(self).model().history().push(((), h)) == final(self).model().history(),
            non_decreasing(final(self).model().buffer_hashes()),
            final(self).model().buffer_hashes().len() <= final(self).model().width_spec(),
            final(self).model().buffer_is_suffix_minima(),
            final(self).model().buffer().last().1 == final(self).model().history().last().1,
            final(self).model().buffer().last().2 as int == old(self).model().next_slot(),
            final(self).model().next_slot() == (old(self).model().next_slot() + 1) % old(
                self,
            ).model().width_spec(),
            final(self).hasher() == old(self).hasher(),
    {
        let hash = hash_one_with(&self.hash_builder, x);
        self.insert_hash(hash);
    }

    /// Inserts the given hash and updates the minimizer.
    pub fn insert_hash(&mut self, hash: u64)
        requires
            old(self).wf(),
        ensures
            final(self).wf(),
            final(self).model().width_spec() == old(self).model().width_spec(),
            final(self).model().history() == old(self).model().history().push(((), hash)),
            non_decreasing(final(self).model().buffer_hashes()),
            final(self).model().buffer_hashes().len() <= final(self).model().width_spec(),
            final(self).model().buffer_is_suffix_minima(),
            final(self).model().buffer().last().1 == final(self).model().history().last().1,
            final(self).model().buffer().last().2 as int == old(self).model().next_slot(),
            final(self).model().next_slot() == (old(self).model().next_slot() + 1) % old(
                self,
            ).model().width_spec(),
            final(self).hasher() == old(self).hasher(),
    {
        self.window.insert_with_hash((), hash);
    }

    /// Empties the queue; the next insertion starts a fresh window.
    pub fn clear(&mut self)
        requires
            old(self).wf(),
        ensures
            final(self).wf(),
            final(self).model().width_spec() == old(self).model().width_spec(),
            final(self).model().history().len() == 0,
            final(self).model().next_slot() == 0,
            final(self).model().buffer_is_suffix_minima(),
            final(self).hasher() == old(self).hasher(),
    {
        self.window.clear();
    }
}

} // verus!
