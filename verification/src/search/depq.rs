//! Double-ended priority queue: both the smallest and the largest item can
//! be looked at and removed.
use vstd::multiset::Multiset;
use vstd::prelude::*;

verus! {

/// Items that a `Depq` can order: a total order with an executable test.
pub trait Ranked: Sized {
    /// `self` comes no later than `other`.
    spec fn rank_le(self, other: Self) -> bool;

    proof fn lemma_reflexive(x: Self)
        ensures
            x.rank_le(x),
    ;

    proof fn lemma_transitive(x: Self, y: Self, z: Self)
        requires
            x.rank_le(y),
            y.rank_le(z),
        ensures
            x.rank_le(z),
    ;

    proof fn lemma_antisymmetric(x: Self, y: Self)
        requires
            x.rank_le(y),
            y.rank_le(x),
        ensures
            x == y,
    ;

    proof fn lemma_total(x: Self, y: Self)
        ensures
            x.rank_le(y) || y.rank_le(x),
    ;

    /// Whether `self` comes no later than `other`.
    fn ranks_before(&self, other: &Self) -> (b: bool)
        ensures
            b == self.rank_le(*other),
    ;
}

impl Ranked for i32 {
    open spec fn rank_le(self, other: Self) -> bool {
        self <= other
    }

    proof fn lemma_reflexive(x: Self) {
    }

    proof fn lemma_transitive(x: Self, y: Self, z: Self) {
    }

    proof fn lemma_antisymmetric(x: Self, y: Self) {
    }

    proof fn lemma_total(x: Self, y: Self) {
    }

    fn ranks_before(&self, other: &Self) -> (b: bool) {
        *self <= *other
    }
}

impl Ranked for i64 {
    open spec fn rank_le(self, other: Self) -> bool {
        self <= other
    }

    proof fn lemma_reflexive(x: Self) {
    }

    proof fn lemma_transitive(x: Self, y: Self, z: Self) {
    }

    proof fn lemma_antisymmetric(x: Self, y: Self) {
    }

    proof fn lemma_total(x: Self, y: Self) {
    }

    fn ranks_before(&self, other: &Self) -> (b: bool) {
        *self <= *other
    }
}

/// Pairs are ordered by their first part, then their second.
impl Ranked for (i64, i64) {
    open spec fn rank_le(self, other: Self) -> bool {
        self.0 < other.0 || (self.0 == other.0 && self.1 <= other.1)
    }

    proof fn lemma_reflexive(x: Self) {
    }

    proof fn lemma_transitive(x: Self, y: Self, z: Self) {
    }

    proof fn lemma_antisymmetric(x: Self, y: Self) {
    }

    proof fn lemma_total(x: Self, y: Self) {
    }

    fn ranks_before(&self, other: &Self) -> (b: bool) {
        self.0 < other.0 || (self.0 == other.0 && self.1 <= other.1)
    }
}

/// `s` is in ascending order.
pub open spec fn ascending<T: Ranked>(s: Seq<T>) -> bool {
    forall|i: int, j: int| 0 <= i < j < s.len() ==> (#[trigger] s[i]).rank_le(#[trigger] s[j])
}

/// `m` comes no later than any item of `items`.
pub open spec fn is_min_of<T: Ranked>(m: T, items: Multiset<T>) -> bool {
    items.contains(m) && forall|x: T| items.contains(x) ==> m.rank_le(x)
}

/// `m` comes no earlier than any item of `items`.
pub open spec fn is_max_of<T: Ranked>(m: T, items: Multiset<T>) -> bool {
    items.contains(m) && forall|x: T| items.contains(x) ==> x.rank_le(m)
}

/// A double-ended priority queue, kept as a sorted vector.
pub struct Depq<T: Ranked> {
    items: Vec<T>,
}

impl<T: Ranked> Depq<T> {
    #[verifier::type_invariant]
    spec fn sorted(self) -> bool {
        ascending(self.items@)
    }

    /// The items held, with their multiplicities.
    pub closed spec fn contents(&self) -> Multiset<T> {
        self.items@.to_multiset()
    }

    /// An empty queue.
    pub fn new() -> (d: Self)
        ensures
            d.contents() == Multiset::<T>::empty(),
    {
        let d = Depq { items: Vec::new() };
        assert(d.items@ =~= Seq::<T>::empty());
        proof {
            vstd::seq_lib::to_multiset_len(d.items@);
            vstd::multiset::lemma_multiset_empty_len(d.items@.to_multiset());
        }
        d
    }

    /// Number of items held.
    pub fn len(&self) -> (n: usize)
        ensures
            n == self.contents().len(),
    {
        proof {
            vstd::seq_lib::to_multiset_len(self.items@);
        }
        self.items.len()
    }

    /// Whether no item is held.
    pub fn is_empty(&self) -> (b: bool)
        ensures
            b == (self.contents().len() == 0),
    {
        proof {
            vstd::seq_lib::to_multiset_len(self.items@);
        }
        self.items.len() == 0
    }

    /// The smallest and largest of a non-empty sorted sequence are its ends.
    proof fn lemma_ends(s: Seq<T>)
        requires
            ascending(s),
            s.len() > 0,
        ensures
            is_min_of(s[0], s.to_multiset()),
            is_max_of(s.last(), s.to_multiset()),
    {
        assert forall|x: T| s.to_multiset().contains(x) implies s[0].rank_le(x) && x.rank_le(
            s.last(),
        ) by {
            vstd::seq_lib::to_multiset_contains(s, x);
            let i = choose|i: int| 0 <= i < s.len() && s[i] == x;
            if i == 0 {
                T::lemma_reflexive(x);
            } else {
                assert(s[0].rank_le(s[i]));
            }
            if i == s.len() - 1 {
                T::lemma_reflexive(x);
            } else {
                assert(s[i].rank_le(s[s.len() - 1]));
            }
        }
        vstd::seq_lib::to_multiset_contains(s, s[0]);
        vstd::seq_lib::to_multiset_contains(s, s.last());
    }

    /// Adds an item.
    pub fn push(&mut self, item: T)
        ensures
            final(self).contents() == old(self).contents().insert(item),
    {
        proof {
            use_type_invariant(&*self);
        }
        let mut pos: usize = 0;
        while pos < self.items.len() && self.items[pos].ranks_before(&item)
            invariant
                pos <= self.items@.len(),
                ascending(self.items@),
                forall|t: int| 0 <= t < pos ==> (#[trigger] self.items@[t]).rank_le(item),
            decreases self.items@.len() - pos,
        {
            pos = pos + 1;
        }
        let ghost old_items = self.items@;
        proof {
            assert forall|t: int| pos <= t < old_items.len() implies item.rank_le(
                #[trigger] old_items[t],
            ) by {
                T::lemma_total(old_items[pos as int], item);
                if t > pos {
                    assert(old_items[pos as int].rank_le(old_items[t]));
                    T::lemma_transitive(item, old_items[pos as int], old_items[t]);
                }
            }
            let s = old_items.insert(pos as int, item);
            assert forall|i: int, j: int| 0 <= i < j < s.len() implies (#[trigger] s[i]).rank_le(
                #[trigger] s[j],
            ) by {
                if j < pos {
                } else if j == pos {
                } else if i < pos {
                    T::lemma_transitive(old_items[i], item, old_items[j - 1]);
                } else if i == pos {
                } else {
                    assert(old_items[i - 1].rank_le(old_items[j - 1]));
                }
            }
            vstd::seq_lib::to_multiset_insert(old_items, pos as int, item);
        }
        let mut items = Vec::new();
        std::mem::swap(&mut items, &mut self.items);
        items.insert(pos, item);
        self.items = items;
    }

    /// The smallest item, if any; the queue is unchanged.
    pub fn peek_min(&self) -> (r: Option<&T>)
        ensures
            match r {
                None => self.contents().len() == 0,
                Some(m) => is_min_of(*m, self.contents()),
            },
    {
        proof {
            use_type_invariant(self);
            vstd::seq_lib::to_multiset_len(self.items@);
        }
        if self.items.len() == 0 {
            None
        } else {
            proof {
                Self::lemma_ends(self.items@);
            }
            Some(&self.items[0])
        }
    }

    /// The largest item, if any; the queue is unchanged.
    pub fn peek_max(&self) -> (r: Option<&T>)
        ensures
            match r {
                None => self.contents().len() == 0,
                Some(m) => is_max_of(*m, self.contents()),
            },
    {
        proof {
            use_type_invariant(self);
            vstd::seq_lib::to_multiset_len(self.items@);
        }
        if self.items.len() == 0 {
            None
        } else {
            proof {
                Self::lemma_ends(self.items@);
            }
            Some(&self.items[self.items.len() - 1])
        }
    }

    /// Removes and returns the smallest item, if any.
    pub fn pop_min(&mut self) -> (r: Option<T>)
        ensures
            match r {
                None => old(self).contents().len() == 0 && final(self).contents() == old(
                    self,
                ).contents(),
                Some(m) => is_min_of(m, old(self).contents()) && final(self).contents() == old(
                    self,
                ).contents().remove(m),
            },
    {
        proof {
            use_type_invariant(&*self);
            vstd::seq_lib::to_multiset_len(self.items@);
        }
        if self.items.len() == 0 {
            return None;
        }
        let ghost old_items = self.items@;
        proof {
            Self::lemma_ends(old_items);
            vstd::seq_lib::to_multiset_remove(old_items, 0);
            assert forall|i: int, j: int|
                0 <= i < j < old_items.remove(0).len() implies (#[trigger] old_items.remove(
                0,
            )[i]).rank_le(#[trigger] old_items.remove(0)[j]) by {
                assert(old_items[i + 1].rank_le(old_items[j + 1]));
            }
        }
        let mut items = Vec::new();
        std::mem::swap(&mut items, &mut self.items);
        let m = items.remove(0);
        self.items = items;
        Some(m)
    }

    /// Removes and returns the largest item, if any.
    pub fn pop_max(&mut self) -> (r: Option<T>)
        ensures
            match r {
                None => old(self).contents().len() == 0 && final(self).contents() == old(
                    self,
                ).contents(),
                Some(m) => is_max_of(m, old(self).contents()) && final(self).contents() == old(
                    self,
                ).contents().remove(m),
            },
    {
        proof {
            use_type_invariant(&*self);
            vstd::seq_lib::to_multiset_len(self.items@);
        }
        if self.items.len() == 0 {
            return None;
        }
        let ghost old_items = self.items@;
        let last = (self.items.len() - 1) as usize;
        proof {
            Self::lemma_ends(old_items);
            vstd::seq_lib::to_multiset_remove(old_items, last as int);
            assert(old_items.remove(last as int) =~= old_items.drop_last());
        }
        let mut items = Vec::new();
        std::mem::swap(&mut items, &mut self.items);
        let m = items.remove(last);
        self.items = items;
        Some(m)
    }

    /// Removes the smallest items until at most `limit` are left, and
    /// returns them, smallest first.
    pub fn pop_excess(&mut self, limit: usize) -> (out: Vec<T>)
        ensures
            old(self).contents().len() <= limit ==> out@.len() == 0,
            old(self).contents().len() > limit ==> out@.len() == old(self).contents().len() - limit,
            final(self).contents().add(out@.to_multiset()) == old(self).contents(),
            ascending(out@),
            forall|i: int, x: T|
                0 <= i < out@.len() && final(self).contents().contains(x) ==> #[trigger] out@[i].rank_le(x),
    {
        broadcast use vstd::seq_lib::group_to_multiset_ensures, vstd::multiset::group_multiset_axioms;

        let mut out: Vec<T> = Vec::new();
        let ghost start = self.contents();
        while self.len() > limit
            invariant
                start == old(self).contents(),
                self.contents().add(out@.to_multiset()) == start,
                out@.len() + self.contents().len() == start.len(),
                out@.len() > 0 ==> self.contents().len() >= limit,
                ascending(out@),
                forall|i: int, x: T|
                    0 <= i < out@.len() && self.contents().contains(x) ==> #[trigger] out@[i].rank_le(x),
            decreases self.contents().len(),
        {
            let ghost before = self.contents();
            let ghost out_before = out@;
            match self.pop_min() {
                Some(m) => {
                    out.push(m);
                    proof {
                        assert(before.contains(m));
                        assert(before == self.contents().insert(m));
                        assert(out@ == out_before.push(m));
                        vstd::seq_lib::to_multiset_build(out_before, m);
                        assert forall|i: int, j: int| 0 <= i < j < out@.len() implies (
                        #[trigger] out@[i]).rank_le(#[trigger] out@[j]) by {
                            if j == out@.len() - 1 {
                                assert(out@[i] == out_before[i]);
                            } else {
                                assert(out@[i] == out_before[i] && out@[j] == out_before[j]);
                            }
                        }
                        assert forall|i: int, x: T|
                            0 <= i < out@.len() && self.contents().contains(x) implies #[trigger] out@[i].rank_le(x) by {
                            assert(before.contains(x));
                            if i < out@.len() - 1 {
                                assert(out@[i] == out_before[i]);
                            }
                        }
                        assert(self.contents().add(out@.to_multiset()) =~= start);
                    }
                },
                None => {},
            }
        }
        out
    }
}

} // verus!
