use std::sync::Arc;
use vstd::prelude::*;

verus! {

/// Another handle on the same shared allocation.
///
/// Calls `Arc::clone`. The contract claims that the new handle denotes the
/// same value as the old one; the allocation is shared, nothing is copied.
#[verifier::external_body]
fn share<T>(a: &Arc<T>) -> (r: Arc<T>)
    ensures
        r == *a,
{
    Arc::clone(a)
}

/// Immutable singly-linked list where each mutation returns a new version.
///
/// Nodes are shared between versions via `Arc`, so unchanged suffixes are
/// not copied. Cloning the list handle is O(1) and does not deep-copy.
pub struct PersistentList<T> {
    head: Option<Arc<Node<T>>>,
    len: usize,
}

struct Node<T> {
    value: Arc<T>,
    next: Option<Arc<Node<T>>>,
}

/// The elements reachable from a node link, front first.
spec fn chain<T>(link: Option<Arc<Node<T>>>) -> Seq<T>
    decreases link,
{
    match link {
        None => Seq::empty(),
        Some(node) => seq![*node.value] + chain(node.next),
    }
}

impl<T> View for PersistentList<T> {
    type V = Seq<T>;

    closed spec fn view(&self) -> Seq<T> {
        chain(self.head)
    }
}

impl<T> PersistentList<T> {
    /// The cached length agrees with the number of elements.
    #[verifier::type_invariant]
    closed spec fn well_formed(&self) -> bool {
        self.len as nat == self@.len()
    }

    /// Create an empty persistent list.
    pub fn new() -> (r: Self)
        ensures
            r@ == Seq::<T>::empty(),
    {
        PersistentList { head: None, len: 0 }
    }

    /// A second handle on the same version. O(1): nodes are shared.
    pub fn clone(&self) -> (r: Self)
        ensures
            r@ == self@,
    {
        proof {
            use_type_invariant(self);
        }
        let head = match &self.head {
            None => None,
            Some(node) => Some(share(node)),
        };
        PersistentList { head, len: self.len }
    }

    /// Return a new version with `value` prepended to the front. O(1).
    pub fn prepend(&self, value: T) -> (r: Self)
        requires
            self@.len() < usize::MAX,
        ensures
            r@ == seq![value] + self@,
    {
        proof {
            use_type_invariant(self);
        }
        let next = match &self.head {
            None => None,
            Some(node) => Some(share(node)),
        };
        let node = Arc::new(Node { value: Arc::new(value), next });
        PersistentList { head: Some(node), len: self.len + 1 }
    }

    /// Return a new version with the element at `index` removed. O(n).
    /// Returns a clone of the current version if the index is out of bounds.
    pub fn remove_at(&self, index: usize) -> (r: Self)
        ensures
            index < self@.len() ==> r@ == self@.remove(index as int),
            index >= self@.len() ==> r@ == self@,
    {
        proof {
            use_type_invariant(self);
        }
        if index >= self.len {
            return self.clone();
        }
        let mut prefix: Vec<Arc<T>> = Vec::with_capacity(index);
        let mut cur: &Option<Arc<Node<T>>> = &self.head;
        let mut i: usize = 0;
        while i < index
            invariant
                i <= index < self@.len(),
                prefix.len() == i,
                forall|k: int| 0 <= k < i ==> *#[trigger] prefix@[k] == self@[k],
                chain(*cur) == self@.skip(i as int),
            decreases index - i,
        {
            match cur {
                Some(node) => {
                    assert(chain(*cur) == seq![*node.value] + chain(node.next));
                    assert(self@.skip(i as int)[0] == self@[i as int]);
                    prefix.push(share(&node.value));
                    cur = &node.next;
                    assert(self@.skip(i as int).drop_first() =~= self@.skip(i + 1));
                },
                None => {
                    assert(false);
                    return self.clone();
                },
            }
            i = i + 1;
        }
        let mut new_head: Option<Arc<Node<T>>> = match cur {
            Some(node) => match &node.next {
                None => {
                    assert(chain(*cur) == seq![*node.value] + chain(node.next));
                    None
                },
                Some(n) => {
                    assert(chain(*cur) == seq![*node.value] + chain(node.next));
                    Some(share(n))
                },
            },
            None => {
                return self.clone();
            },
        };
        assert(self@.skip(index as int).drop_first() =~= self@.skip(index + 1));
        assert(chain(new_head) =~= self@.skip(index + 1));
        let mut j: usize = index;
        while j > 0
            invariant
                j <= index < self@.len(),
                prefix.len() == index,
                forall|k: int| 0 <= k < index ==> *#[trigger] prefix@[k] == self@[k],
                chain(new_head) =~= self@.subrange(j as int, index as int) + self@.skip(
                    index + 1,
                ),
            decreases j,
        {
            j = j - 1;
            let value = share(&prefix[j]);
            new_head = Some(Arc::new(Node { value, next: new_head }));
            assert(chain(new_head) =~= self@.subrange(j as int, index as int) + self@.skip(
                index + 1,
            ));
        }
        assert(self@.remove(index as int) =~= self@.subrange(0, index as int) + self@.skip(
            index + 1,
        ));
        PersistentList { head: new_head, len: self.len - 1 }
    }

    /// Return a reference to the element at `index`, or `None` if out of bounds. O(n).
    pub fn get(&self, index: usize) -> (r: Option<&T>)
        ensures
            index < self@.len() ==> r == Some(&self@[index as int]),
            index >= self@.len() ==> r is None,
    {
        proof {
            use_type_invariant(self);
        }
        if index >= self.len {
            return None;
        }
        let mut cur: &Option<Arc<Node<T>>> = &self.head;
        let mut i: usize = 0;
        while i < index
            invariant
                i <= index < self@.len(),
                chain(*cur) == self@.skip(i as int),
            decreases index - i,
        {
            match cur {
                Some(node) => {
                    assert(chain(*cur) == seq![*node.value] + chain(node.next));
                    cur = &node.next;
                    assert(self@.skip(i as int).drop_first() =~= self@.skip(i + 1));
                },
                None => {
                    assert(false);
                },
            }
            i = i + 1;
        }
        match cur {
            Some(node) => {
                assert(chain(*cur) == seq![*node.value] + chain(node.next));
                assert(self@.skip(index as int)[0] == self@[index as int]);
                Some(&*node.value)
            },
            None => None,
        }
    }

    /// The elements of the current version in order, front first. O(n).
    pub fn iter(&self) -> (r: Vec<&T>)
        ensures
            r.len() == self@.len(),
            forall|k: int| 0 <= k < r.len() ==> *#[trigger] r@[k] == self@[k],
    {
        proof {
            use_type_invariant(self);
        }
        let mut out: Vec<&T> = Vec::new();
        let mut cur: &Option<Arc<Node<T>>> = &self.head;
        while out.len() < self.len
            invariant
                out.len() <= self@.len(),
                self.len as nat == self@.len(),
                forall|k: int| 0 <= k < out.len() ==> *#[trigger] out@[k] == self@[k],
                chain(*cur) == self@.skip(out.len() as int),
            decreases self.len - out.len(),
        {
            match cur {
                Some(node) => {
                    assert(chain(*cur) == seq![*node.value] + chain(node.next));
                    assert(self@.skip(out.len() as int)[0] == self@[out.len() as int]);
                    out.push(&*node.value);
                    cur = &node.next;
                    assert(self@.skip((out.len() - 1) as int).drop_first() =~= self@.skip(
                        out.len() as int,
                    ));
                },
                None => {
                    assert(false);
                },
            }
        }
        out
    }

    /// Return the number of elements in the current version.
    pub fn len(&self) -> (r: usize)
        ensures
            r == self@.len(),
    {
        proof {
            use_type_invariant(self);
        }
        self.len
    }

    /// Return true if the list is empty.
    pub fn is_empty(&self) -> (r: bool)
        ensures
            r == (self@.len() == 0),
    {
        proof {
            use_type_invariant(self);
        }
        self.len == 0
    }
}

/// The elements still ahead of a borrowed node link, front first.
spec fn chain_ref<T>(cur: Option<&Node<T>>) -> Seq<T> {
    match cur {
        None => Seq::empty(),
        Some(node) => seq![*node.value] + chain(node.next),
    }
}

/// Borrowing iterator over a `PersistentList` version.
pub struct PersistentListIter<'a, T> {
    cur: Option<&'a Node<T>>,
}

impl<'a, T> PersistentListIter<'a, T> {
    /// The elements the iterator has yet to yield, in order.
    pub closed spec fn remaining(&self) -> Seq<T> {
        chain_ref(self.cur)
    }

    /// An iterator over the elements of `list`, front first.
    pub fn new(list: &'a PersistentList<T>) -> (it: Self)
        ensures
            it.remaining() == list@,
    {
        let cur = match &list.head {
            Some(node) => Some(&**node),
            None => None,
        };
        PersistentListIter { cur }
    }

    /// The next element, if any is left.
    pub fn next(&mut self) -> (r: Option<&'a T>)
        ensures
            match r {
                None => old(self).remaining().len() == 0 && final(self).remaining() == old(
                    self,
                ).remaining(),
                Some(x) => old(self).remaining().len() > 0 && *x == old(self).remaining()[0]
                    && final(self).remaining() == old(self).remaining().drop_first(),
            },
    {
        let node = match self.cur {
            Some(n) => n,
            None => {
                return None;
            },
        };
        self.cur = match &node.next {
            Some(a) => Some(&**a),
            None => None,
        };
        proof {
            assert(old(self).remaining() == seq![*node.value] + chain(node.next));
            assert(old(self).remaining().drop_first() =~= chain(node.next));
        }
        Some(&*node.value)
    }
}

} // verus!

verus! {

/// Most versions a history keeps; the oldest is dropped beyond this.
pub const MAX_VERSIONS: usize = 50;

/// The versions kept after `version` is pushed onto `versions` whose cursor
/// is at `cursor`: forward history past the cursor is discarded, the new
/// version is appended, and the oldest is dropped when over the cap.
pub open spec fn pushed_versions<T>(versions: Seq<Seq<T>>, cursor: nat, version: Seq<T>) -> Seq<
    Seq<T>,
> {
    let kept = versions.take(cursor + 1 as int).push(version);
    if kept.len() > MAX_VERSIONS {
        kept.drop_first()
    } else {
        kept
    }
}

/// Tracks a chain of `PersistentList` versions for undo support.
pub struct VersionHistory<T> {
    versions: Vec<PersistentList<T>>,
    current: usize,
}

impl<T> VersionHistory<T> {
    /// At least one and at most `MAX_VERSIONS` versions, and the cursor
    /// on one of them.
    pub closed spec fn well_formed(&self) -> bool {
        &&& 1 <= self.versions.len() <= MAX_VERSIONS
        &&& self.current < self.versions.len()
    }

    /// The retained versions, oldest first.
    pub closed spec fn versions(&self) -> Seq<Seq<T>> {
        self.versions@.map_values(|l: PersistentList<T>| l@)
    }

    /// Position of the current version within `versions()`.
    pub closed spec fn cursor(&self) -> nat {
        self.current as nat
    }

    /// A well-formed history holds one to `MAX_VERSIONS` versions, with
    /// the cursor on one of them.
    pub proof fn lemma_cursor_in_range(&self)
        requires
            self.well_formed(),
        ensures
            1 <= self.versions().len() <= MAX_VERSIONS,
            self.cursor() < self.versions().len(),
    {
    }

    /// The view of the current version.
    pub open spec fn current_version(&self) -> Seq<T> {
        self.versions()[self.cursor() as int]
    }

    /// Create a history seeded with an initial version.
    pub fn new(initial: PersistentList<T>) -> (r: Self)
        ensures
            r.well_formed(),
            r.versions() == seq![initial@],
            r.cursor() == 0,
    {
        let mut versions: Vec<PersistentList<T>> = Vec::new();
        versions.push(initial);
        let r = VersionHistory { versions, current: 0 };
        assert(r.versions() =~= seq![initial@]);
        r
    }

    /// Return the current version.
    pub fn current(&self) -> (r: &PersistentList<T>)
        requires
            self.well_formed(),
        ensures
            r@ == self.current_version(),
    {
        &self.versions[self.current]
    }

    /// Append a new version and advance the cursor to it.
    /// Discards any forward history past the current cursor.
    /// Caps retained versions at 50 — the oldest is dropped when over.
    pub fn push(&mut self, version: PersistentList<T>)
        requires
            old(self).well_formed(),
        ensures
            final(self).well_formed(),
            final(self).versions() == pushed_versions(
                old(self).versions(),
                old(self).cursor(),
                version@,
            ),
            final(self).cursor() + 1 == final(self).versions().len(),
            final(self).versions().len() <= MAX_VERSIONS,
            final(self).cursor() >= 1,
    {
        proof {
            lemma_undo_after_push(old(self).versions(), old(self).cursor(), version@);
        }
        let ghost old_views = self.versions();
        let ghost v = version@;
        let keep = self.current + 1;
        self.current = 0;
        self.versions.truncate(keep);
        assert(self.versions@.map_values(|l: PersistentList<T>| l@) =~= old_views.take(
            keep as int,
        ));
        if keep == MAX_VERSIONS {
            self.versions.remove(0);
            self.versions.push(version);
            assert(self.versions@.map_values(|l: PersistentList<T>| l@) =~= old_views.take(
                keep as int,
            ).push(v).drop_first());
        } else {
            self.versions.push(version);
            assert(self.versions@.map_values(|l: PersistentList<T>| l@) =~= old_views.take(
                keep as int,
            ).push(v));
        }
        self.current = self.versions.len() - 1;
    }

    /// Move the cursor back one version and return the now-current version.
    /// Returns `None` if already at the oldest version.
    pub fn undo(&mut self) -> (r: Option<&PersistentList<T>>)
        requires
            old(self).well_formed(),
        ensures
            final(self).well_formed(),
            final(self).versions() == old(self).versions(),
            old(self).cursor() == 0 ==> r is None && final(self).cursor() == 0,
            old(self).cursor() > 0 ==> final(self).cursor() == old(self).cursor() - 1 && r
                is Some && r->0@ == final(self).current_version(),
    {
        if self.current == 0 {
            return None;
        }
        self.current = self.current - 1;
        Some(&self.versions[self.current])
    }

    /// Return true if `undo` would move to a previous version.
    pub fn can_undo(&self) -> (r: bool)
        ensures
            r == (self.cursor() > 0),
    {
        self.current > 0
    }
}

/// Undo reverses a push: after pushing a version onto a history, one undo
/// makes the version that was current before the push current again.
pub proof fn lemma_undo_after_push<T>(versions: Seq<Seq<T>>, cursor: nat, version: Seq<T>)
    requires
        1 <= versions.len() <= MAX_VERSIONS,
        cursor < versions.len(),
    ensures
        ({
            let after = pushed_versions(versions, cursor, version);
            &&& after.len() >= 2
            &&& after[after.len() - 2] == versions[cursor as int]
            &&& after[after.len() - 1] == version
        }),
{
}

/// Push never leaves more than `MAX_VERSIONS` versions, and the pushed
/// version is always the last one.
pub proof fn lemma_push_respects_cap<T>(versions: Seq<Seq<T>>, cursor: nat, version: Seq<T>)
    requires
        versions.len() <= MAX_VERSIONS,
        cursor < versions.len(),
    ensures
        1 <= pushed_versions(versions, cursor, version).len() <= MAX_VERSIONS,
        pushed_versions(versions, cursor, version).last() == version,
{
}

} // verus!
