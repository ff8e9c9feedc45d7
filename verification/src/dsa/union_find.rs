use vstd::prelude::*;
use vstd::set_lib::*;

verus! {

/// The elements `0..n` whose representative in `rep` is `r`.
pub open spec fn class_in(rep: Seq<int>, n: nat, r: int) -> Set<int> {
    Set::new(|x: int| 0 <= x < n && rep[x] == r)
}

/// The elements `0..n` that represent themselves in `rep`.
pub open spec fn roots_in(rep: Seq<int>, n: nat) -> Set<int> {
    Set::new(|x: int| 0 <= x < n && rep[x] == x)
}

/// `rep` after the set represented by `small` is merged into the one
/// represented by `large`.
pub open spec fn merged(rep: Seq<int>, small: int, large: int) -> Seq<int> {
    rep.map_values(|v: int| if v == small { large } else { v })
}

/// Which of two distinct roots survives a union by rank: the root of
/// strictly higher rank, and on equal ranks the root of `i`'s set.
pub open spec fn union_winner(rank_i: nat, rank_j: nat, ri: int, rj: int) -> int {
    if rank_i < rank_j {
        rj
    } else {
        ri
    }
}

proof fn lemma_class_bounded(rep: Seq<int>, n: nat, r: int)
    ensures
        class_in(rep, n, r).finite(),
        class_in(rep, n, r).len() <= n,
{
    lemma_int_range(0, n as int);
    lemma_len_subset(class_in(rep, n, r), set_int_range(0, n as int));
}

proof fn lemma_roots_bounded(rep: Seq<int>, n: nat)
    ensures
        roots_in(rep, n).finite(),
        roots_in(rep, n).len() <= n,
{
    lemma_int_range(0, n as int);
    lemma_len_subset(roots_in(rep, n), set_int_range(0, n as int));
}

/// The union-find representation invariant over its sequences: parent
/// links lead to the root of each element's set along strictly increasing
/// ranks, each root's size is the cardinality of its set, and `count` is
/// the number of roots.
#[verifier::opaque]
pub open spec fn uf_inv(
    parent: Seq<usize>,
    rank: Seq<usize>,
    size: Seq<usize>,
    rep: Seq<int>,
    count: nat,
) -> bool {
    let n = parent.len();
    &&& rank.len() == n
    &&& size.len() == n
    &&& rep.len() == n
    &&& forall|x: int| 0 <= x < n ==> #[trigger] parent[x] < n
    &&& forall|x: int|
        0 <= x < n ==> 0 <= #[trigger] rep[x] < n && rep[rep[x]] == rep[x] && parent[rep[x]]
            == rep[x]
    &&& forall|x: int| 0 <= x < n ==> rep[#[trigger] parent[x] as int] == rep[x]
    &&& forall|x: int|
        0 <= x < n && #[trigger] parent[x] != x ==> rank[x] < rank[parent[x] as int]
    &&& forall|x: int| 0 <= x < n && #[trigger] parent[x] == x ==> rep[x] == x
    &&& forall|x: int| 0 <= x < n ==> #[trigger] rank[x] <= rank[rep[x]]
    &&& forall|x: int| 0 <= x < n ==> #[trigger] rank[x] < n
    &&& forall|r: int|
        0 <= r < n && #[trigger] rep[r] == r ==> size[r] == class_in(rep, n, r).len() && rank[r]
            < size[r]
    &&& count == roots_in(rep, n).len()
}

/// Linking root `small` under root `large` (raising the rank of `large`
/// by `bump`) keeps the invariant, given union by rank.
proof fn lemma_link(
    parent: Seq<usize>,
    rank: Seq<usize>,
    size: Seq<usize>,
    rep: Seq<int>,
    count: nat,
    small: int,
    large: int,
    bump: bool,
)
    requires
        uf_inv(parent, rank, size, rep, count),
        parent.len() <= usize::MAX,
        0 <= small < parent.len(),
        0 <= large < parent.len(),
        small != large,
        rep[small] == small,
        rep[large] == large,
        bump ==> rank[small] == rank[large],
        !bump ==> rank[small] < rank[large],
    ensures
        size[small] + size[large] <= parent.len(),
        count >= 1,
        ({
            let new_rank = if bump {
                rank.update(large, (rank[large] + 1) as usize)
            } else {
                rank
            };
            uf_inv(
                parent.update(small, large as usize),
                new_rank,
                size.update(large, (size[small] + size[large]) as usize),
                merged(rep, small, large),
                (count - 1) as nat,
            )
        }),
{
    reveal(uf_inv);
    let n = parent.len();
    let new_rank = if bump {
        rank.update(large, (rank[large] + 1) as usize)
    } else {
        rank
    };
    let new_parent = parent.update(small, large as usize);
    let new_size = size.update(large, (size[small] + size[large]) as usize);
    let new_rep = merged(rep, small, large);
    let a = class_in(rep, n, large);
    let b = class_in(rep, n, small);
    lemma_int_range(0, n as int);
    lemma_class_bounded(rep, n, large);
    lemma_class_bounded(rep, n, small);
    lemma_roots_bounded(rep, n);
    assert(a.disjoint(b));
    lemma_set_disjoint_lens(a, b);
    lemma_len_subset(a + b, set_int_range(0, n as int));
    assert(roots_in(rep, n).contains(small));
    assert(roots_in(rep, n).remove(small).contains(large));
    assert(class_in(new_rep, n, large) =~= a + b);
    assert(roots_in(new_rep, n) =~= roots_in(rep, n).remove(small));
    assert forall|r: int| 0 <= r < n && #[trigger] new_rep[r] == r implies new_size[r]
        == class_in(new_rep, n, r).len() && new_rank[r] < new_size[r] by {
        if r != large {
            assert(rep[r] == r);
            assert(class_in(new_rep, n, r) =~= class_in(rep, n, r));
        } else {
            assert(size[large] == a.len());
            assert(size[small] == b.len());
        }
    }
    assert forall|x: int| 0 <= x < n implies 0 <= #[trigger] new_rep[x] < n && new_rep[new_rep[x]]
        == new_rep[x] && new_parent[new_rep[x]] == new_rep[x] by {
        assert(0 <= rep[x] < n);
    }
    assert forall|x: int| 0 <= x < n implies #[trigger] new_rank[x] <= new_rank[new_rep[x]] by {
        assert(rank[x] <= rank[rep[x]]);
    }
    assert forall|x: int| 0 <= x < n implies new_rep[#[trigger] new_parent[x] as int] == new_rep[x]
        by {
        assert(rep[parent[x] as int] == rep[x]);
    }
    assert forall|x: int|
        0 <= x < n && #[trigger] new_parent[x] != x implies new_rank[x] < new_rank[
        new_parent[x] as int] by {
        if x != small {
            assert(parent[x] != x);
            assert(rank[x] < rank[parent[x] as int]);
        }
    }
    assert forall|x: int| 0 <= x < n implies #[trigger] new_rank[x] < n by {
        assert(rank[x] < n);
        if bump && x == large {
            assert(new_rank[x] < new_size[x]);
        }
    }
}

/// Disjoint-set (Union-Find) with path compression and union by rank.
pub struct UnionFind {
    parent: Vec<usize>,
    rank: Vec<usize>,
    size: Vec<usize>,
    /// Number of disjoint sets currently tracked.
    pub count: usize,
    rep: Ghost<Seq<int>>,
}

impl UnionFind {
    /// Number of elements.
    pub closed spec fn num_elements(&self) -> nat {
        self.parent@.len()
    }

    /// The root that represents the set containing `x`.
    pub closed spec fn root_of(&self, x: int) -> int {
        self.rep@[x]
    }

    /// The rank of element `x` (meaningful for roots).
    pub closed spec fn rank_of(&self, x: int) -> nat {
        self.rank@[x] as nat
    }

    /// The parent link of element `x`.
    pub closed spec fn parent_of(&self, x: int) -> int {
        self.parent@[x] as int
    }

    /// The number of disjoint sets recorded in `count`.
    pub closed spec fn num_sets(&self) -> nat {
        self.count as nat
    }

    /// The set containing `x`.
    pub open spec fn set_of(&self, x: int) -> Set<int> {
        Set::new(|y: int| 0 <= y < self.num_elements() && self.root_of(y) == self.root_of(x))
    }

    /// The roots, one per set.
    pub open spec fn roots(&self) -> Set<int> {
        Set::new(|y: int| 0 <= y < self.num_elements() && self.root_of(y) == y)
    }

    /// The representation invariant: parent links lead to the root of each
    /// element's set along strictly increasing ranks, each root's size is
    /// the cardinality of its set, and `count` is the number of roots.
    pub closed spec fn well_formed(&self) -> bool {
        uf_inv(self.parent@, self.rank@, self.size@, self.rep@, self.count as nat)
    }

    proof fn lemma_root_facts(&self, x: int)
        requires
            self.well_formed(),
            0 <= x < self.num_elements(),
        ensures
            0 <= self.rep@[x] < self.num_elements(),
            self.rep@[self.rep@[x]] == self.rep@[x],
            self.rank@[x] <= self.rank@[self.rep@[x]],
            self.rank@[x] < self.num_elements(),
            self.rank@[self.rep@[x]] < self.num_elements(),
            self.rank@.len() == self.num_elements(),
            self.size@.len() == self.num_elements(),
            self.rep@.len() == self.num_elements(),
    {
        reveal(uf_inv);
    }

    /// Laws every well-formed structure satisfies: roots represent
    /// themselves and belong to their own set, and `count` is the number
    /// of sets.
    pub proof fn lemma_structure(&self)
        requires
            self.well_formed(),
        ensures
            forall|x: int|
                0 <= x < self.num_elements() ==> 0 <= #[trigger] self.root_of(x)
                    < self.num_elements() && self.root_of(self.root_of(x)) == self.root_of(x),
            self.num_sets() == self.roots().len(),
            self.roots().finite(),
            self.num_sets() <= self.num_elements(),
    {
        reveal(uf_inv);
        assert(self.roots() =~= roots_in(self.rep@, self.parent@.len()));
        lemma_roots_bounded(self.rep@, self.parent@.len());
    }

    proof fn lemma_set_finite(&self, x: int)
        ensures
            self.set_of(x).finite(),
    {
        lemma_int_range(0, self.num_elements() as int);
        lemma_len_subset(self.set_of(x), set_int_range(0, self.num_elements() as int));
    }

    /// Create a structure with `n` singleton sets.
    pub fn new(n: usize) -> (r: Self)
        ensures
            r.well_formed(),
            r.num_elements() == n,
            r.num_sets() == n,
            forall|x: int| 0 <= x < n ==> #[trigger] r.root_of(x) == x && r.rank_of(x) == 0,
    {
        proof {
            reveal(uf_inv);
        }
        let mut parent: Vec<usize> = Vec::new();
        let mut rank: Vec<usize> = Vec::new();
        let mut size: Vec<usize> = Vec::new();
        let mut i: usize = 0;
        while i < n
            invariant
                i <= n,
                parent.len() == i,
                rank.len() == i,
                size.len() == i,
                forall|x: int| 0 <= x < i ==> #[trigger] parent@[x] == x,
                forall|x: int| 0 <= x < i ==> #[trigger] rank@[x] == 0,
                forall|x: int| 0 <= x < i ==> #[trigger] size@[x] == 1,
            decreases n - i,
        {
            parent.push(i);
            rank.push(0);
            size.push(1);
            i = i + 1;
        }
        let ghost rep = Seq::new(n as nat, |x: int| x);
        proof {
            assert forall|r: int| 0 <= r < n implies #[trigger] class_in(rep, n as nat, r).len()
                == 1 by {
                assert(class_in(rep, n as nat, r) =~= set![r]);
            }
            assert(roots_in(rep, n as nat) =~= set_int_range(0, n as int));
            lemma_int_range(0, n as int);
        }
        UnionFind { parent, rank, size, count: n, rep: Ghost(rep) }
    }

    /// Append a new singleton element and return its index.
    pub fn add_element(&mut self) -> (idx: usize)
        requires
            old(self).well_formed(),
            old(self).num_elements() < usize::MAX,
        ensures
            final(self).well_formed(),
            idx == old(self).num_elements(),
            final(self).num_elements() == old(self).num_elements() + 1,
            final(self).num_sets() == old(self).num_sets() + 1,
            final(self).root_of(idx as int) == idx,
            final(self).rank_of(idx as int) == 0,
            forall|x: int|
                0 <= x < old(self).num_elements() ==> #[trigger] final(self).root_of(x)
                    == old(self).root_of(x) && final(self).rank_of(x) == old(self).rank_of(x)
                    && 0 <= old(self).root_of(x) < old(self).num_elements(),
            final(self).set_of(idx as int) == set![idx as int],
    {
        proof {
            reveal(uf_inv);
            old(self).lemma_structure();
        }
        let ghost old_rep = self.rep@;
        let ghost n = self.parent@.len();
        proof {
            lemma_roots_bounded(old_rep, n);
        }
        let idx = self.parent.len();
        self.parent.push(idx);
        self.rank.push(0);
        self.size.push(1);
        self.count = self.count + 1;
        let ghost new_rep = old_rep.push(idx as int);
        self.rep = Ghost(new_rep);
        proof {
            assert forall|r: int| 0 <= r < n + 1 && #[trigger] new_rep[r] == r implies self.size@[r]
                == class_in(new_rep, n + 1, r).len() && self.rank@[r] < self.size@[r] by {
                if r == idx {
                    assert(class_in(new_rep, n + 1, r) =~= set![r]);
                } else {
                    assert(class_in(new_rep, n + 1, r) =~= class_in(old_rep, n, r));
                }
            }
            assert(roots_in(new_rep, n + 1) =~= roots_in(old_rep, n).insert(idx as int));
            assert(self.set_of(idx as int) =~= set![idx as int]);
        }
        idx
    }

    /// Find the root of `i`, applying path compression. Amortized O(alpha(n)).
    pub fn find(&mut self, i: usize) -> (root: usize)
        requires
            old(self).well_formed(),
            i < old(self).num_elements(),
        ensures
            final(self).well_formed(),
            root == old(self).root_of(i as int),
            root < old(self).num_elements(),
            old(self).root_of(root as int) == root,
            final(self).root_of(root as int) == root,
            final(self).num_elements() == old(self).num_elements(),
            final(self).num_sets() == old(self).num_sets(),
            forall|x: int|
                0 <= x < old(self).num_elements() ==> #[trigger] final(self).root_of(x)
                    == old(self).root_of(x) && final(self).rank_of(x) == old(self).rank_of(x),
            final(self).parent_of(i as int) == root,
            forall|x: int|
                0 <= x < old(self).num_elements() ==> #[trigger] final(self).parent_of(x)
                    == old(self).parent_of(x) || final(self).parent_of(x) == old(self).root_of(x),
    {
        proof {
            reveal(uf_inv);
        }
        let ghost n = self.parent@.len();
        let ghost rep = self.rep@;
        let mut root = i;
        while self.parent[root] != root
            invariant
                self.well_formed(),
                self.parent@.len() == n,
                self.rep@ == rep,
                root < n,
                rep[root as int] == rep[i as int],
            decreases n - self.rank@[root as int],
        {
            proof {
                reveal(uf_inv);
            }
            root = self.parent[root];
        }
        let ghost old_parent = self.parent@;
        let ghost rank = self.rank@;
        let mut cur = i;
        while self.parent[cur] != root
            invariant
                self.well_formed(),
                self.parent@.len() == n,
                self.rep@ == rep,
                self.rank@ == rank,
                self.count == old(self).count,
                self.size@ == old(self).size@,
                cur < n,
                i < n,
                root < n,
                root == rep[i as int],
                rep[cur as int] == rep[i as int],
                cur != i ==> self.parent@[i as int] == root,
                forall|x: int|
                    0 <= x < n ==> #[trigger] self.parent@[x] == old_parent[x] || self.parent@[x]
                        == rep[x],
            decreases n - self.rank@[cur as int],
        {
            proof {
                reveal(uf_inv);
            }
            let next = self.parent[cur];
            let ghost before = self.parent@;
            self.parent.set(cur, root);
            assert(self.parent@ == before.update(cur as int, root));
            proof {
                if cur == i {
                    assert(self.parent@[i as int] == root);
                } else {
                    assert(before[i as int] == root);
                    assert(self.parent@[i as int] == root);
                }
                assert forall|x: int| 0 <= x < n implies rep[#[trigger] self.parent@[x] as int]
                    == rep[x] by {}
                assert forall|x: int|
                    0 <= x < n && #[trigger] self.parent@[x] != x implies self.rank@[x]
                    < self.rank@[self.parent@[x] as int] by {
                    if x == cur {
                        assert(self.rank@[next as int] <= self.rank@[rep[next as int]]);
                    }
                }
            }
            cur = next;
        }
        root
    }

    /// Merge the sets containing `i` and `j` by rank. Returns `false` if
    /// they were already in the same set.
    #[verifier::rlimit(40)]
    pub fn union(&mut self, i: usize, j: usize) -> (merged_any: bool)
        requires
            old(self).well_formed(),
            i < old(self).num_elements(),
            j < old(self).num_elements(),
        ensures
            final(self).well_formed(),
            final(self).num_elements() == old(self).num_elements(),
            merged_any == (old(self).root_of(i as int) != old(self).root_of(j as int)),
            final(self).root_of(i as int) == final(self).root_of(j as int),
            forall|x: int, y: int|
                0 <= x < old(self).num_elements() && 0 <= y < old(self).num_elements()
                    && #[trigger] old(self).root_of(x) == #[trigger] old(self).root_of(y)
                    ==> final(self).root_of(x) == final(self).root_of(y),
            !merged_any ==> final(self).num_sets() == old(self).num_sets() && forall|x: int|
                0 <= x < old(self).num_elements() ==> #[trigger] final(self).root_of(x)
                    == old(self).root_of(x) && final(self).rank_of(x) == old(self).rank_of(x),
            merged_any ==> ({
                let ri = old(self).root_of(i as int);
                let rj = old(self).root_of(j as int);
                let w = union_winner(old(self).rank_of(ri), old(self).rank_of(rj), ri, rj);
                let l = if w == ri { rj } else { ri };
                &&& final(self).num_sets() + 1 == old(self).num_sets()
                &&& forall|x: int|
                    0 <= x < old(self).num_elements() ==> #[trigger] final(self).root_of(x) == (
                    if old(self).root_of(x) == l {
                        w
                    } else {
                        old(self).root_of(x)
                    })
                &&& final(self).rank_of(w) == (if old(self).rank_of(ri) == old(self).rank_of(rj) {
                    old(self).rank_of(w) + 1
                } else {
                    old(self).rank_of(w)
                })
                &&& forall|x: int|
                    0 <= x < old(self).num_elements() && x != w ==> #[trigger] final(self).rank_of(x)
                        == old(self).rank_of(x)
            }),
            merged_any ==> final(self).set_of(i as int) == old(self).set_of(i as int) + old(
                self,
            ).set_of(j as int),
            merged_any ==> final(self).set_of(i as int).len() == old(self).set_of(i as int).len()
                + old(self).set_of(j as int).len(),
    {
        let ri = self.find(i);
        let rj = self.find(j);
        if ri == rj {
            return false;
        }
        let ghost n = self.parent@.len();
        let ghost rep = self.rep@;
        assert forall|x: int| 0 <= x < n implies rep[x] == #[trigger] old(self).root_of(x) by {
            assert(self.root_of(x) == old(self).root_of(x));
        }
        assert forall|x: int| 0 <= x < n implies self.rank@[x] == #[trigger] old(self).rank_of(x) by {
            assert(self.root_of(x) == old(self).root_of(x));
        }
        let ghost parent0 = self.parent@;
        let ghost rank0 = self.rank@;
        let ghost size0 = self.size@;
        proof {
            assert(self.root_of(i as int) == ri);
            assert(self.root_of(j as int) == rj);
            self.lemma_root_facts(i as int);
            self.lemma_root_facts(j as int);
        }
        let n_exec = self.parent.len();
        assert(n == n_exec);
        let rank_i = self.rank[ri];
        let rank_j = self.rank[rj];
        let small;
        let large;
        if rank_i < rank_j {
            small = ri;
            large = rj;
            proof {
                lemma_link(parent0, rank0, size0, rep, self.count as nat, small as int, large as int, false);
            }
        } else if rank_i > rank_j {
            small = rj;
            large = ri;
            proof {
                lemma_link(parent0, rank0, size0, rep, self.count as nat, small as int, large as int, false);
            }
        } else {
            proof {
                lemma_link(parent0, rank0, size0, rep, self.count as nat, rj as int, ri as int, true);
                assert(rank_i < n);
            }
            self.rank.set(ri, rank_i + 1);
            small = rj;
            large = ri;
        }
        let size_small = self.size[small];
        let size_large = self.size[large];
        self.parent.set(small, large);
        self.size.set(large, size_large + size_small);
        self.count = self.count - 1;
        self.rep = Ghost(merged(rep, small as int, large as int));
        proof {
            assert(self.size@ == size0.update(
                large as int,
                (size0[small as int] + size0[large as int]) as usize,
            ));
            assert forall|x: int| 0 <= x < n implies #[trigger] self.root_of(x) == (if old(self).root_of(x) == small {
                large as int
            } else {
                old(self).root_of(x)
            }) by {}
            assert forall|x: int| 0 <= x < n && x != large implies #[trigger] self.rank_of(x)
                == old(self).rank_of(x) by {
                assert(self.rank@[x] == rank0[x]);
                assert(rank0[x] == old(self).rank_of(x));
            }
            let si = old(self).set_of(i as int);
            let sj = old(self).set_of(j as int);
            assert(self.set_of(i as int) =~= si + sj);
            old(self).lemma_set_finite(i as int);
            old(self).lemma_set_finite(j as int);
            assert(si.disjoint(sj));
            lemma_set_disjoint_lens(si, sj);
        }
        true
    }

    /// Return true if `i` and `j` share a root, without mutating state.
    pub fn connected(&self, i: usize, j: usize) -> (r: bool)
        requires
            self.well_formed(),
            i < self.num_elements(),
            j < self.num_elements(),
        ensures
            r == (self.root_of(i as int) == self.root_of(j as int)),
    {
        self.root_no_compress(i) == self.root_no_compress(j)
    }

    /// Return the size of the set containing `i`.
    pub fn set_size(&self, i: usize) -> (r: usize)
        requires
            self.well_formed(),
            i < self.num_elements(),
        ensures
            r == self.set_of(i as int).len(),
    {
        proof {
            reveal(uf_inv);
        }
        let root = self.root_no_compress(i);
        assert(self.set_of(i as int) =~= class_in(self.rep@, self.parent@.len(), root as int));
        self.size[root]
    }

    /// The parent link of element `i`.
    pub fn parent(&self, i: usize) -> (r: usize)
        requires
            self.well_formed(),
            i < self.num_elements(),
        ensures
            r == self.parent_of(i as int),
    {
        self.parent[i]
    }

    fn root_no_compress(&self, i: usize) -> (r: usize)
        requires
            self.well_formed(),
            i < self.num_elements(),
        ensures
            r == self.root_of(i as int),
    {
        proof {
            reveal(uf_inv);
        }
        let ghost n = self.parent@.len();
        let mut cur = i;
        while self.parent[cur] != cur
            invariant
                self.well_formed(),
                self.parent@.len() == n,
                cur < n,
                self.rep@[cur as int] == self.rep@[i as int],
            decreases n - self.rank@[cur as int],
        {
            proof {
                reveal(uf_inv);
            }
            cur = self.parent[cur];
        }
        cur
    }
}

} // verus!

verus! {

use crate::storage::Clip;
use crate::text::chars_of;
use std::collections::HashMap;

broadcast use vstd::std_specs::hash::group_hash_axioms;

/// The ids among the first `upto` positions whose root is `r`, in position
/// order.
pub open spec fn members_upto(ids: Seq<i64>, roots: Seq<int>, r: int, upto: int) -> Seq<i64>
    decreases upto,
{
    if upto <= 0 {
        Seq::empty()
    } else if roots[upto - 1] == r {
        members_upto(ids, roots, r, upto - 1).push(ids[upto - 1])
    } else {
        members_upto(ids, roots, r, upto - 1)
    }
}

/// The ids whose root is `r`, in position order.
pub open spec fn members(ids: Seq<i64>, roots: Seq<int>, r: int) -> Seq<i64> {
    members_upto(ids, roots, r, ids.len() as int)
}

proof fn lemma_members_absent(ids: Seq<i64>, roots: Seq<int>, r: int, upto: int)
    requires
        forall|x: int| 0 <= x < upto ==> roots[x] != r,
    ensures
        members_upto(ids, roots, r, upto) == Seq::<i64>::empty(),
    decreases upto,
{
    if upto > 0 {
        lemma_members_absent(ids, roots, r, upto - 1);
    }
}

proof fn lemma_members_from_positions(ids: Seq<i64>, roots: Seq<int>, r: int, upto: int)
    ensures
        forall|k: int|
            0 <= k < members_upto(ids, roots, r, upto).len() ==> exists|x: int|
                0 <= x < upto && roots[x] == r && #[trigger] members_upto(ids, roots, r, upto)[k] == ids[x],
    decreases upto,
{
    if upto > 0 {
        lemma_members_from_positions(ids, roots, r, upto - 1);
        let prev = members_upto(ids, roots, r, upto - 1);
        assert forall|k: int|
            0 <= k < members_upto(ids, roots, r, upto).len() implies exists|x: int|
                0 <= x < upto && roots[x] == r && #[trigger] members_upto(ids, roots, r, upto)[k] == ids[x] by {
            if k < prev.len() {
                assert(members_upto(ids, roots, r, upto)[k] == prev[k]);
            } else {
                assert(members_upto(ids, roots, r, upto)[k] == ids[upto - 1]);
            }
        }
    }
}

/// Maps SQLite clip ids to Union-Find indices and exposes group queries.
pub struct ClipGroupManager {
    uf: UnionFind,
    clip_ids: Vec<i64>,
    id_to_index: HashMap<i64, usize>,
}

impl ClipGroupManager {
    /// The clip id each union-find index was registered for, in
    /// registration order; removed ids keep their place.
    pub closed spec fn ids(&self) -> Seq<i64> {
        self.clip_ids@
    }

    /// The union-find index each registered id was given.
    pub closed spec fn index_map(&self) -> Map<i64, usize> {
        self.id_to_index@
    }

    /// The partition the manager holds.
    pub closed spec fn partition(&self) -> UnionFind {
        self.uf
    }

    /// The clip registered at union-find index `i` is still tracked.
    pub open spec fn tracked_at(&self, i: int) -> bool {
        self.index_map().contains_key(self.ids()[i]) && self.index_map()[self.ids()[i]] == i
    }

    /// The root of the set at each position of `ids()`, a position being
    /// a union-find index; `-1`, which is no root, where the clip was
    /// removed.
    pub open spec fn position_roots(&self) -> Seq<int> {
        Seq::new(
            self.ids().len(),
            |i: int|
                if self.tracked_at(i) {
                    self.partition().root_of(i)
                } else {
                    -1
                },
        )
    }

    /// The roots of the sets that hold a tracked clip.
    pub open spec fn group_roots(&self) -> Set<int> {
        Set::new(
            |r: int|
                exists|i: int| 0 <= i < self.ids().len() && self.tracked_at(i) && #[trigger] self.partition().root_of(i) == r,
        )
    }

    /// The tracked ids grouped with the id at union-find index `idx`, in
    /// position order.
    pub open spec fn group_at(&self, idx: int) -> Seq<i64> {
        members(self.ids(), self.position_roots(), self.partition().root_of(idx))
    }

    /// Each union-find index has the id it was registered for, and every
    /// tracked id names an element of the partition registered for it.
    pub closed spec fn well_formed(&self) -> bool {
        &&& self.uf.well_formed()
        &&& self.clip_ids@.len() == self.uf.num_elements()
        &&& forall|id: i64| #[trigger]
            self.id_to_index@.contains_key(id) ==> self.id_to_index@[id] < self.uf.num_elements()
                && self.clip_ids@[self.id_to_index@[id] as int] == id
    }

    /// Every registered id names an element of the partition, which is
    /// itself well formed.
    pub proof fn lemma_indices_bounded(&self)
        requires
            self.well_formed(),
        ensures
            self.partition().well_formed(),
            self.ids().len() == self.partition().num_elements(),
            forall|id: i64| #[trigger]
                self.index_map().contains_key(id) ==> self.index_map()[id] < self.partition().num_elements()
                    && self.ids()[self.index_map()[id] as int] == id,
    {
    }

    /// Every member of a group is tracked, and its own group is that group.
    pub proof fn lemma_group_of_member(&self, x: int, id: i64)
        requires
            self.well_formed(),
            0 <= x < self.ids().len(),
            self.group_at(x).contains(id),
        ensures
            self.index_map().contains_key(id),
            self.group_at(self.index_map()[id] as int) == self.group_at(x),
    {
        let ids = self.ids();
        let roots = self.position_roots();
        let n = ids.len() as int;
        let r = self.partition().root_of(x);
        self.partition().lemma_structure();
        lemma_members_from_positions(ids, roots, r, n);
        let k = choose|k: int| 0 <= k < self.group_at(x).len() && self.group_at(x)[k] == id;
        let p = choose|p: int|
            0 <= p < n && roots[p] == r && #[trigger] members_upto(ids, roots, r, n)[k] == ids[p];
        assert(self.tracked_at(p));
        assert(self.index_map()[id] == p);
        assert(self.partition().root_of(p) == r);
    }

    /// Two different groups share no clip id.
    pub proof fn lemma_groups_disjoint(&self, x: int, y: int, id: i64)
        requires
            self.well_formed(),
            0 <= x < self.ids().len(),
            0 <= y < self.ids().len(),
            self.group_at(x) != self.group_at(y),
            self.group_at(x).contains(id),
        ensures
            !self.group_at(y).contains(id),
    {
        let ids = self.ids();
        let roots = self.position_roots();
        let n = ids.len() as int;
        let r1 = self.partition().root_of(x);
        let r2 = self.partition().root_of(y);
        self.partition().lemma_structure();
        if self.group_at(y).contains(id) {
            lemma_members_from_positions(ids, roots, r1, n);
            lemma_members_from_positions(ids, roots, r2, n);
            let k1 = choose|k: int| 0 <= k < self.group_at(x).len() && self.group_at(x)[k] == id;
            let k2 = choose|k: int| 0 <= k < self.group_at(y).len() && self.group_at(y)[k] == id;
            let p = choose|p: int|
                0 <= p < n && roots[p] == r1 && #[trigger] members_upto(ids, roots, r1, n)[k1] == ids[p];
            let q = choose|q: int|
                0 <= q < n && roots[q] == r2 && #[trigger] members_upto(ids, roots, r2, n)[k2] == ids[q];
            assert(self.tracked_at(p) && self.tracked_at(q));
            assert(p == q);
            assert(false);
        }
    }

    /// Create an empty manager.
    pub fn new() -> (r: Self)
        ensures
            r.well_formed(),
            r.ids() == Seq::<i64>::empty(),
            r.index_map() == Map::<i64, usize>::empty(),
            r.partition().num_elements() == 0,
            r.partition().num_sets() == 0,
    {
        let r = ClipGroupManager {
            uf: UnionFind::new(0),
            clip_ids: Vec::new(),
            id_to_index: HashMap::new(),
        };
        assert(r.clip_ids@ =~= Seq::<i64>::empty());
        r
    }

    /// Register a clip id as a new singleton set. No-op if already present.
    pub fn add_clip(&mut self, clip_id: i64)
        requires
            old(self).well_formed(),
            old(self).partition().num_elements() < usize::MAX,
        ensures
            final(self).well_formed(),
            old(self).index_map().contains_key(clip_id) ==> *final(self) == *old(self),
            !old(self).index_map().contains_key(clip_id) ==> {
                let idx = old(self).partition().num_elements();
                &&& final(self).ids() == old(self).ids().push(clip_id)
                &&& final(self).index_map() == old(self).index_map().insert(clip_id, idx as usize)
                &&& final(self).partition().num_elements() == idx + 1
                &&& final(self).partition().num_sets() == old(self).partition().num_sets() + 1
                &&& final(self).partition().root_of(idx as int) == idx
                &&& forall|x: int|
                    0 <= x < idx ==> #[trigger] final(self).partition().root_of(x) == old(self).partition().root_of(x)
            },
    {
        if self.id_to_index.contains_key(&clip_id) {
            return;
        }
        let idx = self.uf.add_element();
        self.clip_ids.push(clip_id);
        self.id_to_index.insert(clip_id, idx);
        proof {
            assert forall|id: i64| #[trigger] self.id_to_index@.contains_key(id) implies self.id_to_index@[id]
                < self.uf.num_elements() && self.clip_ids@[self.id_to_index@[id] as int] == id by {
                if id != clip_id {
                    assert(old(self).id_to_index@.contains_key(id));
                }
            }
        }
    }

    /// Union the sets containing the two clip ids. No-op if either is unknown.
    pub fn group_clips(&mut self, clip_id_a: i64, clip_id_b: i64)
        requires
            old(self).well_formed(),
        ensures
            final(self).well_formed(),
            final(self).ids() == old(self).ids(),
            final(self).index_map() == old(self).index_map(),
            final(self).partition().num_elements() == old(self).partition().num_elements(),
            !(old(self).index_map().contains_key(clip_id_a) && old(self).index_map().contains_key(
                clip_id_b,
            )) ==> *final(self) == *old(self),
            old(self).index_map().contains_key(clip_id_a) && old(self).index_map().contains_key(
                clip_id_b,
            ) ==> {
                let ra = old(self).partition().root_of(old(self).index_map()[clip_id_a] as int);
                let rb = old(self).partition().root_of(old(self).index_map()[clip_id_b] as int);
                let w = union_winner(
                    old(self).partition().rank_of(ra),
                    old(self).partition().rank_of(rb),
                    ra,
                    rb,
                );
                &&& final(self).partition().root_of(old(self).index_map()[clip_id_a] as int)
                    == final(self).partition().root_of(old(self).index_map()[clip_id_b] as int)
                &&& forall|x: int|
                    0 <= x < old(self).partition().num_elements() ==> #[trigger] final(self).partition().root_of(x) == (if old(self).partition().root_of(x) == ra
                        || old(self).partition().root_of(x) == rb {
                        w
                    } else {
                        old(self).partition().root_of(x)
                    })
            },
    {
        let ia = match self.id_to_index.get(&clip_id_a) {
            Some(i) => *i,
            None => return ,
        };
        let ib = match self.id_to_index.get(&clip_id_b) {
            Some(i) => *i,
            None => return ,
        };
        self.uf.union(ia, ib);
        proof {
            self.uf.lemma_structure();
            old(self).uf.lemma_structure();
        }
    }

    /// Return true if the two clip ids are in the same group.
    pub fn same_group(&mut self, clip_id_a: i64, clip_id_b: i64) -> (r: bool)
        requires
            old(self).well_formed(),
        ensures
            final(self).well_formed(),
            final(self).ids() == old(self).ids(),
            final(self).index_map() == old(self).index_map(),
            final(self).partition().num_elements() == old(self).partition().num_elements(),
            final(self).partition().num_sets() == old(self).partition().num_sets(),
            forall|x: int|
                0 <= x < old(self).partition().num_elements() ==> #[trigger] final(self).partition().root_of(x) == old(self).partition().root_of(x) && final(self).partition().rank_of(x) == old(self).partition().rank_of(x),
            r == (old(self).index_map().contains_key(clip_id_a) && old(self).index_map().contains_key(clip_id_b) && old(self).partition().root_of(
                old(self).index_map()[clip_id_a] as int,
            ) == old(self).partition().root_of(old(self).index_map()[clip_id_b] as int)),
    {
        let ia = match self.id_to_index.get(&clip_id_a) {
            Some(i) => *i,
            None => return false,
        };
        let ib = match self.id_to_index.get(&clip_id_b) {
            Some(i) => *i,
            None => return false,
        };
        let ra = self.uf.find(ia);
        let ghost mid = self.uf;
        let rb = self.uf.find(ib);
        proof {
            assert forall|x: int| 0 <= x < old(self).partition().num_elements() implies #[trigger] self.partition().root_of(x)
                == old(self).partition().root_of(x) && self.partition().rank_of(x) == old(self).partition().rank_of(x) by {
                assert(self.uf.root_of(x) == mid.root_of(x));
                assert(mid.root_of(x) == old(self).uf.root_of(x));
            }
        }
        ra == rb
    }

    /// Return all clip ids in the same group as `clip_id`, including itself.
    pub fn get_group(&mut self, clip_id: i64) -> (out: Vec<i64>)
        requires
            old(self).well_formed(),
        ensures
            final(self).well_formed(),
            final(self).ids() == old(self).ids(),
            final(self).index_map() == old(self).index_map(),
            final(self).partition().num_elements() == old(self).partition().num_elements(),
            final(self).partition().num_sets() == old(self).partition().num_sets(),
            forall|x: int|
                0 <= x < old(self).partition().num_elements() ==> #[trigger] final(self).partition().root_of(x) == old(self).partition().root_of(x) && final(self).partition().rank_of(x) == old(self).partition().rank_of(x),
            !old(self).index_map().contains_key(clip_id) ==> out@ == Seq::<i64>::empty(),
            old(self).index_map().contains_key(clip_id) ==> out@ == old(self).group_at(
                old(self).index_map()[clip_id] as int,
            ),
    {
        let idx = match self.id_to_index.get(&clip_id) {
            Some(i) => *i,
            None => return Vec::new(),
        };
        let ghost roots = old(self).position_roots();
        let ghost ids = old(self).ids();
        let root = self.uf.find(idx);
        let mut out: Vec<i64> = Vec::new();
        let mut i: usize = 0;
        while i < self.clip_ids.len()
            invariant
                self.well_formed(),
                self.clip_ids@ == ids,
                self.id_to_index@ == old(self).id_to_index@,
                self.uf.num_elements() == old(self).uf.num_elements(),
                self.uf.num_sets() == old(self).uf.num_sets(),
                forall|x: int|
                    0 <= x < old(self).uf.num_elements() ==> #[trigger] self.uf.root_of(x)
                        == old(self).uf.root_of(x) && self.uf.rank_of(x) == old(self).uf.rank_of(x),
                roots == old(self).position_roots(),
                ids == old(self).ids(),
                root == old(self).uf.root_of(idx as int),
                i <= ids.len(),
                out@ == members_upto(ids, roots, root as int, i as int),
            decreases ids.len() - i,
        {
            proof {
                assert(i < self.uf.num_elements());
                self.uf.lemma_structure();
            }
            if self.is_live(i) {
                proof {
                    assert(roots[i as int] == old(self).uf.root_of(i as int));
                }
                let r = self.uf.find(i);
                if r == root {
                    out.push(self.clip_ids[i]);
                }
            } else {
                proof {
                    assert(roots[i as int] == -1);
                }
            }
            i = i + 1;
        }
        out
    }

    /// Return all groups of size greater than one, each as a list of clip
    /// ids in registration order. Groups come in the order of their first
    /// member.
    #[verifier::rlimit(60)]
    pub fn all_groups(&mut self) -> (out: Vec<Vec<i64>>)
        requires
            old(self).well_formed(),
        ensures
            final(self).well_formed(),
            final(self).ids() == old(self).ids(),
            final(self).index_map() == old(self).index_map(),
            final(self).partition().num_elements() == old(self).partition().num_elements(),
            final(self).partition().num_sets() == old(self).partition().num_sets(),
            forall|x: int|
                0 <= x < old(self).partition().num_elements() ==> #[trigger] final(self).partition().root_of(x) == old(self).partition().root_of(x) && final(self).partition().rank_of(x) == old(self).partition().rank_of(x),
            forall|k: int|
                0 <= k < out.len() ==> out@[k]@.len() > 1 && exists|x: int|
                    0 <= x < old(self).ids().len() && #[trigger] old(self).group_at(x) == out@[k]@,
            forall|x: int|
                0 <= x < old(self).ids().len() && #[trigger] old(self).group_at(x).len() > 1
                    ==> exists|k: int| 0 <= k < out.len() && out@[k]@ == old(self).group_at(x),
            forall|k1: int, k2: int|
                0 <= k1 < out.len() && 0 <= k2 < out.len() && k1 != k2 ==> out@[k1]@ != out@[k2]@,
            forall|k1: int, k2: int, id: i64|
                0 <= k1 < out.len() && 0 <= k2 < out.len() && k1 != k2 && #[trigger] out@[k1]@.contains(
                    id,
                ) ==> !#[trigger] out@[k2]@.contains(id),
            forall|k: int, id: i64|
                0 <= k < out.len() && #[trigger] out@[k]@.contains(id) ==> old(self).index_map().contains_key(id)
                    && old(self).group_at(old(self).index_map()[id] as int) == out@[k]@,
    {
        let ghost roots = old(self).position_roots();
        let ghost ids = old(self).ids();
        let n = self.clip_ids.len();
        let mut bucket_roots: Vec<usize> = Vec::new();
        let mut bucket_ids: Vec<Vec<i64>> = Vec::new();
        let mut i: usize = 0;
        while i < n
            invariant
                self.well_formed(),
                self.clip_ids@ == ids,
                self.id_to_index@ == old(self).id_to_index@,
                self.uf.num_elements() == old(self).uf.num_elements(),
                self.uf.num_sets() == old(self).uf.num_sets(),
                forall|x: int|
                    0 <= x < old(self).uf.num_elements() ==> #[trigger] self.uf.root_of(x)
                        == old(self).uf.root_of(x) && self.uf.rank_of(x) == old(self).uf.rank_of(x),
                roots == old(self).position_roots(),
                ids == old(self).ids(),
                n == ids.len(),
                i <= n,
                bucket_roots.len() == bucket_ids.len(),
                forall|b1: int, b2: int|
                    0 <= b1 < bucket_roots.len() && 0 <= b2 < bucket_roots.len() && b1 != b2
                        ==> bucket_roots@[b1] != bucket_roots@[b2],
                forall|b: int|
                    0 <= b < bucket_roots.len() ==> #[trigger] bucket_ids@[b]@ == members_upto(
                        ids,
                        roots,
                        bucket_roots@[b] as int,
                        i as int,
                    ) && bucket_ids@[b]@.len() > 0,
                forall|x: int|
                    0 <= x < i && roots[x] >= 0 ==> exists|b: int|
                        0 <= b < bucket_roots.len() && bucket_roots@[b] == #[trigger] roots[x],
            decreases n - i,
        {
            proof {
                assert(i < self.uf.num_elements());
                self.uf.lemma_structure();
            }
            if !self.is_live(i) {
                proof {
                    assert(roots[i as int] == -1);
                    assert forall|c: int|
                        0 <= c < bucket_roots.len() implies #[trigger] bucket_ids@[c]@
                        == members_upto(ids, roots, bucket_roots@[c] as int, i + 1) && bucket_ids@[c]@.len() > 0 by {
                        assert(members_upto(ids, roots, bucket_roots@[c] as int, i + 1) == members_upto(ids, roots, bucket_roots@[c] as int, i as int));
                    }
                    assert forall|x: int| 0 <= x < i + 1 && roots[x] >= 0 implies exists|c: int|
                        0 <= c < bucket_roots.len() && bucket_roots@[c] == #[trigger] roots[x] by {
                        assert(x < i);
                    }
                }
                i = i + 1;
                continue;
            }
            proof {
                assert(roots[i as int] == old(self).uf.root_of(i as int));
            }
            let ghost uf_before = self.uf;
            let r = self.uf.find(i);
            proof {
                assert forall|x: int| 0 <= x < old(self).uf.num_elements() implies #[trigger] self.uf.root_of(x)
                    == old(self).uf.root_of(x) && self.uf.rank_of(x) == old(self).uf.rank_of(x) by {
                    assert(self.uf.root_of(x) == uf_before.root_of(x));
                    assert(uf_before.root_of(x) == old(self).uf.root_of(x));
                }
            }
            let id = self.clip_ids[i];
            let mut b: usize = 0;
            while b < bucket_roots.len() && bucket_roots[b] != r
                invariant
                    b <= bucket_roots.len(),
                    forall|c: int| 0 <= c < b ==> bucket_roots@[c] != r,
                decreases bucket_roots.len() - b,
            {
                b = b + 1;
            }
            let ghost old_roots = bucket_roots@;
            let ghost old_ids = bucket_ids@;
            if b < bucket_roots.len() {
                let mut group: Vec<i64> = Vec::new();
                bucket_ids.set_and_swap(b, &mut group);
                group.push(id);
                bucket_ids.set(b, group);
                proof {
                    assert forall|c: int|
                        0 <= c < bucket_roots.len() implies #[trigger] bucket_ids@[c]@
                        == members_upto(ids, roots, bucket_roots@[c] as int, i + 1) && bucket_ids@[c]@.len() > 0 by {
                        if c != b {
                            assert(bucket_ids@[c] == old_ids[c]);
                        }
                    }
                }
            } else {
                let mut group: Vec<i64> = Vec::new();
                group.push(id);
                proof {
                    lemma_members_absent(ids, roots, r as int, i as int);
                    assert(group@ =~= members_upto(ids, roots, r as int, i + 1));
                }
                bucket_roots.push(r);
                bucket_ids.push(group);
                proof {
                    assert forall|c: int|
                        0 <= c < bucket_roots.len() implies #[trigger] bucket_ids@[c]@
                        == members_upto(ids, roots, bucket_roots@[c] as int, i + 1) && bucket_ids@[c]@.len() > 0 by {
                        if c < old_roots.len() {
                            assert(bucket_ids@[c] == old_ids[c]);
                        }
                    }
                }
            }
            proof {
                assert forall|x: int| 0 <= x < i + 1 && roots[x] >= 0 implies exists|c: int|
                    0 <= c < bucket_roots.len() && bucket_roots@[c] == #[trigger] roots[x] by {
                    if x == i {
                        assert(bucket_roots@[b as int] == roots[x]);
                    } else {
                        let c = choose|c: int| 0 <= c < old_roots.len() && old_roots[c] == roots[x];
                        assert(bucket_roots@[c] == roots[x]);
                    }
                }
            }
            i = i + 1;
        }
        let ghost gb: Seq<Seq<i64>> = bucket_ids@.map_values(|v: Vec<i64>| v@);
        let ghost broots = bucket_roots@;
        assert forall|c: int| 0 <= c < gb.len() implies #[trigger] gb[c] == members_upto(
            ids,
            roots,
            broots[c] as int,
            n as int,
        ) && gb[c].len() > 0 && 0 <= broots[c] by {
            assert(bucket_ids@[c]@ == members_upto(ids, roots, bucket_roots@[c] as int, i as int));
        }
        let mut out: Vec<Vec<i64>> = Vec::new();
        let ghost mut kept: Seq<int> = Seq::empty();
        let mut b: usize = 0;
        let nb = bucket_ids.len();
        while b < nb
            invariant
                nb == bucket_ids.len(),
                gb.len() == nb,
                b <= nb,
                forall|c: int| b <= c < nb ==> #[trigger] bucket_ids@[c]@ == gb[c],
                kept.len() == out.len(),
                forall|k: int| 0 <= k < kept.len() ==> 0 <= #[trigger] kept[k] < b,
                forall|k1: int, k2: int| 0 <= k1 < k2 < kept.len() ==> kept[k1] < kept[k2],
                forall|k: int|
                    0 <= k < out.len() ==> #[trigger] out@[k]@ == gb[kept[k]] && out@[k]@.len() > 1,
                forall|c: int|
                    0 <= c < b && #[trigger] gb[c].len() > 1 ==> exists|k: int|
                        0 <= k < kept.len() && kept[k] == c,
            decreases nb - b,
        {
            let mut group: Vec<i64> = Vec::new();
            bucket_ids.set_and_swap(b, &mut group);
            assert(group@ == gb[b as int]);
            if group.len() > 1 {
                out.push(group);
                proof {
                    let ghost old_kept = kept;
                    kept = kept.push(b as int);
                    assert forall|c: int|
                        0 <= c < b + 1 && #[trigger] gb[c].len() > 1 implies exists|k: int|
                            0 <= k < kept.len() && kept[k] == c by {
                        if c == b {
                            assert(kept[kept.len() - 1] == c);
                        } else {
                            let k = choose|k: int| 0 <= k < old_kept.len() && old_kept[k] == c;
                            assert(kept[k] == c);
                        }
                    }
                }
            }
            b = b + 1;
        }
        proof {
            assert forall|k: int|
                0 <= k < out.len() implies out@[k]@.len() > 1 && exists|x: int|
                    0 <= x < old(self).ids().len() && #[trigger] old(self).group_at(x) == out@[k]@ by {
                let c = kept[k];
                assert(gb[c].len() > 0);
                lemma_members_from_positions(ids, roots, broots[c] as int, n as int);
                assert(members_upto(ids, roots, broots[c] as int, n as int)[0] == gb[c][0]);
                let x = choose|x: int|
                    0 <= x < n && roots[x] == broots[c] && #[trigger] members_upto(
                        ids,
                        roots,
                        broots[c] as int,
                        n as int,
                    )[0] == ids[x];
                assert(old(self).group_at(x) == gb[c]);
            }
            assert forall|x: int|
                0 <= x < old(self).ids().len() && #[trigger] old(self).group_at(x).len() > 1
                    implies exists|k: int| 0 <= k < out.len() && out@[k]@ == old(self).group_at(x) by {
                let rx = old(self).uf.root_of(x);
                lemma_members_from_positions(ids, roots, rx, n as int);
                let y = choose|y: int|
                    0 <= y < n && roots[y] == rx && #[trigger] members_upto(ids, roots, rx, n as int)[0]
                        == ids[y];
                old(self).uf.lemma_structure();
                assert(roots[y] >= 0);
                let c = choose|c: int| 0 <= c < broots.len() && broots[c] == #[trigger] roots[y];
                assert(gb[c] == old(self).group_at(x));
                let k = choose|k: int| 0 <= k < kept.len() && kept[k] == c;
                assert(out@[k]@ == old(self).group_at(x));
            }
            assert forall|k1: int, k2: int|
                0 <= k1 < out.len() && 0 <= k2 < out.len() && k1 != k2 implies out@[k1]@
                != out@[k2]@ by {
                let c1 = kept[k1];
                let c2 = kept[k2];
                assert(c1 != c2) by {
                    if k1 < k2 {
                        assert(kept[k1] < kept[k2]);
                    } else {
                        assert(kept[k2] < kept[k1]);
                    }
                }
                assert(gb[c1].len() > 0 && gb[c2].len() > 0);
                lemma_members_from_positions(ids, roots, broots[c1] as int, n as int);
                lemma_members_from_positions(ids, roots, broots[c2] as int, n as int);
                assert(members_upto(ids, roots, broots[c1] as int, n as int)[0] == gb[c1][0]);
                assert(members_upto(ids, roots, broots[c2] as int, n as int)[0] == gb[c2][0]);
                if out@[k1]@ == out@[k2]@ {
                    let x1 = choose|x: int|
                        0 <= x < n && roots[x] == broots[c1] && #[trigger] members_upto(
                            ids,
                            roots,
                            broots[c1] as int,
                            n as int,
                        )[0] == ids[x];
                    let x2 = choose|x: int|
                        0 <= x < n && roots[x] == broots[c2] && #[trigger] members_upto(
                            ids,
                            roots,
                            broots[c2] as int,
                            n as int,
                        )[0] == ids[x];
                    assert(ids[x1] == ids[x2]);
                    assert(x1 == x2);
                }
            }
            assert forall|k1: int, k2: int, id: i64|
                0 <= k1 < out.len() && 0 <= k2 < out.len() && k1 != k2 && #[trigger] out@[k1]@.contains(
                    id,
                ) implies !#[trigger] out@[k2]@.contains(id) by {
                let x1 = choose|x: int| 0 <= x < old(self).ids().len() && #[trigger] old(self).group_at(x) == out@[k1]@;
                let x2 = choose|x: int| 0 <= x < old(self).ids().len() && #[trigger] old(self).group_at(x) == out@[k2]@;
                old(self).lemma_groups_disjoint(x1, x2, id);
            }
            assert forall|k: int, id: i64| 0 <= k < out.len() && #[trigger] out@[k]@.contains(id) implies old(
                self,
            ).index_map().contains_key(id) && old(self).group_at(old(self).index_map()[id] as int) == out@[k]@ by {
                let x = choose|x: int| 0 <= x < old(self).ids().len() && #[trigger] old(self).group_at(x) == out@[k]@;
                old(self).lemma_group_of_member(x, id);
            }
        }
        out
    }

    /// Remove a clip id from the manager. Does not re-parent its children;
    /// the orphan index is left dangling but will not appear in group
    /// queries, and every other grouping stays as it was.
    pub fn remove_clip(&mut self, clip_id: i64)
        requires
            old(self).well_formed(),
        ensures
            final(self).well_formed(),
            final(self).partition() == old(self).partition(),
            final(self).ids() == old(self).ids(),
            final(self).index_map() == old(self).index_map().remove(clip_id),
    {
        self.id_to_index.remove(&clip_id);
    }

    /// Whether the clip registered at union-find index `i` is still tracked.
    fn is_live(&self, i: usize) -> (b: bool)
        requires
            self.well_formed(),
            i < self.ids().len(),
        ensures
            b == self.tracked_at(i as int),
    {
        match self.id_to_index.get(&self.clip_ids[i]) {
            Some(j) => *j == i,
            None => false,
        }
    }

    /// Return the count of disjoint sets across all tracked clips.
    pub fn group_count(&self) -> (r: usize)
        requires
            self.well_formed(),
        ensures
            r == self.group_roots().len(),
    {
        let n = self.clip_ids.len();
        let ghost mut seen: Set<int> = Set::empty();
        let mut count: usize = 0;
        let mut i: usize = 0;
        proof {
            self.uf.lemma_structure();
        }
        while i < n
            invariant
                n == self.ids().len(),
                n == self.uf.num_elements(),
                self.well_formed(),
                i <= n,
                seen.finite(),
                seen.len() == count,
                count <= i,
                seen =~= Set::new(
                    |r: int|
                        exists|j: int| 0 <= j < i && self.tracked_at(j) && #[trigger] self.uf.root_of(j) == r,
                ),
            decreases n - i,
        {
            if self.is_live(i) {
                let mut earlier = false;
                let mut j: usize = 0;
                while j < i
                    invariant
                        j <= i < n,
                        n == self.uf.num_elements(),
                        self.well_formed(),
                        earlier == exists|t: int|
                            0 <= t < j && self.tracked_at(t) && self.uf.root_of(t) == self.uf.root_of(i as int),
                    decreases i - j,
                {
                    if !earlier && self.is_live(j) && self.uf.connected(j, i) {
                        earlier = true;
                    }
                    j = j + 1;
                }
                let ghost r = self.uf.root_of(i as int);
                if !earlier {
                    proof {
                        assert(!seen.contains(r));
                        seen = seen.insert(r);
                    }
                    count = count + 1;
                } else {
                    proof {
                        let t = choose|t: int|
                            0 <= t < i && self.tracked_at(t) && self.uf.root_of(t) == self.uf.root_of(i as int);
                        assert(seen.contains(r));
                    }
                }
                proof {
                    assert(seen =~= Set::new(
                        |rr: int|
                            exists|t: int| 0 <= t < i + 1 && self.tracked_at(t) && #[trigger] self.uf.root_of(t) == rr,
                    )) by {
                        assert forall|rr: int| #[trigger] seen.contains(rr) implies exists|t: int|
                            0 <= t < i + 1 && self.tracked_at(t) && #[trigger] self.uf.root_of(t) == rr by {
                            if rr != r {
                                let t = choose|t: int| 0 <= t < i && self.tracked_at(t) && #[trigger] self.uf.root_of(t) == rr;
                                assert(0 <= t < i + 1);
                            } else {
                                assert(0 <= i < i + 1 && self.tracked_at(i as int) && self.uf.root_of(i as int) == rr);
                            }
                        }
                        assert forall|rr: int| (exists|t: int| 0 <= t < i + 1 && self.tracked_at(t) && #[trigger] self.uf.root_of(t) == rr) implies seen.contains(rr) by {
                            let t = choose|t: int| 0 <= t < i + 1 && self.tracked_at(t) && #[trigger] self.uf.root_of(t) == rr;
                            if t < i {
                                assert(exists|t2: int| 0 <= t2 < i && self.tracked_at(t2) && #[trigger] self.uf.root_of(t2) == rr);
                            }
                        }
                    }
                }
            } else {
                proof {
                    assert(seen =~= Set::new(
                        |rr: int|
                            exists|t: int| 0 <= t < i + 1 && self.tracked_at(t) && #[trigger] self.uf.root_of(t) == rr,
                    )) by {
                        assert forall|rr: int| (exists|t: int| 0 <= t < i + 1 && self.tracked_at(t) && #[trigger] self.uf.root_of(t) == rr) implies seen.contains(rr) by {
                            let t = choose|t: int| 0 <= t < i + 1 && self.tracked_at(t) && #[trigger] self.uf.root_of(t) == rr;
                            assert(t < i);
                            assert(exists|t2: int| 0 <= t2 < i && self.tracked_at(t2) && #[trigger] self.uf.root_of(t2) == rr);
                        }
                        assert forall|rr: int| #[trigger] seen.contains(rr) implies exists|t: int|
                            0 <= t < i + 1 && self.tracked_at(t) && #[trigger] self.uf.root_of(t) == rr by {
                            let t = choose|t: int| 0 <= t < i && self.tracked_at(t) && #[trigger] self.uf.root_of(t) == rr;
                            assert(0 <= t < i + 1);
                        }
                    }
                }
            }
            i = i + 1;
        }
        proof {
            assert(seen =~= self.group_roots());
        }
        count
    }
}

/// Length of the longest common prefix of `a` and `b`, in characters.
pub open spec fn is_common_prefix_len(a: Seq<char>, b: Seq<char>, k: nat) -> bool {
    &&& k <= a.len()
    &&& k <= b.len()
    &&& a.take(k as int) == b.take(k as int)
    &&& (k == a.len() || k == b.len() || a[k as int] != b[k as int])
}

/// Number of leading characters `a` and `b` have in common.
pub fn shared_prefix_len(a: &str, b: &str) -> (r: usize)
    ensures
        is_common_prefix_len(a@, b@, r as nat),
{
    let ac = chars_of(a);
    let bc = chars_of(b);
    let mut i: usize = 0;
    while i < ac.len() && i < bc.len() && ac[i] == bc[i]
        invariant
            ac@ == a@,
            bc@ == b@,
            i <= ac.len(),
            i <= bc.len(),
            a@.take(i as int) == b@.take(i as int),
        decreases ac.len() - i,
    {
        assert(a@.take(i + 1) =~= a@.take(i as int).push(a@[i as int]));
        assert(b@.take(i + 1) =~= b@.take(i as int).push(b@[i as int]));
        i = i + 1;
    }
    i
}

/// Shared-prefix length, in characters, from which two clips are grouped.
pub const GROUP_PREFIX_LEN: usize = 30;

/// Whether two clips should be auto-grouped: they share a non-empty
/// `source_app`, or their contents share a prefix of at least 30 characters.
pub open spec fn should_group_spec(a: Clip, b: Clip) -> bool {
    ||| (a.source_app matches Some(app_a) && b.source_app matches Some(app_b) && app_a@.len() > 0
        && app_a@ == app_b@)
    ||| exists|k: nat|
        is_common_prefix_len(a.content@, b.content@, k) && k >= GROUP_PREFIX_LEN
}

/// Return true if `a` and `b` should be auto-grouped.
///
/// A pair is grouped when they share a non-empty `source_app` or when their
/// contents share a 30-character or longer prefix.
pub fn should_group(a: &Clip, b: &Clip) -> (r: bool)
    ensures
        r == should_group_spec(*a, *b),
{
    if let (Some(app_a), Some(app_b)) = (&a.source_app, &b.source_app) {
        if !app_a.as_str().is_empty() && *app_a == *app_b {
            return true;
        }
    }
    let k = shared_prefix_len(&a.content, &b.content);
    proof {
        assert(is_common_prefix_len(a.content@, b.content@, k as nat));
        if exists|j: nat| is_common_prefix_len(a.content@, b.content@, j) && j >= GROUP_PREFIX_LEN {
            let j = choose|j: nat|
                is_common_prefix_len(a.content@, b.content@, j) && j >= GROUP_PREFIX_LEN;
            lemma_common_prefix_unique(a.content@, b.content@, j, k as nat);
        }
    }
    k >= GROUP_PREFIX_LEN
}

/// Number of leading characters two sequences agree on.
spec fn agree_len(a: Seq<char>, b: Seq<char>) -> nat
    decreases a.len(),
{
    if a.len() == 0 || b.len() == 0 || a[0] != b[0] {
        0
    } else {
        1 + agree_len(a.drop_first(), b.drop_first())
    }
}

proof fn lemma_agree_len(a: Seq<char>, b: Seq<char>, m: nat)
    requires
        m <= a.len(),
        m <= b.len(),
        a.take(m as int) == b.take(m as int),
    ensures
        is_common_prefix_len(a, b, agree_len(a, b)),
        m <= agree_len(a, b),
    decreases a.len(),
{
    if a.len() == 0 || b.len() == 0 || a[0] != b[0] {
        assert(a.take(0) =~= b.take(0));
        if m > 0 {
            assert(a.take(m as int)[0] == b.take(m as int)[0]);
            assert(a.take(m as int)[0] == a[0] && b.take(m as int)[0] == b[0]);
        }
    } else {
        let a1 = a.drop_first();
        let b1 = b.drop_first();
        let m1: nat = if m > 0 { (m - 1) as nat } else { 0 };
        assert(a1.take(m1 as int) =~= b1.take(m1 as int)) by {
            assert forall|i: int| 0 <= i < m1 implies a1.take(m1 as int)[i] == b1.take(m1 as int)[i] by {
                assert(a.take(m as int)[i + 1] == b.take(m as int)[i + 1]);
                assert(a.take(m as int)[i + 1] == a[i + 1] && a1[i] == a[i + 1]);
                assert(b.take(m as int)[i + 1] == b[i + 1] && b1[i] == b[i + 1]);
            }
        }
        lemma_agree_len(a1, b1, m1);
        let l = agree_len(a, b);
        let l1 = agree_len(a1, b1);
        assert(l == l1 + 1);
        assert(a.take(l as int) =~= b.take(l as int)) by {
            assert forall|i: int| 0 <= i < l implies a.take(l as int)[i] == b.take(l as int)[i] by {
                if i > 0 {
                    assert(a1.take(l1 as int)[i - 1] == b1.take(l1 as int)[i - 1]);
                }
            }
        }
        if l < a.len() && l < b.len() {
            assert(a[l as int] == a1[l1 as int] && b[l as int] == b1[l1 as int]);
        }
    }
}

/// Two clips are grouped exactly when they have the same non-empty source
/// app, or their contents begin with the same 30 characters; the second
/// groups them whatever their source apps are.
pub proof fn lemma_grouping_rule(a: Clip, b: Clip)
    ensures
        (a.content@.len() >= 30 && b.content@.len() >= 30 && a.content@.take(30) == b.content@.take(30))
            ==> should_group_spec(a, b),
        (a.source_app matches Some(x) && b.source_app matches Some(y) && x@.len() > 0 && x@ == y@)
            ==> should_group_spec(a, b),
        should_group_spec(a, b) ==> (a.source_app matches Some(x) && b.source_app matches Some(y)
            && x@.len() > 0 && x@ == y@) || (a.content@.len() >= 30 && b.content@.len() >= 30
            && a.content@.take(30) == b.content@.take(30)),
{
    let ca = a.content@;
    let cb = b.content@;
    if ca.len() >= 30 && cb.len() >= 30 && ca.take(30) == cb.take(30) {
        lemma_agree_len(ca, cb, 30);
        assert(is_common_prefix_len(ca, cb, agree_len(ca, cb)) && agree_len(ca, cb) >= GROUP_PREFIX_LEN);
    }
    if exists|k: nat| is_common_prefix_len(ca, cb, k) && k >= GROUP_PREFIX_LEN {
        let k = choose|k: nat| is_common_prefix_len(ca, cb, k) && k >= GROUP_PREFIX_LEN;
        assert(ca.take(30) =~= cb.take(30)) by {
            assert forall|i: int| 0 <= i < 30 implies ca.take(30)[i] == cb.take(30)[i] by {
                assert(ca.take(k as int)[i] == cb.take(k as int)[i]);
            }
        }
    }
}

proof fn lemma_common_prefix_unique(a: Seq<char>, b: Seq<char>, j: nat, k: nat)
    requires
        is_common_prefix_len(a, b, j),
        is_common_prefix_len(a, b, k),
    ensures
        j == k,
{
    if j < k {
        assert(a.take(k as int)[j as int] == b.take(k as int)[j as int]);
    } else if k < j {
        assert(a.take(j as int)[k as int] == b.take(j as int)[k as int]);
    }
}

} // verus!
