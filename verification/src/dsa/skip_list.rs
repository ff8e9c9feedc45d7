//! A skip list ranking clips by an integer key, highest first, with
//! O(log n) expected insert, remove and top-N.
//!
//! Nodes live in an arena of slots; slot 0 is the head. Each node has a
//! random height, and at each level below its height it links to the next
//! node, in rank order, that is at least as tall. Every link is stated
//! against a ghost sequence of the slots in rank order.
use vstd::prelude::*;

verus! {

/// Most levels a node can have.
pub const MAX_LEVEL: usize = 16;

/// Link value meaning "no next node".
pub const NULL: usize = usize::MAX;

/// `a` ranks before `b`: a higher key, or the same key and a higher id.
pub open spec fn ranks_before(a: (u64, i64), b: (u64, i64)) -> bool {
    a.0 > b.0 || (a.0 == b.0 && a.1 > b.1)
}

/// `r` is in strictly descending rank order.
pub open spec fn sorted_desc(r: Seq<(u64, i64)>) -> bool {
    forall|a: int, b: int| 0 <= a < b < r.len() ==> ranks_before(#[trigger] r[a], #[trigger] r[b])
}

/// Number of leading entries of `r` that rank before `x`: where `x` goes.
pub open spec fn rank_pos(r: Seq<(u64, i64)>, x: (u64, i64)) -> int
    decreases r.len(),
{
    if r.len() == 0 {
        0
    } else if ranks_before(r[0], x) {
        1 + rank_pos(r.drop_first(), x)
    } else {
        0
    }
}

/// Position of the first entry of `r` with id `id`, or `r.len()`.
pub open spec fn id_pos(r: Seq<(u64, i64)>, id: i64) -> int
    decreases r.len(),
{
    if r.len() == 0 {
        0
    } else if r[0].1 == id {
        0
    } else {
        1 + id_pos(r.drop_first(), id)
    }
}

/// `r` without its first entry for `id`, if it has one.
pub open spec fn without_id(r: Seq<(u64, i64)>, id: i64) -> Seq<(u64, i64)> {
    if id_pos(r, id) < r.len() {
        r.remove(id_pos(r, id))
    } else {
        r
    }
}

/// `r` after ranking `id` under `key`: any entry for `id` is dropped and
/// `(key, id)` is placed where it ranks.
pub open spec fn ranked_insert(r: Seq<(u64, i64)>, key: u64, id: i64) -> Seq<(u64, i64)> {
    let base = without_id(r, id);
    base.insert(rank_pos(base, (key, id)), (key, id))
}

/// The ids of `r`, in order.
pub open spec fn ids_of(r: Seq<(u64, i64)>) -> Seq<i64> {
    r.map_values(|e: (u64, i64)| e.1)
}

/// No id occurs twice in `r`.
pub open spec fn unique_ids(r: Seq<(u64, i64)>) -> bool {
    forall|a: int, b: int| 0 <= a < b < r.len() ==> (#[trigger] r[a]).1 != (#[trigger] r[b]).1
}

proof fn lemma_rank_pos(r: Seq<(u64, i64)>, x: (u64, i64))
    requires
        sorted_desc(r),
    ensures
        0 <= rank_pos(r, x) <= r.len(),
        forall|q: int| 0 <= q < r.len() ==> (q < rank_pos(r, x) <==> ranks_before(#[trigger] r[q], x)),
    decreases r.len(),
{
    if r.len() > 0 {
        let d = r.drop_first();
        assert(sorted_desc(d)) by {
            assert forall|a: int, b: int| 0 <= a < b < d.len() implies ranks_before(
                #[trigger] d[a],
                #[trigger] d[b],
            ) by {
                assert(d[a] == r[a + 1] && d[b] == r[b + 1]);
            }
        }
        lemma_rank_pos(d, x);
        if ranks_before(r[0], x) {
            assert forall|q: int| 0 <= q < r.len() implies (q < rank_pos(r, x) <==> ranks_before(
                #[trigger] r[q],
                x,
            )) by {
                if q > 0 {
                    assert(r[q] == d[q - 1]);
                }
            }
        } else {
            assert forall|q: int| 0 <= q < r.len() implies !ranks_before(#[trigger] r[q], x) by {
                if q > 0 {
                    assert(ranks_before(r[0], r[q]));
                }
            }
        }
    }
}

proof fn lemma_id_pos(r: Seq<(u64, i64)>, id: i64)
    ensures
        0 <= id_pos(r, id) <= r.len(),
        forall|q: int| 0 <= q < id_pos(r, id) ==> (#[trigger] r[q]).1 != id,
        id_pos(r, id) < r.len() ==> r[id_pos(r, id)].1 == id,
    decreases r.len(),
{
    if r.len() > 0 && r[0].1 != id {
        let d = r.drop_first();
        lemma_id_pos(d, id);
        assert forall|q: int| 0 <= q < id_pos(r, id) implies (#[trigger] r[q]).1 != id by {
            if q > 0 {
                assert(r[q] == d[q - 1]);
            }
        }
    }
}

/// Index of the first position at or after `q` whose height exceeds `i`,
/// or the length when there is none.
pub open spec fn next_from(lv: Seq<int>, q: int, i: int) -> int
    decreases lv.len() - q,
{
    if q >= lv.len() {
        lv.len() as int
    } else if lv[q] > i {
        q
    } else {
        next_from(lv, q + 1, i)
    }
}

proof fn lemma_next_from(lv: Seq<int>, q: int, i: int)
    requires
        0 <= q <= lv.len(),
    ensures
        q <= next_from(lv, q, i) <= lv.len(),
        forall|r: int| q <= r < next_from(lv, q, i) ==> #[trigger] lv[r] <= i,
        next_from(lv, q, i) < lv.len() ==> lv[next_from(lv, q, i)] > i,
    decreases lv.len() - q,
{
    if q < lv.len() && lv[q] <= i {
        lemma_next_from(lv, q + 1, i);
    }
}

/// `next_from` is the first such position: any position with the same
/// description is it.
proof fn lemma_next_from_is(lv: Seq<int>, q: int, i: int, r: int)
    requires
        0 <= q <= r <= lv.len(),
        forall|k: int| q <= k < r ==> #[trigger] lv[k] <= i,
        r < lv.len() ==> lv[r] > i,
    ensures
        next_from(lv, q, i) == r,
    decreases lv.len() - q,
{
    if q < r {
        lemma_next_from_is(lv, q + 1, i, r);
    }
}

/// Heights after inserting a node of height `h` at position `t`.
proof fn lemma_next_insert(lv: Seq<int>, t: int, h: int, i: int, s: int)
    requires
        0 <= t <= lv.len(),
        0 <= s <= lv.len() + 1,
    ensures
        s <= t ==> next_from(lv.insert(t, h), s, i) == ({
            let q = next_from(lv, s, i);
            if q < t {
                q
            } else if h > i {
                t
            } else {
                q + 1
            }
        }),
        s > t ==> next_from(lv.insert(t, h), s, i) == next_from(lv, s - 1, i) + 1,
{
    let nl = lv.insert(t, h);
    if s > t {
        lemma_next_from(lv, s - 1, i);
        let q = next_from(lv, s - 1, i);
        assert forall|k: int| s <= k < q + 1 implies #[trigger] nl[k] <= i by {
            assert(nl[k] == lv[k - 1]);
        }
        if q < lv.len() {
            assert(nl[q + 1] == lv[q]);
        }
        lemma_next_from_is(nl, s, i, q + 1);
    } else {
        lemma_next_from(lv, s, i);
        let q = next_from(lv, s, i);
        if q < t {
            assert forall|k: int| s <= k < q implies #[trigger] nl[k] <= i by {
                assert(nl[k] == lv[k]);
            }
            assert(nl[q] == lv[q]);
            lemma_next_from_is(nl, s, i, q);
        } else if h > i {
            assert forall|k: int| s <= k < t implies #[trigger] nl[k] <= i by {
                assert(nl[k] == lv[k]);
            }
            lemma_next_from_is(nl, s, i, t);
        } else {
            assert forall|k: int| s <= k < q + 1 implies #[trigger] nl[k] <= i by {
                if k < t {
                    assert(nl[k] == lv[k]);
                } else if k > t {
                    assert(nl[k] == lv[k - 1]);
                }
            }
            if q < lv.len() {
                assert(nl[q + 1] == lv[q]);
            }
            lemma_next_from_is(nl, s, i, q + 1);
        }
    }
}

/// Heights after removing the node at position `t`.
proof fn lemma_next_remove(lv: Seq<int>, t: int, i: int, s: int)
    requires
        0 <= t < lv.len(),
        0 <= s <= lv.len() - 1,
    ensures
        s <= t ==> next_from(lv.remove(t), s, i) == ({
            let q = next_from(lv, s, i);
            if q < t {
                q
            } else if q == t {
                next_from(lv, t + 1, i) - 1
            } else {
                q - 1
            }
        }),
        s >= t ==> next_from(lv.remove(t), s, i) == next_from(lv, s + 1, i) - 1,
{
    let nl = lv.remove(t);
    if s >= t {
        lemma_next_from(lv, s + 1, i);
        let q = next_from(lv, s + 1, i);
        assert forall|k: int| s <= k < q - 1 implies #[trigger] nl[k] <= i by {
            assert(nl[k] == lv[k + 1]);
        }
        if q < lv.len() {
            assert(nl[q - 1] == lv[q]);
        }
        lemma_next_from_is(nl, s, i, q - 1);
    }
    if s <= t {
        lemma_next_from(lv, s, i);
        let q = next_from(lv, s, i);
        if q < t {
            assert forall|k: int| s <= k < q implies #[trigger] nl[k] <= i by {
                assert(nl[k] == lv[k]);
            }
            assert(nl[q] == lv[q]);
            lemma_next_from_is(nl, s, i, q);
        } else {
            let q2 = if q == t {
                lemma_next_from(lv, t + 1, i);
                next_from(lv, t + 1, i)
            } else {
                q
            };
            assert forall|k: int| s <= k < q2 - 1 implies #[trigger] nl[k] <= i by {
                if k < t {
                    assert(nl[k] == lv[k]);
                } else {
                    assert(nl[k] == lv[k + 1]);
                }
            }
            if q2 < lv.len() {
                assert(nl[q2 - 1] == lv[q2]);
            }
            lemma_next_from_is(nl, s, i, q2 - 1);
        }
    }
}

/// Heights, by position, of the nodes in the slots `order`.
spec fn heights_of(order: Seq<usize>, h: Seq<usize>) -> Seq<int> {
    order.map_values(|s: usize| h[s as int] as int)
}

/// The slot at position `p`; the head, slot 0, at position -1.
spec fn slot_at(order: Seq<usize>, p: int) -> int {
    if p < 0 {
        0
    } else {
        order[p] as int
    }
}

/// Where the link at level `i` from position `p` leads: the next node at
/// least `i + 1` tall, or `NULL`.
spec fn link_target(order: Seq<usize>, h: Seq<usize>, p: int, i: int) -> usize {
    let q = next_from(heights_of(order, h), p + 1, i);
    if q < order.len() {
        order[q]
    } else {
        NULL
    }
}

/// Every link, of the head and of each node below its height, is right.
spec fn links_ok(order: Seq<usize>, h: Seq<usize>, nx: Seq<usize>) -> bool {
    forall|p: int, i: int|
        -1 <= p < order.len() && 0 <= i < h[slot_at(order, p)] ==> nx[slot_at(order, p) * 16 + i]
            == #[trigger] link_target(order, h, p, i)
}

/// The slots hold nodes in range, each once, with heights from 1 to 16,
/// below a head of height 16.
spec fn slots_ok(order: Seq<usize>, h: Seq<usize>) -> bool {
    &&& h.len() >= 1
    &&& h[0] == 16
    &&& forall|p: int|
        0 <= p < order.len() ==> 1 <= #[trigger] order[p] < h.len() && 1 <= h[order[p] as int] <= 16
    &&& forall|a: int, b: int| 0 <= a < b < order.len() ==> #[trigger] order[a] != #[trigger] order[b]
}

/// `p` is the last position before `t` at least `i + 1` tall, the head
/// counting as tall enough.
spec fn last_before(lv: Seq<int>, p: int, t: int, i: int) -> bool {
    &&& -1 <= p < t
    &&& (p == -1 || lv[p] > i)
    &&& forall|q: int| p < q < t ==> #[trigger] lv[q] <= i
}

/// Index `k` of the link array is one that linking a new node `ns` of
/// height `m` after the nodes `ups` writes.
spec fn touched(ns: usize, ups: Seq<usize>, m: int, k: int) -> bool {
    exists|j: int| 0 <= j < m && (k == ns * 16 + j || k == ups[j] * 16 + j)
}

/// Index `k` is one that unlinking below height `m` after `ups` writes.
spec fn touched_by(ups: Seq<usize>, m: int, k: int) -> bool {
    exists|j: int| 0 <= j < m && k == ups[j] * 16 + j
}

proof fn lemma_index_split(a: int, i: int, b: int, j: int)
    requires
        0 <= i < 16,
        0 <= j < 16,
        a * 16 + i == b * 16 + j,
    ensures
        a == b,
        i == j,
{
}

proof fn lemma_slot_injective(order: Seq<usize>, h: Seq<usize>, a: int, b: int)
    requires
        slots_ok(order, h),
        -1 <= a < order.len(),
        -1 <= b < order.len(),
        slot_at(order, a) == slot_at(order, b),
    ensures
        a == b,
{
    if a >= 0 && b >= 0 && a != b {
        if a < b {
            assert(order[a] != order[b]);
        } else {
            assert(order[b] != order[a]);
        }
    }
    if a >= 0 {
        assert(order[a] >= 1);
    }
    if b >= 0 {
        assert(order[b] >= 1);
    }
}

proof fn lemma_last_unique(lv: Seq<int>, t: int, i: int, a: int, b: int)
    requires
        last_before(lv, a, t, i),
        last_before(lv, b, t, i),
    ensures
        a == b,
{
    if a < b {
        assert(lv[b] <= i);
    }
    if b < a {
        assert(lv[a] <= i);
    }
}

/// A position whose link at level `i` reaches `t` or beyond is the last
/// one before `t` that tall.
proof fn lemma_reaches_past(lv: Seq<int>, p: int, t: int, i: int)
    requires
        -1 <= p < t <= lv.len(),
        p == -1 || lv[p] > i,
        next_from(lv, p + 1, i as int) >= t,
    ensures
        last_before(lv, p, t, i),
{
    lemma_next_from(lv, p + 1, i as int);
}

/// From the last position before `t` tall enough, the link at level `i`
/// goes where the search from `t` goes.
proof fn lemma_last_skips(lv: Seq<int>, p: int, t: int, i: int)
    requires
        last_before(lv, p, t, i),
        t <= lv.len(),
    ensures
        next_from(lv, p + 1, i) == next_from(lv, t, i),
{
    lemma_next_from(lv, t, i);
    let r = next_from(lv, t, i);
    assert forall|k: int| p + 1 <= k < r implies #[trigger] lv[k] <= i by {
        if k < t {
            assert(p < k < t);
        }
    }
    lemma_next_from_is(lv, p + 1, i, r);
}

proof fn lemma_heights_insert(order: Seq<usize>, h: Seq<usize>, t: int, ns: usize, hn: usize)
    requires
        0 <= t <= order.len(),
        0 <= ns < h.len(),
        forall|p: int| 0 <= p < order.len() ==> #[trigger] order[p] != ns && order[p] < h.len(),
    ensures
        heights_of(order.insert(t, ns), h.update(ns as int, hn)) == heights_of(order, h).insert(
            t,
            hn as int,
        ),
{
    let o2 = order.insert(t, ns);
    let h2 = h.update(ns as int, hn);
    assert forall|q: int| 0 <= q < o2.len() implies #[trigger] heights_of(o2, h2)[q] == heights_of(
        order,
        h,
    ).insert(t, hn as int)[q] by {
        if q < t {
            assert(o2[q] == order[q]);
            assert(order[q] != ns && order[q] < h.len());
        } else if q > t {
            assert(o2[q] == order[q - 1]);
            assert(order[q - 1] != ns && order[q - 1] < h.len());
        }
    }
    assert(heights_of(o2, h2) =~= heights_of(order, h).insert(t, hn as int));
}

/// Linking a new node `ns` of height `hn` at position `t`, after the last
/// position before `t` at each level, keeps every link right.
proof fn lemma_links_insert(
    order: Seq<usize>,
    h: Seq<usize>,
    nx: Seq<usize>,
    t: int,
    ns: usize,
    hn: usize,
    pos: Seq<int>,
    ups: Seq<usize>,
    nx2: Seq<usize>,
)
    requires
        links_ok(order, h, nx),
        slots_ok(order, h),
        0 <= t <= order.len(),
        1 <= ns < h.len(),
        forall|p: int| 0 <= p < order.len() ==> #[trigger] order[p] != ns,
        1 <= hn <= 16,
        pos.len() == 16,
        ups.len() == 16,
        forall|j: int|
            0 <= j < 16 ==> last_before(heights_of(order, h), #[trigger] pos[j], t, j) && ups[j]
                == slot_at(order, pos[j]),
        nx.len() == h.len() * 16,
        nx2.len() == nx.len(),
        forall|j: int|
            0 <= j < hn ==> nx2[ns * 16 + j] == nx[#[trigger] ups[j] * 16 + j] && nx2[ups[j] * 16 + j]
                == ns,
        forall|k: int| 0 <= k < nx.len() && !touched(ns, ups, hn as int, k) ==> nx2[k] == #[trigger] nx[k],
    ensures
        links_ok(order.insert(t, ns), h.update(ns as int, hn), nx2),
        slots_ok(order.insert(t, ns), h.update(ns as int, hn)),
{
    let o2 = order.insert(t, ns);
    let h2 = h.update(ns as int, hn);
    let lv = heights_of(order, h);
    lemma_heights_insert(order, h, t, ns, hn);
    assert forall|p: int, i: int| -1 <= p < o2.len() && 0 <= i < h2[slot_at(o2, p)] implies nx2[slot_at(
        o2,
        p,
    ) * 16 + i] == #[trigger] link_target(o2, h2, p, i) by {
        if p == t {
            assert(slot_at(o2, p) == ns);
            let pi = pos[i];
            assert(last_before(lv, pi, t, i));
            if pi >= 0 {
                assert(h[slot_at(order, pi)] == lv[pi]);
            }
            assert(nx[slot_at(order, pi) * 16 + i] == link_target(order, h, pi, i));
            lemma_last_skips(lv, pi, t, i);
            lemma_next_insert(lv, t, hn as int, i, t + 1);
            lemma_next_from(lv, t, i);
        } else {
            let op = if p < t {
                p
            } else {
                p - 1
            };
            assert(slot_at(o2, p) == slot_at(order, op));
            if op >= 0 {
                assert(order[op] != ns);
                assert(h2[slot_at(o2, p)] == h[slot_at(order, op)]);
            }
            let s = slot_at(order, op);
            let k = s * 16 + i;
            assert(i < 16) by {
                if op >= 0 {
                    assert(h[order[op] as int] <= 16);
                }
            }
            if p < t && i < hn && p == pos[i] {
                assert(nx2[ups[i] * 16 + i] == ns);
                lemma_next_from(lv, p + 1, i as int);
                lemma_next_insert(lv, t, hn as int, i, p + 1);
            } else {
                assert(!touched(ns, ups, hn as int, k)) by {
                    if touched(ns, ups, hn as int, k) {
                        let j = choose|j: int|
                            0 <= j < hn && (k == ns * 16 + j || k == ups[j] * 16 + j);
                        if k == ns * 16 + j {
                            lemma_index_split(s, i, ns as int, j);
                            if op >= 0 {
                                assert(order[op] != ns);
                            }
                        } else {
                            lemma_index_split(s, i, ups[j] as int, j);
                            assert(last_before(lv, pos[j], t, j));
                            lemma_slot_injective(order, h, op, pos[j]);
                        }
                    }
                }
                assert(nx2[k] == nx[k]);
                if op >= 0 {
                    assert(h[s] == lv[op]);
                }
                assert(nx[k] == link_target(order, h, op, i));
                lemma_next_from(lv, op + 1, i);
                if p < t {
                    lemma_next_insert(lv, t, hn as int, i, p + 1);
                    let q = next_from(lv, p + 1, i);
                    if q >= t && hn > i {
                        lemma_reaches_past(lv, p, t, i);
                        assert(last_before(lv, pos[i], t, i));
                        lemma_last_unique(lv, t, i, p, pos[i]);
                    }
                } else {
                    lemma_next_insert(lv, t, hn as int, i, p + 1);
                }
            }
        }
    }
    assert forall|p: int| 0 <= p < o2.len() implies 1 <= #[trigger] o2[p] < h2.len() && 1 <= h2[o2[p] as int] <= 16 by {
        if p < t {
            assert(o2[p] == order[p]);
        } else if p > t {
            assert(o2[p] == order[p - 1]);
        }
    }
    assert forall|a: int, b: int| 0 <= a < b < o2.len() implies #[trigger] o2[a] != #[trigger] o2[b] by {
        let oa = if a < t { a } else { a - 1 };
        let ob = if b < t { b } else { b - 1 };
        if a != t && b != t {
            assert(o2[a] == order[oa] && o2[b] == order[ob]);
            assert(oa < ob);
        }
    }
}

/// Unlinking the node at position `t`, by pointing the last position
/// before it at each level below its height where it pointed, keeps every
/// link right.
proof fn lemma_links_remove(
    order: Seq<usize>,
    h: Seq<usize>,
    nx: Seq<usize>,
    t: int,
    pos: Seq<int>,
    ups: Seq<usize>,
    nx2: Seq<usize>,
)
    requires
        links_ok(order, h, nx),
        slots_ok(order, h),
        0 <= t < order.len(),
        pos.len() == 16,
        ups.len() == 16,
        forall|j: int|
            0 <= j < 16 ==> last_before(heights_of(order, h), #[trigger] pos[j], t, j) && ups[j]
                == slot_at(order, pos[j]),
        nx.len() == h.len() * 16,
        nx2.len() == nx.len(),
        forall|j: int|
            0 <= j < h[order[t] as int] ==> nx2[#[trigger] ups[j] * 16 + j] == nx[order[t] * 16 + j],
        forall|k: int|
            0 <= k < nx.len() && !touched_by(ups, h[order[t] as int] as int, k) ==> nx2[k]
                == #[trigger] nx[k],
    ensures
        links_ok(order.remove(t), h, nx2),
        slots_ok(order.remove(t), h),
{
    let o2 = order.remove(t);
    let lv = heights_of(order, h);
    let ht = h[order[t] as int] as int;
    assert(heights_of(o2, h) =~= lv.remove(t));
    assert(lv[t] == ht);
    assert forall|p: int, i: int| -1 <= p < o2.len() && 0 <= i < h[slot_at(o2, p)] implies nx2[slot_at(
        o2,
        p,
    ) * 16 + i] == #[trigger] link_target(o2, h, p, i) by {
        let op = if p < t {
            p
        } else {
            p + 1
        };
        assert(slot_at(o2, p) == slot_at(order, op));
        let s = slot_at(order, op);
        let k = s * 16 + i;
        if op >= 0 {
            assert(h[s] == lv[op]);
            assert(h[order[op] as int] <= 16);
        }
        if p < t && i < ht && p == pos[i] {
            assert(nx2[ups[i] * 16 + i] == nx[order[t] * 16 + i]);
            assert(slot_at(order, t) == order[t]);
            assert(nx[order[t] * 16 + i] == link_target(order, h, t, i));
            lemma_next_from(lv, p + 1, i as int);
            lemma_next_from(lv, t + 1, i);
            lemma_last_skips(lv, p, t, i);
            lemma_next_from_is(lv, t, i, t);
            lemma_next_remove(lv, t, i, p + 1);
        } else {
            assert(!touched_by(ups, ht, k)) by {
                if touched_by(ups, ht, k) {
                    let j = choose|j: int| 0 <= j < ht && k == ups[j] * 16 + j;
                    lemma_index_split(s, i, ups[j] as int, j);
                    assert(last_before(lv, pos[j], t, j));
                    lemma_slot_injective(order, h, op, pos[j]);
                }
            }
            assert(nx2[k] == nx[k]);
            assert(nx[k] == link_target(order, h, op, i));
            lemma_next_from(lv, op + 1, i);
            lemma_next_remove(lv, t, i, p + 1);
            if p < t {
                let q = next_from(lv, p + 1, i);
                if q == t {
                    lemma_reaches_past(lv, p, t, i);
                    assert(last_before(lv, pos[i], t, i));
                    lemma_last_unique(lv, t, i, p, pos[i]);
                }
            }
        }
    }
    assert forall|p: int| 0 <= p < o2.len() implies 1 <= #[trigger] o2[p] < h.len() && 1 <= h[o2[p] as int] <= 16 by {
        if p < t {
            assert(o2[p] == order[p]);
        } else {
            assert(o2[p] == order[p + 1]);
        }
    }
    assert forall|a: int, b: int| 0 <= a < b < o2.len() implies #[trigger] o2[a] != #[trigger] o2[b] by {
        let oa = if a < t { a } else { a + 1 };
        let ob = if b < t { b } else { b + 1 };
        assert(o2[a] == order[oa] && o2[b] == order[ob]);
    }
}

proof fn lemma_id_pos_is(r: Seq<(u64, i64)>, id: i64, w: int)
    requires
        0 <= w <= r.len(),
        forall|q: int| 0 <= q < w ==> (#[trigger] r[q]).1 != id,
        w < r.len() ==> r[w].1 == id,
    ensures
        id_pos(r, id) == w,
    decreases r.len(),
{
    if r.len() > 0 && w > 0 {
        let d = r.drop_first();
        assert(r[0].1 != id);
        assert forall|q: int| 0 <= q < w - 1 implies (#[trigger] d[q]).1 != id by {
            assert(d[q] == r[q + 1]);
        }
        if w < r.len() {
            assert(d[w - 1] == r[w]);
        }
        lemma_id_pos_is(d, id, w - 1);
    }
}

/// Dropping an entry keeps a sequence sorted and its ids unique.
proof fn lemma_remove_sorted(r: Seq<(u64, i64)>, w: int)
    requires
        sorted_desc(r),
        unique_ids(r),
        0 <= w < r.len(),
    ensures
        sorted_desc(r.remove(w)),
        unique_ids(r.remove(w)),
        forall|q: int| 0 <= q < r.remove(w).len() ==> (#[trigger] r.remove(w)[q]).1 != r[w].1,
{
    let d = r.remove(w);
    assert forall|a: int, b: int| 0 <= a < b < d.len() implies ranks_before(#[trigger] d[a], #[trigger] d[b])
        && d[a].1 != d[b].1 by {
        let oa = if a < w { a } else { a + 1 };
        let ob = if b < w { b } else { b + 1 };
        assert(d[a] == r[oa] && d[b] == r[ob]);
    }
    assert forall|q: int| 0 <= q < d.len() implies (#[trigger] d[q]).1 != r[w].1 by {
        let oq = if q < w { q } else { q + 1 };
        assert(d[q] == r[oq]);
        if oq < w {
            assert(r[oq].1 != r[w].1);
        } else {
            assert(r[w].1 != r[oq].1);
        }
    }
}

/// Placing `x`, whose id `r` lacks, where it ranks keeps `r` sorted and
/// its ids unique.
proof fn lemma_insert_sorted(r: Seq<(u64, i64)>, x: (u64, i64))
    requires
        sorted_desc(r),
        unique_ids(r),
        forall|q: int| 0 <= q < r.len() ==> (#[trigger] r[q]).1 != x.1,
    ensures
        sorted_desc(r.insert(rank_pos(r, x), x)),
        unique_ids(r.insert(rank_pos(r, x), x)),
{
    lemma_rank_pos(r, x);
    let t = rank_pos(r, x);
    let d = r.insert(t, x);
    assert forall|a: int, b: int| 0 <= a < b < d.len() implies ranks_before(#[trigger] d[a], #[trigger] d[b])
        && d[a].1 != d[b].1 by {
        if b < t {
            assert(d[a] == r[a] && d[b] == r[b]);
        } else if b == t {
            assert(d[a] == r[a]);
            assert(ranks_before(r[a], x));
        } else if a < t {
            assert(d[a] == r[a] && d[b] == r[b - 1]);
        } else if a == t {
            assert(d[b] == r[b - 1]);
            assert(!ranks_before(r[b - 1], x));
            assert(r[b - 1].1 != x.1);
        } else {
            assert(d[a] == r[a - 1] && d[b] == r[b - 1]);
        }
    }
}

/// Keeping the link array and the heights of the listed nodes keeps the
/// links right.
proof fn lemma_links_frame(order: Seq<usize>, h: Seq<usize>, nx: Seq<usize>, h2: Seq<usize>, nx2: Seq<usize>)
    requires
        links_ok(order, h, nx),
        slots_ok(order, h),
        nx.len() == h.len() * 16,
        h2.len() >= h.len(),
        h2[0] == h[0],
        forall|p: int| 0 <= p < order.len() ==> h2[#[trigger] order[p] as int] == h[order[p] as int],
        nx2.len() >= nx.len(),
        forall|k: int| 0 <= k < nx.len() ==> nx2[k] == #[trigger] nx[k],
    ensures
        links_ok(order, h2, nx2),
        slots_ok(order, h2),
{
    assert(heights_of(order, h2) =~= heights_of(order, h));
    assert forall|p: int, i: int| -1 <= p < order.len() && 0 <= i < h2[slot_at(order, p)] implies nx2[slot_at(
        order,
        p,
    ) * 16 + i] == #[trigger] link_target(order, h2, p, i) by {
        assert(link_target(order, h2, p, i) == link_target(order, h, p, i as int));
        assert(h2[slot_at(order, p)] == h[slot_at(order, p)]);
        assert(slot_at(order, p) < h.len());
        assert(nx[slot_at(order, p) * 16 + i] == link_target(order, h, p, i as int));
    }
}

/// At level 0 every node counts, so each link goes to the next position.
proof fn lemma_level0_step(order: Seq<usize>, h: Seq<usize>, w: int)
    requires
        slots_ok(order, h),
        -1 <= w < order.len(),
    ensures
        link_target(order, h, w, 0) == (if w + 1 < order.len() {
            order[w + 1]
        } else {
            NULL
        }),
{
    let lv = heights_of(order, h);
    if w + 1 < order.len() {
        assert(lv[w + 1] == h[order[w + 1] as int]);
        lemma_next_from_is(lv, w + 1, 0, w + 1);
    } else {
        lemma_next_from_is(lv, w + 1, 0, order.len() as int);
    }
}

/// Calls `rand::random::<bool>()`, a coin flip from the thread's random
/// generator; nothing is claimed of the outcome.
#[verifier::external_body]
fn coin_flip() -> bool {
    rand::random::<bool>()
}

/// A random node height: one, plus one more for each of up to fifteen
/// successive heads.
pub fn random_level() -> (level: usize)
    ensures
        1 <= level <= MAX_LEVEL,
{
    let mut level: usize = 1;
    while level < MAX_LEVEL
        invariant
            1 <= level <= MAX_LEVEL,
        decreases MAX_LEVEL - level,
    {
        if !coin_flip() {
            break;
        }
        level = level + 1;
    }
    level
}

/// Clip ids ranked by an integer key, highest first, and by id among equal
/// keys: a skip list over an arena of node slots.
pub struct SkipList {
    keys: Vec<u64>,
    ids: Vec<i64>,
    heights: Vec<usize>,
    next: Vec<usize>,
    free: Vec<usize>,
    level: usize,
    len: usize,
    order: Ghost<Seq<usize>>,
}

impl SkipList {
    /// The entries, `(key, id)`, in rank order.
    pub closed spec fn ranked(&self) -> Seq<(u64, i64)> {
        self.order@.map_values(|s: usize| (self.keys@[s as int], self.ids@[s as int]))
    }

    /// Number of node slots allocated, the head among them.
    pub closed spec fn slot_count(&self) -> nat {
        self.keys@.len()
    }

    /// The arena holds the listed nodes in rank order with distinct ids,
    /// every link is right, and the free slots hold none of them.
    pub closed spec fn well_formed(&self) -> bool {
        let n = self.keys@.len();
        let order = self.order@;
        &&& self.ids@.len() == n
        &&& self.heights@.len() == n
        &&& self.next@.len() == n * 16
        &&& n * 16 <= usize::MAX
        &&& slots_ok(order, self.heights@)
        &&& self.level <= MAX_LEVEL
        &&& forall|p: int| 0 <= p < order.len() ==> self.heights@[#[trigger] order[p] as int] <= self.level
        &&& links_ok(order, self.heights@, self.next@)
        &&& sorted_desc(self.ranked())
        &&& unique_ids(self.ranked())
        &&& self.len == order.len()
        &&& self.free@.no_duplicates()
        &&& forall|k: int| 0 <= k < self.free@.len() ==> 1 <= #[trigger] self.free@[k] < n
        &&& forall|k: int, p: int|
            0 <= k < self.free@.len() && 0 <= p < order.len() ==> #[trigger] self.free@[k]
                != #[trigger] order[p]
    }

    /// In every well-formed index the entries are in strictly descending
    /// rank order and no clip id occurs twice.
    pub proof fn lemma_ranked_sorted(&self)
        requires
            self.well_formed(),
        ensures
            sorted_desc(self.ranked()),
            unique_ids(self.ranked()),
    {
    }

    /// An empty index.
    pub fn new() -> (r: Self)
        ensures
            r.well_formed(),
            r.ranked() == Seq::<(u64, i64)>::empty(),
            r.slot_count() == 1,
    {
        let mut next: Vec<usize> = Vec::new();
        let mut i: usize = 0;
        while i < MAX_LEVEL
            invariant
                i <= MAX_LEVEL,
                next@.len() == i,
                forall|k: int| 0 <= k < i ==> next@[k] == NULL,
            decreases MAX_LEVEL - i,
        {
            next.push(NULL);
            i = i + 1;
        }
        let mut keys: Vec<u64> = Vec::new();
        keys.push(u64::MAX);
        let mut ids: Vec<i64> = Vec::new();
        ids.push(i64::MIN);
        let mut heights: Vec<usize> = Vec::new();
        heights.push(MAX_LEVEL);
        let r = SkipList {
            keys,
            ids,
            heights,
            next,
            free: Vec::new(),
            level: 0,
            len: 0,
            order: Ghost(Seq::empty()),
        };
        proof {
            assert forall|p: int, i: int| -1 <= p < 0 && 0 <= i < r.heights@[slot_at(r.order@, p)] implies r.next@[slot_at(
                r.order@,
                p,
            ) * 16 + i] == #[trigger] link_target(r.order@, r.heights@, p, i) by {
                assert(p == -1);
            }
            assert(r.ranked() =~= Seq::<(u64, i64)>::empty());
        }
        r
    }

    /// Whether slot `s` ranks before `(key, id)`.
    fn precedes(&self, s: usize, key: u64, id: i64) -> (b: bool)
        requires
            s < self.keys@.len(),
            self.ids@.len() == self.keys@.len(),
        ensures
            b == ranks_before((self.keys@[s as int], self.ids@[s as int]), (key, id)),
    {
        let k = self.keys[s];
        k > key || (k == key && self.ids[s] > id)
    }

    /// For each level, the last node (or the head) that ranks before
    /// `(key, id)` and is tall enough to have a link at that level.
    fn find_update(&self, key: u64, id: i64) -> (r: (Vec<usize>, Ghost<Seq<int>>))
        requires
            self.well_formed(),
        ensures
            r.0@.len() == 16,
            r.1@.len() == 16,
            forall|j: int|
                0 <= j < 16 ==> last_before(
                    heights_of(self.order@, self.heights@),
                    #[trigger] r.1@[j],
                    rank_pos(self.ranked(), (key, id)),
                    j,
                ) && r.0@[j] == slot_at(self.order@, r.1@[j]),
    {
        let ghost order = self.order@;
        let ghost h = self.heights@;
        let ghost lv = heights_of(order, h);
        let ghost x = (key, id);
        let ghost t = rank_pos(self.ranked(), x);
        proof {
            lemma_rank_pos(self.ranked(), x);
        }
        let mut upd: Vec<usize> = Vec::new();
        let mut j: usize = 0;
        while j < MAX_LEVEL
            invariant
                j <= MAX_LEVEL,
                upd@.len() == j,
                forall|k: int| 0 <= k < j ==> upd@[k] == 0,
            decreases MAX_LEVEL - j,
        {
            upd.push(0);
            j = j + 1;
        }
        let ghost mut pos: Seq<int> = Seq::new(16, |k: int| -1int);
        let mut cur: usize = 0;
        let ghost mut p: int = -1;
        let mut i: usize = self.level;
        proof {
            assert forall|k: int| i <= k < 16 implies last_before(lv, #[trigger] pos[k], t, k) && upd@[k]
                == slot_at(order, pos[k]) by {
                assert forall|q: int| -1 < q < t implies #[trigger] lv[q] <= k by {
                    assert(h[order[q] as int] <= self.level);
                }
            }
        }
        while i > 0
            invariant
                self.well_formed(),
                order == self.order@,
                h == self.heights@,
                lv == heights_of(order, h),
                x == (key, id),
                t == rank_pos(self.ranked(), x),
                0 <= t <= order.len(),
                forall|q: int| 0 <= q < order.len() ==> (q < t <==> ranks_before(#[trigger] self.ranked()[q], x)),
                i <= self.level,
                upd@.len() == 16,
                pos.len() == 16,
                -1 <= p < t,
                cur == slot_at(order, p),
                p == -1 || lv[p] > i,
                forall|k: int| i <= k < 16 ==> last_before(lv, #[trigger] pos[k], t, k) && upd@[k]
                    == slot_at(order, pos[k]),
            decreases i,
        {
            i = i - 1;
            loop
                invariant
                    self.well_formed(),
                    order == self.order@,
                    h == self.heights@,
                    lv == heights_of(order, h),
                    x == (key, id),
                    0 <= t <= order.len(),
                    forall|q: int| 0 <= q < order.len() ==> (q < t <==> ranks_before(#[trigger] self.ranked()[q], x)),
                    i < self.level,
                    -1 <= p < t,
                    cur == slot_at(order, p),
                    p == -1 || lv[p] > i,
                ensures
                    -1 <= p < t,
                    cur == slot_at(order, p),
                    p == -1 || lv[p] > i,
                    next_from(lv, p + 1, i as int) >= t,
                decreases t - p,
            {
                proof {
                    if p >= 0 {
                        assert(h[order[p] as int] == lv[p]);
                        assert(order[p] < h.len());
                    }
                    assert(self.next@[slot_at(order, p) * 16 + i] == link_target(order, h, p, i as int));
                    lemma_next_from(lv, p + 1, i as int);
                    assert(cur < h.len());
                    assert(cur * 16 + i < self.next@.len());
                    let q0 = next_from(lv, p + 1, i as int);
                    if q0 < order.len() {
                        assert(order[q0] < h.len());
                        assert(order[q0] != NULL);
                    }
                }
                let fwd = self.next[cur * MAX_LEVEL + i];
                let ghost q = next_from(lv, p + 1, i as int);
                if fwd != NULL && self.precedes(fwd, key, id) {
                    proof {
                        assert(q < order.len());
                        assert(self.ranked()[q] == (self.keys@[fwd as int], self.ids@[fwd as int]));
                    }
                    cur = fwd;
                    proof {
                        p = q;
                    }
                } else {
                    proof {
                        if q < order.len() {
                            assert(order[q] < h.len());
                            assert(self.ranked()[q] == (self.keys@[fwd as int], self.ids@[fwd as int]));
                        }
                    }
                    break;
                }
            }
            upd.set(i, cur);
            proof {
                lemma_reaches_past(lv, p, t, i as int);
                pos = pos.update(i as int, p);
            }
        }
        (upd, Ghost(pos))
    }

    /// A slot for a new node with these fields, not linked yet: a free
    /// slot if there is one, else a new one at the end.
    fn take_slot(&mut self, key: u64, id: i64, height: usize) -> (ns: usize)
        requires
            old(self).well_formed(),
            (old(self).slot_count() + 1) * 16 <= usize::MAX,
            1 <= height <= old(self).level,
        ensures
            final(self).well_formed(),
            1 <= ns < final(self).slot_count(),
            final(self).slot_count() <= old(self).slot_count() + 1,
            final(self).order@ == old(self).order@,
            final(self).level == old(self).level,
            final(self).len == old(self).len,
            forall|p: int| 0 <= p < old(self).order@.len() ==> #[trigger] old(self).order@[p] != ns,
            final(self).keys@[ns as int] == key,
            final(self).ids@[ns as int] == id,
            final(self).heights@[ns as int] == height,
            forall|s: int|
                0 <= s < old(self).keys@.len() && s != ns ==> #[trigger] final(self).keys@[s]
                    == old(self).keys@[s],
            forall|s: int|
                0 <= s < old(self).keys@.len() && s != ns ==> #[trigger] final(self).ids@[s]
                    == old(self).ids@[s],
            forall|s: int|
                0 <= s < old(self).keys@.len() && s != ns ==> #[trigger] final(self).heights@[s]
                    == old(self).heights@[s],
            forall|k: int| 0 <= k < final(self).free@.len() ==> #[trigger] final(self).free@[k] != ns,
            forall|k: int| 0 <= k < old(self).next@.len() ==> #[trigger] final(self).next@[k] == old(self).next@[k],
            final(self).next@.len() == final(self).slot_count() * 16,
            final(self).ranked() == old(self).ranked(),
    {
        let ghost order = self.order@;
        let ghost h0 = self.heights@;
        let ghost nx0 = self.next@;
        let ghost r0 = self.ranked();
        match self.free.pop() {
            Some(f) => {
                proof {
                    let fr = old(self).free@;
                    assert(fr.last() == f);
                    assert(fr[fr.len() - 1] == f);
                    assert forall|p: int| 0 <= p < order.len() implies #[trigger] order[p] != f by {
                        assert(fr[fr.len() - 1] != order[p]);
                    }
                    assert forall|k: int| 0 <= k < self.free@.len() implies #[trigger] self.free@[k] != f by {
                        assert(self.free@[k] == fr[k]);
                    }
                }
                self.keys.set(f, key);
                self.ids.set(f, id);
                self.heights.set(f, height);
                proof {
                    lemma_links_frame(order, h0, nx0, self.heights@, self.next@);
                    assert(self.ranked() =~= r0);
                }
                f
            },
            None => {
                let ns = self.keys.len();
                self.keys.push(key);
                self.ids.push(id);
                self.heights.push(height);
                let ghost k1 = self.keys@;
                let ghost i1 = self.ids@;
                let ghost h1 = self.heights@;
                let ghost f1 = self.free@;
                let ghost lvl1 = self.level;
                let ghost len1 = self.len;
                let mut i: usize = 0;
                while i < MAX_LEVEL
                    invariant
                        self.keys@ == k1,
                        self.ids@ == i1,
                        self.heights@ == h1,
                        self.free@ == f1,
                        self.level == lvl1,
                        self.len == len1,
                        self.order@ == order,
                        i <= MAX_LEVEL,
                        self.next@.len() == nx0.len() + i,
                        nx0.len() == ns * 16,
                        (ns + 1) * 16 <= usize::MAX,
                        forall|k: int| 0 <= k < nx0.len() ==> #[trigger] self.next@[k] == nx0[k],
                    decreases MAX_LEVEL - i,
                {
                    self.next.push(NULL);
                    i = i + 1;
                }
                proof {
                    assert forall|p: int| 0 <= p < order.len() implies #[trigger] order[p] != ns by {
                        assert(order[p] < h0.len());
                    }
                    assert forall|p: int| 0 <= p < order.len() implies self.heights@[#[trigger] order[p] as int]
                        == h0[order[p] as int] && self.keys@[order[p] as int] == old(self).keys@[order[p] as int]
                        && self.ids@[order[p] as int] == old(self).ids@[order[p] as int] by {
                        assert(order[p] < h0.len());
                    }
                    assert(self.heights@[0] == h0[0]);
                    lemma_links_frame(order, h0, nx0, self.heights@, self.next@);
                    assert(self.ranked() =~= r0);
                }
                ns
            },
        }
    }

    /// Removes the entry for `clip_id`; whether there was one.
    pub fn remove(&mut self, clip_id: i64) -> (found: bool)
        requires
            old(self).well_formed(),
        ensures
            final(self).well_formed(),
            found == exists|i: int|
                0 <= i < old(self).ranked().len() && (#[trigger] old(self).ranked()[i]).1 == clip_id,
            final(self).ranked() == without_id(old(self).ranked(), clip_id),
            forall|i: int| 0 <= i < final(self).ranked().len() ==> (#[trigger] final(self).ranked()[i]).1 != clip_id,
            final(self).slot_count() == old(self).slot_count(),
    {
        let ghost order = self.order@;
        let ghost h = self.heights@;
        let ghost lv = heights_of(order, h);
        let ghost ranked = self.ranked();
        proof {
            lemma_level0_step(order, h, -1);
        }
        let mut walk: usize = self.next[0];
        let ghost mut w: int = 0;
        loop
            invariant
                self.well_formed(),
                *self == *old(self),
                order == self.order@,
                h == self.heights@,
                ranked == self.ranked(),
                0 <= w <= order.len(),
                walk == (if w < order.len() {
                    order[w]
                } else {
                    NULL
                }),
                forall|q: int| 0 <= q < w ==> (#[trigger] ranked[q]).1 != clip_id,
            ensures
                0 <= w < order.len(),
                walk == order[w],
                ranked[w].1 == clip_id,
                forall|q: int| 0 <= q < w ==> (#[trigger] ranked[q]).1 != clip_id,
            decreases order.len() - w,
        {
            if walk == NULL {
                proof {
                    if w < order.len() {
                        assert(order[w] < h.len());
                    }
                    lemma_id_pos_is(ranked, clip_id, w);
                }
                return false;
            }
            proof {
                assert(w < order.len()) by {
                    if w >= order.len() {
                        assert(walk == NULL);
                    }
                }
                assert(order[w] < h.len());
                assert(ranked[w] == (self.keys@[walk as int], self.ids@[walk as int]));
            }
            if self.ids[walk] == clip_id {
                break;
            }
            proof {
                lemma_level0_step(order, h, w);
                assert(h[order[w] as int] >= 1);
            }
            walk = self.next[walk * MAX_LEVEL];
            proof {
                w = w + 1;
            }
        }
        let ghost x = ranked[w];
        let target_key = self.keys[walk];
        proof {
            assert(x == (target_key, clip_id));
            lemma_rank_pos(ranked, x);
            let rp = rank_pos(ranked, x);
            if rp < w {
                assert(ranks_before(ranked[rp], ranked[w]));
            }
            if rp > w {
                assert(!ranks_before(ranked[w], x));
            }
            assert(rank_pos(ranked, x) == w);
        }
        let (upd, Ghost(pos)) = self.find_update(target_key, clip_id);
        let ghost ht = h[order[w] as int] as int;
        proof {
            assert(last_before(lv, pos[0], w, 0));
            lemma_last_skips(lv, pos[0], w, 0);
            lemma_next_from_is(lv, w, 0, w);
            if pos[0] >= 0 {
                assert(h[order[pos[0]] as int] == lv[pos[0]]);
            }
            assert(self.next@[slot_at(order, pos[0]) * 16 + 0] == link_target(order, h, pos[0], 0));
            assert(slot_at(order, pos[0]) < h.len());
        }
        let target = self.next[upd[0] * MAX_LEVEL];
        if target == NULL || self.ids[target] != clip_id {
            return false;
        }
        let ghost nx0 = self.next@;
        let ghost keys0 = self.keys@;
        let ghost ids0 = self.ids@;
        let ghost free0 = self.free@;
        let ghost level0 = self.level;
        let ghost len0 = self.len;
        let mut i: usize = 0;
        while i < self.level
            invariant
                keys0 == self.keys@,
                ids0 == self.ids@,
                h == self.heights@,
                free0 == self.free@,
                level0 == self.level,
                len0 == self.len,
                order == self.order@,
                old(self).well_formed(),
                free0 == old(self).free@,
                order == old(self).order@,
                lv == heights_of(order, h),
                slots_ok(order, h),
                links_ok(order, h, nx0),
                0 <= w < order.len(),
                target == order[w],
                ht == h[order[w] as int],
                ht <= self.level,
                self.level <= 16,
                h.len() * 16 == nx0.len(),
                h.len() * 16 <= usize::MAX,
                upd@.len() == 16,
                pos.len() == 16,
                forall|j: int|
                    0 <= j < 16 ==> last_before(lv, #[trigger] pos[j], w, j) && upd@[j] == slot_at(order, pos[j]),
                i <= ht,
                self.next@.len() == nx0.len(),
                forall|j: int| 0 <= j < i ==> self.next@[#[trigger] upd@[j] * 16 + j] == nx0[target * 16 + j],
                forall|k: int|
                    0 <= k < nx0.len() && !touched_by(upd@, i as int, k) ==> #[trigger] self.next@[k] == nx0[k],
            ensures
                i == ht,
                self.next@.len() == nx0.len(),
                forall|j: int| 0 <= j < ht ==> self.next@[#[trigger] upd@[j] * 16 + j] == nx0[target * 16 + j],
                forall|k: int|
                    0 <= k < nx0.len() && !touched_by(upd@, ht, k) ==> #[trigger] self.next@[k] == nx0[k],
            decreases self.level - i,
        {
            let u = upd[i];
            let ghost pi = pos[i as int];
            proof {
                assert(last_before(lv, pi, w, i as int));
                if pi >= 0 {
                    assert(h[order[pi] as int] == lv[pi]);
                    assert(order[pi] < h.len());
                }
                assert(u < h.len());
                assert(!touched_by(upd@, i as int, u * 16 + i)) by {
                    if touched_by(upd@, i as int, u * 16 + i) {
                        let j = choose|j: int| 0 <= j < i && u * 16 + i == upd@[j] * 16 + j;
                        lemma_index_split(u as int, i as int, upd@[j] as int, j);
                    }
                }
                assert(nx0[slot_at(order, pi) * 16 + i] == link_target(order, h, pi, i as int));
                lemma_last_skips(lv, pi, w, i as int);
                lemma_next_from(lv, w, i as int);
                if (i as int) < ht {
                    lemma_next_from_is(lv, w, i as int, w);
                } else {
                    let q = next_from(lv, w, i as int);
                    if q < order.len() {
                        assert(q != w);
                        if q < w {
                            assert(order[q] != order[w]);
                        } else {
                            assert(order[w] != order[q]);
                        }
                    } else {
                        assert(order[w] < h.len());
                    }
                    assert(i == ht);
                }
            }
            if self.next[u * MAX_LEVEL + i] != target {
                break;
            }
            proof {
                assert(!touched_by(upd@, i as int, target * 16 + i)) by {
                    if touched_by(upd@, i as int, target * 16 + i) {
                        let j = choose|j: int| 0 <= j < i && target * 16 + i == upd@[j] * 16 + j;
                        lemma_index_split(target as int, i as int, upd@[j] as int, j);
                        assert(last_before(lv, pos[j], w, j));
                        lemma_slot_injective(order, h, w, pos[j]);
                    }
                }
                assert(target < h.len());
            }
            let ghost before = self.next@;
            assert(forall|j: int| 0 <= j < i ==> before[#[trigger] upd@[j] * 16 + j] == nx0[target * 16 + j]);
            let nxt = self.next[target * MAX_LEVEL + i];
            assert(nxt == nx0[target * 16 + i]);
            self.next.set(u * MAX_LEVEL + i, nxt);
            proof {
                assert(self.next@ == before.update(u * 16 + i, nxt));
                assert forall|j: int| 0 <= j < i + 1 implies self.next@[#[trigger] upd@[j] * 16 + j]
                    == nx0[target * 16 + j] by {
                    if j < i {
                        assert(last_before(lv, pos[j], w, j));
                        if pos[j] >= 0 {
                            assert(order[pos[j]] < h.len());
                        }
                        assert(upd@[j] < h.len());
                        assert(before[upd@[j] * 16 + j] == nx0[target * 16 + j]);
                        if upd@[j] * 16 + j == u * 16 + i {
                            lemma_index_split(upd@[j] as int, j, u as int, i as int);
                        }
                    } else {
                        assert(upd@[j] == u);
                    }
                }
                assert forall|k: int|
                    0 <= k < nx0.len() && !touched_by(upd@, i + 1, k) implies #[trigger] self.next@[k]
                        == nx0[k] by {
                    assert(k != u * 16 + i);
                    if touched_by(upd@, i as int, k) {
                        let j = choose|j: int| 0 <= j < i && k == upd@[j] * 16 + j;
                        assert(touched_by(upd@, i + 1, k));
                    }
                }
            }
            i = i + 1;
        }
        proof {
            lemma_links_remove(order, h, nx0, w, pos, upd@, self.next@);
            lemma_remove_sorted(ranked, w);
            lemma_id_pos(ranked, clip_id);
            lemma_id_pos_is(ranked, clip_id, w);
            assert(free0 == old(self).free@);
            assert forall|k: int, p: int| 0 <= k < free0.len() && 0 <= p < order.len() implies #[trigger] free0[k]
                != #[trigger] order[p] by {
                assert(old(self).free@[k] != old(self).order@[p]);
            }
        }
        self.free.push(target);
        self.order = Ghost(order.remove(w));
        self.len = self.len - 1;
        proof {
            let o2 = order.remove(w);
            assert(self.ranked() =~= ranked.remove(w)) by {
                assert forall|q: int| 0 <= q < o2.len() implies #[trigger] self.ranked()[q] == ranked.remove(w)[q] by {
                    if q < w {
                        assert(o2[q] == order[q]);
                    } else {
                        assert(o2[q] == order[q + 1]);
                    }
                }
            }
            assert(self.free@.no_duplicates()) by {
                assert forall|a: int, b: int| 0 <= a < b < self.free@.len() implies self.free@[a] != self.free@[b] by {
                    if b == self.free@.len() - 1 {
                        assert(free0[a] != order[w]);
                    } else {
                        assert(free0[a] != free0[b]);
                    }
                }
            }
            assert forall|k: int, p: int| 0 <= k < self.free@.len() && 0 <= p < o2.len() implies #[trigger] self.free@[k]
                != #[trigger] o2[p] by {
                let op = if p < w { p } else { p + 1 };
                assert(o2[p] == order[op]);
                if k == self.free@.len() - 1 {
                    if op < w {
                        assert(order[op] != order[w]);
                    } else {
                        assert(order[w] != order[op]);
                    }
                } else {
                    assert(free0[k] != order[op]);
                }
            }
            assert forall|p: int| 0 <= p < o2.len() implies self.heights@[#[trigger] o2[p] as int] <= self.level by {
                let op = if p < w { p } else { p + 1 };
                assert(o2[p] == order[op]);
            }
        }
        true
    }

    /// Ranks `clip_id` under `key`, replacing any entry it had.
    pub fn insert(&mut self, key: u64, clip_id: i64)
        requires
            old(self).well_formed(),
            (old(self).slot_count() + 1) * 16 <= usize::MAX,
            old(self).ranked().len() < usize::MAX,
        ensures
            final(self).well_formed(),
            final(self).ranked() == ranked_insert(old(self).ranked(), key, clip_id),
            final(self).slot_count() <= old(self).slot_count() + 1,
    {
        proof {
            lemma_id_pos(old(self).ranked(), clip_id);
        }
        self.remove(clip_id);
        assert(self.ranked().len() == self.order@.len());
        assert(without_id(old(self).ranked(), clip_id).len() <= old(self).ranked().len());
        assert(self.len < usize::MAX);
        let new_level = random_level();
        if new_level > self.level {
            self.level = new_level;
        }
        let ghost order = self.order@;
        let ghost base = self.ranked();
        let ghost x = (key, clip_id);
        let ghost t = rank_pos(base, x);
        let ghost h0 = self.heights@;
        let (upd, Ghost(pos)) = self.find_update(key, clip_id);
        proof {
            lemma_rank_pos(base, x);
        }
        let ns = self.take_slot(key, clip_id, new_level);
        let ghost h = self.heights@;
        let ghost nx0 = self.next@;
        let ghost keys0 = self.keys@;
        let ghost ids0 = self.ids@;
        let ghost free0 = self.free@;
        let ghost level0 = self.level;
        let ghost len0 = self.len;
        proof {
            assert(heights_of(order, h) =~= heights_of(order, h0)) by {
                assert forall|q: int| 0 <= q < order.len() implies #[trigger] heights_of(order, h)[q]
                    == heights_of(order, h0)[q] by {
                    assert(order[q] != ns);
                    assert(order[q] < h0.len());
                }
            }
        }
        let ghost lv = heights_of(order, h);
        let mut i: usize = 0;
        while i < new_level
            invariant
                keys0 == self.keys@,
                ids0 == self.ids@,
                h == self.heights@,
                free0 == self.free@,
                level0 == self.level,
                len0 == self.len,
                order == self.order@,
                slots_ok(order, h),
                lv == heights_of(order, h),
                h.len() * 16 == nx0.len(),
                h.len() * 16 <= usize::MAX,
                1 <= ns < h.len(),
                forall|p: int| 0 <= p < order.len() ==> #[trigger] order[p] != ns,
                1 <= new_level <= 16,
                upd@.len() == 16,
                pos.len() == 16,
                0 <= t <= order.len(),
                forall|j: int|
                    0 <= j < 16 ==> last_before(lv, #[trigger] pos[j], t, j) && upd@[j] == slot_at(order, pos[j]),
                i <= new_level,
                self.next@.len() == nx0.len(),
                forall|j: int|
                    0 <= j < i ==> self.next@[ns * 16 + j] == nx0[#[trigger] upd@[j] * 16 + j] && self.next@[upd@[j]
                        * 16 + j] == ns,
                forall|k: int|
                    0 <= k < nx0.len() && !touched(ns, upd@, i as int, k) ==> #[trigger] self.next@[k] == nx0[k],
            decreases new_level - i,
        {
            let u = upd[i];
            let ghost pi = pos[i as int];
            proof {
                assert(last_before(lv, pi, t, i as int));
                if pi >= 0 {
                    assert(order[pi] < h.len());
                    assert(order[pi] != ns);
                }
                assert(u < h.len() && u != ns);
                assert(!touched(ns, upd@, i as int, u * 16 + i)) by {
                    if touched(ns, upd@, i as int, u * 16 + i) {
                        let j = choose|j: int|
                            0 <= j < i && (u * 16 + i == ns * 16 + j || u * 16 + i == upd@[j] * 16 + j);
                        if u * 16 + i == ns * 16 + j {
                            lemma_index_split(u as int, i as int, ns as int, j);
                        } else {
                            lemma_index_split(u as int, i as int, upd@[j] as int, j);
                        }
                    }
                }
            }
            let ghost before = self.next@;
            let nxt = self.next[u * MAX_LEVEL + i];
            assert(nxt == nx0[u * 16 + i]);
            self.next.set(ns * MAX_LEVEL + i, nxt);
            let ghost mid = self.next@;
            self.next.set(u * MAX_LEVEL + i, ns);
            proof {
                assert(mid == before.update(ns * 16 + i, nxt));
                assert(self.next@ == mid.update(u * 16 + i, ns));
                assert(ns * 16 + i != u * 16 + i) by {
                    if ns * 16 + i == u * 16 + i {
                        lemma_index_split(ns as int, i as int, u as int, i as int);
                    }
                }
                assert forall|j: int| 0 <= j < i + 1 implies self.next@[ns * 16 + j] == nx0[#[trigger] upd@[j]
                    * 16 + j] && self.next@[upd@[j] * 16 + j] == ns by {
                    if j < i {
                        assert(last_before(lv, pos[j], t, j));
                        if pos[j] >= 0 {
                            assert(order[pos[j]] < h.len());
                            assert(order[pos[j]] != ns);
                        }
                        assert(upd@[j] < h.len() && upd@[j] != ns);
                        if ns * 16 + j == u * 16 + i {
                            lemma_index_split(ns as int, j, u as int, i as int);
                        }
                        if ns * 16 + j == ns * 16 + i {
                            lemma_index_split(ns as int, j, ns as int, i as int);
                        }
                        if upd@[j] * 16 + j == u * 16 + i {
                            lemma_index_split(upd@[j] as int, j, u as int, i as int);
                        }
                        if upd@[j] * 16 + j == ns * 16 + i {
                            lemma_index_split(upd@[j] as int, j, ns as int, i as int);
                        }
                        assert(before[ns * 16 + j] == nx0[upd@[j] * 16 + j]);
                        assert(before[upd@[j] * 16 + j] == ns);
                    } else {
                        assert(upd@[j] == u);
                    }
                }
                assert forall|k: int|
                    0 <= k < nx0.len() && !touched(ns, upd@, i + 1, k) implies #[trigger] self.next@[k] == nx0[k] by {
                    assert(k != ns * 16 + i && k != u * 16 + i) by {
                        if k == ns * 16 + i || k == u * 16 + i {
                            assert(touched(ns, upd@, i + 1, k));
                        }
                    }
                    if touched(ns, upd@, i as int, k) {
                        let j = choose|j: int| 0 <= j < i && (k == ns * 16 + j || k == upd@[j] * 16 + j);
                        assert(touched(ns, upd@, i + 1, k));
                    }
                }
            }
            i = i + 1;
        }
        proof {
            assert(h.update(ns as int, new_level) =~= h);
            lemma_links_insert(order, h, nx0, t, ns, new_level, pos, upd@, self.next@);
            lemma_insert_sorted(base, x);
        }
        self.order = Ghost(order.insert(t, ns));
        self.len = self.len + 1;
        proof {
            let o2 = order.insert(t, ns);
            assert(self.ranked() =~= base.insert(t, x)) by {
                assert forall|q: int| 0 <= q < o2.len() implies #[trigger] self.ranked()[q] == base.insert(t, x)[q] by {
                    if q < t {
                        assert(o2[q] == order[q]);
                    } else if q > t {
                        assert(o2[q] == order[q - 1]);
                    }
                }
            }
            assert forall|k: int, p: int| 0 <= k < self.free@.len() && 0 <= p < o2.len() implies #[trigger] self.free@[k]
                != #[trigger] o2[p] by {
                if p == t {
                    assert(free0[k] != ns);
                } else {
                    let op = if p < t { p } else { p - 1 };
                    assert(o2[p] == order[op]);
                }
            }
            assert forall|p: int| 0 <= p < o2.len() implies self.heights@[#[trigger] o2[p] as int] <= self.level by {
                if p != t {
                    let op = if p < t { p } else { p - 1 };
                    assert(o2[p] == order[op]);
                }
            }
        }
    }

    /// Moves `clip_id` to rank under `new_key`: its entry is removed and
    /// inserted again.
    pub fn update_score(&mut self, clip_id: i64, new_key: u64)
        requires
            old(self).well_formed(),
            (old(self).slot_count() + 1) * 16 <= usize::MAX,
            old(self).ranked().len() < usize::MAX,
        ensures
            final(self).well_formed(),
            final(self).ranked() == ranked_insert(old(self).ranked(), new_key, clip_id),
            final(self).slot_count() <= old(self).slot_count() + 1,
    {
        proof {
            lemma_id_pos(old(self).ranked(), clip_id);
        }
        self.remove(clip_id);
        proof {
            let r1 = self.ranked();
            lemma_id_pos_is(r1, clip_id, r1.len() as int);
        }
        self.insert(new_key, clip_id);
    }

    /// The ids of the first `n` entries, in rank order.
    pub fn top_n(&self, n: usize) -> (v: Vec<i64>)
        requires
            self.well_formed(),
        ensures
            v@ == ids_of(self.ranked().take(if n < self.ranked().len() {
                n as int
            } else {
                self.ranked().len() as int
            })),
    {
        let ghost order = self.order@;
        let ghost h = self.heights@;
        let ghost ranked = self.ranked();
        let mut result: Vec<i64> = Vec::new();
        proof {
            lemma_level0_step(order, h, -1);
        }
        let mut cur: usize = self.next[0];
        while cur != NULL && result.len() < n
            invariant
                self.well_formed(),
                order == self.order@,
                h == self.heights@,
                ranked == self.ranked(),
                result@.len() <= order.len(),
                result@.len() <= n,
                cur == (if result@.len() < order.len() {
                    order[result@.len() as int]
                } else {
                    NULL
                }),
                result@ == ids_of(ranked.take(result@.len() as int)),
            decreases order.len() - result@.len(),
        {
            let ghost w = result@.len() as int;
            proof {
                assert(w < order.len()) by {
                    if w >= order.len() {
                        assert(cur == NULL);
                    }
                }
                assert(order[w] < h.len());
                lemma_level0_step(order, h, w);
                assert(h[order[w] as int] >= 1);
                assert(ranked[w] == (self.keys@[cur as int], self.ids@[cur as int]));
            }
            result.push(self.ids[cur]);
            cur = self.next[cur * MAX_LEVEL];
            proof {
                assert(ranked.take(w + 1) =~= ranked.take(w).push(ranked[w]));
                assert(ids_of(ranked.take(w + 1)) =~= ids_of(ranked.take(w)).push(ranked[w].1));
            }
        }
        proof {
            let w = result@.len() as int;
            if w < order.len() && w < n {
                assert(order[w] < h.len());
            }
        }
        result
    }

    /// The ids of all entries, in rank order.
    pub fn iter_ranked(&self) -> (v: Vec<i64>)
        requires
            self.well_formed(),
        ensures
            v@ == ids_of(self.ranked()),
    {
        let ghost order = self.order@;
        let ghost h = self.heights@;
        let ghost ranked = self.ranked();
        let mut result: Vec<i64> = Vec::new();
        proof {
            lemma_level0_step(order, h, -1);
        }
        let mut cur: usize = self.next[0];
        while cur != NULL
            invariant
                self.well_formed(),
                order == self.order@,
                h == self.heights@,
                ranked == self.ranked(),
                result@.len() <= order.len(),
                cur == (if result@.len() < order.len() {
                    order[result@.len() as int]
                } else {
                    NULL
                }),
                result@ == ids_of(ranked.take(result@.len() as int)),
            decreases order.len() - result@.len(),
        {
            let ghost w = result@.len() as int;
            proof {
                assert(w < order.len()) by {
                    if w >= order.len() {
                        assert(cur == NULL);
                    }
                }
                assert(order[w] < h.len());
                lemma_level0_step(order, h, w);
                assert(h[order[w] as int] >= 1);
                assert(ranked[w] == (self.keys@[cur as int], self.ids@[cur as int]));
            }
            result.push(self.ids[cur]);
            cur = self.next[cur * MAX_LEVEL];
            proof {
                assert(ranked.take(w + 1) =~= ranked.take(w).push(ranked[w]));
                assert(ids_of(ranked.take(w + 1)) =~= ids_of(ranked.take(w)).push(ranked[w].1));
            }
        }
        proof {
            let w = result@.len() as int;
            if w < order.len() {
                assert(order[w] < h.len());
            }
            assert(ranked.take(order.len() as int) =~= ranked);
        }
        result
    }

    /// Number of entries.
    pub fn len(&self) -> (r: usize)
        requires
            self.well_formed(),
        ensures
            r == self.ranked().len(),
    {
        self.len
    }

    /// Whether there are no entries.
    pub fn is_empty(&self) -> (r: bool)
        requires
            self.well_formed(),
        ensures
            r == (self.ranked().len() == 0),
    {
        self.len == 0
    }
}

} // verus!
