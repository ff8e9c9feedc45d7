//! What happens to a clip the watchers capture: repeats are dropped, the
//! clip is categorised, recorded in the undo history, and grouped with the
//! recent clips it belongs with.
use crate::dsa::persistent_list::{pushed_versions, VersionHistory};
use crate::dsa::union_find::{should_group, should_group_spec, ClipGroupManager};
use crate::search::classifier::{category_of, ClipCategory, ClipClassifier};
use crate::storage::Clip;
use crate::text::str_eq;
use vstd::prelude::*;

verus! {

/// Most unpinned clips kept; the oldest beyond this are evicted.
pub const HISTORY_LIMIT: usize = 500;

/// A captured text is a repeat, and is dropped, when the duplicate filter
/// has probably seen it and it equals the last clip stored.
pub fn is_repeat(probable_duplicate: bool, last_content: Option<&str>, content: &str) -> (r: bool)
    ensures
        r == (probable_duplicate && last_content is Some && last_content->0@ == content@),
{
    if !probable_duplicate {
        return false;
    }
    match last_content {
        Some(last) => str_eq(last, content),
        None => false,
    }
}

/// The category a new clip is filed under automatically: that of its
/// content, unless it is plain text.
pub fn auto_category(classifier: &ClipClassifier, content: &str) -> (r: Option<&'static str>)
    ensures
        category_of(content@) is PlainText ==> r is None,
        !(category_of(content@) is PlainText) ==> r is Some && r->0@ == match category_of(content@) {
            ClipCategory::Link => "Link"@,
            ClipCategory::FilePath => "File Path"@,
            ClipCategory::Code => "Code"@,
            ClipCategory::Email => "Email"@,
            ClipCategory::Color => "Color"@,
            ClipCategory::PlainText => "Plain Text"@,
        },
{
    let category = classifier.classify(content);
    match category {
        ClipCategory::PlainText => None,
        _ => Some(category.label()),
    }
}

/// Records a stored clip in the undo history: a new version with the clip
/// in front.
pub fn record_in_history(history: &mut VersionHistory<Clip>, clip: Clip)
    requires
        old(history).well_formed(),
        old(history).current_version().len() < usize::MAX,
    ensures
        final(history).well_formed(),
        final(history).versions() == pushed_versions(
            old(history).versions(),
            old(history).cursor(),
            seq![clip] + old(history).current_version(),
        ),
        final(history).cursor() + 1 == final(history).versions().len(),
{
    let next = history.current().prepend(clip);
    history.push(next);
}

/// The manager holds both ids, in one group.
pub open spec fn grouped(m: ClipGroupManager, a: i64, b: i64) -> bool {
    &&& m.index_map().contains_key(a)
    &&& m.index_map().contains_key(b)
    &&& m.partition().root_of(m.index_map()[a] as int) == m.partition().root_of(
        m.index_map()[b] as int,
    )
}

/// `clip` belongs with the clip `other`, a different one.
pub open spec fn belongs_with(clip: Clip, other: Clip) -> bool {
    other.id != clip.id && should_group_spec(clip, other)
}

/// `after` keeps the registrations and groupings of `before`.
pub open spec fn keeps_groups(before: ClipGroupManager, after: ClipGroupManager) -> bool {
    &&& forall|id: i64| #[trigger]
        before.index_map().contains_key(id) ==> after.index_map().contains_key(id)
            && after.index_map()[id] == before.index_map()[id]
    &&& forall|a: i64, b: i64| #[trigger] grouped(before, a, b) ==> #[trigger] grouped(after, a, b)
}

proof fn lemma_keeps_trans(a: ClipGroupManager, b: ClipGroupManager, c: ClipGroupManager)
    requires
        keeps_groups(a, b),
        keeps_groups(b, c),
    ensures
        keeps_groups(a, c),
{
    assert forall|x: i64, y: i64| #[trigger] grouped(a, x, y) implies #[trigger] grouped(c, x, y) by {
        assert(grouped(b, x, y));
    }
}

/// Registers `id`, keeping what was there.
fn register(mgr: &mut ClipGroupManager, id: i64)
    requires
        old(mgr).well_formed(),
        old(mgr).partition().num_elements() < usize::MAX,
    ensures
        final(mgr).well_formed(),
        final(mgr).index_map().contains_key(id),
        keeps_groups(*old(mgr), *final(mgr)),
        final(mgr).partition().num_elements() <= old(mgr).partition().num_elements() + 1,
        forall|x: i64| #[trigger]
            final(mgr).index_map().contains_key(x) <==> (old(mgr).index_map().contains_key(x) || x == id),
        forall|x: i64, y: i64| #[trigger]
            grouped(*final(mgr), x, y) ==> grouped(*old(mgr), x, y) || (x == id && y == id),
{
    proof {
        old(mgr).lemma_indices_bounded();
        old(mgr).partition().lemma_structure();
    }
    mgr.add_clip(id);
    proof {
        if !old(mgr).index_map().contains_key(id) {
            let n = old(mgr).partition().num_elements();
            assert forall|x: i64, y: i64| #[trigger] grouped(*mgr, x, y) implies grouped(*old(mgr), x, y)
                || (x == id && y == id) by {
                if x != id && y != id {
                    assert(old(mgr).index_map()[x] < n && old(mgr).index_map()[y] < n);
                } else if x == id && y != id {
                    assert(old(mgr).index_map()[y] < n);
                    assert(old(mgr).partition().root_of(old(mgr).index_map()[y] as int) < n);
                } else if y == id && x != id {
                    assert(old(mgr).index_map()[x] < n);
                    assert(old(mgr).partition().root_of(old(mgr).index_map()[x] as int) < n);
                }
            }
            assert forall|a: i64, b: i64| #[trigger] grouped(*old(mgr), a, b) implies #[trigger] grouped(
                *mgr,
                a,
                b,
            ) by {
                assert(old(mgr).index_map()[a] < old(mgr).partition().num_elements());
                assert(old(mgr).index_map()[b] < old(mgr).partition().num_elements());
            }
        }
    }
}

/// Puts `a` and `b` in one group, keeping what was there.
fn join(mgr: &mut ClipGroupManager, a: i64, b: i64)
    requires
        old(mgr).well_formed(),
        old(mgr).index_map().contains_key(a),
        old(mgr).index_map().contains_key(b),
    ensures
        final(mgr).well_formed(),
        grouped(*final(mgr), a, b),
        keeps_groups(*old(mgr), *final(mgr)),
        final(mgr).partition().num_elements() == old(mgr).partition().num_elements(),
        final(mgr).index_map() == old(mgr).index_map(),
        forall|x: i64, y: i64| #[trigger]
            grouped(*final(mgr), x, y) ==> grouped(*old(mgr), x, y) || ((grouped(*old(mgr), x, a)
                || grouped(*old(mgr), x, b)) && (grouped(*old(mgr), y, a) || grouped(
                *old(mgr),
                y,
                b,
            ))),
{
    proof {
        old(mgr).lemma_indices_bounded();
    }
    mgr.group_clips(a, b);
    proof {
        assert forall|x: i64, y: i64| #[trigger] grouped(*old(mgr), x, y) implies #[trigger] grouped(
            *mgr,
            x,
            y,
        ) by {
            let ix = old(mgr).index_map()[x] as int;
            let iy = old(mgr).index_map()[y] as int;
            assert(ix < old(mgr).partition().num_elements());
            assert(iy < old(mgr).partition().num_elements());
            assert(mgr.partition().root_of(ix) == mgr.partition().root_of(iy));
        }
        let ia = old(mgr).index_map()[a] as int;
        let ib = old(mgr).index_map()[b] as int;
        assert forall|x: i64, y: i64| #[trigger] grouped(*mgr, x, y) implies grouped(*old(mgr), x, y) || (
        (grouped(*old(mgr), x, a) || grouped(*old(mgr), x, b)) && (grouped(*old(mgr), y, a)
            || grouped(*old(mgr), y, b))) by {
            let ix = old(mgr).index_map()[x] as int;
            let iy = old(mgr).index_map()[y] as int;
            assert(ix < old(mgr).partition().num_elements());
            assert(iy < old(mgr).partition().num_elements());
            assert(mgr.partition().root_of(ix) == mgr.partition().root_of(iy));
        }
    }
}

/// `x` is `clip`, grouped with it, or is, or is grouped with, one of the
/// first `upto` recent clips that `clip` belongs with.
pub open spec fn joins_clip(m: ClipGroupManager, clip: Clip, recent: Seq<Clip>, upto: int, x: i64) -> bool {
    ||| x == clip.id
    ||| grouped(m, x, clip.id)
    ||| exists|k: int|
        0 <= k < upto && belongs_with(clip, #[trigger] recent[k]) && (x == recent[k].id || grouped(
            m,
            x,
            recent[k].id,
        ))
}

/// One of the first `upto` recent clips that `clip` belongs with has id `x`.
pub open spec fn belonging_id(clip: Clip, recent: Seq<Clip>, upto: int, x: i64) -> bool {
    exists|k: int| 0 <= k < upto && belongs_with(clip, #[trigger] recent[k]) && recent[k].id == x
}

/// Groups a newly stored clip with each of the `recent` clips it belongs
/// with, registering them as needed: afterwards exactly the ids grouped
/// before, and all ids joined to the clip, are grouped together.
pub fn group_with_recent(mgr: &mut ClipGroupManager, clip: &Clip, recent: &[Clip])
    requires
        old(mgr).well_formed(),
        old(mgr).partition().num_elements() + recent@.len() + 1 <= usize::MAX,
    ensures
        final(mgr).well_formed(),
        forall|x: i64| #[trigger]
            final(mgr).index_map().contains_key(x) <==> (old(mgr).index_map().contains_key(x) || x
                == clip.id || belonging_id(*clip, recent@, recent@.len() as int, x)),
        forall|x: i64, y: i64| #[trigger]
            grouped(*final(mgr), x, y) <==> (grouped(*old(mgr), x, y) || (joins_clip(
                *old(mgr),
                *clip,
                recent@,
                recent@.len() as int,
                x,
            ) && joins_clip(*old(mgr), *clip, recent@, recent@.len() as int, y))),
        keeps_groups(*old(mgr), *final(mgr)),
        forall|k: int|
            0 <= k < recent@.len() && belongs_with(*clip, #[trigger] recent@[k]) ==> grouped(
                *final(mgr),
                clip.id,
                recent@[k].id,
            ),
{
    let ghost m0 = *mgr;
    let ghost rs = recent@;
    let ghost c = *clip;
    register(mgr, clip.id);
    proof {
        assert forall|x: i64, y: i64| #[trigger] grouped(*mgr, x, y) implies grouped(m0, x, y) || (
        joins_clip(m0, c, rs, 0, x) && joins_clip(m0, c, rs, 0, y)) by {}
        assert forall|x: i64| joins_clip(m0, c, rs, 0, x) implies #[trigger] grouped(*mgr, x, clip.id) by {
            if x != clip.id {
                assert(grouped(m0, x, clip.id));
            }
        }
    }
    let mut i: usize = 0;
    while i < recent.len()
        invariant
            i <= rs.len(),
            rs == recent@,
            c == *clip,
            m0 == *old(mgr),
            mgr.well_formed(),
            mgr.index_map().contains_key(clip.id),
            keeps_groups(m0, *mgr),
            mgr.partition().num_elements() <= m0.partition().num_elements() + 1 + i,
            m0.partition().num_elements() + rs.len() + 1 <= usize::MAX,
            forall|x: i64| #[trigger]
                mgr.index_map().contains_key(x) <==> (m0.index_map().contains_key(x) || x == c.id
                    || belonging_id(c, rs, i as int, x)),
            forall|x: i64, y: i64| #[trigger]
                grouped(*mgr, x, y) ==> grouped(m0, x, y) || (joins_clip(m0, c, rs, i as int, x)
                    && joins_clip(m0, c, rs, i as int, y)),
            forall|x: i64| joins_clip(m0, c, rs, i as int, x) ==> #[trigger] grouped(*mgr, x, c.id),
        decreases rs.len() - i,
    {
        let other = &recent[i];
        if other.id != clip.id && should_group(clip, other) {
            let ghost before = *mgr;
            register(mgr, other.id);
            let ghost mid = *mgr;
            join(mgr, clip.id, other.id);
            proof {
                let o = rs[i as int];
                assert(belongs_with(c, o));
                lemma_keeps_trans(before, mid, *mgr);
                lemma_keeps_trans(m0, before, *mgr);
                assert forall|x: i64| #[trigger]
                    mgr.index_map().contains_key(x) <==> (m0.index_map().contains_key(x) || x == c.id
                        || belonging_id(c, rs, i + 1, x)) by {
                    if belonging_id(c, rs, i + 1, x) && !belonging_id(c, rs, i as int, x) {
                        let k = choose|k: int|
                            0 <= k < i + 1 && belongs_with(c, #[trigger] rs[k]) && rs[k].id == x;
                        assert(k == i);
                    }
                    if belonging_id(c, rs, i as int, x) {
                        let k = choose|k: int| 0 <= k < i && belongs_with(c, #[trigger] rs[k]) && rs[k].id == x;
                        assert(0 <= k < i + 1 && belongs_with(c, rs[k]) && rs[k].id == x);
                    }
                    if x == o.id {
                        assert(0 <= i < i + 1 && belongs_with(c, rs[i as int]) && rs[i as int].id == x);
                    }
                }
                assert forall|x: i64| joins_clip(m0, c, rs, i as int, x) implies joins_clip(
                    m0,
                    c,
                    rs,
                    i + 1,
                    x,
                ) by {
                    if exists|k: int|
                        0 <= k < i && belongs_with(c, #[trigger] rs[k]) && (x == rs[k].id || grouped(
                            m0,
                            x,
                            rs[k].id,
                        )) {
                        let k = choose|k: int|
                            0 <= k < i && belongs_with(c, #[trigger] rs[k]) && (x == rs[k].id || grouped(
                                m0,
                                x,
                                rs[k].id,
                            ));
                        assert(0 <= k < i + 1);
                    }
                }
                assert forall|x: i64| x == o.id || grouped(m0, x, o.id) implies joins_clip(
                    m0,
                    c,
                    rs,
                    i + 1,
                    x,
                ) by {
                    assert(0 <= i < i + 1 && belongs_with(c, rs[i as int]));
                }
                assert forall|x: i64, y: i64| #[trigger] grouped(*mgr, x, y) implies grouped(m0, x, y)
                    || (joins_clip(m0, c, rs, i + 1, x) && joins_clip(m0, c, rs, i + 1, y)) by {
                    if grouped(mid, x, y) {
                        if grouped(before, x, y) {
                        } else {
                            assert(x == o.id && y == o.id);
                        }
                    } else {
                        assert(grouped(mid, x, c.id) || grouped(mid, x, o.id));
                        assert(grouped(mid, y, c.id) || grouped(mid, y, o.id));
                        if grouped(mid, x, c.id) {
                            assert(grouped(before, x, c.id));
                        }
                        if grouped(mid, y, c.id) {
                            assert(grouped(before, y, c.id));
                        }
                        if grouped(mid, x, o.id) && x != o.id {
                            assert(grouped(before, x, o.id));
                        }
                        if grouped(mid, y, o.id) && y != o.id {
                            assert(grouped(before, y, o.id));
                        }
                    }
                }
                assert forall|x: i64| joins_clip(m0, c, rs, i + 1, x) implies #[trigger] grouped(
                    *mgr,
                    x,
                    c.id,
                ) by {
                    if joins_clip(m0, c, rs, i as int, x) {
                        assert(grouped(before, x, c.id));
                    } else {
                        let k = choose|k: int|
                            0 <= k < i + 1 && belongs_with(c, #[trigger] rs[k]) && (x == rs[k].id
                                || grouped(m0, x, rs[k].id));
                        assert(k == i);
                        assert(grouped(*mgr, c.id, o.id));
                        if x != o.id {
                            assert(grouped(*mgr, x, o.id));
                        }
                    }
                }
            }
        } else {
            proof {
                assert forall|x: i64| belonging_id(c, rs, i + 1, x) implies belonging_id(c, rs, i as int, x) by {
                    let k = choose|k: int| 0 <= k < i + 1 && belongs_with(c, #[trigger] rs[k]) && rs[k].id == x;
                    assert(k < i);
                }
                assert forall|x: i64| belonging_id(c, rs, i as int, x) implies belonging_id(c, rs, i + 1, x) by {
                    let k = choose|k: int| 0 <= k < i && belongs_with(c, #[trigger] rs[k]) && rs[k].id == x;
                    assert(0 <= k < i + 1);
                }
                assert forall|x: i64| joins_clip(m0, c, rs, i + 1, x) implies joins_clip(m0, c, rs, i as int, x) by {
                    if exists|k: int|
                        0 <= k < i + 1 && belongs_with(c, #[trigger] rs[k]) && (x == rs[k].id || grouped(
                            m0,
                            x,
                            rs[k].id,
                        )) {
                        let k = choose|k: int|
                            0 <= k < i + 1 && belongs_with(c, #[trigger] rs[k]) && (x == rs[k].id
                                || grouped(m0, x, rs[k].id));
                        assert(k < i);
                    }
                }
                assert forall|x: i64| joins_clip(m0, c, rs, i as int, x) implies joins_clip(m0, c, rs, i + 1, x) by {
                    if exists|k: int|
                        0 <= k < i && belongs_with(c, #[trigger] rs[k]) && (x == rs[k].id || grouped(
                            m0,
                            x,
                            rs[k].id,
                        )) {
                        let k = choose|k: int|
                            0 <= k < i && belongs_with(c, #[trigger] rs[k]) && (x == rs[k].id || grouped(
                                m0,
                                x,
                                rs[k].id,
                            ));
                        assert(0 <= k < i + 1);
                    }
                }
            }
        }
        i = i + 1;
    }
    proof {
        let n = rs.len() as int;
        assert forall|x: i64, y: i64| #[trigger] grouped(*mgr, x, y) <==> (grouped(m0, x, y) || (
        joins_clip(m0, c, rs, n, x) && joins_clip(m0, c, rs, n, y))) by {
            if joins_clip(m0, c, rs, n, x) && joins_clip(m0, c, rs, n, y) {
                assert(grouped(*mgr, x, c.id) && grouped(*mgr, y, c.id));
            }
            if grouped(m0, x, y) {
                assert(grouped(*mgr, x, y));
            }
        }
        assert forall|k: int| 0 <= k < n && belongs_with(c, #[trigger] rs[k]) implies grouped(
            *mgr,
            c.id,
            rs[k].id,
        ) by {
            assert(joins_clip(m0, c, rs, n, rs[k].id));
            assert(grouped(*mgr, rs[k].id, c.id));
        }
    }
}

/// One link of a grouping chain from `x` to `y`: the two were grouped in
/// `m`, or they are two of `clips` that belong together.
pub open spec fn group_step(m: ClipGroupManager, clips: Seq<Clip>, x: i64, y: i64) -> bool {
    ||| grouped(m, x, y)
    ||| exists|a: int, b: int|
        0 <= a < b < clips.len() && should_group_spec(#[trigger] clips[a], #[trigger] clips[b]) && ((x
            == clips[a].id && y == clips[b].id) || (x == clips[b].id && y == clips[a].id))
}

/// `p` is a non-empty sequence of ids, each linked to the next.
pub open spec fn is_chain(m: ClipGroupManager, clips: Seq<Clip>, p: Seq<i64>) -> bool {
    &&& p.len() >= 1
    &&& forall|i: int, j: int|
        0 <= i && j == i + 1 && j < p.len() ==> group_step(m, clips, #[trigger] p[i], #[trigger] p[j])
}

/// Some chain leads from `x` to `y`.
pub open spec fn chained(m: ClipGroupManager, clips: Seq<Clip>, x: i64, y: i64) -> bool {
    exists|p: Seq<i64>| #[trigger] is_chain(m, clips, p) && p[0] == x && p.last() == y
}

proof fn lemma_chained_self(m: ClipGroupManager, clips: Seq<Clip>, x: i64)
    ensures
        chained(m, clips, x, x),
{
    let p = seq![x];
    assert(is_chain(m, clips, p));
}

proof fn lemma_chained_step(m: ClipGroupManager, clips: Seq<Clip>, x: i64, y: i64)
    requires
        group_step(m, clips, x, y),
    ensures
        chained(m, clips, x, y),
{
    let p = seq![x, y];
    assert forall|i: int, j: int| 0 <= i && j == i + 1 && j < p.len() implies group_step(
        m,
        clips,
        #[trigger] p[i],
        #[trigger] p[j],
    ) by {
        assert(i == 0 && j == 1);
    }
    assert(is_chain(m, clips, p));
}

proof fn lemma_chained_trans(m: ClipGroupManager, clips: Seq<Clip>, x: i64, y: i64, z: i64)
    requires
        chained(m, clips, x, y),
        chained(m, clips, y, z),
    ensures
        chained(m, clips, x, z),
{
    let p = choose|p: Seq<i64>| #[trigger] is_chain(m, clips, p) && p[0] == x && p.last() == y;
    let q = choose|q: Seq<i64>| #[trigger] is_chain(m, clips, q) && q[0] == y && q.last() == z;
    let r = p + q.skip(1);
    assert forall|i: int, j: int| 0 <= i && j == i + 1 && j < r.len() implies group_step(
        m,
        clips,
        #[trigger] r[i],
        #[trigger] r[j],
    ) by {
        if j < p.len() {
            assert(r[i] == p[i] && r[j] == p[j]);
        } else if i == p.len() - 1 {
            assert(r[i] == q[0] && r[j] == q[1]);
        } else {
            let i2 = i - p.len() + 1;
            assert(r[i] == q[i2] && r[j] == q[i2 + 1]);
        }
    }
    assert(is_chain(m, clips, r));
    if q.len() == 1 {
        assert(r.last() == p.last());
    } else {
        assert(r.last() == q.last());
    }
}

proof fn lemma_step_sym(m: ClipGroupManager, clips: Seq<Clip>, x: i64, y: i64)
    requires
        group_step(m, clips, x, y),
    ensures
        group_step(m, clips, y, x),
{
    if !grouped(m, x, y) {
        let (a, b) = choose|a: int, b: int|
            0 <= a < b < clips.len() && should_group_spec(#[trigger] clips[a], #[trigger] clips[b])
                && ((x == clips[a].id && y == clips[b].id) || (x == clips[b].id && y == clips[a].id));
        assert(0 <= a < b < clips.len() && should_group_spec(clips[a], clips[b]));
    }
}

proof fn lemma_chained_sym(m: ClipGroupManager, clips: Seq<Clip>, x: i64, y: i64)
    requires
        chained(m, clips, x, y),
    ensures
        chained(m, clips, y, x),
{
    let p = choose|p: Seq<i64>| #[trigger] is_chain(m, clips, p) && p[0] == x && p.last() == y;
    let r = p.reverse();
    assert forall|i: int, j: int| 0 <= i && j == i + 1 && j < r.len() implies group_step(
        m,
        clips,
        #[trigger] r[i],
        #[trigger] r[j],
    ) by {
        let n = p.len() as int;
        let pi = n - 1 - j;
        let pj = n - 1 - i;
        assert(r[i] == p[pj] && r[j] == p[pi]);
        assert(group_step(m, clips, p[pi], p[pj]));
        lemma_step_sym(m, clips, p[pi], p[pj]);
    }
    assert(is_chain(m, clips, r));
    assert(r[0] == y);
    assert(r.last() == x);
}

/// Along a chain whose links are all grouped in `f`, the ends are grouped
/// in `f` when the first is registered there.
proof fn lemma_chain_grouped(f: ClipGroupManager, m: ClipGroupManager, clips: Seq<Clip>, p: Seq<i64>)
    requires
        is_chain(m, clips, p),
        f.index_map().contains_key(p[0]),
        forall|x: i64, y: i64| #[trigger] group_step(m, clips, x, y) ==> grouped(f, x, y),
    ensures
        grouped(f, p[0], p.last()),
    decreases p.len(),
{
    if p.len() > 1 {
        let q = p.drop_last();
        assert forall|i: int, j: int| 0 <= i && j == i + 1 && j < q.len() implies group_step(
            m,
            clips,
            #[trigger] q[i],
            #[trigger] q[j],
        ) by {
            assert(q[i] == p[i] && q[j] == p[j]);
        }
        lemma_chain_grouped(f, m, clips, q);
        let k = p.len() - 2;
        assert(group_step(m, clips, p[k], p[k + 1]));
    }
}

/// Registers every clip and groups each pair that belongs together:
/// afterwards two ids are grouped exactly when the first is registered and a
/// chain of earlier groupings and belonging pairs of `clips` links them.
pub fn group_all(mgr: &mut ClipGroupManager, clips: &[Clip])
    requires
        old(mgr).well_formed(),
        old(mgr).partition().num_elements() + clips@.len() <= usize::MAX,
    ensures
        final(mgr).well_formed(),
        keeps_groups(*old(mgr), *final(mgr)),
        forall|x: i64| #[trigger]
            final(mgr).index_map().contains_key(x) <==> (old(mgr).index_map().contains_key(x)
                || exists|k: int| 0 <= k < clips@.len() && (#[trigger] clips@[k]).id == x),
        forall|a: int, b: int|
            0 <= a < b < clips@.len() && should_group_spec(#[trigger] clips@[a], #[trigger] clips@[b])
                ==> grouped(*final(mgr), clips@[a].id, clips@[b].id),
        forall|x: i64, y: i64| #[trigger]
            grouped(*final(mgr), x, y) <==> (final(mgr).index_map().contains_key(x) && chained(
                *old(mgr),
                clips@,
                x,
                y,
            )),
{
    let ghost m0 = *mgr;
    let ghost cs = clips@;
    proof {
        assert forall|x: i64, y: i64| #[trigger] grouped(m0, x, y) implies chained(m0, cs, x, y) by {
            lemma_chained_step(m0, cs, x, y);
        }
    }
    let mut i: usize = 0;
    while i < clips.len()
        invariant
            i <= cs.len(),
            cs == clips@,
            m0 == *old(mgr),
            mgr.well_formed(),
            keeps_groups(m0, *mgr),
            mgr.partition().num_elements() <= m0.partition().num_elements() + i,
            m0.partition().num_elements() + cs.len() <= usize::MAX,
            forall|k: int| 0 <= k < i ==> mgr.index_map().contains_key(#[trigger] cs[k].id),
            forall|x: i64| #[trigger]
                mgr.index_map().contains_key(x) <==> (m0.index_map().contains_key(x) || exists|k: int|
                    0 <= k < i && (#[trigger] cs[k]).id == x),
            forall|x: i64, y: i64| #[trigger] grouped(*mgr, x, y) ==> chained(m0, cs, x, y),
        decreases cs.len() - i,
    {
        let ghost before = *mgr;
        register(mgr, clips[i].id);
        proof {
            lemma_keeps_trans(m0, before, *mgr);
            assert forall|x: i64| #[trigger]
                mgr.index_map().contains_key(x) <==> (m0.index_map().contains_key(x) || exists|k: int|
                    0 <= k < i + 1 && (#[trigger] cs[k]).id == x) by {
                if x == cs[i as int].id {
                    assert(0 <= i < i + 1 && cs[i as int].id == x);
                }
                if exists|k: int| 0 <= k < i + 1 && (#[trigger] cs[k]).id == x {
                    let k = choose|k: int| 0 <= k < i + 1 && (#[trigger] cs[k]).id == x;
                    if k < i {
                        assert(before.index_map().contains_key(x));
                    }
                }
                if exists|k: int| 0 <= k < i && (#[trigger] cs[k]).id == x {
                    let k = choose|k: int| 0 <= k < i && (#[trigger] cs[k]).id == x;
                    assert(0 <= k < i + 1);
                }
            }
            assert forall|x: i64, y: i64| #[trigger] grouped(*mgr, x, y) implies chained(m0, cs, x, y) by {
                if !grouped(before, x, y) {
                    assert(x == y);
                    lemma_chained_self(m0, cs, x);
                }
            }
            assert forall|k: int| 0 <= k < i + 1 implies mgr.index_map().contains_key(#[trigger] cs[k].id) by {
                if k < i {
                    assert(before.index_map().contains_key(cs[k].id));
                }
            }
        }
        i = i + 1;
    }
    let mut a: usize = 0;
    while a < clips.len()
        invariant
            a <= cs.len(),
            cs == clips@,
            m0 == *old(mgr),
            mgr.well_formed(),
            keeps_groups(m0, *mgr),
            forall|k: int| 0 <= k < cs.len() ==> mgr.index_map().contains_key(#[trigger] cs[k].id),
            forall|x: i64| #[trigger]
                mgr.index_map().contains_key(x) <==> (m0.index_map().contains_key(x) || exists|k: int|
                    0 <= k < cs.len() && (#[trigger] cs[k]).id == x),
            forall|x: i64, y: i64| #[trigger] grouped(*mgr, x, y) ==> chained(m0, cs, x, y),
            forall|x: int, y: int|
                0 <= x < a && x < y < cs.len() && should_group_spec(#[trigger] cs[x], #[trigger] cs[y])
                    ==> grouped(*mgr, cs[x].id, cs[y].id),
        decreases cs.len() - a,
    {
        let mut b: usize = a + 1;
        while b < clips.len()
            invariant
                a < cs.len(),
                a + 1 <= b <= cs.len(),
                cs == clips@,
                m0 == *old(mgr),
                mgr.well_formed(),
                keeps_groups(m0, *mgr),
                forall|k: int| 0 <= k < cs.len() ==> mgr.index_map().contains_key(#[trigger] cs[k].id),
                forall|x: i64| #[trigger]
                    mgr.index_map().contains_key(x) <==> (m0.index_map().contains_key(x) || exists|k: int|
                        0 <= k < cs.len() && (#[trigger] cs[k]).id == x),
                forall|x: i64, y: i64| #[trigger] grouped(*mgr, x, y) ==> chained(m0, cs, x, y),
                forall|x: int, y: int|
                    0 <= x < a && x < y < cs.len() && should_group_spec(#[trigger] cs[x], #[trigger] cs[y])
                        ==> grouped(*mgr, cs[x].id, cs[y].id),
                forall|y: int|
                    a < y < b && should_group_spec(cs[a as int], #[trigger] cs[y]) ==> grouped(
                        *mgr,
                        cs[a as int].id,
                        cs[y].id,
                    ),
            decreases cs.len() - b,
        {
            if should_group(&clips[a], &clips[b]) {
                let ghost before = *mgr;
                join(mgr, clips[a].id, clips[b].id);
                proof {
                    lemma_keeps_trans(m0, before, *mgr);
                    let ca = cs[a as int].id;
                    let cb = cs[b as int].id;
                    assert forall|k: int| 0 <= k < cs.len() implies mgr.index_map().contains_key(
                        #[trigger] cs[k].id,
                    ) by {
                        assert(before.index_map().contains_key(cs[k].id));
                    }
                    assert(group_step(m0, cs, ca, cb));
                    lemma_chained_step(m0, cs, ca, cb);
                    lemma_chained_sym(m0, cs, ca, cb);
                    assert forall|x: i64, y: i64| #[trigger] grouped(*mgr, x, y) implies chained(
                        m0,
                        cs,
                        x,
                        y,
                    ) by {
                        if !grouped(before, x, y) {
                            // x reaches ca, and ca reaches y.
                            if grouped(before, x, ca) {
                                assert(chained(m0, cs, x, ca));
                            } else {
                                assert(chained(m0, cs, x, cb));
                                lemma_chained_trans(m0, cs, x, cb, ca);
                            }
                            if grouped(before, y, ca) {
                                assert(chained(m0, cs, y, ca));
                            } else {
                                assert(chained(m0, cs, y, cb));
                                lemma_chained_trans(m0, cs, y, cb, ca);
                            }
                            lemma_chained_sym(m0, cs, y, ca);
                            lemma_chained_trans(m0, cs, x, ca, y);
                        }
                    }
                    assert forall|x: int, y: int|
                        0 <= x < a && x < y < cs.len() && should_group_spec(
                            #[trigger] cs[x],
                            #[trigger] cs[y],
                        ) implies grouped(*mgr, cs[x].id, cs[y].id) by {
                        assert(grouped(before, cs[x].id, cs[y].id));
                    }
                    assert forall|y: int|
                        a < y < b + 1 && should_group_spec(cs[a as int], #[trigger] cs[y]) implies grouped(
                            *mgr,
                            cs[a as int].id,
                            cs[y].id,
                        ) by {
                        if y < b {
                            assert(grouped(before, cs[a as int].id, cs[y].id));
                        }
                    }
                }
            }
            b = b + 1;
        }
        a = a + 1;
    }
    proof {
        let f = *mgr;
        assert forall|x: i64, y: i64| #[trigger] group_step(m0, cs, x, y) implies grouped(f, x, y) by {
            if !grouped(m0, x, y) {
                let (a, b) = choose|a: int, b: int|
                    0 <= a < b < cs.len() && should_group_spec(#[trigger] cs[a], #[trigger] cs[b])
                        && ((x == cs[a].id && y == cs[b].id) || (x == cs[b].id && y == cs[a].id));
                assert(grouped(f, cs[a].id, cs[b].id));
            }
        }
        assert forall|x: i64, y: i64| #[trigger] grouped(f, x, y) <==> (f.index_map().contains_key(x)
            && chained(m0, cs, x, y)) by {
            if f.index_map().contains_key(x) && chained(m0, cs, x, y) {
                let p = choose|p: Seq<i64>| #[trigger] is_chain(m0, cs, p) && p[0] == x && p.last() == y;
                lemma_chain_grouped(f, m0, cs, p);
            }
        }
    }
}

} // verus!
