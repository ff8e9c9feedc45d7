//! Values the application's commands hand to the frontend, and the order
//! search hits are shown in.
use crate::dsa::persistent_list::{lemma_undo_after_push, pushed_versions, PersistentList, VersionHistory, MAX_VERSIONS};
use crate::search::engine::SearchResult;
use crate::storage::Clip;
use crate::text::{chars_of, str_eq};
use vstd::prelude::*;

verus! {

/// Platform facts shown in the settings view.
#[derive(Debug)]
pub struct PlatformInfo {
    pub backend: String,
    pub session_type: String,
    pub gch_installed: bool,
    pub os: String,
}

/// An available update.
#[derive(Debug)]
pub struct UpdateInfo {
    /// Version offered by the update endpoint.
    pub version: String,
    /// Version currently running.
    pub current: String,
    /// Release notes, empty when none are supplied.
    pub notes: String,
}

/// Synapt's answer to a send request.
#[derive(Debug)]
pub struct SendResult {
    pub transfer_id: String,
    pub status: String,
}


/// Most search hits shown at once.
pub const MAX_SHOWN_RESULTS: usize = 50;

/// The position of `id` in the ranked ids, its last one if it is listed
/// twice, or `usize::MAX` if it is not listed.
pub open spec fn rank_in(ids: Seq<i64>, id: i64) -> int
    decreases ids.len(),
{
    if ids.len() == 0 {
        usize::MAX as int
    } else if ids.last() == id {
        ids.len() - 1
    } else {
        rank_in(ids.drop_last(), id)
    }
}

/// `a` is shown after `b`: it scores lower, or scores the same and ranks
/// later.
pub open spec fn shown_after(a: SearchResult, b: SearchResult, ids: Seq<i64>) -> bool {
    a.doubled_score < b.doubled_score || (a.doubled_score == b.doubled_score && rank_in(ids, a.clip_id)
        > rank_in(ids, b.clip_id))
}

/// The first position in `s` holding a hit shown after `x`.
pub open spec fn result_slot(s: Seq<SearchResult>, x: SearchResult, ids: Seq<i64>) -> int
    decreases s.len(),
{
    if s.len() == 0 {
        0
    } else if shown_after(s[0], x, ids) {
        0
    } else {
        1 + result_slot(s.drop_first(), x, ids)
    }
}

/// The hits in the order they are shown: by score, highest first, then by
/// rank; hits that tie on both keep their order.
pub open spec fn shown_order(rs: Seq<SearchResult>, ids: Seq<i64>) -> Seq<SearchResult>
    decreases rs.len(),
{
    if rs.len() == 0 {
        Seq::empty()
    } else {
        let s = shown_order(rs.drop_last(), ids);
        s.insert(result_slot(s, rs.last(), ids), rs.last())
    }
}

proof fn lemma_result_slot_bound(s: Seq<SearchResult>, x: SearchResult, ids: Seq<i64>)
    ensures
        0 <= result_slot(s, x, ids) <= s.len(),
    decreases s.len(),
{
    if s.len() > 0 && !shown_after(s[0], x, ids) {
        lemma_result_slot_bound(s.drop_first(), x, ids);
    }
}

/// The rank of `id` among `ids`.
fn rank_of(ids: &[i64], id: i64) -> (r: usize)
    ensures
        r == rank_in(ids@, id),
{
    let mut k = ids.len();
    assert(ids@.take(k as int) =~= ids@);
    while k > 0
        invariant
            k <= ids@.len(),
            rank_in(ids@, id) == rank_in(ids@.take(k as int), id),
        decreases k,
    {
        if ids[k - 1] == id {
            return k - 1;
        }
        assert(ids@.take(k as int).drop_last() =~= ids@.take(k - 1));
        k = k - 1;
    }
    usize::MAX
}

/// The search hits in the order they are shown, at most
/// `MAX_SHOWN_RESULTS` of them: by score, highest first; equal scores by
/// their position in `ranked_ids`, unlisted ones last; full ties keep the
/// order they came in.
pub fn order_results(results: Vec<SearchResult>, ranked_ids: &[i64]) -> (out: Vec<SearchResult>)
    ensures
        forall|a: int, b: int|
            0 <= a < b < out@.len() ==> !shown_after(#[trigger] out@[a], #[trigger] out@[b], ranked_ids@),
        results@.len() <= MAX_SHOWN_RESULTS ==> out@.to_multiset() == results@.to_multiset(),
        out@ == shown_order(results@, ranked_ids@).take(
            if results@.len() <= MAX_SHOWN_RESULTS {
                results@.len() as int
            } else {
                MAX_SHOWN_RESULTS as int
            },
        ),
{
    let ghost all = results@;
    let ghost ids = ranked_ids@;
    let mut rest = results;
    let mut out: Vec<SearchResult> = Vec::new();
    let mut i: usize = 0;
    let n = rest.len();
    while i < n
        invariant
            n == all.len(),
            i <= n,
            rest@ == all.skip(i as int),
            out@ == shown_order(all.take(i as int), ids),
            out@.len() == i,
            ids == ranked_ids@,
        decreases n - i,
    {
        let x = rest.remove(0);
        proof {
            assert(x == all[i as int]);
            assert(all.skip(i as int).remove(0) =~= all.skip(i + 1));
            assert(all.take(i + 1).drop_last() =~= all.take(i as int));
            assert(all.take(i + 1).last() == x);
            lemma_result_slot_bound(out@, x, ids);
        }
        let x_rank = rank_of(ranked_ids, x.clip_id);
        let mut p: usize = 0;
        assert(out@.skip(0) =~= out@);
        while p < out.len() && !(out[p].doubled_score < x.doubled_score || (out[p].doubled_score
            == x.doubled_score && rank_of(ranked_ids, out[p].clip_id) > x_rank))
            invariant
                p <= out@.len(),
                x_rank == rank_in(ids, x.clip_id),
                ids == ranked_ids@,
                result_slot(out@, x, ids) == p + result_slot(out@.skip(p as int), x, ids),
            decreases out@.len() - p,
        {
            assert(out@.skip(p as int).drop_first() =~= out@.skip(p + 1));
            p = p + 1;
        }
        proof {
            if p < out@.len() {
                assert(out@.skip(p as int)[0] == out@[p as int]);
            }
            assert(result_slot(out@.skip(p as int), x, ids) == 0);
        }
        out.insert(p, x);
        i = i + 1;
    }
    assert(all.take(n as int) =~= all);
    out.truncate(MAX_SHOWN_RESULTS);
    proof {
        lemma_shown_len(all, ids);
        lemma_shown_order(all, ids);
        if n > MAX_SHOWN_RESULTS {
            assert(out@ =~= shown_order(all, ids).take(MAX_SHOWN_RESULTS as int));
        } else {
            assert(shown_order(all, ids).take(n as int) =~= shown_order(all, ids));
        }
    }
    out
}

proof fn lemma_result_slot_props(s: Seq<SearchResult>, x: SearchResult, ids: Seq<i64>)
    ensures
        forall|k: int| 0 <= k < result_slot(s, x, ids) ==> !shown_after(#[trigger] s[k], x, ids),
        result_slot(s, x, ids) < s.len() ==> shown_after(s[result_slot(s, x, ids)], x, ids),
    decreases s.len(),
{
    lemma_result_slot_bound(s, x, ids);
    if s.len() > 0 && !shown_after(s[0], x, ids) {
        lemma_result_slot_props(s.drop_first(), x, ids);
        lemma_result_slot_bound(s.drop_first(), x, ids);
        let r = result_slot(s.drop_first(), x, ids);
        if r < s.len() - 1 {
            assert(s[1 + r] == s.drop_first()[r]);
        }
        assert forall|k: int| 0 <= k < result_slot(s, x, ids) implies !shown_after(#[trigger] s[k], x, ids) by {
            if k > 0 {
                assert(s[k] == s.drop_first()[k - 1]);
            }
        }
    }
}

/// No hit is shown before one it is shown after, and the shown hits are
/// the hits given.
pub proof fn lemma_shown_order(rs: Seq<SearchResult>, ids: Seq<i64>)
    ensures
        forall|a: int, b: int|
            0 <= a < b < shown_order(rs, ids).len() ==> !shown_after(
                #[trigger] shown_order(rs, ids)[a],
                #[trigger] shown_order(rs, ids)[b],
                ids,
            ),
        shown_order(rs, ids).to_multiset() == rs.to_multiset(),
    decreases rs.len(),
{
    broadcast use vstd::seq_lib::group_to_multiset_ensures;

    if rs.len() > 0 {
        let s = shown_order(rs.drop_last(), ids);
        let x = rs.last();
        lemma_shown_order(rs.drop_last(), ids);
        lemma_result_slot_bound(s, x, ids);
        lemma_result_slot_props(s, x, ids);
        let p = result_slot(s, x, ids);
        let u = s.insert(p, x);
        assert forall|a: int, b: int| 0 <= a < b < u.len() implies !shown_after(
            #[trigger] u[a],
            #[trigger] u[b],
            ids,
        ) by {
            if b < p {
                assert(u[a] == s[a] && u[b] == s[b]);
            } else if b == p {
                assert(u[a] == s[a]);
            } else if a == p {
                assert(u[b] == s[b - 1]);
                if b - 1 > p {
                    assert(!shown_after(s[p], s[b - 1], ids));
                }
            } else if a < p {
                assert(u[a] == s[a] && u[b] == s[b - 1]);
            } else {
                assert(u[a] == s[a - 1] && u[b] == s[b - 1]);
            }
        }
        vstd::seq_lib::to_multiset_insert(s, p, x);
        assert(rs =~= rs.drop_last().push(x));
        vstd::seq_lib::to_multiset_build(rs.drop_last(), x);
    }
}

proof fn lemma_shown_len(rs: Seq<SearchResult>, ids: Seq<i64>)
    ensures
        shown_order(rs, ids).len() == rs.len(),
    decreases rs.len(),
{
    if rs.len() > 0 {
        lemma_shown_len(rs.drop_last(), ids);
        lemma_result_slot_bound(shown_order(rs.drop_last(), ids), rs.last(), ids);
    }
}


/// The value of a string of ASCII digits.
pub open spec fn digits_value(d: Seq<char>) -> int
    decreases d.len(),
{
    if d.len() == 0 {
        0
    } else {
        10 * digits_value(d.drop_last()) + (d.last() as int - '0' as int)
    }
}

/// Every character of `d` is an ASCII digit.
pub open spec fn all_digits(d: Seq<char>) -> bool {
    forall|k: int| 0 <= k < d.len() ==> '0' <= #[trigger] d[k] <= '9'
}

/// The integer a string denotes as `i64` parsing reads it: an optional `+`
/// or `-`, then one or more ASCII digits, the value within `i64`.
pub open spec fn parsed_i64(s: Seq<char>) -> Option<int> {
    let signed = s.len() > 0 && (s[0] == '+' || s[0] == '-');
    let body = if signed {
        s.drop_first()
    } else {
        s
    };
    let v = if signed && s[0] == '-' {
        -digits_value(body)
    } else {
        digits_value(body)
    };
    if body.len() > 0 && all_digits(body) && i64::MIN <= v <= i64::MAX {
        Some(v)
    } else {
        None
    }
}

/// The value of a digit string is never negative and never below that of
/// one of its prefixes.
proof fn lemma_digits_mono(d: Seq<char>, j: int)
    requires
        all_digits(d),
        0 <= j <= d.len(),
    ensures
        0 <= digits_value(d.take(j)) <= digits_value(d),
    decreases d.len(),
{
    if d.len() > 0 {
        let p = d.drop_last();
        assert(all_digits(p)) by {
            assert forall|k: int| 0 <= k < p.len() implies '0' <= #[trigger] p[k] <= '9' by {
                assert(p[k] == d[k]);
            }
        }
        assert('0' <= d[d.len() - 1] <= '9');
        if j == d.len() {
            assert(d.take(j) =~= d);
            lemma_digits_mono(p, p.len() as int);
            assert(p.take(p.len() as int) =~= p);
        } else {
            lemma_digits_mono(p, j);
            assert(p.take(j) =~= d.take(j));
        }
    }
}

/// Reads a decimal `i64` as `str::parse::<i64>` does: an optional `+` or
/// `-`, then one or more ASCII digits whose value fits in `i64`.
pub fn parse_i64(s: &str) -> (r: Option<i64>)
    ensures
        match parsed_i64(s@) {
            Some(v) => r == Some(v as i64),
            None => r is None,
        },
{
    let cs = chars_of(s);
    let n = cs.len();
    if n == 0 {
        return None;
    }
    let signed = cs[0] == '+' || cs[0] == '-';
    let neg = cs[0] == '-';
    let start: usize = if signed {
        1
    } else {
        0
    };
    let ghost body = if signed {
        s@.drop_first()
    } else {
        s@
    };
    assert(body =~= s@.skip(start as int));
    assert(s@[0] == cs@[0]);
    assert(signed == (s@[0] == '+' || s@[0] == '-'));
    if start == n {
        assert(body.len() == 0);
        return None;
    }
    let mut acc: i128 = 0;
    let mut k: usize = start;
    assert(body.take(0) =~= Seq::<char>::empty());
    while k < n
        invariant
            start <= k <= n,
            n == s@.len(),
            cs@ == s@,
            body == s@.skip(start as int),
            s@.len() > 0,
            body == (if s@[0] == '+' || s@[0] == '-' {
                s@.drop_first()
            } else {
                s@
            }),
            neg == (s@[0] == '-'),
            acc == digits_value(body.take(k - start)),
            all_digits(body.take(k - start)),
            0 <= acc <= 9223372036854775808,
        decreases n - k,
    {
        let c = cs[k];
        let ghost j = k - start;
        assert(body[j] == c);
        if !('0' <= c && c <= '9') {
            assert(!('0' <= body[j] <= '9'));
            assert(!all_digits(body));
            return None;
        }
        let d: i128 = (c as u32 - '0' as u32) as i128;
        acc = acc * 10 + d;
        proof {
            let t = body.take(j + 1);
            assert(t.drop_last() =~= body.take(j));
            assert(t.last() == c);
            assert(all_digits(t)) by {
                assert forall|m: int| 0 <= m < t.len() implies '0' <= #[trigger] t[m] <= '9' by {
                    if m < j {
                        assert(t[m] == body.take(j)[m]);
                    }
                }
            }
        }
        if acc > 9223372036854775808 {
            proof {
                if all_digits(body) {
                    lemma_digits_mono(body, j + 1);
                }
            }
            return None;
        }
        k = k + 1;
    }
    assert(body.take(n - start) =~= body);
    if neg {
        Some((-acc) as i64)
    } else if acc <= 9223372036854775807 {
        Some(acc as i64)
    } else {
        None
    }
}

/// What changing a setting sets off besides storing it.
#[derive(Debug)]
pub enum SettingEffect {
    /// Trim the history to this many clips.
    EnforceHistoryLimit(i64),
    /// Drop clips older than this many days.
    ExpireOlderThanDays(i64),
    /// Tell the frontend the theme changed.
    ThemeChanged,
    /// Register the new global hotkey.
    RegisterHotkey,
    /// Nothing more.
    Nothing,
}

/// The effect of setting `key` to `value`: a positive history limit or
/// expiry is applied, a theme change is announced, a hotkey is
/// registered; anything else is only stored.
pub fn setting_effect(key: &str, value: &str) -> (r: SettingEffect)
    ensures
        r == (if key@ == "history_limit"@ {
            match parsed_i64(value@) {
                Some(n) => if n > 0 {
                    SettingEffect::EnforceHistoryLimit(n as i64)
                } else {
                    SettingEffect::Nothing
                },
                None => SettingEffect::Nothing,
            }
        } else if key@ == "expiry_days"@ {
            match parsed_i64(value@) {
                Some(n) => if n > 0 {
                    SettingEffect::ExpireOlderThanDays(n as i64)
                } else {
                    SettingEffect::Nothing
                },
                None => SettingEffect::Nothing,
            }
        } else if key@ == "theme"@ {
            SettingEffect::ThemeChanged
        } else if key@ == "hotkey"@ {
            SettingEffect::RegisterHotkey
        } else {
            SettingEffect::Nothing
        }),
{
    if str_eq(key, "history_limit") {
        match parse_i64(value) {
            Some(n) => if n > 0 {
                SettingEffect::EnforceHistoryLimit(n)
            } else {
                SettingEffect::Nothing
            },
            None => SettingEffect::Nothing,
        }
    } else if str_eq(key, "expiry_days") {
        match parse_i64(value) {
            Some(n) => if n > 0 {
                SettingEffect::ExpireOlderThanDays(n)
            } else {
                SettingEffect::Nothing
            },
            None => SettingEffect::Nothing,
        }
    } else if str_eq(key, "theme") {
        SettingEffect::ThemeChanged
    } else if str_eq(key, "hotkey") {
        SettingEffect::RegisterHotkey
    } else {
        SettingEffect::Nothing
    }
}


/// Position of the first clip with id `id` in `clips`, if any.
pub open spec fn first_pos(clips: Seq<Clip>, id: i64) -> Option<int>
    decreases clips.len(),
{
    if clips.len() == 0 {
        None
    } else if clips[0].id == id {
        Some(0)
    } else {
        match first_pos(clips.drop_first(), id) {
            Some(k) => Some(k + 1),
            None => None,
        }
    }
}

proof fn lemma_first_pos(clips: Seq<Clip>, id: i64)
    ensures
        match first_pos(clips, id) {
            Some(k) => 0 <= k < clips.len() && clips[k].id == id && forall|j: int|
                0 <= j < k ==> (#[trigger] clips[j]).id != id,
            None => forall|j: int| 0 <= j < clips.len() ==> (#[trigger] clips[j]).id != id,
        },
    decreases clips.len(),
{
    if clips.len() > 0 {
        lemma_first_pos(clips.drop_first(), id);
        assert forall|j: int| 1 <= j < clips.len() implies clips[j] == clips.drop_first()[j - 1] by {}
    }
}

/// The versions and cursor of a history after the clip `id` is deleted
/// from its current version: a new version without the first such clip
/// is pushed; nothing changes when there is none.
pub open spec fn after_removal(versions: Seq<Seq<Clip>>, cursor: nat, id: i64) -> (
    Seq<Seq<Clip>>,
    nat,
) {
    let current = versions[cursor as int];
    match first_pos(current, id) {
        None => (versions, cursor),
        Some(k) => {
            let next = pushed_versions(versions, cursor, current.remove(k));
            (next, (next.len() - 1) as nat)
        },
    }
}

/// The versions and cursor after deleting each of `ids` in turn.
pub open spec fn after_removals(versions: Seq<Seq<Clip>>, cursor: nat, ids: Seq<i64>) -> (
    Seq<Seq<Clip>>,
    nat,
)
    decreases ids.len(),
{
    if ids.len() == 0 {
        (versions, cursor)
    } else {
        let (v, c) = after_removals(versions, cursor, ids.drop_last());
        after_removal(v, c, ids.last())
    }
}

/// Position of the first clip with id `id` in the current version.
fn position_in(list: &PersistentList<Clip>, id: i64) -> (r: Option<usize>)
    ensures
        match r {
            Some(i) => first_pos(list@, id) == Some(i as int),
            None => first_pos(list@, id) is None,
        },
{
    let items = list.iter();
    let mut i: usize = 0;
    proof {
        lemma_first_pos(list@, id);
    }
    while i < items.len()
        invariant
            i <= items@.len(),
            items@.len() == list@.len(),
            forall|k: int| 0 <= k < items@.len() ==> *#[trigger] items@[k] == list@[k],
            forall|j: int| 0 <= j < i ==> (#[trigger] list@[j]).id != id,
            match first_pos(list@, id) {
                Some(k) => 0 <= k < list@.len() && list@[k].id == id && forall|j: int|
                    0 <= j < k ==> (#[trigger] list@[j]).id != id,
                None => forall|j: int| 0 <= j < list@.len() ==> (#[trigger] list@[j]).id != id,
            },
        decreases items@.len() - i,
    {
        if items[i].id == id {
            assert(list@[i as int].id == id);
            return Some(i);
        }
        i = i + 1;
    }
    None
}

/// Deletes the clip `id` from the current version of the history, as a
/// new version that an undo takes back.
pub fn remove_clip_from_history(history: &mut VersionHistory<Clip>, id: i64)
    requires
        old(history).well_formed(),
    ensures
        final(history).well_formed(),
        (final(history).versions(), final(history).cursor()) == after_removal(
            old(history).versions(),
            old(history).cursor(),
            id,
        ),
{
    proof {
        lemma_first_pos(history.current_version(), id);
    }
    let idx = position_in(history.current(), id);
    match idx {
        None => {
            assert(first_pos(history.current_version(), id) is None);
            assert(after_removal(history.versions(), history.cursor(), id) == (
                history.versions(),
                history.cursor(),
            ));
        },
        Some(k) => {
            let ghost cur = history.current_version();
            let next = history.current().remove_at(k);
            assert(next@ == cur.remove(k as int));
            let ghost vs = history.versions();
            let ghost c = history.cursor();
            history.push(next);
            assert(history.versions() == pushed_versions(vs, c, cur.remove(k as int)));
            assert(vs[c as int] == cur);
            assert(first_pos(cur, id) == Some(k as int));
            assert(history.cursor() == history.versions().len() - 1);
            assert(after_removal(vs, c, id).0 == history.versions());
            assert(after_removal(vs, c, id).1 == history.cursor());
        },
    }
}

/// Deletes each of `ids` from the history in turn.
pub fn remove_clips_from_history(history: &mut VersionHistory<Clip>, ids: &[i64])
    requires
        old(history).well_formed(),
    ensures
        final(history).well_formed(),
        (final(history).versions(), final(history).cursor()) == after_removals(
            old(history).versions(),
            old(history).cursor(),
            ids@,
        ),
{
    let mut i: usize = 0;
    while i < ids.len()
        invariant
            i <= ids@.len(),
            history.well_formed(),
            (history.versions(), history.cursor()) == after_removals(
                old(history).versions(),
                old(history).cursor(),
                ids@.take(i as int),
            ),
        decreases ids@.len() - i,
    {
        assert(ids@.take(i + 1).drop_last() =~= ids@.take(i as int));
        remove_clip_from_history(history, ids[i]);
        i = i + 1;
    }
    assert(ids@.take(ids@.len() as int) =~= ids@);
}

/// The first id in `after` that no clip of `before` has.
pub open spec fn first_new_id(after: Seq<Clip>, before: Seq<Clip>) -> Option<i64>
    decreases after.len(),
{
    if after.len() == 0 {
        None
    } else if forall|j: int| 0 <= j < before.len() ==> (#[trigger] before[j]).id != after[0].id {
        Some(after[0].id)
    } else {
        first_new_id(after.drop_first(), before)
    }
}

/// Whether some clip of `clips` has id `id`.
fn has_id(clips: &Vec<&Clip>, id: i64) -> (r: bool)
    ensures
        r == exists|j: int| 0 <= j < clips@.len() && (#[trigger] clips@[j]).id == id,
{
    let mut i: usize = 0;
    while i < clips.len()
        invariant
            i <= clips@.len(),
            forall|j: int| 0 <= j < i ==> (#[trigger] clips@[j]).id != id,
        decreases clips@.len() - i,
    {
        if clips[i].id == id {
            return true;
        }
        i = i + 1;
    }
    false
}

/// Steps the history back one version and reports the clip that step
/// brings back: the first clip of the now-current version whose id the
/// version before did not have. Nothing when there is no earlier version.
pub fn restored_by_undo(history: &mut VersionHistory<Clip>) -> (r: Option<i64>)
    requires
        old(history).well_formed(),
    ensures
        final(history).well_formed(),
        final(history).versions() == old(history).versions(),
        old(history).cursor() == 0 ==> r is None && final(history).cursor() == 0,
        old(history).cursor() > 0 ==> final(history).cursor() == old(history).cursor() - 1 && r
            == first_new_id(final(history).current_version(), old(history).current_version()),
{
    let ghost old_current = history.current_version();
    let before = history.current().iter();
    let mut before_ids: Vec<i64> = Vec::new();
    let mut b: usize = 0;
    while b < before.len()
        invariant
            b <= before@.len(),
            before@.len() == old_current.len(),
            forall|k: int| 0 <= k < before@.len() ==> *#[trigger] before@[k] == old_current[k],
            before_ids@.len() == b,
            forall|j: int| 0 <= j < b ==> before_ids@[j] == (#[trigger] old_current[j]).id,
        decreases before@.len() - b,
    {
        before_ids.push(before[b].id);
        b = b + 1;
    }
    let moved = history.undo().is_some();
    if !moved {
        return None;
    }
    let ghost after = history.current_version();
    let restored = history.current().iter();
    let mut i: usize = 0;
    assert(after.skip(0) =~= after);
    while i < restored.len()
        invariant
            i <= restored@.len(),
            restored@.len() == after.len(),
            forall|k: int| 0 <= k < restored@.len() ==> *#[trigger] restored@[k] == after[k],
            before_ids@.len() == old_current.len(),
            forall|j: int| 0 <= j < before_ids@.len() ==> before_ids@[j] == (#[trigger] old_current[j]).id,
            first_new_id(after, old_current) == first_new_id(after.skip(i as int), old_current),
            history.well_formed(),
            history.versions() == old(history).versions(),
            history.cursor() + 1 == old(history).cursor(),
            after == history.current_version(),
            old_current == old(history).current_version(),
        decreases restored@.len() - i,
    {
        let id = restored[i].id;
        let mut found = false;
        let mut j: usize = 0;
        while j < before_ids.len()
            invariant
                j <= before_ids@.len(),
                before_ids@.len() == old_current.len(),
                forall|t: int| 0 <= t < before_ids@.len() ==> before_ids@[t] == (#[trigger] old_current[t]).id,
                found == exists|t: int| 0 <= t < j && before_ids@[t] == id,
            decreases before_ids@.len() - j,
        {
            if before_ids[j] == id {
                found = true;
            }
            j = j + 1;
        }
        proof {
            assert(after.skip(i as int)[0] == after[i as int]);
            assert(after.skip(i as int).drop_first() =~= after.skip(i + 1));
            if found {
                let t = choose|t: int| 0 <= t < before_ids@.len() && before_ids@[t] == id;
                assert(old_current[t].id == id);
            }
        }
        if !found {
            proof {
                let rest = after.skip(i as int);
                assert forall|t: int| 0 <= t < old_current.len() implies (#[trigger] old_current[t]).id
                    != rest[0].id by {
                    assert(before_ids@[t] == old_current[t].id);
                }
            }
            return Some(id);
        }
        i = i + 1;
    }
    None
}


/// No two clips of `clips` share an id.
pub open spec fn ids_distinct(clips: Seq<Clip>) -> bool {
    forall|a: int, b: int| 0 <= a < b < clips.len() ==> (#[trigger] clips[a]).id != (#[trigger] clips[b]).id
}

proof fn lemma_first_new_after_removal(cur: Seq<Clip>, k: int, j: int)
    requires
        0 <= j <= k < cur.len(),
        ids_distinct(cur),
    ensures
        first_new_id(cur.skip(j), cur.remove(k)) == Some(cur[k].id),
    decreases k - j,
{
    let before = cur.remove(k);
    let rest = cur.skip(j);
    assert(rest[0] == cur[j]);
    if j == k {
        assert forall|t: int| 0 <= t < before.len() implies (#[trigger] before[t]).id != rest[0].id by {
            if t < k {
                assert(before[t] == cur[t]);
            } else {
                assert(before[t] == cur[t + 1]);
            }
        }
    } else {
        assert(before[j] == cur[j]);
        assert(rest.drop_first() =~= cur.skip(j + 1));
        lemma_first_new_after_removal(cur, k, j + 1);
    }
}

/// Undo takes a deletion back: after the clip `id` is deleted from the
/// current version, whose clips have distinct ids, one undo makes the
/// version before the deletion current again and reports `id` as the clip
/// it brings back.
pub proof fn lemma_undo_restores_deleted(versions: Seq<Seq<Clip>>, cursor: nat, id: i64)
    requires
        1 <= versions.len() <= MAX_VERSIONS,
        cursor < versions.len(),
        first_pos(versions[cursor as int], id) is Some,
        ids_distinct(versions[cursor as int]),
    ensures
        ({
            let (after, c) = after_removal(versions, cursor, id);
            &&& c >= 1
            &&& after[c - 1] == versions[cursor as int]
            &&& first_new_id(after[c - 1], after[c as int]) == Some(id)
        }),
{
    let cur = versions[cursor as int];
    lemma_first_pos(cur, id);
    let k = first_pos(cur, id)->0;
    lemma_undo_after_push(versions, cursor, cur.remove(k));
    assert(cur.skip(0) =~= cur);
    lemma_first_new_after_removal(cur, k, 0);
}


/// Whether the automatic update check runs, given the stored
/// `auto_update_check` setting: always, unless it is exactly `false`.
pub fn update_check_allowed(setting: Option<&str>) -> (r: bool)
    ensures
        r == !(setting is Some && setting->0@ == "false"@),
{
    match setting {
        Some(v) => !str_eq(v, "false"),
        None => true,
    }
}

} // verus!
