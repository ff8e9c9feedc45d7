//! Levenshtein edit distance and a fuzzy searcher over clip contents.
use crate::text::{chars_of, lowercase, split_words, to_lower, trim_str, trimmed, words};
use vstd::prelude::*;

verus! {

broadcast use vstd::string::group_string_axioms;

/// The smallest of three numbers.
pub open spec fn min3(a: nat, b: nat, c: nat) -> nat {
    if a <= b && a <= c {
        a
    } else if b <= c {
        b
    } else {
        c
    }
}

/// Edit distance: the fewest single-character insertions, deletions and
/// substitutions that turn `a` into `b`.
pub open spec fn lev(a: Seq<char>, b: Seq<char>) -> nat
    decreases a.len() + b.len(),
{
    if a.len() == 0 {
        b.len()
    } else if b.len() == 0 {
        a.len()
    } else {
        min3(
            lev(a.drop_last(), b) + 1,
            lev(a, b.drop_last()) + 1,
            lev(a.drop_last(), b.drop_last()) + if a.last() == b.last() {
                0nat
            } else {
                1nat
            },
        )
    }
}

/// A string as the distance functions compare it: trimmed, then lowercased.
pub open spec fn folded(s: Seq<char>) -> Seq<char> {
    lowercase(trimmed(s))
}

/// The distance `levenshtein` reports between two strings.
pub open spec fn distance(a: Seq<char>, b: Seq<char>) -> nat {
    lev(folded(a), folded(b))
}

/// `|x - y|` on naturals.
pub open spec fn abs_diff(x: nat, y: nat) -> nat {
    if x >= y {
        (x - y) as nat
    } else {
        (y - x) as nat
    }
}

/// Edit distance does not depend on the order of its arguments.
pub proof fn lemma_lev_symmetric(a: Seq<char>, b: Seq<char>)
    ensures
        lev(a, b) == lev(b, a),
    decreases a.len() + b.len(),
{
    if a.len() > 0 && b.len() > 0 {
        lemma_lev_symmetric(a.drop_last(), b);
        lemma_lev_symmetric(a, b.drop_last());
        lemma_lev_symmetric(a.drop_last(), b.drop_last());
    }
}

/// Edit distance never exceeds the longer length.
pub proof fn lemma_lev_bound(a: Seq<char>, b: Seq<char>)
    ensures
        lev(a, b) <= if a.len() >= b.len() {
            a.len()
        } else {
            b.len()
        },
    decreases a.len() + b.len(),
{
    if a.len() > 0 && b.len() > 0 {
        lemma_lev_bound(a.drop_last(), b.drop_last());
    }
}

/// Edit distance is at least the difference of the lengths.
pub proof fn lemma_lev_lower(a: Seq<char>, b: Seq<char>)
    ensures
        abs_diff(a.len(), b.len()) <= lev(a, b),
    decreases a.len() + b.len(),
{
    if a.len() > 0 && b.len() > 0 {
        lemma_lev_lower(a.drop_last(), b);
        lemma_lev_lower(a, b.drop_last());
        lemma_lev_lower(a.drop_last(), b.drop_last());
    }
}

/// The edit distance of two strings is zero exactly when they are equal.
pub proof fn lemma_lev_zero(a: Seq<char>, b: Seq<char>)
    ensures
        lev(a, b) == 0 <==> a == b,
    decreases a.len() + b.len(),
{
    lemma_lev_lower(a, b);
    if a.len() > 0 && b.len() > 0 {
        lemma_lev_zero(a.drop_last(), b.drop_last());
        if lev(a, b) == 0 {
            lemma_lev_lower(a.drop_last(), b);
            lemma_lev_lower(a, b.drop_last());
            assert(a.drop_last() == b.drop_last());
            assert(a =~= a.drop_last().push(a.last()));
            assert(b =~= b.drop_last().push(b.last()));
        }
        if a == b {
            assert(a.drop_last() =~= b.drop_last());
        }
    } else if a.len() == 0 && b.len() == 0 {
        assert(a =~= b);
    }
}

/// Edit distance obeys the triangle inequality: going from `a` to `c`
/// never takes more edits than going through `b`.
pub proof fn lemma_lev_triangle(a: Seq<char>, b: Seq<char>, c: Seq<char>)
    ensures
        lev(a, c) <= lev(a, b) + lev(b, c),
    decreases a.len() + b.len() + c.len(),
{
    if a.len() == 0 {
        lemma_lev_lower(b, c);
    } else if c.len() == 0 {
        lemma_lev_lower(a, b);
    } else if b.len() == 0 {
        lemma_lev_bound(a, c);
    } else {
        let a1 = a.drop_last();
        let b1 = b.drop_last();
        let c1 = c.drop_last();
        let d1 = lev(a, b);
        let d2 = lev(b, c);
        let sab: nat = if a.last() == b.last() { 0 } else { 1 };
        let sbc: nat = if b.last() == c.last() { 0 } else { 1 };
        let sac: nat = if a.last() == c.last() { 0 } else { 1 };
        assert(sac <= sab + sbc);
        if d1 == lev(a1, b) + 1 {
            lemma_lev_triangle(a1, b, c);
        } else if d2 == lev(b, c1) + 1 {
            lemma_lev_triangle(a, b, c1);
        } else if d1 == lev(a, b1) + 1 {
            if d2 == lev(b1, c) + 1 {
                lemma_lev_triangle(a, b1, c);
            } else {
                assert(d2 == lev(b1, c1) + sbc);
                lemma_lev_triangle(a, b1, c1);
            }
        } else {
            assert(d1 == lev(a1, b1) + sab);
            if d2 == lev(b1, c) + 1 {
                lemma_lev_triangle(a1, b1, c);
            } else {
                assert(d2 == lev(b1, c1) + sbc);
                lemma_lev_triangle(a1, b1, c1);
            }
        }
    }
}

/// The distance `levenshtein` reports obeys the triangle inequality.
pub proof fn lemma_distance_triangle(a: Seq<char>, b: Seq<char>, c: Seq<char>)
    ensures
        distance(a, c) <= distance(a, b) + distance(b, c),
{
    lemma_lev_triangle(folded(a), folded(b), folded(c));
}

/// Edit distance between `short` and `long` by the two-row table.
fn edit_distance(short: &Vec<char>, long: &Vec<char>) -> (d: usize)
    requires
        short@.len() <= long@.len(),
    ensures
        d == lev(short@, long@),
{
    let m = short.len();
    let n = long.len();
    if m == 0 {
        return n;
    }
    let mut prev: Vec<usize> = Vec::new();
    let mut curr: Vec<usize> = Vec::new();
    prev.push(0);
    curr.push(0);
    let mut k: usize = 0;
    while k < m
        invariant
            k <= m,
            prev@.len() == k + 1,
            curr@.len() == k + 1,
            forall|t: int| 0 <= t <= k ==> prev@[t] == t,
        decreases m - k,
    {
        prev.push(k + 1);
        curr.push(0);
        k = k + 1;
    }
    proof {
        assert forall|t: int| 0 <= t <= m implies prev@[t] == lev(
            short@.take(t),
            long@.take(0),
        ) by {
            assert(long@.take(0).len() == 0);
        }
    }
    let mut j: usize = 0;
    while j < n
        invariant
            0 < m <= n,
            m == short@.len(),
            n == long@.len(),
            j <= n,
            prev@.len() == m + 1,
            curr@.len() == m + 1,
            forall|t: int| 0 <= t <= m ==> prev@[t] == lev(short@.take(t), long@.take(j as int)),
        decreases n - j,
    {
        let jj = j + 1;
        let ghost b = long@.take(jj as int);
        curr.set(0, jj);
        assert(short@.take(0).len() == 0);
        let mut k: usize = 0;
        while k < m
            invariant
                0 < m <= n,
                m == short@.len(),
                n == long@.len(),
                j < n,
                jj == j + 1,
                b == long@.take(jj as int),
                k <= m,
                prev@.len() == m + 1,
                curr@.len() == m + 1,
                forall|t: int|
                    0 <= t <= m ==> prev@[t] == lev(short@.take(t), long@.take(j as int)),
                forall|t: int| 0 <= t <= k ==> curr@[t] == lev(short@.take(t), b),
            decreases m - k,
        {
            let i = k + 1;
            let ghost a = short@.take(i as int);
            proof {
                assert(a.drop_last() =~= short@.take(k as int));
                assert(b.drop_last() =~= long@.take(j as int));
                lemma_lev_bound(short@.take(k as int), b);
                lemma_lev_bound(a, long@.take(j as int));
                lemma_lev_bound(short@.take(k as int), long@.take(j as int));
                lemma_lev_bound(a, b);
            }
            let cost: usize = if short[k] == long[j] {
                0
            } else {
                1
            };
            let del = curr[k].saturating_add(1);
            let ins = prev[i].saturating_add(1);
            let sub = prev[k] + cost;
            let mut best = del;
            if ins < best {
                best = ins;
            }
            if sub < best {
                best = sub;
            }
            curr.set(i, best);
            k = k + 1;
        }
        std::mem::swap(&mut prev, &mut curr);
        j = jj;
    }
    assert(short@.take(m as int) =~= short@);
    assert(long@.take(n as int) =~= long@);
    prev[m]
}

/// The characters of `s` after trimming and lowercasing.
fn fold_chars(s: &str) -> (v: Vec<char>)
    ensures
        v@ == folded(s@),
{
    let low = to_lower(trim_str(s));
    chars_of(low.as_str())
}

/// Edit distance between two character vectors, in either length order.
fn lev_of(a: &Vec<char>, b: &Vec<char>) -> (d: usize)
    ensures
        d == lev(a@, b@),
{
    proof {
        lemma_lev_symmetric(a@, b@);
    }
    if a.len() <= b.len() {
        edit_distance(a, b)
    } else {
        edit_distance(b, a)
    }
}

/// Whether `a` and `b` are within `threshold` edits, skipping the table when
/// the length difference alone is too large.
fn lev_within(a: &Vec<char>, b: &Vec<char>, threshold: usize) -> (r: Option<usize>)
    ensures
        r == (if lev(a@, b@) <= threshold {
            Some(lev(a@, b@) as usize)
        } else {
            None::<usize>
        }),
{
    proof {
        lemma_lev_lower(a@, b@);
    }
    let diff = if a.len() >= b.len() {
        a.len() - b.len()
    } else {
        b.len() - a.len()
    };
    if diff > threshold {
        return None;
    }
    let d = lev_of(a, b);
    if d <= threshold {
        Some(d)
    } else {
        None
    }
}

/// Edit distance between `a` and `b` after trimming and lowercasing both,
/// counted in characters.
pub fn levenshtein(a: &str, b: &str) -> (d: usize)
    ensures
        d == distance(a@, b@),
{
    let a_chars = fold_chars(a);
    let b_chars = fold_chars(b);
    lev_of(&a_chars, &b_chars)
}

/// Whether `a` and `b` are within `threshold` edits of each other; when the
/// lengths already differ by more, the table is not computed.
pub fn within_distance(a: &str, b: &str, threshold: usize) -> (r: bool)
    ensures
        r == (distance(a@, b@) <= threshold),
{
    let a_chars = fold_chars(a);
    let b_chars = fold_chars(b);
    lev_within(&a_chars, &b_chars, threshold).is_some()
}

/// The distance of word `w` from query `q` when it is within `thr`.
pub open spec fn word_hit(q: Seq<char>, w: Seq<char>, thr: nat) -> Option<nat> {
    if distance(q, w) <= thr {
        Some(distance(q, w))
    } else {
        None
    }
}

/// The smallest distance among the hits of `ws`, if any word is a hit.
pub open spec fn best_hit(q: Seq<char>, ws: Seq<Seq<char>>, thr: nat) -> Option<nat>
    decreases ws.len(),
{
    if ws.len() == 0 {
        None
    } else {
        let b = best_hit(q, ws.drop_last(), thr);
        match word_hit(q, ws.last(), thr) {
            None => b,
            Some(d) => match b {
                None => Some(d),
                Some(x) => Some(
                    if d < x {
                        d
                    } else {
                        x
                    },
                ),
            },
        }
    }
}

/// The clips with a hit, in input order, each with its best distance.
pub open spec fn fuzzy_hits(q: Seq<char>, clips: Seq<(i64, String)>, thr: nat) -> Seq<
    (i64, usize),
>
    decreases clips.len(),
{
    if clips.len() == 0 {
        Seq::empty()
    } else {
        let rest = fuzzy_hits(q, clips.drop_last(), thr);
        match best_hit(q, words(clips.last().1@), thr) {
            Some(d) => rest.push((clips.last().0, d as usize)),
            None => rest,
        }
    }
}

/// Hits ordered by distance, then by clip id.
pub open spec fn hit_le(a: (i64, usize), b: (i64, usize)) -> bool {
    a.1 < b.1 || (a.1 == b.1 && a.0 <= b.0)
}

/// `s` is in ascending `hit_le` order.
pub open spec fn hits_sorted(s: Seq<(i64, usize)>) -> bool {
    forall|i: int, j: int| 0 <= i < j < s.len() ==> hit_le(#[trigger] s[i], #[trigger] s[j])
}

/// The best hit among words is the smallest distance within the threshold:
/// there is one exactly when some word is within the threshold, it is no
/// larger than the distance of any such word, and some word attains it.
pub proof fn lemma_best_hit_is_min(q: Seq<char>, ws: Seq<Seq<char>>, thr: nat)
    ensures
        best_hit(q, ws, thr) is Some <==> exists|i: int| 0 <= i < ws.len() && distance(q, #[trigger] ws[i]) <= thr,
        best_hit(q, ws, thr) matches Some(d) ==> (forall|i: int|
            0 <= i < ws.len() && distance(q, #[trigger] ws[i]) <= thr ==> d <= distance(q, ws[i])),
        best_hit(q, ws, thr) matches Some(d) ==> exists|i: int|
            0 <= i < ws.len() && #[trigger] distance(q, ws[i]) == d && d <= thr,
    decreases ws.len(),
{
    if ws.len() > 0 {
        let p = ws.drop_last();
        lemma_best_hit_is_min(q, p, thr);
        let n = ws.len() - 1;
        assert forall|i: int| 0 <= i < n implies #[trigger] ws[i] == p[i] by {}
        if exists|i: int| 0 <= i < p.len() && distance(q, #[trigger] p[i]) <= thr {
            let i = choose|i: int| 0 <= i < p.len() && distance(q, #[trigger] p[i]) <= thr;
            assert(ws[i] == p[i]);
        }
        if let Some(d) = best_hit(q, p, thr) {
            let i = choose|i: int| 0 <= i < p.len() && #[trigger] distance(q, p[i]) == d && d <= thr;
            assert(ws[i] == p[i]);
        }
        assert(ws.last() == ws[n]);
    }
}

/// Each fuzzy hit names one of the clips and carries the smallest distance
/// from the query to that clip's words among those within the threshold.
pub proof fn lemma_hits_are_min(q: Seq<char>, clips: Seq<(i64, String)>, thr: nat)
    requires
        thr <= usize::MAX,
    ensures
        forall|t: int|
            0 <= t < fuzzy_hits(q, clips, thr).len() ==> exists|k: int|
                0 <= k < clips.len() && (#[trigger] clips[k]).0 == (#[trigger] fuzzy_hits(q, clips, thr)[t]).0 && ({
                    let ws = words(clips[k].1@);
                    let d = fuzzy_hits(q, clips, thr)[t].1;
                    &&& exists|i: int| 0 <= i < ws.len() && #[trigger] distance(q, ws[i]) == d && d <= thr
                    &&& forall|i: int| 0 <= i < ws.len() && distance(q, #[trigger] ws[i]) <= thr ==> d <= distance(q, ws[i])
                }),
    decreases clips.len(),
{
    if clips.len() > 0 {
        let c0 = clips.drop_last();
        lemma_hits_are_min(q, c0, thr);
        let rest = fuzzy_hits(q, c0, thr);
        let hits = fuzzy_hits(q, clips, thr);
        let n = clips.len() - 1;
        let ws = words(clips[n].1@);
        assert(clips.last() == clips[n]);
        lemma_best_hit_is_min(q, ws, thr);
        assert forall|t: int| 0 <= t < hits.len() implies exists|k: int|
            0 <= k < clips.len() && (#[trigger] clips[k]).0 == (#[trigger] hits[t]).0 && ({
                let ws = words(clips[k].1@);
                let d = hits[t].1;
                &&& exists|i: int| 0 <= i < ws.len() && #[trigger] distance(q, ws[i]) == d && d <= thr
                &&& forall|i: int| 0 <= i < ws.len() && distance(q, #[trigger] ws[i]) <= thr ==> d <= distance(q, ws[i])
            }) by {
            if t < rest.len() {
                assert(hits[t] == rest[t]);
                let k = choose|k: int|
                    0 <= k < c0.len() && (#[trigger] c0[k]).0 == rest[t].0 && ({
                        let ws = words(c0[k].1@);
                        let d = rest[t].1;
                        &&& exists|i: int| 0 <= i < ws.len() && #[trigger] distance(q, ws[i]) == d && d <= thr
                        &&& forall|i: int| 0 <= i < ws.len() && distance(q, #[trigger] ws[i]) <= thr ==> d <= distance(q, ws[i])
                    });
                assert(clips[k] == c0[k]);
            } else {
                let d = best_hit(q, ws, thr)->0;
                assert(hits[t] == (clips[n].0, d as usize));
                let i = choose|i: int| 0 <= i < ws.len() && #[trigger] distance(q, ws[i]) == d && d <= thr;
                assert(0 <= n < clips.len() && clips[n].0 == hits[t].0);
            }
        }
    }
}

/// Sorted hits run by distance, smallest first, and among equal distances
/// by clip id, smallest first.
pub proof fn lemma_hits_sorted_order(s: Seq<(i64, usize)>)
    requires
        hits_sorted(s),
    ensures
        forall|i: int, j: int|
            0 <= i < j < s.len() ==> (#[trigger] s[i]).1 <= (#[trigger] s[j]).1 && (s[i].1 == s[j].1
                ==> s[i].0 <= s[j].0),
{
    assert forall|i: int, j: int| 0 <= i < j < s.len() implies (#[trigger] s[i]).1 <= (#[trigger] s[j]).1
        && (s[i].1 == s[j].1 ==> s[i].0 <= s[j].0) by {
        assert(hit_le(s[i], s[j]));
    }
}

/// Once the best distance is zero it stays zero.
proof fn lemma_best_zero(q: Seq<char>, ws: Seq<Seq<char>>, thr: nat, k: int)
    requires
        0 <= k <= ws.len(),
        best_hit(q, ws.take(k), thr) == Some(0nat),
    ensures
        best_hit(q, ws, thr) == Some(0nat),
    decreases ws.len(),
{
    if ws.len() == k {
        assert(ws.take(k) =~= ws);
    } else {
        assert(ws.drop_last().take(k) =~= ws.take(k));
        lemma_best_zero(q, ws.drop_last(), thr, k);
    }
}

/// A best distance never exceeds the threshold.
proof fn lemma_best_hit_bound(q: Seq<char>, ws: Seq<Seq<char>>, thr: nat)
    ensures
        best_hit(q, ws, thr) matches Some(d) ==> d <= thr,
    decreases ws.len(),
{
    if ws.len() > 0 {
        lemma_best_hit_bound(q, ws.drop_last(), thr);
    }
}

/// Every hit's distance is within the threshold.
pub proof fn lemma_hits_bound(q: Seq<char>, clips: Seq<(i64, String)>, thr: nat)
    requires
        thr <= usize::MAX,
    ensures
        forall|t: int| 0 <= t < fuzzy_hits(q, clips, thr).len() ==> #[trigger] fuzzy_hits(
            q,
            clips,
            thr,
        )[t].1 <= thr,
    decreases clips.len(),
{
    if clips.len() > 0 {
        lemma_hits_bound(q, clips.drop_last(), thr);
        lemma_best_hit_bound(q, words(clips.last().1@), thr);
        let rest = fuzzy_hits(q, clips.drop_last(), thr);
        assert forall|t: int| 0 <= t < fuzzy_hits(q, clips, thr).len() implies #[trigger] fuzzy_hits(
            q,
            clips,
            thr,
        )[t].1 <= thr by {
            if t < rest.len() {
                assert(rest[t].1 <= thr);
            }
        }
    }
}

/// Sorts hits by distance, then id.
fn sort_hits(v: Vec<(i64, usize)>) -> (r: Vec<(i64, usize)>)
    ensures
        r@.to_multiset() == v@.to_multiset(),
        hits_sorted(r@),
{
    let mut out: Vec<(i64, usize)> = Vec::new();
    let mut idx: usize = 0;
    assert(out@ =~= v@.take(0));
    while idx < v.len()
        invariant
            idx <= v.len(),
            out@.to_multiset() == v@.take(idx as int).to_multiset(),
            hits_sorted(out@),
        decreases v.len() - idx,
    {
        let x = v[idx];
        let mut pos: usize = 0;
        while pos < out.len() && hit_le_exec(out[pos], x)
            invariant
                pos <= out.len(),
                forall|t: int| 0 <= t < pos ==> hit_le(#[trigger] out@[t], x),
            decreases out.len() - pos,
        {
            pos = pos + 1;
        }
        proof {
            assert forall|t: int| pos <= t < out@.len() implies hit_le(x, #[trigger] out@[t]) by {
                assert(!hit_le(out@[pos as int], x));
                if t > pos {
                    assert(hit_le(out@[pos as int], out@[t]));
                }
            }
        }
        let ghost old_out = out@;
        out.insert(pos, x);
        proof {
            assert(v@.take(idx + 1) =~= v@.take(idx as int).push(x));
            assert(out@ == old_out.insert(pos as int, x));
            vstd::seq_lib::to_multiset_insert(old_out, pos as int, x);
            vstd::seq_lib::to_multiset_build(v@.take(idx as int), x);
            assert forall|i: int, j: int| 0 <= i < j < out@.len() implies hit_le(
                #[trigger] out@[i],
                #[trigger] out@[j],
            ) by {
                if j < pos {
                    assert(hit_le(old_out[i], old_out[j]));
                } else if j == pos {
                    assert(hit_le(old_out[i], x));
                } else if i < pos {
                    assert(hit_le(old_out[i], x));
                    assert(hit_le(x, old_out[j - 1]));
                } else if i == pos {
                    assert(hit_le(x, old_out[j - 1]));
                } else {
                    assert(hit_le(old_out[i - 1], old_out[j - 1]));
                }
            }
        }
        idx = idx + 1;
    }
    assert(v@.take(v@.len() as int) =~= v@);
    out
}

fn hit_le_exec(a: (i64, usize), b: (i64, usize)) -> (r: bool)
    ensures
        r == hit_le(a, b),
{
    a.1 < b.1 || (a.1 == b.1 && a.0 <= b.0)
}

/// Matches a query against the individual words of each clip, allowing up
/// to a fixed number of edits.
pub struct FuzzySearcher {
    threshold: usize,
}

impl FuzzySearcher {
    /// The largest edit distance that still counts as a match.
    pub closed spec fn max_distance(&self) -> usize {
        self.threshold
    }

    /// A searcher that accepts up to `threshold` edits.
    pub fn new(threshold: usize) -> (s: Self)
        ensures
            s.max_distance() == threshold,
    {
        FuzzySearcher { threshold }
    }

    /// The best word distance of one clip, if some word is a hit.
    fn best_in(&self, q: &String, q_chars: &Vec<char>, content: &String) -> (best: Option<usize>)
        requires
            q_chars@ == folded(q@),
        ensures
            best == match best_hit(q@, words(content@), self.threshold as nat) {
                Some(d) => Some(d as usize),
                None => None::<usize>,
            },
            best matches Some(d) ==> d <= self.threshold,
    {
        let ghost ws = words(content@);
        let parts = split_words(content.as_str());
        let mut best: Option<usize> = None;
        let mut k: usize = 0;
        while k < parts.len()
            invariant
                k <= parts@.len(),
                q_chars@ == folded(q@),
                parts@.len() == ws.len(),
                ws == words(content@),
                forall|i: int| 0 <= i < parts@.len() ==> #[trigger] parts@[i]@ == ws[i],
                best == match best_hit(q@, ws.take(k as int), self.threshold as nat) {
                    Some(d) => Some(d as usize),
                    None => None::<usize>,
                },
                best matches Some(d) ==> d <= self.threshold,
                best_hit(q@, ws.take(k as int), self.threshold as nat) matches Some(d) ==> d
                    <= self.threshold,
            decreases parts@.len() - k,
        {
            let word = parts[k];
            proof {
                assert(ws.take(k + 1).drop_last() =~= ws.take(k as int));
                assert(ws.take(k + 1).last() == ws[k as int]);
            }
            let w_chars = fold_chars(word);
            match lev_within(&q_chars, &w_chars, self.threshold) {
                Some(d) => {
                    best = match best {
                        None => Some(d),
                        Some(b) => Some(
                            if d < b {
                                d
                            } else {
                                b
                            },
                        ),
                    };
                    if best == Some(0usize) {
                        proof {
                            lemma_best_zero(q@, ws, self.threshold as nat, k + 1);
                        }
                        return best;
                    }
                },
                None => {},
            }
            k = k + 1;
        }
        assert(ws.take(ws.len() as int) =~= ws);
        best
    }

    /// The clips with a word within the allowed distance of `query`, each
    /// with its smallest distance, ordered by distance and then clip id.
    pub fn search(&self, query: &str, clips: &[(i64, String)]) -> (out: Vec<(i64, usize)>)
        ensures
            ({
                let q = lowercase(trimmed(query@));
                if q.len() == 0 {
                    out@.len() == 0
                } else {
                    &&& out@.to_multiset() == fuzzy_hits(
                        q,
                        clips@,
                        self.max_distance() as nat,
                    ).to_multiset()
                    &&& hits_sorted(out@)
                }
            }),
    {
        let q = to_lower(trim_str(query));
        if q.as_str().is_empty() {
            return Vec::new();
        }
        let q_chars = fold_chars(q.as_str());
        let mut hits: Vec<(i64, usize)> = Vec::new();
        let mut idx: usize = 0;
        while idx < clips.len()
            invariant
                idx <= clips@.len(),
                q_chars@ == folded(q@),
                hits@ == fuzzy_hits(q@, clips@.take(idx as int), self.threshold as nat),
            decreases clips@.len() - idx,
        {
            let id = clips[idx].0;
            let best = self.best_in(&q, &q_chars, &clips[idx].1);
            proof {
                assert(clips@.take(idx + 1).drop_last() =~= clips@.take(idx as int));
                assert(clips@.take(idx + 1).last() == clips@[idx as int]);
            }
            match best {
                Some(d) => hits.push((id, d)),
                None => {},
            }
            idx = idx + 1;
        }
        assert(clips@.take(clips@.len() as int) =~= clips@);
        sort_hits(hits)
    }
}

} // verus!
