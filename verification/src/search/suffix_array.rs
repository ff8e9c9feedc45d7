//! Suffix arrays over clip text, for substring search.
use crate::text::{capped, chars_of, lowercase, occurs_at, string_from_chars, take_chars, to_lower};
use vstd::prelude::*;

verus! {

broadcast use vstd::string::group_string_axioms;

/// Maximum number of characters indexed per clip.
pub const MAX_INDEX_LEN: usize = 500;

/// Lexicographic order on character strings, characters compared by code point.
pub open spec fn lex_le(a: Seq<char>, b: Seq<char>) -> bool
    decreases a.len(),
{
    if a.len() == 0 {
        true
    } else if b.len() == 0 {
        false
    } else if a[0] != b[0] {
        a[0] < b[0]
    } else {
        lex_le(a.drop_first(), b.drop_first())
    }
}

/// Strict lexicographic order.
pub open spec fn lex_lt(a: Seq<char>, b: Seq<char>) -> bool {
    lex_le(a, b) && a != b
}

pub proof fn lemma_lex_reflexive(a: Seq<char>)
    ensures
        lex_le(a, a),
    decreases a.len(),
{
    if a.len() > 0 {
        lemma_lex_reflexive(a.drop_first());
    }
}

pub proof fn lemma_lex_total(a: Seq<char>, b: Seq<char>)
    ensures
        lex_le(a, b) || lex_le(b, a),
    decreases a.len(),
{
    if a.len() > 0 && b.len() > 0 && a[0] == b[0] {
        lemma_lex_total(a.drop_first(), b.drop_first());
    }
}

pub proof fn lemma_lex_antisymmetric(a: Seq<char>, b: Seq<char>)
    requires
        lex_le(a, b),
        lex_le(b, a),
    ensures
        a == b,
    decreases a.len(),
{
    if a.len() > 0 && b.len() > 0 {
        lemma_lex_antisymmetric(a.drop_first(), b.drop_first());
        assert(a =~= seq![a[0]] + a.drop_first());
        assert(b =~= seq![b[0]] + b.drop_first());
    } else {
        assert(a.len() == 0 && b.len() == 0);
        assert(a =~= b);
    }
}

pub proof fn lemma_lex_transitive(a: Seq<char>, b: Seq<char>, c: Seq<char>)
    requires
        lex_le(a, b),
        lex_le(b, c),
    ensures
        lex_le(a, c),
    decreases a.len(),
{
    if a.len() > 0 && b.len() > 0 && c.len() > 0 && a[0] == b[0] && b[0] == c[0] {
        lemma_lex_transitive(a.drop_first(), b.drop_first(), c.drop_first());
    }
}

/// At most the first `m` characters of `s`.
pub open spec fn trunc(s: Seq<char>, m: nat) -> Seq<char> {
    if s.len() <= m {
        s
    } else {
        s.take(m as int)
    }
}

/// Cutting two strings to the same length keeps their order.
pub proof fn lemma_lex_trunc(a: Seq<char>, b: Seq<char>, m: nat)
    requires
        lex_le(a, b),
    ensures
        lex_le(trunc(a, m), trunc(b, m)),
    decreases a.len(),
{
    if m == 0 {
        assert(trunc(a, m).len() == 0);
    } else if a.len() > 0 && b.len() > 0 && a[0] == b[0] {
        lemma_lex_trunc(a.drop_first(), b.drop_first(), (m - 1) as nat);
        assert(trunc(a, m).drop_first() =~= trunc(a.drop_first(), (m - 1) as nat));
        assert(trunc(b, m).drop_first() =~= trunc(b.drop_first(), (m - 1) as nat));
    }
}

/// After a common prefix of length `i`, the order is decided by the rest.
proof fn lemma_lex_skip(a: Seq<char>, b: Seq<char>, i: int)
    requires
        0 <= i <= a.len(),
        i <= b.len(),
        a.take(i) == b.take(i),
    ensures
        lex_le(a, b) == lex_le(a.skip(i), b.skip(i)),
    decreases i,
{
    if i > 0 {
        assert(a[0] == a.take(i)[0]);
        assert(b[0] == b.take(i)[0]);
        assert(a.drop_first().take(i - 1) =~= a.take(i).drop_first());
        assert(b.drop_first().take(i - 1) =~= b.take(i).drop_first());
        lemma_lex_skip(a.drop_first(), b.drop_first(), i - 1);
        assert(a.drop_first().skip(i - 1) =~= a.skip(i));
        assert(b.drop_first().skip(i - 1) =~= b.skip(i));
    } else {
        assert(a.skip(0) =~= a);
        assert(b.skip(0) =~= b);
    }
}

/// The outcome of comparing two character strings.
pub enum Rank {
    Below,
    Same,
    Above,
}

/// Compares `v[start..end]` with `pat`.
fn compare_range(v: &Vec<char>, start: usize, end: usize, pat: &Vec<char>) -> (r: Rank)
    requires
        start <= end <= v@.len(),
    ensures
        ({
            let a = v@.subrange(start as int, end as int);
            match r {
                Rank::Below => lex_lt(a, pat@),
                Rank::Same => a == pat@,
                Rank::Above => lex_lt(pat@, a),
            }
        }),
{
    let ghost a = v@.subrange(start as int, end as int);
    let len_a = end - start;
    let len_b = pat.len();
    let mut i: usize = 0;
    while i < len_a && i < len_b
        invariant
            start <= end <= v@.len(),
            a == v@.subrange(start as int, end as int),
            len_a == a.len(),
            len_b == pat@.len(),
            i <= len_a,
            i <= len_b,
            a.take(i as int) == pat@.take(i as int),
        decreases len_a - i,
    {
        let x = v[start + i];
        let y = pat[i];
        if x != y {
            proof {
                lemma_lex_skip(a, pat@, i as int);
                lemma_lex_skip(pat@, a, i as int);
                assert(a.skip(i as int)[0] == x);
                assert(pat@.skip(i as int)[0] == y);
                if a == pat@ {
                    assert(a[i as int] == pat@[i as int]);
                }
            }
            if x < y {
                return Rank::Below;
            } else {
                return Rank::Above;
            }
        }
        assert(a.take(i + 1) =~= a.take(i as int).push(x));
        assert(pat@.take(i + 1) =~= pat@.take(i as int).push(y));
        i = i + 1;
    }
    proof {
        lemma_lex_skip(a, pat@, i as int);
        lemma_lex_skip(pat@, a, i as int);
        if i == len_a {
            assert(a.take(i as int) =~= a);
        }
        if i == len_b {
            assert(pat@.take(i as int) =~= pat@);
        }
    }
    if len_a == len_b {
        assert(a =~= pat@);
        Rank::Same
    } else if len_a < len_b {
        Rank::Below
    } else {
        Rank::Above
    }
}

/// Whether suffix `v[i..]` comes no later than suffix `v[j..]`.
fn suffix_le(v: &Vec<char>, i: usize, j: usize) -> (b: bool)
    requires
        i <= v@.len(),
        j <= v@.len(),
    ensures
        b == lex_le(v@.skip(i as int), v@.skip(j as int)),
{
    let n = v.len();
    let ghost a = v@.skip(i as int);
    let ghost c = v@.skip(j as int);
    let mut k: usize = 0;
    while i + k < n && j + k < n
        invariant
            n == v@.len(),
            i <= n,
            j <= n,
            a == v@.skip(i as int),
            c == v@.skip(j as int),
            i + k <= n,
            j + k <= n,
            a.take(k as int) == c.take(k as int),
        decreases n - i - k,
    {
        let x = v[i + k];
        let y = v[j + k];
        if x != y {
            proof {
                lemma_lex_skip(a, c, k as int);
                assert(a.skip(k as int)[0] == x);
                assert(c.skip(k as int)[0] == y);
            }
            return x < y;
        }
        assert(a.take(k + 1) =~= a.take(k as int).push(x));
        assert(c.take(k + 1) =~= c.take(k as int).push(y));
        k = k + 1;
    }
    proof {
        lemma_lex_skip(a, c, k as int);
    }
    i + k == n
}

/// The first `m` characters of suffix `s` of `v` (fewer when the suffix is shorter).
pub open spec fn window(v: Seq<char>, s: int, m: nat) -> Seq<char> {
    trunc(v.skip(s), m)
}

/// `suffixes` lists every start position of `v` once, in ascending order of
/// the suffixes that start there.
pub open spec fn sorted_suffixes(v: Seq<char>, suffixes: Seq<usize>) -> bool {
    &&& suffixes.len() == v.len()
    &&& suffixes.no_duplicates()
    &&& forall|k: int| 0 <= k < suffixes.len() ==> #[trigger] suffixes[k] < v.len()
    &&& forall|i: usize| i < v.len() ==> #[trigger] suffixes.contains(i)
    &&& forall|a: int, b: int|
        0 <= a < b < suffixes.len() ==> lex_le(
            v.skip(#[trigger] suffixes[a] as int),
            v.skip(#[trigger] suffixes[b] as int),
        )
}

/// The occurrences of `pat` in `v`, by window: a position occurs exactly when
/// the window of that length there equals `pat`.
proof fn lemma_window_occurs(v: Seq<char>, pat: Seq<char>, s: int)
    requires
        0 <= s <= v.len(),
    ensures
        (window(v, s, pat.len()) == pat) == occurs_at(v, pat, s),
{
    if window(v, s, pat.len()) == pat {
        if v.skip(s).len() > pat.len() {
            assert(v.subrange(s, s + pat.len()) =~= v.skip(s).take(pat.len() as int));
        } else {
            assert(v.subrange(s, s + pat.len()) =~= v.skip(s));
        }
    }
    if occurs_at(v, pat, s) {
        if v.skip(s).len() > pat.len() {
            assert(v.subrange(s, s + pat.len()) =~= v.skip(s).take(pat.len() as int));
        } else {
            assert(v.subrange(s, s + pat.len()) =~= v.skip(s));
        }
    }
}

/// A suffix array over the lowercased text of one clip.
pub struct SuffixArray {
    text: String,
    suffixes: Vec<usize>,
    chars: Vec<char>,
}

impl SuffixArray {
    #[verifier::type_invariant]
    spec fn well_formed(self) -> bool {
        &&& self.text@ == self.chars@
        &&& sorted_suffixes(self.chars@, self.suffixes@)
    }

    /// The indexed characters: the text given to `build`, lowercased.
    pub closed spec fn indexed(&self) -> Seq<char> {
        self.chars@
    }

    /// Builds the suffix array of `text`, lowercased.
    pub fn build(text: &str) -> (sa: Self)
        ensures
            sa.indexed() == lowercase(text@),
    {
        let normalized = to_lower(text);
        let chars = chars_of(normalized.as_str());
        let n = chars.len();
        let mut suffixes: Vec<usize> = Vec::new();
        let mut i: usize = 0;
        while i < n
            invariant
                n == chars@.len(),
                i <= n,
                suffixes@.len() == i,
                suffixes@.no_duplicates(),
                forall|k: int| 0 <= k < suffixes@.len() ==> #[trigger] suffixes@[k] < i,
                forall|j: usize| j < i ==> #[trigger] suffixes@.contains(j),
                forall|a: int, b: int|
                    0 <= a < b < suffixes@.len() ==> lex_le(
                        chars@.skip(#[trigger] suffixes@[a] as int),
                        chars@.skip(#[trigger] suffixes@[b] as int),
                    ),
            decreases n - i,
        {
            let mut pos: usize = 0;
            while pos < suffixes.len() && suffix_le(&chars, suffixes[pos], i)
                invariant
                    n == chars@.len(),
                    i < n,
                    pos <= suffixes@.len(),
                    forall|k: int| 0 <= k < suffixes@.len() ==> #[trigger] suffixes@[k] < i,
                    forall|t: int|
                        0 <= t < pos ==> lex_le(
                            chars@.skip(#[trigger] suffixes@[t] as int),
                            chars@.skip(i as int),
                        ),
                decreases suffixes@.len() - pos,
            {
                pos = pos + 1;
            }
            let ghost old_s = suffixes@;
            let ghost me = chars@.skip(i as int);
            proof {
                assert forall|t: int| pos <= t < old_s.len() implies lex_le(
                    me,
                    chars@.skip(#[trigger] old_s[t] as int),
                ) by {
                    let at_pos = chars@.skip(old_s[pos as int] as int);
                    lemma_lex_total(at_pos, me);
                    if t > pos {
                        lemma_lex_transitive(me, at_pos, chars@.skip(old_s[t] as int));
                    }
                }
            }
            suffixes.insert(pos, i);
            proof {
                let s = suffixes@;
                assert(s == old_s.insert(pos as int, i));
                assert forall|a: int, b: int| 0 <= a < b < s.len() implies lex_le(
                    chars@.skip(#[trigger] s[a] as int),
                    chars@.skip(#[trigger] s[b] as int),
                ) by {
                    if b < pos {
                    } else if b == pos {
                    } else if a < pos {
                        lemma_lex_transitive(
                            chars@.skip(old_s[a] as int),
                            me,
                            chars@.skip(old_s[b - 1] as int),
                        );
                    } else if a == pos {
                    } else {
                        assert(lex_le(
                            chars@.skip(old_s[a - 1] as int),
                            chars@.skip(old_s[b - 1] as int),
                        ));
                    }
                }
                assert forall|j: usize| j < i + 1 implies #[trigger] s.contains(j) by {
                    if j < i {
                        assert(old_s.contains(j));
                        let t = choose|t: int| 0 <= t < old_s.len() && old_s[t] == j;
                        if t < pos {
                            assert(s[t] == j);
                        } else {
                            assert(s[t + 1] == j);
                        }
                    } else {
                        assert(s[pos as int] == i);
                    }
                }
                assert forall|a: int, b: int| 0 <= a < s.len() && 0 <= b < s.len() && a != b implies s[a] != s[b] by {
                    if a != pos && b != pos {
                        let a0 = if a < pos { a } else { a - 1 };
                        let b0 = if b < pos { b } else { b - 1 };
                        assert(old_s[a0] != old_s[b0]);
                    } else if a == pos {
                        let b0 = if b < pos { b } else { b - 1 };
                        assert(old_s[b0] < i);
                    } else {
                        let a0 = if a < pos { a } else { a - 1 };
                        assert(old_s[a0] < i);
                    }
                }
            }
            i = i + 1;
        }
        SuffixArray { text: normalized, suffixes, chars }
    }

    /// The indexed text, lowercased.
    pub fn text(&self) -> (t: &str)
        ensures
            t@ == self.indexed(),
    {
        proof {
            use_type_invariant(self);
        }
        self.text.as_str()
    }

    /// The window at sorted position `k`, as wide as `pat`, compared with `pat`.
    fn probe_rank(&self, k: usize, pat: &Vec<char>) -> (r: Rank)
        requires
            k < self.suffixes@.len(),
        ensures
            ({
                let w = window(self.chars@, self.suffixes@[k as int] as int, pat@.len());
                match r {
                    Rank::Below => lex_lt(w, pat@),
                    Rank::Same => w == pat@,
                    Rank::Above => lex_lt(pat@, w),
                }
            }),
    {
        proof {
            use_type_invariant(self);
        }
        let s = self.suffixes[k];
        let n = self.chars.len();
        let m = pat.len();
        let end = if m <= n - s {
            s + m
        } else {
            n
        };
        proof {
            let v = self.chars@;
            if m <= n - s {
                assert(window(v, s as int, m as nat) =~= v.subrange(s as int, end as int));
            } else {
                assert(window(v, s as int, m as nat) =~= v.subrange(s as int, end as int));
            }
        }
        compare_range(&self.chars, s, end, pat)
    }

    /// Windows as wide as `m` appear in ascending order along the array.
    proof fn lemma_windows_sorted(&self, m: nat)
        requires
            sorted_suffixes(self.chars@, self.suffixes@),
        ensures
            forall|a: int, b: int|
                0 <= a <= b < self.suffixes@.len() ==> lex_le(
                    #[trigger] window(self.chars@, self.suffixes@[a] as int, m),
                    #[trigger] window(self.chars@, self.suffixes@[b] as int, m),
                ),
    {
        let v = self.chars@;
        let sf = self.suffixes@;
        assert forall|a: int, b: int| 0 <= a <= b < sf.len() implies lex_le(
            #[trigger] window(v, sf[a] as int, m),
            #[trigger] window(v, sf[b] as int, m),
        ) by {
            if a == b {
                lemma_lex_reflexive(window(v, sf[a] as int, m));
            } else {
                lemma_lex_trunc(v.skip(sf[a] as int), v.skip(sf[b] as int), m);
            }
        }
    }

    /// Sorted position of some window equal to `pat`, if there is one.
    fn locate(&self, pat: &Vec<char>) -> (r: Option<usize>)
        ensures
            match r {
                Some(k) => k < self.suffixes@.len() && window(
                    self.chars@,
                    self.suffixes@[k as int] as int,
                    pat@.len(),
                ) == pat@,
                None => forall|k: int|
                    0 <= k < self.suffixes@.len() ==> window(
                        self.chars@,
                        #[trigger] self.suffixes@[k] as int,
                        pat@.len(),
                    ) != pat@,
            },
    {
        proof {
            use_type_invariant(self);
            self.lemma_windows_sorted(pat@.len());
        }
        let ghost v = self.chars@;
        let ghost sf = self.suffixes@;
        let ghost m = pat@.len();
        let mut lo: usize = 0;
        let mut hi: usize = self.suffixes.len();
        while lo < hi
            invariant
                v == self.chars@,
                sf == self.suffixes@,
                m == pat@.len(),
                lo <= hi <= sf.len(),
                forall|a: int, b: int|
                    0 <= a <= b < sf.len() ==> lex_le(
                        #[trigger] window(v, sf[a] as int, m),
                        #[trigger] window(v, sf[b] as int, m),
                    ),
                forall|k: int| 0 <= k < lo ==> lex_lt(#[trigger] window(v, sf[k] as int, m), pat@),
                forall|k: int|
                    hi <= k < sf.len() ==> lex_lt(pat@, #[trigger] window(v, sf[k] as int, m)),
            decreases hi - lo,
        {
            let mid = lo + (hi - lo) / 2;
            let ghost wm = window(v, sf[mid as int] as int, m);
            match self.probe_rank(mid, pat) {
                Rank::Below => {
                    proof {
                        assert forall|k: int| 0 <= k < mid + 1 implies lex_lt(
                            #[trigger] window(v, sf[k] as int, m),
                            pat@,
                        ) by {
                            let wk = window(v, sf[k] as int, m);
                            assert(lex_le(wk, wm));
                            lemma_lex_transitive(wk, wm, pat@);
                            if wk == pat@ {
                                lemma_lex_antisymmetric(wm, pat@);
                            }
                        }
                    }
                    lo = mid + 1;
                },
                Rank::Above => {
                    proof {
                        assert forall|k: int| mid <= k < sf.len() implies lex_lt(
                            pat@,
                            #[trigger] window(v, sf[k] as int, m),
                        ) by {
                            let wk = window(v, sf[k] as int, m);
                            assert(lex_le(wm, wk));
                            lemma_lex_transitive(pat@, wm, wk);
                            if wk == pat@ {
                                lemma_lex_antisymmetric(wm, pat@);
                            }
                        }
                    }
                    hi = mid;
                },
                Rank::Same => {
                    return Some(mid);
                },
            }
        }
        None
    }

    /// Whether `pattern` is non-empty and its lowercased form occurs in the
    /// indexed text.
    pub fn contains(&self, pattern: &str) -> (b: bool)
        ensures
            b == (pattern@.len() > 0 && exists|i: int|
                occurs_at(self.indexed(), lowercase(pattern@), i)),
    {
        proof {
            use_type_invariant(self);
        }
        let lowered = to_lower(pattern);
        let pat = chars_of(lowered.as_str());
        if pat.len() == 0 {
            return false;
        }
        if pat.len() > self.chars.len() {
            proof {
                assert forall|i: int| !occurs_at(self.chars@, pat@, i) by {}
            }
            return false;
        }
        let found = self.locate(&pat);
        proof {
            let v = self.chars@;
            let sf = self.suffixes@;
            match found {
                Some(k) => {
                    lemma_window_occurs(v, pat@, sf[k as int] as int);
                    assert(occurs_at(self.indexed(), lowercase(pattern@), sf[k as int] as int));
                },
                None => {
                    assert forall|i: int| !occurs_at(v, pat@, i) by {
                        if occurs_at(v, pat@, i) {
                            assert(sf.contains(i as usize));
                            let k = choose|k: int| 0 <= k < sf.len() && sf[k] == i as usize;
                            lemma_window_occurs(v, pat@, i);
                            assert(window(v, sf[k] as int, pat@.len()) != pat@);
                        }
                    }
                },
            }
        }
        found.is_some()
    }

    /// Every position where the lowercased `pattern` occurs in the indexed
    /// text, in ascending order; nothing for an empty pattern. The indexed
    /// text is held in memory, so every position is a `usize`.
    pub fn find_all(&self, pattern: &str) -> (out: Vec<usize>)
        ensures
            self.indexed().len() <= usize::MAX,
            forall|a: int, b: int| 0 <= a < b < out@.len() ==> out@[a] < out@[b],
            forall|i: usize| #[trigger]
                out@.contains(i) == (pattern@.len() > 0 && occurs_at(
                    self.indexed(),
                    lowercase(pattern@),
                    i as int,
                )),
    {
        proof {
            use_type_invariant(self);
        }
        let text_len: usize = self.chars.len();
        assert(self.indexed().len() == text_len);
        let lowered = to_lower(pattern);
        let pat = chars_of(lowered.as_str());
        let mut out: Vec<usize> = Vec::new();
        if pat.len() == 0 || pat.len() > self.chars.len() {
            proof {
                assert forall|i: usize| #[trigger] out@.contains(i) == (pat@.len() > 0 && occurs_at(
                    self.chars@,
                    pat@,
                    i as int,
                )) by {}
            }
            return out;
        }
        let ghost v = self.chars@;
        let ghost sf = self.suffixes@;
        let ghost m = pat@.len();
        let center = match self.locate(&pat) {
            None => {
                proof {
                    assert forall|i: usize| #[trigger] out@.contains(i) == occurs_at(v, pat@, i as int) by {
                        if occurs_at(v, pat@, i as int) {
                            assert(sf.contains(i));
                            let k = choose|k: int| 0 <= k < sf.len() && sf[k] == i;
                            lemma_window_occurs(v, pat@, i as int);
                            assert(window(v, sf[k] as int, m) != pat@);
                        }
                    }
                }
                return out;
            },
            Some(c) => c,
        };
        proof {
            self.lemma_windows_sorted(m);
        }
        let ghost mut lo: int = center + 1;
        let mut i: usize = center;
        loop
            invariant_except_break
                lo == i + 1,
            invariant
                v == self.chars@,
                sf == self.suffixes@,
                sorted_suffixes(v, sf),
                m == pat@.len(),
                center < sf.len(),
                i <= center,
                0 <= lo <= center + 1,
                window(v, sf[center as int] as int, m) == pat@,
                out@.len() == center + 1 - lo,
                forall|t: int| 0 <= t < out@.len() ==> out@[t] == sf[center - t],
                forall|k: int| lo <= k <= center ==> window(v, #[trigger] sf[k] as int, m) == pat@,
            ensures
                0 <= lo <= center,
                out@.len() == center + 1 - lo,
                forall|t: int| 0 <= t < out@.len() ==> out@[t] == sf[center - t],
                forall|k: int| lo <= k <= center ==> window(v, #[trigger] sf[k] as int, m) == pat@,
                lo > 0 ==> window(v, sf[lo - 1] as int, m) != pat@,
            decreases i,
        {
            if !self.matches_at(i, &pat) {
                proof {
                    lo = i + 1;
                }
                break;
            }
            out.push(self.suffixes[i]);
            proof {
                lo = i as int;
            }
            if i == 0 {
                break;
            }
            i = i - 1;
            proof {
                lo = i + 1;
            }
        }
        let n = self.suffixes.len();
        let ghost left_len = out@.len();
        let mut j: usize = center + 1;
        while j < n && self.matches_at(j, &pat)
            invariant
                v == self.chars@,
                sf == self.suffixes@,
                n == sf.len(),
                m == pat@.len(),
                center < j <= n,
                0 <= lo <= center,
                left_len == center + 1 - lo,
                out@.len() == left_len + (j - center - 1),
                forall|t: int| 0 <= t < left_len ==> out@[t] == sf[center - t],
                forall|t: int| left_len <= t < out@.len() ==> out@[t] == sf[center + 1 + (t - left_len)],
                forall|k: int| lo <= k < j ==> window(v, #[trigger] sf[k] as int, m) == pat@,
            decreases n - j,
        {
            out.push(self.suffixes[j]);
            j = j + 1;
        }
        let ghost hi = j as int;
        proof {
            assert(hi < n ==> window(v, sf[hi] as int, m) != pat@);
            // the matching windows are exactly those at positions lo..hi
            assert forall|k: int| 0 <= k < n && window(v, #[trigger] sf[k] as int, m) == pat@ implies lo
                <= k < hi by {
                if k < lo {
                    let w = window(v, sf[lo - 1] as int, m);
                    assert(lex_le(window(v, sf[k] as int, m), w));
                    assert(lex_le(w, window(v, sf[center as int] as int, m)));
                    lemma_lex_antisymmetric(w, pat@);
                }
                if k >= hi {
                    let w = window(v, sf[hi] as int, m);
                    assert(lex_le(window(v, sf[center as int] as int, m), w));
                    assert(lex_le(w, window(v, sf[k] as int, m)));
                    lemma_lex_antisymmetric(w, pat@);
                }
            }
            assert forall|x: usize| #[trigger] out@.contains(x) == occurs_at(v, pat@, x as int) by {
                if out@.contains(x) {
                    let t = choose|t: int| 0 <= t < out@.len() && out@[t] == x;
                    let k = if t < left_len {
                        center - t
                    } else {
                        center + 1 + (t - left_len)
                    };
                    assert(sf[k] == x);
                    lemma_window_occurs(v, pat@, x as int);
                }
                if occurs_at(v, pat@, x as int) {
                    assert(sf.contains(x));
                    let k = choose|k: int| 0 <= k < sf.len() && sf[k] == x;
                    lemma_window_occurs(v, pat@, x as int);
                    let t = if k <= center {
                        center - k
                    } else {
                        left_len + (k - center - 1)
                    };
                    assert(out@[t] == x);
                }
            }
            assert forall|a: int, b: int| 0 <= a < out@.len() && 0 <= b < out@.len() && a != b implies out@[a] != out@[b] by {
                let ka = if a < left_len {
                    center - a
                } else {
                    center + 1 + (a - left_len)
                };
                let kb = if b < left_len {
                    center - b
                } else {
                    center + 1 + (b - left_len)
                };
                assert(sf[ka] != sf[kb]);
            }
            assert(out@.no_duplicates());
        }
        sort_positions(out)
    }

    /// Whether the window at sorted position `k` equals `pat`.
    fn matches_at(&self, k: usize, pat: &Vec<char>) -> (b: bool)
        requires
            k < self.suffixes@.len(),
        ensures
            b == (window(self.chars@, self.suffixes@[k as int] as int, pat@.len()) == pat@),
    {
        match self.probe_rank(k, pat) {
            Rank::Same => true,
            _ => false,
        }
    }
}

/// The positions of `v` in ascending order.
fn sort_positions(v: Vec<usize>) -> (r: Vec<usize>)
    requires
        v@.no_duplicates(),
    ensures
        forall|a: int, b: int| 0 <= a < b < r@.len() ==> r@[a] < r@[b],
        forall|x: usize| #[trigger] r@.contains(x) == v@.contains(x),
{
    let mut out: Vec<usize> = Vec::new();
    let mut idx: usize = 0;
    while idx < v.len()
        invariant
            idx <= v@.len(),
            v@.no_duplicates(),
            forall|a: int, b: int| 0 <= a < b < out@.len() ==> out@[a] < out@[b],
            forall|x: usize| #[trigger] out@.contains(x) == v@.take(idx as int).contains(x),
        decreases v@.len() - idx,
    {
        let x = v[idx];
        proof {
            if out@.contains(x) {
                let p = choose|p: int| 0 <= p < idx && v@.take(idx as int)[p] == x;
                assert(v@[p] == v@[idx as int]);
            }
        }
        let mut pos: usize = 0;
        while pos < out.len() && out[pos] < x
            invariant
                pos <= out@.len(),
                forall|t: int| 0 <= t < pos ==> out@[t] < x,
            decreases out@.len() - pos,
        {
            pos = pos + 1;
        }
        let ghost old_out = out@;
        proof {
            assert forall|t: int| pos <= t < old_out.len() implies x < old_out[t] by {
                assert(old_out[pos as int] != x);
                if t > pos {
                    assert(old_out[pos as int] < old_out[t]);
                }
            }
        }
        out.insert(pos, x);
        proof {
            let t1 = v@.take(idx + 1);
            assert(t1 =~= v@.take(idx as int).push(x));
            assert forall|y: usize| #[trigger] out@.contains(y) == t1.contains(y) by {
                if out@.contains(y) {
                    let p = choose|p: int| 0 <= p < out@.len() && out@[p] == y;
                    if p < pos {
                        assert(old_out[p] == y);
                    } else if p > pos {
                        assert(old_out[p - 1] == y);
                    }
                    if y != x {
                        assert(old_out.contains(y));
                        let q = choose|q: int| 0 <= q < idx && v@.take(idx as int)[q] == y;
                        assert(t1[q] == y);
                    } else {
                        assert(t1[idx as int] == y);
                    }
                }
                if t1.contains(y) {
                    let q = choose|q: int| 0 <= q < t1.len() && t1[q] == y;
                    if q < idx {
                        assert(v@.take(idx as int)[q] == y);
                        assert(old_out.contains(y));
                        let p = choose|p: int| 0 <= p < old_out.len() && old_out[p] == y;
                        if p < pos {
                            assert(out@[p] == y);
                        } else {
                            assert(out@[p + 1] == y);
                        }
                    } else {
                        assert(out@[pos as int] == y);
                    }
                }
            }
        }
        idx = idx + 1;
    }
    assert(v@.take(v@.len() as int) =~= v@);
    out
}

/// The text indexed for each id, as recorded by `entries`.
spec fn entries_map(s: Seq<(i64, SuffixArray)>) -> Map<i64, Seq<char>>
    decreases s.len(),
{
    if s.len() == 0 {
        Map::empty()
    } else {
        entries_map(s.drop_last()).insert(s.last().0, s.last().1.indexed())
    }
}

/// No id occurs twice.
spec fn distinct_ids(s: Seq<(i64, SuffixArray)>) -> bool {
    forall|a: int, b: int| 0 <= a < b < s.len() ==> #[trigger] s[a].0 != #[trigger] s[b].0
}

proof fn lemma_entries_map(s: Seq<(i64, SuffixArray)>)
    requires
        distinct_ids(s),
    ensures
        forall|x: i64| #[trigger]
            entries_map(s).dom().contains(x) == exists|k: int| 0 <= k < s.len() && s[k].0 == x,
        forall|k: int| 0 <= k < s.len() ==> #[trigger] entries_map(s)[s[k].0] == s[k].1.indexed(),
    decreases s.len(),
{
    if s.len() > 0 {
        let t = s.drop_last();
        lemma_entries_map(t);
        assert forall|x: i64| #[trigger]
            entries_map(s).dom().contains(x) == exists|k: int| 0 <= k < s.len() && s[k].0 == x by {
            if entries_map(t).dom().contains(x) {
                let k = choose|k: int| 0 <= k < t.len() && t[k].0 == x;
                assert(s[k].0 == x);
            }
            if exists|k: int| 0 <= k < s.len() && s[k].0 == x {
                let k = choose|k: int| 0 <= k < s.len() && s[k].0 == x;
                if k < t.len() {
                    assert(t[k].0 == x);
                }
            }
        }
        assert forall|k: int| 0 <= k < s.len() implies #[trigger] entries_map(s)[s[k].0]
            == s[k].1.indexed() by {
            if k < t.len() {
                assert(t[k] == s[k]);
                assert(s[k].0 != s[s.len() - 1].0);
                assert(entries_map(t)[t[k].0] == t[k].1.indexed());
            }
        }
    }
}

proof fn lemma_entries_map_remove(s: Seq<(i64, SuffixArray)>, k: int)
    requires
        distinct_ids(s),
        0 <= k < s.len(),
    ensures
        distinct_ids(s.remove(k)),
        entries_map(s.remove(k)) == entries_map(s).remove(s[k].0),
{
    let r = s.remove(k);
    assert forall|a: int, b: int| 0 <= a < b < r.len() implies #[trigger] r[a].0 != #[trigger] r[b].0 by {
        let a0 = if a < k { a } else { a + 1 };
        let b0 = if b < k { b } else { b + 1 };
        assert(s[a0].0 != s[b0].0);
    }
    lemma_entries_map(s);
    lemma_entries_map(r);
    let id = s[k].0;
    assert forall|x: i64| #[trigger] entries_map(r).dom().contains(x) == entries_map(s).remove(id).dom().contains(x) by {
        if exists|j: int| 0 <= j < r.len() && r[j].0 == x {
            let j = choose|j: int| 0 <= j < r.len() && r[j].0 == x;
            let j0 = if j < k { j } else { j + 1 };
            assert(s[j0].0 == x);
            assert(j0 != k);
        }
        if exists|j: int| 0 <= j < s.len() && s[j].0 == x {
            let j = choose|j: int| 0 <= j < s.len() && s[j].0 == x;
            if x != id {
                assert(j != k);
                let j1 = if j < k { j } else { j - 1 };
                assert(r[j1].0 == x);
            }
        }
    }
    assert forall|x: i64| #[trigger] entries_map(r).dom().contains(x) implies entries_map(r)[x]
        == entries_map(s)[x] by {
        let j = choose|j: int| 0 <= j < r.len() && r[j].0 == x;
        let j0 = if j < k { j } else { j + 1 };
        assert(r[j] == s[j0]);
        assert(entries_map(r)[r[j].0] == r[j].1.indexed());
        assert(entries_map(s)[s[j0].0] == s[j0].1.indexed());
    }
    assert(entries_map(r) =~= entries_map(s).remove(id));
}

/// Position of `clip_id` among `entries`, if present.
fn find_entry(entries: &Vec<(i64, SuffixArray)>, clip_id: i64) -> (r: Option<usize>)
    ensures
        match r {
            Some(k) => k < entries@.len() && entries@[k as int].0 == clip_id,
            None => forall|k: int| 0 <= k < entries@.len() ==> #[trigger] entries@[k].0 != clip_id,
        },
{
    let mut k: usize = 0;
    while k < entries.len()
        invariant
            k <= entries@.len(),
            forall|j: int| 0 <= j < k ==> #[trigger] entries@[j].0 != clip_id,
        decreases entries@.len() - k,
    {
        if entries[k].0 == clip_id {
            return Some(k);
        }
        k = k + 1;
    }
    None
}

/// One suffix array per clip, for substring search across clips.
pub struct SuffixIndex {
    entries: Vec<(i64, SuffixArray)>,
}

impl SuffixIndex {
    #[verifier::type_invariant]
    spec fn unique(self) -> bool {
        distinct_ids(self.entries@)
    }

    /// For each indexed clip id, the characters its suffix array covers.
    pub closed spec fn texts(&self) -> Map<i64, Seq<char>> {
        entries_map(self.entries@)
    }

    /// An empty index.
    pub fn new() -> (idx: Self)
        ensures
            idx.texts() == Map::<i64, Seq<char>>::empty(),
    {
        SuffixIndex { entries: Vec::new() }
    }

    /// Indexes the first `MAX_INDEX_LEN` characters of `content` under
    /// `clip_id`, replacing an earlier entry for the same id.
    pub fn index_clip(&mut self, clip_id: i64, content: &str)
        ensures
            final(self).texts() == old(self).texts().insert(
                clip_id,
                lowercase(capped(content@, MAX_INDEX_LEN as nat)),
            ),
    {
        proof {
            use_type_invariant(&*self);
        }
        let chars = chars_of(content);
        let kept = take_chars(&chars, MAX_INDEX_LEN);
        let truncated = string_from_chars(&kept);
        let sa = SuffixArray::build(truncated.as_str());
        let ghost before = self.entries@;
        let mut entries = Vec::new();
        std::mem::swap(&mut entries, &mut self.entries);
        match find_entry(&entries, clip_id) {
            Some(k) => {
                proof {
                    lemma_entries_map_remove(entries@, k as int);
                }
                entries.remove(k);
            },
            None => {
                proof {
                    lemma_entries_map(entries@);
                    assert(entries_map(entries@).remove(clip_id) =~= entries_map(entries@));
                }
            },
        }
        let ghost mid = entries@;
        entries.push((clip_id, sa));
        proof {
            assert(entries@.drop_last() =~= mid);
            assert forall|a: int, b: int| 0 <= a < b < entries@.len() implies #[trigger] entries@[a].0
                != #[trigger] entries@[b].0 by {
                if b == entries@.len() - 1 {
                    lemma_entries_map(mid);
                    assert(!entries_map(mid).dom().contains(clip_id));
                    assert(mid[a].0 != clip_id);
                } else {
                    assert(mid[a].0 != mid[b].0);
                }
            }
            assert(entries_map(mid).insert(clip_id, sa.indexed()) =~= entries_map(before).insert(
                clip_id,
                sa.indexed(),
            ));
        }
        self.entries = entries;
    }

    /// Drops the entry for `clip_id`, if any.
    pub fn remove_clip(&mut self, clip_id: i64)
        ensures
            final(self).texts() == old(self).texts().remove(clip_id),
    {
        proof {
            use_type_invariant(&*self);
        }
        let mut entries = Vec::new();
        std::mem::swap(&mut entries, &mut self.entries);
        match find_entry(&entries, clip_id) {
            Some(k) => {
                proof {
                    lemma_entries_map_remove(entries@, k as int);
                }
                entries.remove(k);
            },
            None => {
                proof {
                    lemma_entries_map(entries@);
                    assert(entries_map(entries@).remove(clip_id) =~= entries_map(entries@));
                }
            },
        }
        self.entries = entries;
    }

    /// The ids of the clips whose indexed text contains the lowercased
    /// `pattern`, without repeats.
    pub fn search(&self, pattern: &str) -> (out: Vec<i64>)
        ensures
            out@.no_duplicates(),
            forall|id: i64| #[trigger]
                out@.contains(id) == (self.texts().dom().contains(id) && pattern@.len()
                    > 0 && exists|i: int| occurs_at(self.texts()[id], lowercase(pattern@), i)),
    {
        proof {
            use_type_invariant(self);
            lemma_entries_map(self.entries@);
        }
        let mut out: Vec<i64> = Vec::new();
        let mut k: usize = 0;
        while k < self.entries.len()
            invariant
                k <= self.entries@.len(),
                distinct_ids(self.entries@),
                out@.no_duplicates(),
                forall|id: i64| #[trigger]
                    out@.contains(id) == exists|j: int|
                        0 <= j < k && self.entries@[j].0 == id && pattern@.len() > 0
                            && exists|i: int|
                            occurs_at(self.entries@[j].1.indexed(), lowercase(pattern@), i),
            decreases self.entries@.len() - k,
        {
            let id = self.entries[k].0;
            let hit = self.entries[k].1.contains(pattern);
            let ghost before = out@;
            if hit {
                proof {
                    if before.contains(id) {
                        let j = choose|j: int|
                            0 <= j < k && self.entries@[j].0 == id && pattern@.len() > 0
                                && exists|i: int|
                                occurs_at(self.entries@[j].1.indexed(), lowercase(pattern@), i);
                        assert(self.entries@[j].0 != self.entries@[k as int].0);
                    }
                }
                out.push(id);
            }
            proof {
                assert forall|x: i64| #[trigger] out@.contains(x) == exists|j: int|
                    0 <= j < k + 1 && self.entries@[j].0 == x && pattern@.len() > 0
                        && exists|i: int|
                        occurs_at(self.entries@[j].1.indexed(), lowercase(pattern@), i) by {
                    if out@.contains(x) {
                        let p = choose|p: int| 0 <= p < out@.len() && out@[p] == x;
                        if p < before.len() {
                            assert(before.contains(x));
                        } else {
                            assert(x == id);
                        }
                    }
                    if before.contains(x) {
                        let p = choose|p: int| 0 <= p < before.len() && before[p] == x;
                        assert(out@[p] == x);
                    }
                    if hit && x == id {
                        assert(out@[before.len() as int] == x);
                    }
                }
            }
            k = k + 1;
        }
        proof {
            assert forall|id: i64| #[trigger] out@.contains(id) == (self.texts().dom().contains(id)
                && pattern@.len() > 0 && exists|i: int|
                occurs_at(self.texts()[id], lowercase(pattern@), i)) by {
                if self.texts().dom().contains(id) {
                    let j = choose|j: int| 0 <= j < self.entries@.len() && self.entries@[j].0 == id;
                    assert(self.texts()[self.entries@[j].0] == self.entries@[j].1.indexed());
                }
            }
        }
        out
    }

    /// The suffix array indexed for `clip_id`, if any.
    pub fn get(&self, clip_id: i64) -> (r: Option<&SuffixArray>)
        ensures
            match r {
                None => !self.texts().dom().contains(clip_id),
                Some(sa) => self.texts().dom().contains(clip_id) && sa.indexed()
                    == self.texts()[clip_id],
            },
    {
        proof {
            use_type_invariant(self);
            lemma_entries_map(self.entries@);
        }
        match find_entry(&self.entries, clip_id) {
            Some(k) => Some(&self.entries[k].1),
            None => None,
        }
    }
}

} // verus!
