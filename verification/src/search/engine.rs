//! The search engine: prefix, substring and fuzzy search over clips, with a
//! Bloom filter for spotting duplicates.
use crate::search::bloom::{BloomFilter, probes_bit};
use crate::search::fuzzy::{FuzzySearcher, fuzzy_hits};
use crate::search::suffix_array::{SuffixIndex, MAX_INDEX_LEN};
use crate::search::trie::{index_key, prefix_of, Trie};
use crate::text::{capped, chars_of, lowercase, occurs_at, string_from_chars, take_chars, to_lower, trim_str, trimmed};
use vstd::prelude::*;
use vstd::string::StringSliceAdditionalSpecFns;
use vstd::utf8::{decode_utf8, encode_utf8, is_char_boundary};

verus! {

broadcast use vstd::string::group_string_axioms;

/// How a result matched the query.
#[derive(Clone, Copy, Debug, PartialEq, Eq, Structural)]
pub enum MatchType {
    Prefix,
    Substring,
    Fuzzy,
}

impl MatchType {
    /// The name of the match kind.
    pub fn as_str(&self) -> (s: &'static str)
        ensures
            s@ == match self {
                MatchType::Prefix => "prefix"@,
                MatchType::Substring => "substring"@,
                MatchType::Fuzzy => "fuzzy"@,
            },
    {
        match self {
            MatchType::Prefix => "prefix",
            MatchType::Substring => "substring",
            MatchType::Fuzzy => "fuzzy",
        }
    }
}

/// The order in which hits of each kind are collected: prefix hits, then
/// substring hits, then fuzzy hits.
pub open spec fn kind_rank(m: MatchType) -> int {
    match m {
        MatchType::Prefix => 0,
        MatchType::Substring => 1,
        MatchType::Fuzzy => 2,
    }
}

/// One search hit. Scores come in half points: `doubled_score` is twice the
/// ranking score.
#[derive(Debug)]
pub struct SearchResult {
    pub clip_id: i64,
    pub doubled_score: i64,
    pub match_type: MatchType,
    pub match_positions: Vec<(usize, usize)>,
}

/// `needle` occurs in `hay` at byte `b`.
pub open spec fn bytes_at(hay: Seq<u8>, needle: Seq<u8>, b: int) -> bool {
    0 <= b && b + needle.len() <= hay.len() && hay.subrange(b, b + needle.len()) == needle
}

/// `b` is the first byte at which `needle` occurs in `hay`.
pub open spec fn first_bytes_at(hay: Seq<u8>, needle: Seq<u8>, b: int) -> bool {
    bytes_at(hay, needle, b) && forall|c: int| 0 <= c < b ==> !bytes_at(hay, needle, c)
}

/// Calls `str::find` with a string pattern, which reports the byte index of
/// the first occurrence of `needle` in `hay`.
#[verifier::external_body]
fn find_str(hay: &str, needle: &str) -> (r: Option<usize>)
    ensures
        match r {
            None => forall|b: int| !bytes_at(hay.spec_bytes(), needle.spec_bytes(), b),
            Some(b) => first_bytes_at(hay.spec_bytes(), needle.spec_bytes(), b as int),
        },
{
    hay.find(needle)
}

/// Number of characters encoded in the first `b` bytes of `s`.
pub open spec fn chars_in_bytes(s: Seq<char>, b: nat) -> nat {
    decode_utf8(encode_utf8(s).take(b as int)).len()
}

/// The character range, in `content`, of the first occurrence of `pat` in
/// the lowercased content, found by byte offsets; none when `pat` is empty,
/// does not occur, or its byte offsets do not fall between characters of
/// `content`.
pub open spec fn match_range(content: Seq<char>, pat: Seq<char>) -> Option<(usize, usize)> {
    let hay = encode_utf8(lowercase(content));
    let needle = encode_utf8(pat);
    let cb = encode_utf8(content);
    if pat.len() == 0 || !(exists|b: int| bytes_at(hay, needle, b)) {
        None
    } else {
        let b = choose|b: int| first_bytes_at(hay, needle, b);
        let s = if b <= cb.len() {
            b
        } else {
            cb.len() as int
        };
        let e = if b + needle.len() <= cb.len() {
            b + needle.len()
        } else {
            cb.len() as int
        };
        if is_char_boundary(cb, s) && is_char_boundary(cb, e) {
            Some(
                (
                    chars_in_bytes(content, s as nat) as usize,
                    chars_in_bytes(content, e as nat) as usize,
                ),
            )
        } else {
            None
        }
    }
}

/// The character range of `pattern_lower` in `content`; see `match_range`.
fn first_match_range(content: &str, pattern_lower: &str) -> (r: Option<(usize, usize)>)
    ensures
        r == match_range(content@, pattern_lower@),
{
    if pattern_lower.is_empty() {
        return None;
    }
    let lower = to_lower(content);
    let ghost hay = encode_utf8(lowercase(content@));
    let ghost needle = encode_utf8(pattern_lower@);
    let lower_str = lower.as_str();
    assert(lower_str.spec_bytes() == hay);
    let byte_start = match find_str(lower_str, pattern_lower) {
        None => {
            assert forall|b: int| !bytes_at(hay, needle, b) by {
                assert(!bytes_at(lower_str.spec_bytes(), pattern_lower.spec_bytes(), b));
            }
            return None;
        },
        Some(b) => b,
    };
    proof {
        assert(first_bytes_at(hay, needle, byte_start as int));
        let c = choose|b: int| first_bytes_at(hay, needle, b);
        if c < byte_start {
            assert(!bytes_at(hay, needle, c));
        }
        if byte_start < c {
            assert(!bytes_at(hay, needle, byte_start as int));
        }
    }
    let hay_len = lower_str.as_bytes().len();
    let plen = pattern_lower.as_bytes().len();
    let byte_end = byte_start + plen;
    let clen = content.as_bytes().len();
    let s = if byte_start <= clen {
        byte_start
    } else {
        clen
    };
    let e = if byte_end <= clen {
        byte_end
    } else {
        clen
    };
    if !content.is_char_boundary(s) || !content.is_char_boundary(e) {
        assert(match_range(content@, pattern_lower@) is None);
        return None;
    }
    let (head, _rest) = content.split_at(s);
    let (head2, _rest2) = content.split_at(e);
    proof {
        vstd::utf8::encode_utf8_decode_utf8(head@);
        vstd::utf8::encode_utf8_decode_utf8(head2@);
        assert(encode_utf8(content@).take(s as int) =~= encode_utf8(content@).subrange(0, s as int));
        assert(encode_utf8(content@).take(e as int) =~= encode_utf8(content@).subrange(0, e as int));
    }
    let char_start = chars_of(head).len();
    let char_end = chars_of(head2).len();
    Some((char_start, char_end))
}

/// Bits of the duplicate filter: enough for 1000 items at a 1% false-positive rate.
pub const DUPLICATE_FILTER_BITS: usize = 9586;

/// Hashes of the duplicate filter, for the same sizing.
pub const DUPLICATE_FILTER_HASHES: usize = 7;

/// Edit distance the fuzzy fallback accepts.
pub const FUZZY_THRESHOLD: usize = 2;

/// The texts a suffix index holds after indexing `clips` in order into one
/// that held `start`.
pub open spec fn texts_after(start: Map<i64, Seq<char>>, clips: Seq<(i64, String)>) -> Map<
    i64,
    Seq<char>,
>
    decreases clips.len(),
{
    if clips.len() == 0 {
        start
    } else {
        texts_after(start, clips.drop_last()).insert(
            clips.last().0,
            lowercase(capped(clips.last().1@, MAX_INDEX_LEN as nat)),
        )
    }
}

/// How many of `clips` have a non-empty index key.
pub open spec fn keyed_count(clips: Seq<(i64, String)>) -> nat
    decreases clips.len(),
{
    if clips.len() == 0 {
        0
    } else {
        keyed_count(clips.drop_last()) + if index_key(clips.last().1@).len() > 0 {
            1nat
        } else {
            0nat
        }
    }
}

proof fn lemma_keyed_count_bound(clips: Seq<(i64, String)>)
    ensures
        keyed_count(clips) <= clips.len(),
    decreases clips.len(),
{
    if clips.len() > 0 {
        lemma_keyed_count_bound(clips.drop_last());
    }
}

/// The clips without their pinned flags.
pub open spec fn plain_clips(clips: Seq<(i64, String, bool)>) -> Seq<(i64, String)> {
    Seq::new(clips.len(), |t: int| (clips[t].0, clips[t].1))
}

/// Twice the score bonus of a clip: ten points when pinned, one when among
/// the twenty most recent.
pub open spec fn bonus(clips: Seq<(i64, String, bool)>, recent: Seq<i64>, id: i64) -> i64 {
    ((if exists|t: int| 0 <= t < clips.len() && #[trigger] clips[t].0 == id && clips[t].2 {
        20int
    } else {
        0int
    }) + (if exists|t: int| 0 <= t < recent.len() && t < 20 && #[trigger] recent[t] == id {
        2int
    } else {
        0int
    })) as i64
}

/// The content of the first clip with `id`.
pub open spec fn content_of(clips: Seq<(i64, String, bool)>, id: i64) -> Option<Seq<char>>
    decreases clips.len(),
{
    if clips.len() == 0 {
        None
    } else if clips[0].0 == id {
        Some(clips[0].1@)
    } else {
        content_of(clips.drop_first(), id)
    }
}

/// Where a prefix match ends, in bytes: past as many characters of the
/// lowercased content as the lowercased query `q` has, or the query's byte
/// length when the clip's content is unknown.
pub open spec fn prefix_end(content: Option<Seq<char>>, q: Seq<char>) -> usize {
    match content {
        Some(c) => {
            let cl = lowercase(c);
            let n = lowercase(q).len();
            if n < cl.len() {
                encode_utf8(cl.take(n as int)).len() as usize
            } else {
                encode_utf8(cl).len() as usize
            }
        },
        None => encode_utf8(q).len() as usize,
    }
}

/// The substring positions reported for a clip's content.
pub open spec fn range_seq(content: Option<Seq<char>>, pat: Seq<char>) -> Seq<(usize, usize)> {
    match content {
        Some(c) => match match_range(c, pat) {
            Some(r) => seq![r],
            None => Seq::empty(),
        },
        None => Seq::empty(),
    }
}

/// Some result in `out` is for clip `id`.
pub open spec fn listed(out: Seq<SearchResult>, id: i64) -> bool {
    exists|a: int| 0 <= a < out.len() && #[trigger] out[a].clip_id == id
}

proof fn lemma_push_contains(s: Seq<i64>, x: i64)
    ensures
        forall|y: i64| #[trigger] s.push(x).contains(y) == (s.contains(y) || y == x),
{
    assert forall|y: i64| #[trigger] s.push(x).contains(y) == (s.contains(y) || y == x) by {
        if s.push(x).contains(y) {
            let p = choose|p: int| 0 <= p < s.len() + 1 && s.push(x)[p] == y;
            if p < s.len() {
                assert(s[p] == y);
            }
        }
        if s.contains(y) {
            let p = choose|p: int| 0 <= p < s.len() && s[p] == y;
            assert(s.push(x)[p] == y);
        }
        if y == x {
            assert(s.push(x)[s.len() as int] == y);
        }
    }
}

fn contains_id(v: &Vec<i64>, x: i64) -> (b: bool)
    ensures
        b == v@.contains(x),
{
    let mut k: usize = 0;
    while k < v.len()
        invariant
            k <= v@.len(),
            forall|t: int| 0 <= t < k ==> v@[t] != x,
        decreases v@.len() - k,
    {
        if v[k] == x {
            return true;
        }
        k = k + 1;
    }
    false
}

/// The content of the first clip with `id`, if any.
fn content_by_id(clips: &[(i64, String, bool)], id: i64) -> (r: Option<&String>)
    ensures
        match r {
            Some(c) => content_of(clips@, id) == Some(c@),
            None => content_of(clips@, id) is None,
        },
{
    let mut k: usize = 0;
    assert(clips@.skip(0) =~= clips@);
    while k < clips.len()
        invariant
            k <= clips@.len(),
            forall|t: int| 0 <= t < k ==> clips@[t].0 != id,
            content_of(clips@, id) == content_of(clips@.skip(k as int), id),
        decreases clips@.len() - k,
    {
        assert(clips@.skip(k as int).drop_first() =~= clips@.skip(k + 1));
        if clips[k].0 == id {
            return Some(&clips[k].1);
        }
        k = k + 1;
    }
    None
}

/// Twice the pinned and recency bonus of `id`.
fn bonus_of(clips: &[(i64, String, bool)], recent: &[i64], id: i64) -> (b: i64)
    ensures
        b == bonus(clips@, recent@, id),
{
    let mut pinned = false;
    let mut k: usize = 0;
    while k < clips.len()
        invariant
            k <= clips@.len(),
            pinned == exists|t: int| 0 <= t < k && #[trigger] clips@[t].0 == id && clips@[t].2,
        decreases clips@.len() - k,
    {
        if clips[k].0 == id && clips[k].2 {
            pinned = true;
        }
        k = k + 1;
    }
    let mut recent_hit = false;
    let mut r: usize = 0;
    while r < recent.len() && r < 20
        invariant
            r <= recent@.len(),
            r <= 20,
            recent_hit == exists|t: int| 0 <= t < r && #[trigger] recent@[t] == id,
        decreases recent@.len() - r,
    {
        if recent[r] == id {
            recent_hit = true;
        }
        r = r + 1;
    }
    (if pinned {
        20
    } else {
        0
    }) + (if recent_hit {
        2
    } else {
        0
    })
}

/// Where the prefix match of a clip ends; see `prefix_end`.
fn prefix_end_of(clips: &[(i64, String, bool)], id: i64, q: &str, q_count: usize) -> (end: usize)
    requires
        q_count == lowercase(q@).len(),
    ensures
        end == prefix_end(content_of(clips@, id), q@),
{
    match content_by_id(clips, id) {
        Some(c) => {
            let lowered = to_lower(c.as_str());
            let lc = chars_of(lowered.as_str());
            if q_count < lc.len() {
                let head = take_chars(&lc, q_count);
                let s = string_from_chars(&head);
                s.as_str().as_bytes().len()
            } else {
                lowered.as_str().as_bytes().len()
            }
        },
        None => q.as_bytes().len(),
    }
}

/// Orders results by score, highest first, keeping the order of equal scores.
fn sort_by_score(v: Vec<SearchResult>) -> (out: Vec<SearchResult>)
    requires
        forall|a: int, b: int| 0 <= a < b < v@.len() ==> v@[a].clip_id != v@[b].clip_id,
    ensures
        out@.len() == v@.len(),
        forall|x: SearchResult| #[trigger] out@.contains(x) == v@.contains(x),
        forall|a: int, b: int| 0 <= a < b < out@.len() ==> out@[a].doubled_score >= out@[b].doubled_score,
        forall|a: int, b: int| 0 <= a < b < out@.len() ==> out@[a].clip_id != out@[b].clip_id,
        forall|a: int, b: int|
            0 <= a < b < out@.len() && out@[a].doubled_score == out@[b].doubled_score ==> exists|i: int, j: int|
                0 <= i < j < v@.len() && v@[i] == #[trigger] out@[a] && v@[j] == #[trigger] out@[b],
{
    let ghost orig = v@;
    let n = v.len();
    let mut rest = v;
    let mut out: Vec<SearchResult> = Vec::new();
    let mut i: usize = 0;
    while rest.len() > 0
        invariant
            i <= orig.len(),
            n == orig.len(),
            rest@ == orig.skip(i as int),
            out@.len() == i,
            forall|a: int, b: int| 0 <= a < b < orig.len() ==> orig[a].clip_id != orig[b].clip_id,
            forall|x: SearchResult| #[trigger] out@.contains(x) == orig.take(i as int).contains(x),
            forall|a: int, b: int| 0 <= a < b < out@.len() ==> out@[a].doubled_score >= out@[b].doubled_score,
            forall|a: int, b: int| 0 <= a < b < out@.len() ==> out@[a].clip_id != out@[b].clip_id,
            forall|a: int, b: int|
                0 <= a < b < out@.len() && out@[a].doubled_score == out@[b].doubled_score ==> exists|p: int, r: int|
                    0 <= p < r < i && orig[p] == #[trigger] out@[a] && orig[r] == #[trigger] out@[b],
        decreases rest@.len(),
    {
        let x = rest.remove(0);
        assert(x == orig[i as int]);
        let mut pos: usize = 0;
        while pos < out.len() && out[pos].doubled_score >= x.doubled_score
            invariant
                pos <= out@.len(),
                forall|t: int| 0 <= t < pos ==> out@[t].doubled_score >= x.doubled_score,
            decreases out@.len() - pos,
        {
            pos = pos + 1;
        }
        let ghost old_out = out@;
        proof {
            assert forall|t: int| pos <= t < old_out.len() implies old_out[t].doubled_score < x.doubled_score by {
                if t > pos {
                    assert(old_out[pos as int].doubled_score >= old_out[t].doubled_score);
                }
            }
            assert forall|t: int| 0 <= t < old_out.len() implies old_out[t].clip_id != x.clip_id by {
                assert(old_out.contains(old_out[t]));
                let p = choose|p: int| 0 <= p < i && orig.take(i as int)[p] == old_out[t];
                assert(orig[p].clip_id != orig[i as int].clip_id);
            }
        }
        out.insert(pos, x);
        proof {
            let t1 = orig.take(i + 1);
            assert(t1 =~= orig.take(i as int).push(orig[i as int]));
            assert forall|y: SearchResult| #[trigger] out@.contains(y) == t1.contains(y) by {
                if out@.contains(y) {
                    let p = choose|p: int| 0 <= p < out@.len() && out@[p] == y;
                    if p < pos {
                        assert(old_out[p] == y);
                        assert(old_out.contains(y));
                        let q = choose|q: int| 0 <= q < i && orig.take(i as int)[q] == y;
                        assert(t1[q] == y);
                    } else if p > pos {
                        assert(old_out[p - 1] == y);
                        assert(old_out.contains(y));
                        let q = choose|q: int| 0 <= q < i && orig.take(i as int)[q] == y;
                        assert(t1[q] == y);
                    } else {
                        assert(t1[i as int] == y);
                    }
                }
                if t1.contains(y) {
                    let q = choose|q: int| 0 <= q < t1.len() && t1[q] == y;
                    if q < i {
                        assert(orig.take(i as int)[q] == y);
                        assert(old_out.contains(y));
                        let p = choose|p: int| 0 <= p < old_out.len() && old_out[p] == y;
                        if p < pos {
                            assert(out@[p] == y);
                        } else {
                            assert(out@[p + 1] == y);
                        }
                    } else {
                        assert(out@[pos as int] == y);
                    }
                }
            }
            assert(orig.skip(i + 1) =~= orig.skip(i as int).remove(0));
            assert forall|a: int, b: int|
                0 <= a < b < out@.len() && out@[a].doubled_score == out@[b].doubled_score implies exists|p: int, r: int|
                    0 <= p < r < i + 1 && orig[p] == #[trigger] out@[a] && orig[r] == #[trigger] out@[b] by {
                if b < pos {
                    assert(out@[a] == old_out[a] && out@[b] == old_out[b]);
                    let (p, r) = choose|p: int, r: int|
                        0 <= p < r < i && orig[p] == old_out[a] && orig[r] == old_out[b];
                    assert(0 <= p < r < i + 1 && orig[p] == out@[a] && orig[r] == out@[b]);
                } else if b == pos {
                    assert(out@[a] == old_out[a]);
                    assert(old_out.contains(old_out[a]));
                    let p = choose|p: int| 0 <= p < i && orig.take(i as int)[p] == old_out[a];
                    assert(orig[p] == out@[a] && orig[i as int] == out@[b]);
                } else if a == pos {
                    assert(out@[b] == old_out[b - 1]);
                    assert(old_out[b - 1].doubled_score < x.doubled_score);
                } else if a < pos {
                    assert(out@[a] == old_out[a] && out@[b] == old_out[b - 1]);
                    assert(old_out[b - 1].doubled_score < x.doubled_score);
                    assert(old_out[a].doubled_score >= x.doubled_score);
                } else {
                    assert(out@[a] == old_out[a - 1] && out@[b] == old_out[b - 1]);
                    let (p, r) = choose|p: int, r: int|
                        0 <= p < r < i && orig[p] == old_out[a - 1] && orig[r] == old_out[b - 1];
                    assert(0 <= p < r < i + 1 && orig[p] == out@[a] && orig[r] == out@[b]);
                }
            }
        }
        i = i + 1;
    }
    assert(orig.take(orig.len() as int) =~= orig);
    out
}

/// Prefix, substring and fuzzy search over clips, with a Bloom filter that
/// remembers what has been indexed.
pub struct SearchEngine {
    trie: Trie,
    suffix_index: SuffixIndex,
    fuzzy: FuzzySearcher,
    bloom: BloomFilter,
}

impl SearchEngine {
    #[verifier::type_invariant]
    spec fn configured(self) -> bool {
        self.fuzzy.max_distance() == FUZZY_THRESHOLD
    }

    /// The prefix index.
    pub closed spec fn prefix_index(&self) -> Trie {
        self.trie
    }

    /// The substring index.
    pub closed spec fn substrings(&self) -> SuffixIndex {
        self.suffix_index
    }

    /// The fuzzy searcher.
    pub closed spec fn fuzzy_searcher(&self) -> FuzzySearcher {
        self.fuzzy
    }

    /// The duplicate filter.
    pub closed spec fn duplicates(&self) -> BloomFilter {
        self.bloom
    }

    /// An engine with nothing indexed.
    pub fn new() -> (e: Self)
        ensures
            forall|k: Seq<char>, id: i64| !#[trigger] e.prefix_index().holds(k, id),
            e.prefix_index().count() == 0,
            e.substrings().texts() == Map::<i64, Seq<char>>::empty(),
            e.fuzzy_searcher().max_distance() == FUZZY_THRESHOLD,
            e.duplicates().size() == DUPLICATE_FILTER_BITS,
            e.duplicates().hashes() == DUPLICATE_FILTER_HASHES,
            e.duplicates().inserted() == 0,
            forall|idx: nat| idx < DUPLICATE_FILTER_BITS ==> !#[trigger] e.duplicates().is_set(idx),
    {
        SearchEngine {
            trie: Trie::new(),
            suffix_index: SuffixIndex::new(),
            fuzzy: FuzzySearcher::new(FUZZY_THRESHOLD),
            bloom: BloomFilter::with_parameters(DUPLICATE_FILTER_BITS, DUPLICATE_FILTER_HASHES),
        }
    }

    /// Indexes `content` under `clip_id` in the prefix and substring indexes
    /// and records it in the duplicate filter.
    pub fn index_clip(&mut self, clip_id: i64, content: &str)
        requires
            index_key(content@).len() > 0 ==> old(self).prefix_index().count() < usize::MAX,
            old(self).duplicates().inserted() < usize::MAX,
        ensures
            forall|k: Seq<char>, id: i64| #[trigger]
                final(self).prefix_index().holds(k, id) == (old(self).prefix_index().holds(k, id)
                    || (index_key(content@).len() > 0 && k == index_key(content@) && id == clip_id)),
            final(self).prefix_index().count() == old(self).prefix_index().count() + if index_key(
                content@,
            ).len() > 0 {
                1nat
            } else {
                0nat
            },
            final(self).substrings().texts() == old(self).substrings().texts().insert(
                clip_id,
                lowercase(capped(content@, MAX_INDEX_LEN as nat)),
            ),
            final(self).fuzzy_searcher() == old(self).fuzzy_searcher(),
            final(self).duplicates().size() == old(self).duplicates().size(),
            final(self).duplicates().hashes() == old(self).duplicates().hashes(),
            final(self).duplicates().inserted() == old(self).duplicates().inserted() + 1,
            forall|idx: nat|
                idx < old(self).duplicates().size() ==> (#[trigger] final(self).duplicates().is_set(
                    idx,
                ) <==> (old(self).duplicates().is_set(idx) || probes_bit(
                    content.spec_bytes(),
                    old(self).duplicates().hashes(),
                    old(self).duplicates().size(),
                    idx,
                ))),
            final(self).duplicates().all_probes_set(content.spec_bytes()),
            final(self).duplicates().size() >= 1,
    {
        proof {
            use_type_invariant(&*self);
        }
        let mut trie = Trie::new();
        std::mem::swap(&mut trie, &mut self.trie);
        trie.insert(content, clip_id);
        self.trie = trie;
        let mut suffix_index = SuffixIndex::new();
        std::mem::swap(&mut suffix_index, &mut self.suffix_index);
        suffix_index.index_clip(clip_id, content);
        self.suffix_index = suffix_index;
        let mut bloom = BloomFilter::with_parameters(1, 1);
        std::mem::swap(&mut bloom, &mut self.bloom);
        bloom.insert(content);
        self.bloom = bloom;
    }

    /// Indexes each of `clips` in order, as `index_clip` does.
    pub fn build_from_clips(&mut self, clips: &[(i64, String)])
        requires
            old(self).prefix_index().count() + clips@.len() <= usize::MAX,
            old(self).duplicates().inserted() + clips@.len() <= usize::MAX,
        ensures
            forall|k: Seq<char>, id: i64| #[trigger]
                final(self).prefix_index().holds(k, id) == (old(self).prefix_index().holds(k, id)
                    || exists|j: int|
                    0 <= j < clips@.len() && index_key(#[trigger] clips@[j].1@).len() > 0 && k
                        == index_key(clips@[j].1@) && id == clips@[j].0),
            final(self).prefix_index().count() == old(self).prefix_index().count() + keyed_count(
                clips@,
            ),
            final(self).substrings().texts() == texts_after(
                old(self).substrings().texts(),
                clips@,
            ),
            final(self).fuzzy_searcher() == old(self).fuzzy_searcher(),
            final(self).duplicates().size() == old(self).duplicates().size(),
            final(self).duplicates().hashes() == old(self).duplicates().hashes(),
            final(self).duplicates().inserted() == old(self).duplicates().inserted()
                + clips@.len(),
            forall|idx: nat|
                idx < old(self).duplicates().size() ==> (#[trigger] final(self).duplicates().is_set(
                    idx,
                ) <==> (old(self).duplicates().is_set(idx) || exists|j: int|
                    0 <= j < clips@.len() && probes_bit(
                        #[trigger] encode_utf8(clips@[j].1@),
                        old(self).duplicates().hashes(),
                        old(self).duplicates().size(),
                        idx,
                    ))),
            forall|j: int|
                0 <= j < clips@.len() ==> final(self).duplicates().all_probes_set(
                    #[trigger] encode_utf8(clips@[j].1@),
                ),
    {
        let ghost start = *self;
        let mut i: usize = 0;
        while i < clips.len()
            invariant
                i <= clips@.len(),
                start.prefix_index().count() + clips@.len() <= usize::MAX,
                start.duplicates().inserted() + clips@.len() <= usize::MAX,
                forall|k: Seq<char>, id: i64| #[trigger]
                    self.prefix_index().holds(k, id) == (start.prefix_index().holds(k, id)
                        || exists|j: int|
                        0 <= j < i && index_key(#[trigger] clips@[j].1@).len() > 0 && k
                            == index_key(clips@[j].1@) && id == clips@[j].0),
                self.prefix_index().count() == start.prefix_index().count() + keyed_count(
                    clips@.take(i as int),
                ),
                self.substrings().texts() == texts_after(
                    start.substrings().texts(),
                    clips@.take(i as int),
                ),
                self.fuzzy_searcher() == start.fuzzy_searcher(),
                self.duplicates().size() == start.duplicates().size(),
                self.duplicates().hashes() == start.duplicates().hashes(),
                self.duplicates().inserted() == start.duplicates().inserted() + i,
                i > 0 ==> self.duplicates().size() >= 1,
                forall|idx: nat|
                    idx < start.duplicates().size() ==> (#[trigger] self.duplicates().is_set(idx)
                        <==> (start.duplicates().is_set(idx) || exists|j: int|
                        0 <= j < i && probes_bit(
                            #[trigger] encode_utf8(clips@[j].1@),
                            start.duplicates().hashes(),
                            start.duplicates().size(),
                            idx,
                        ))),
            decreases clips@.len() - i,
        {
            let ghost before = *self;
            let ghost t = clips@.take(i + 1);
            proof {
                assert(t.drop_last() =~= clips@.take(i as int));
                assert(t.last() == clips@[i as int]);
                lemma_keyed_count_bound(clips@.take(i as int));
            }
            let content = clips[i].1.as_str();
            let id = clips[i].0;
            self.index_clip(id, content);
            proof {
                assert forall|k: Seq<char>, x: i64| #[trigger]
                    self.prefix_index().holds(k, x) == (start.prefix_index().holds(k, x) || exists|
                        j: int,
                    |
                        0 <= j < i + 1 && index_key(#[trigger] clips@[j].1@).len() > 0 && k
                            == index_key(clips@[j].1@) && x == clips@[j].0) by {
                    if index_key(clips@[i as int].1@).len() > 0 && k == index_key(
                        clips@[i as int].1@,
                    ) && x == clips@[i as int].0 {
                        assert(0 <= i < i + 1);
                    }
                    if exists|j: int|
                        0 <= j < i + 1 && index_key(#[trigger] clips@[j].1@).len() > 0 && k
                            == index_key(clips@[j].1@) && x == clips@[j].0 {
                        let j = choose|j: int|
                            0 <= j < i + 1 && index_key(#[trigger] clips@[j].1@).len() > 0 && k
                                == index_key(clips@[j].1@) && x == clips@[j].0;
                        if j < i {
                            assert(0 <= j < i);
                        }
                    }
                }
                assert forall|idx: nat| idx < start.duplicates().size() implies (
                #[trigger] self.duplicates().is_set(idx) <==> (start.duplicates().is_set(idx)
                    || exists|j: int|
                    0 <= j < i + 1 && probes_bit(
                        #[trigger] encode_utf8(clips@[j].1@),
                        start.duplicates().hashes(),
                        start.duplicates().size(),
                        idx,
                    ))) by {
                    if probes_bit(
                        encode_utf8(clips@[i as int].1@),
                        start.duplicates().hashes(),
                        start.duplicates().size(),
                        idx,
                    ) {
                        assert(0 <= i < i + 1);
                    }
                    if exists|j: int|
                        0 <= j < i + 1 && probes_bit(
                            #[trigger] encode_utf8(clips@[j].1@),
                            start.duplicates().hashes(),
                            start.duplicates().size(),
                            idx,
                        ) {
                        let j = choose|j: int|
                            0 <= j < i + 1 && probes_bit(
                                #[trigger] encode_utf8(clips@[j].1@),
                                start.duplicates().hashes(),
                                start.duplicates().size(),
                                idx,
                            );
                        if j < i {
                            assert(0 <= j < i);
                        }
                    }
                }
            }
            i = i + 1;
        }
        proof {
            assert(clips@.take(clips@.len() as int) =~= clips@);
            assert forall|j: int| 0 <= j < clips@.len() implies self.duplicates().all_probes_set(
                #[trigger] encode_utf8(clips@[j].1@),
            ) by {
                let item = encode_utf8(clips@[j].1@);
                assert forall|h: nat| h < self.duplicates().hashes() implies #[trigger] self.duplicates().is_set(
                    crate::search::bloom::probe_of(item, h, self.duplicates().size()),
                ) by {
                    let x = crate::search::bloom::probe_of(item, h, self.duplicates().size());
                    assert(self.duplicates().size() >= 1);
                    assert(x < start.duplicates().size());
                    assert(crate::search::bloom::probed(
                        crate::search::bloom::fnv1a_of(item),
                        crate::search::bloom::djb2_of(item),
                        start.duplicates().hashes(),
                        start.duplicates().size(),
                        x,
                    ));
                }
            }
        }
    }

    /// Removes `clip_id` from the prefix and substring indexes; the
    /// duplicate filter cannot forget it.
    pub fn remove_clip(&mut self, clip_id: i64, _content: &str)
        ensures
            forall|k: Seq<char>, id: i64| #[trigger]
                final(self).prefix_index().holds(k, id) == (old(self).prefix_index().holds(k, id)
                    && id != clip_id),
            final(self).prefix_index().count() == old(self).prefix_index().count(),
            final(self).substrings().texts() == old(self).substrings().texts().remove(clip_id),
            final(self).fuzzy_searcher() == old(self).fuzzy_searcher(),
            final(self).duplicates() == old(self).duplicates(),
    {
        proof {
            use_type_invariant(&*self);
        }
        let mut trie = Trie::new();
        std::mem::swap(&mut trie, &mut self.trie);
        trie.remove(clip_id);
        self.trie = trie;
        let mut suffix_index = SuffixIndex::new();
        std::mem::swap(&mut suffix_index, &mut self.suffix_index);
        suffix_index.remove_clip(clip_id);
        self.suffix_index = suffix_index;
    }

    /// Whether `content` may have been indexed before.
    pub fn is_probable_duplicate(&self, content: &str) -> (b: bool)
        ensures
            b == self.duplicates().all_probes_set(content.spec_bytes()),
    {
        self.bloom.probably_contains(content)
    }

    /// The prefix index holds `id` under a key beginning with the query `q`'s key.
    pub open spec fn prefix_hit_for(&self, q: Seq<char>, id: i64) -> bool {
        index_key(q).len() > 0 && exists|k: Seq<char>|
            #[trigger] self.prefix_index().holds(k, id) && prefix_of(index_key(q), k)
    }

    /// The substring index has text for `id` containing the lowercased `q`.
    pub open spec fn substring_hit_for(&self, q: Seq<char>, id: i64) -> bool {
        let texts = self.substrings().texts();
        texts.dom().contains(id) && q.len() > 0 && exists|i: int|
            occurs_at(texts[id], lowercase(q), i)
    }

    /// `id` is a prefix or substring hit for `q`.
    pub open spec fn direct_hit(&self, q: Seq<char>, id: i64) -> bool {
        self.prefix_hit_for(q, id) || self.substring_hit_for(q, id)
    }

    /// The fuzzy hits for `q` over `clips`.
    pub open spec fn fuzzy_candidates(&self, q: Seq<char>, clips: Seq<(i64, String, bool)>) -> Seq<
        (i64, usize),
    > {
        if lowercase(trimmed(q)).len() == 0 {
            Seq::empty()
        } else {
            fuzzy_hits(
                lowercase(trimmed(q)),
                plain_clips(clips),
                self.fuzzy_searcher().max_distance() as nat,
            )
        }
    }

    /// Some fuzzy hit for `q` is for clip `id`.
    pub open spec fn fuzzy_hit(&self, q: Seq<char>, clips: Seq<(i64, String, bool)>, id: i64) -> bool {
        exists|t: int|
            0 <= t < self.fuzzy_candidates(q, clips).len() && #[trigger] self.fuzzy_candidates(
                q,
                clips,
            )[t].0 == id
    }

    /// `id` belongs in the results for the trimmed query `q`: a direct hit
    /// when there is any, otherwise a fuzzy hit.
    pub open spec fn expected(&self, q: Seq<char>, clips: Seq<(i64, String, bool)>, id: i64) -> bool {
        if exists|x: i64| #[trigger] self.direct_hit(q, x) {
            self.direct_hit(q, id)
        } else {
            self.fuzzy_hit(q, clips, id)
        }
    }

    /// `r` is the result the search gives for its clip under trimmed query `q`.
    pub open spec fn fits(
        &self,
        q: Seq<char>,
        clips: Seq<(i64, String, bool)>,
        recent: Seq<i64>,
        r: SearchResult,
    ) -> bool {
        let id = r.clip_id;
        let hits = self.fuzzy_candidates(q, clips);
        if self.prefix_hit_for(q, id) {
            &&& r.match_type == MatchType::Prefix
            &&& r.doubled_score == 10 + bonus(clips, recent, id)
            &&& r.match_positions@ == seq![(0usize, prefix_end(content_of(clips, id), q))]
        } else if self.substring_hit_for(q, id) {
            &&& r.match_type == MatchType::Substring
            &&& r.doubled_score == 6 + bonus(clips, recent, id)
            &&& r.match_positions@ == range_seq(content_of(clips, id), lowercase(q))
        } else {
            &&& r.match_type == MatchType::Fuzzy
            &&& r.match_positions@.len() == 0
            &&& exists|t: int|
                0 <= t < hits.len() && hits[t].0 == id && r.doubled_score == 4 - hits[t].1 + bonus(
                    clips,
                    recent,
                    id,
                ) && forall|u: int|
                    0 <= u < hits.len() && #[trigger] hits[u].0 == id ==> hits[t].1 <= hits[u].1
        }
    }

    /// The fuzzy results for the trimmed query `qs`: each clip with a fuzzy
    /// hit once, with its smallest distance.
    fn fuzzy_results(&self, qs: &str, all_clips: &[(i64, String, bool)], recent_ids: &[i64]) -> (results: Vec<SearchResult>)
        requires
            forall|x: i64| !#[trigger] self.direct_hit(qs@, x),
        ensures
            forall|a: int, b: int| 0 <= a < b < results@.len() ==> results@[a].clip_id != results@[b].clip_id,
            forall|a: int| 0 <= a < results@.len() ==> self.fits(qs@, all_clips@, recent_ids@, #[trigger] results@[a]),
            forall|id: i64| #[trigger] listed(results@, id) == self.fuzzy_hit(qs@, all_clips@, id),
    {
        proof {
            use_type_invariant(self);
        }
        let mut plain: Vec<(i64, String)> = Vec::new();
        let mut k: usize = 0;
        while k < all_clips.len()
            invariant
                k <= all_clips@.len(),
                plain@ == plain_clips(all_clips@).take(k as int),
            decreases all_clips@.len() - k,
        {
            let c = all_clips[k].1.clone();
            plain.push((all_clips[k].0, c));
            proof {
                assert(plain@ =~= plain_clips(all_clips@).take(k + 1));
            }
            k = k + 1;
        }
        assert(plain@ =~= plain_clips(all_clips@));
        let out = self.fuzzy.search(qs, &plain);
        let ghost hits = self.fuzzy_candidates(qs@, all_clips@);
        proof {
            crate::search::fuzzy::lemma_hits_bound(lowercase(trimmed(qs@)), plain_clips(all_clips@), FUZZY_THRESHOLD as nat);
            assert forall|x: (i64, usize)| #[trigger] out@.contains(x) == hits.contains(x) by {
                vstd::seq_lib::to_multiset_contains(out@, x);
                vstd::seq_lib::to_multiset_contains(hits, x);
            }
        }
        let mut results: Vec<SearchResult> = Vec::new();
        let mut seen: Vec<i64> = Vec::new();
        let mut i: usize = 0;
        while i < out.len()
            invariant
                i <= out@.len(),
                forall|x: i64| !#[trigger] self.direct_hit(qs@, x),
                hits == self.fuzzy_candidates(qs@, all_clips@),
                forall|x: (i64, usize)| #[trigger] out@.contains(x) == hits.contains(x),
                forall|t: int| 0 <= t < hits.len() ==> #[trigger] hits[t].1 <= FUZZY_THRESHOLD,
                crate::search::fuzzy::hits_sorted(out@),
                seen@.no_duplicates(),
                seen@.len() == results@.len(),
                forall|a: int| 0 <= a < results@.len() ==> #[trigger] results@[a].clip_id == seen@[a],
                forall|x: i64| #[trigger] seen@.contains(x) == exists|t: int| 0 <= t < i && out@[t].0 == x,
                forall|a: int| 0 <= a < results@.len() ==> self.fits(qs@, all_clips@, recent_ids@, #[trigger] results@[a]),
            decreases out@.len() - i,
        {
            let (id, d) = out[i];
            let ghost before = seen@;
            proof {
                assert(out@.contains(out@[i as int]));
                assert(hits.contains((id, d)));
                let t = choose|t: int| 0 <= t < hits.len() && hits[t] == (id, d);
                assert(hits[t].1 <= FUZZY_THRESHOLD);
            }
            if !contains_id(&seen, id) {
                let score = 4 - (d as i64) + bonus_of(all_clips, recent_ids, id);
                let r = SearchResult { clip_id: id, doubled_score: score, match_type: MatchType::Fuzzy, match_positions: Vec::new() };
                proof {
                    let t = choose|t: int| 0 <= t < hits.len() && hits[t] == (id, d);
                    assert forall|u: int| 0 <= u < hits.len() && #[trigger] hits[u].0 == id implies hits[t].1 <= hits[u].1 by {
                        assert(hits.contains(hits[u]));
                        assert(out@.contains(hits[u]));
                        let v = choose|v: int| 0 <= v < out@.len() && out@[v] == hits[u];
                        if v < i {
                            assert(before.contains(id));
                        } else if v > i {
                            assert(crate::search::fuzzy::hit_le(out@[i as int], out@[v]));
                        }
                    }
                    assert(r.match_positions@ =~= Seq::<(usize, usize)>::empty());
                    assert(!self.direct_hit(qs@, id));
                    assert(self.fits(qs@, all_clips@, recent_ids@, r));
                }
                results.push(r);
                seen.push(id);
                proof {
                    lemma_push_contains(before, id);
                }
            }
            proof {
                assert forall|x: i64| #[trigger] seen@.contains(x) == exists|t: int| 0 <= t < i + 1 && out@[t].0 == x by {
                    if x == id {
                        assert(out@[i as int].0 == x);
                    }
                    if exists|t: int| 0 <= t < i + 1 && out@[t].0 == x {
                        let t = choose|t: int| 0 <= t < i + 1 && out@[t].0 == x;
                        if t < i {
                            assert(before.contains(x));
                        }
                    }
                }
            }
            i = i + 1;
        }
        proof {
            assert forall|id: i64| #[trigger] listed(results@, id) == self.fuzzy_hit(qs@, all_clips@, id) by {
                if exists|a: int| 0 <= a < results@.len() && #[trigger] results@[a].clip_id == id {
                    let a = choose|a: int| 0 <= a < results@.len() && #[trigger] results@[a].clip_id == id;
                    assert(seen@.contains(id));
                    let t = choose|t: int| 0 <= t < out@.len() && out@[t].0 == id;
                    assert(out@.contains(out@[t]));
                    assert(hits.contains(out@[t]));
                }
                if exists|t: int| 0 <= t < hits.len() && #[trigger] hits[t].0 == id {
                    let t = choose|t: int| 0 <= t < hits.len() && #[trigger] hits[t].0 == id;
                    assert(hits.contains(hits[t]));
                    assert(out@.contains(hits[t]));
                    let v = choose|v: int| 0 <= v < out@.len() && out@[v] == hits[t];
                    assert(seen@.contains(id));
                    let a = choose|a: int| 0 <= a < seen@.len() && seen@[a] == id;
                    assert(results@[a].clip_id == id);
                }
            }
        }
        results
    }

    /// Searches for `query` among `all_clips` (id, content, pinned), with
    /// `recent_ids` most recent first. Prefix hits come first in kind, then
    /// substring hits; only when there are neither does fuzzy matching run.
    /// Each clip appears once, and results are ordered by score, highest
    /// first.
    pub fn search(
        &self,
        query: &str,
        all_clips: &[(i64, String, bool)],
        recent_ids: &[i64],
    ) -> (out: Vec<SearchResult>)
        ensures
            trimmed(query@).len() == 0 ==> out@.len() == 0,
            trimmed(query@).len() > 0 ==> {
                let q = trimmed(query@);
                &&& forall|a: int, b: int|
                    0 <= a < b < out@.len() ==> out@[a].doubled_score >= out@[b].doubled_score
                &&& forall|a: int, b: int|
                    0 <= a < b < out@.len() ==> out@[a].clip_id != out@[b].clip_id
                &&& forall|a: int|
                    0 <= a < out@.len() ==> self.fits(q, all_clips@, recent_ids@, #[trigger] out@[a])
                &&& forall|id: i64| #[trigger] listed(out@, id) == self.expected(q, all_clips@, id)
                &&& forall|a: int, b: int|
                    0 <= a < b < out@.len() && out@[a].doubled_score == out@[b].doubled_score ==> kind_rank(
                        out@[a].match_type,
                    ) <= kind_rank(out@[b].match_type)
            },
    {
        let qs = trim_str(query);
        if qs.is_empty() {
            return Vec::new();
        }
        let ghost q = qs@;
        let q_lower = to_lower(qs);
        let q_count = chars_of(q_lower.as_str()).len();
        let mut results: Vec<SearchResult> = Vec::new();
        let mut seen: Vec<i64> = Vec::new();
        let pre = self.trie.prefix_search(qs);
        proof {
            assert forall|x: i64| #[trigger] pre@.contains(x) == self.prefix_hit_for(q, x) by {
                if pre@.contains(x) {
                    let k = choose|k: Seq<char>| #[trigger] self.trie.holds(k, x) && prefix_of(index_key(q), k);
                    assert(self.prefix_index().holds(k, x));
                }
                if self.prefix_hit_for(q, x) {
                    let k = choose|k: Seq<char>| #[trigger] self.prefix_index().holds(k, x) && prefix_of(index_key(q), k);
                    assert(self.trie.holds(k, x));
                }
            }
        }
        let mut i: usize = 0;
        while i < pre.len()
            invariant
                i <= pre@.len(),
                q == trimmed(query@),
                q == qs@,
                q_lower@ == lowercase(q),
                q_count == lowercase(q).len(),
                pre@.no_duplicates(),
                forall|x: i64| #[trigger] pre@.contains(x) == self.prefix_hit_for(q, x),
                seen@.no_duplicates(),
                seen@.len() == results@.len(),
                forall|a: int| 0 <= a < results@.len() ==> #[trigger] results@[a].clip_id == seen@[a],
                forall|x: i64| #[trigger] seen@.contains(x) == pre@.take(i as int).contains(x),
                forall|a: int|
                    0 <= a < results@.len() ==> self.fits(q, all_clips@, recent_ids@, #[trigger] results@[a]),
                forall|a: int| 0 <= a < results@.len() ==> (#[trigger] results@[a]).match_type == MatchType::Prefix,
            decreases pre@.len() - i,
        {
            let id = pre[i];
            proof {
                assert(pre@.take(i + 1) =~= pre@.take(i as int).push(id));
                if seen@.contains(id) {
                    let p = choose|p: int| 0 <= p < i && pre@.take(i as int)[p] == id;
                    assert(pre@[p] == pre@[i as int]);
                }
                assert(pre@.contains(id));
            }
            let end = prefix_end_of(all_clips, id, qs, q_count);
            let score = 10 + bonus_of(all_clips, recent_ids, id);
            let mut positions: Vec<(usize, usize)> = Vec::new();
            positions.push((0, end));
            results.push(SearchResult { clip_id: id, doubled_score: score, match_type: MatchType::Prefix, match_positions: positions });
            let ghost before = seen@;
            seen.push(id);
            proof {
                assert(positions@ =~= seq![(0usize, end)]);
                lemma_push_contains(before, id);
                assert forall|x: i64| #[trigger] seen@.contains(x) == pre@.take(i + 1).contains(x) by {
                    lemma_push_contains(pre@.take(i as int), id);
                }
            }
            i = i + 1;
        }
        proof {
            assert(pre@.take(pre@.len() as int) =~= pre@);
        }
        let sub = self.suffix_index.search(qs);
        proof {
            assert forall|x: i64| #[trigger] sub@.contains(x) == self.substring_hit_for(q, x) by {
                let texts = self.suffix_index.texts();
                assert(texts == self.substrings().texts());
                if sub@.contains(x) {
                    let i = choose|i: int| occurs_at(texts[x], lowercase(q), i);
                    assert(occurs_at(self.substrings().texts()[x], lowercase(q), i));
                }
                if self.substring_hit_for(q, x) {
                    let i = choose|i: int| occurs_at(self.substrings().texts()[x], lowercase(q), i);
                    assert(occurs_at(texts[x], lowercase(q), i));
                }
            }
        }
        let mut j: usize = 0;
        while j < sub.len()
            invariant
                j <= sub@.len(),
                q == trimmed(query@),
                q == qs@,
                q_lower@ == lowercase(q),
                sub@.no_duplicates(),
                forall|x: i64| #[trigger] sub@.contains(x) == self.substring_hit_for(q, x),
                seen@.no_duplicates(),
                seen@.len() == results@.len(),
                forall|a: int| 0 <= a < results@.len() ==> #[trigger] results@[a].clip_id == seen@[a],
                forall|x: i64| #[trigger] seen@.contains(x) == (self.prefix_hit_for(q, x) || sub@.take(j as int).contains(x)),
                forall|a: int|
                    0 <= a < results@.len() ==> self.fits(q, all_clips@, recent_ids@, #[trigger] results@[a]),
                forall|a: int| 0 <= a < results@.len() ==> kind_rank((#[trigger] results@[a]).match_type) <= 1,
                forall|a: int, b: int|
                    0 <= a < b < results@.len() ==> kind_rank((#[trigger] results@[a]).match_type) <= kind_rank(
                        (#[trigger] results@[b]).match_type,
                    ),
            decreases sub@.len() - j,
        {
            let id = sub[j];
            proof {
                assert(sub@.take(j + 1) =~= sub@.take(j as int).push(id));
                assert(sub@.contains(id));
            }
            let ghost before = seen@;
            if !contains_id(&seen, id) {
                proof {
                    assert(!self.prefix_hit_for(q, id));
                }
                let range = match content_by_id(all_clips, id) {
                    Some(c) => first_match_range(c.as_str(), q_lower.as_str()),
                    None => None,
                };
                let mut positions: Vec<(usize, usize)> = Vec::new();
                match range {
                    Some(r) => positions.push(r),
                    None => {},
                }
                let score = 6 + bonus_of(all_clips, recent_ids, id);
                results.push(SearchResult { clip_id: id, doubled_score: score, match_type: MatchType::Substring, match_positions: positions });
                seen.push(id);
                proof {
                    lemma_push_contains(before, id);
                    assert(positions@ =~= range_seq(content_of(all_clips@, id), lowercase(q)));
                }
            }
            proof {
                lemma_push_contains(sub@.take(j as int), id);
            }
            j = j + 1;
        }
        proof {
            assert(sub@.take(sub@.len() as int) =~= sub@);
            assert forall|x: i64| #[trigger] seen@.contains(x) == self.direct_hit(q, x) by {}
        }
        if results.len() == 0 {
            proof {
                assert forall|x: i64| !#[trigger] self.direct_hit(q, x) by {
                    assert(!seen@.contains(x));
                }
            }
            results = self.fuzzy_results(qs, all_clips, recent_ids);
            proof {
                assert forall|id: i64| #[trigger] listed(results@, id) == self.expected(q, all_clips@, id) by {
                    assert(!(exists|x: i64| #[trigger] self.direct_hit(q, x)));
                }
            }
        } else {
            proof {
                let x = seen@[0];
                assert(seen@.contains(x));
                assert(self.direct_hit(q, x));
                assert forall|id: i64| #[trigger] listed(results@, id) == self.expected(q, all_clips@, id) by {
                    if listed(results@, id) {
                        let a = choose|a: int| 0 <= a < results@.len() && #[trigger] results@[a].clip_id == id;
                        assert(seen@.contains(id));
                    }
                    if self.direct_hit(q, id) {
                        assert(seen@.contains(id));
                        let a = choose|a: int| 0 <= a < seen@.len() && seen@[a] == id;
                        assert(results@[a].clip_id == id);
                    }
                }
                assert forall|a: int, b: int| 0 <= a < b < results@.len() implies results@[a].clip_id != results@[b].clip_id by {
                    assert(seen@[a] != seen@[b]);
                }
            }
        }
        proof {
            assert forall|a: int, b: int| 0 <= a < b < results@.len() implies kind_rank(
                (#[trigger] results@[a]).match_type,
            ) <= kind_rank((#[trigger] results@[b]).match_type) by {
                if !self.direct_hit(q, results@[b].clip_id) {
                    assert(self.fits(q, all_clips@, recent_ids@, results@[b]));
                    assert(self.fits(q, all_clips@, recent_ids@, results@[a]));
                }
            }
        }
        let out = sort_by_score(results);
        proof {
            assert forall|a: int, b: int|
                0 <= a < b < out@.len() && out@[a].doubled_score == out@[b].doubled_score implies kind_rank(
                    out@[a].match_type,
                ) <= kind_rank(out@[b].match_type) by {
                let (i, j) = choose|i: int, j: int|
                    0 <= i < j < results@.len() && results@[i] == out@[a] && results@[j] == out@[b];
                assert(kind_rank(results@[i].match_type) <= kind_rank(results@[j].match_type));
            }
        }
        proof {
            assert forall|a: int| 0 <= a < out@.len() implies self.fits(q, all_clips@, recent_ids@, #[trigger] out@[a]) by {
                assert(out@.contains(out@[a]));
                assert(results@.contains(out@[a]));
                let b = choose|b: int| 0 <= b < results@.len() && results@[b] == out@[a];
                assert(self.fits(q, all_clips@, recent_ids@, results@[b]));
            }
            assert forall|id: i64| #[trigger] listed(out@, id) == listed(results@, id) by {
                if listed(out@, id) {
                    let a = choose|a: int| 0 <= a < out@.len() && #[trigger] out@[a].clip_id == id;
                    assert(out@.contains(out@[a]));
                    let b = choose|b: int| 0 <= b < results@.len() && results@[b] == out@[a];
                    assert(results@[b].clip_id == id);
                }
                if listed(results@, id) {
                    let b = choose|b: int| 0 <= b < results@.len() && #[trigger] results@[b].clip_id == id;
                    assert(results@.contains(results@[b]));
                    assert(out@.contains(results@[b]));
                    let a = choose|a: int| 0 <= a < out@.len() && out@[a] == results@[b];
                    assert(out@[a].clip_id == id);
                }
            }
        }
        out
    }
}

} // verus!
