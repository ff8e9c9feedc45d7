//! Huffman coding of clip text, used to compress large clips at rest.
use crate::text::{chars_of, string_from_chars};
use vstd::prelude::*;

verus! {

/// Clips longer than this many bytes are stored compressed.
pub const COMPRESSION_THRESHOLD_BYTES: usize = 512;

/// A node of a Huffman code tree.
#[derive(Debug)]
pub enum HuffmanNode {
    Leaf { symbol: char, freq: usize },
    Internal { freq: usize, left: Box<HuffmanNode>, right: Box<HuffmanNode> },
}

impl HuffmanNode {
    /// The weight recorded at this node.
    pub open spec fn weight(&self) -> usize {
        match self {
            HuffmanNode::Leaf { freq, .. } => *freq,
            HuffmanNode::Internal { freq, .. } => *freq,
        }
    }

    pub fn freq(&self) -> (r: usize)
        ensures
            r == self.weight(),
    {
        match self {
            HuffmanNode::Leaf { freq, .. } => *freq,
            HuffmanNode::Internal { freq, .. } => *freq,
        }
    }
}

/// Why an encoded clip could not be decoded.
#[derive(Debug)]
pub enum HuffmanError {
    EmptyInput,
    Malformed(String),
}

/// A Huffman-compressed clip: the packed code bits (least significant bit
/// first within each byte), how many of them are used, the character
/// frequencies the code tree is rebuilt from, and the length in characters.
pub struct HuffmanEncoded {
    pub bits: Vec<u8>,
    pub bit_length: usize,
    pub freq_table: Vec<(char, usize)>,
    pub original_len: usize,
}

// ---------------------------------------------------------------------
// Character frequency table, sorted by character.
// ---------------------------------------------------------------------
/// First position in `t` whose character is not below `c`.
pub open spec fn char_slot(t: Seq<(char, usize)>, c: char) -> int
    decreases t.len(),
{
    if t.len() == 0 {
        0
    } else if t[0].0 >= c {
        0
    } else {
        1 + char_slot(t.drop_first(), c)
    }
}

/// Count one more occurrence of `c` in a table sorted by character.
pub open spec fn add_char(t: Seq<(char, usize)>, c: char) -> Seq<(char, usize)> {
    let p = char_slot(t, c);
    if p < t.len() && t[p].0 == c {
        t.update(p, (c, (t[p].1 + 1) as usize))
    } else {
        t.insert(p, (c, 1usize))
    }
}

/// The distinct characters of `s` with their number of occurrences,
/// sorted by character.
pub open spec fn char_counts(s: Seq<char>) -> Seq<(char, usize)>
    decreases s.len(),
{
    if s.len() == 0 {
        Seq::empty()
    } else {
        add_char(char_counts(s.drop_last()), s.last())
    }
}

proof fn lemma_char_slot_bound(t: Seq<(char, usize)>, c: char)
    ensures
        0 <= char_slot(t, c) <= t.len(),
        forall|k: int| 0 <= k < char_slot(t, c) ==> t[k].0 < c,
        char_slot(t, c) < t.len() ==> t[char_slot(t, c)].0 >= c,
    decreases t.len(),
{
    if t.len() > 0 && t[0].0 < c {
        lemma_char_slot_bound(t.drop_first(), c);
        assert forall|k: int| 0 <= k < char_slot(t, c) implies t[k].0 < c by {
            if k > 0 {
                assert(t[k] == t.drop_first()[k - 1]);
            }
        }
    }
}

/// Every count in the table of `s` is at most `s.len()`.
proof fn lemma_counts_bounded(s: Seq<char>)
    requires
        s.len() <= usize::MAX,
    ensures
        forall|k: int| 0 <= k < char_counts(s).len() ==> #[trigger] char_counts(s)[k].1 <= s.len(),
        forall|k: int| 0 <= k < char_counts(s).len() ==> #[trigger] char_counts(s)[k].1 >= 1,
    decreases s.len(),
{
    if s.len() > 0 {
        lemma_counts_bounded(s.drop_last());
        lemma_char_slot_bound(char_counts(s.drop_last()), s.last());
    }
}

/// Position of `c` in `t`, scanning from the front.
fn find_char_slot(t: &Vec<(char, usize)>, c: char) -> (p: usize)
    ensures
        p == char_slot(t@, c),
{
    let mut p: usize = 0;
    assert(t@.skip(0) =~= t@);
    while p < t.len() && t[p].0 < c
        invariant
            p <= t.len(),
            char_slot(t@, c) == p + char_slot(t@.skip(p as int), c),
        decreases t.len() - p,
    {
        assert(t@.skip(p as int).drop_first() =~= t@.skip(p + 1));
        p = p + 1;
    }
    assert(char_slot(t@.skip(p as int), c) == 0);
    p
}

/// The character frequency table of `s`, sorted by character.
fn count_chars(s: &Vec<char>) -> (t: Vec<(char, usize)>)
    ensures
        t@ == char_counts(s@),
{
    let mut t: Vec<(char, usize)> = Vec::new();
    let mut i: usize = 0;
    while i < s.len()
        invariant
            i <= s.len(),
            t@ == char_counts(s@.take(i as int)),
        decreases s.len() - i,
    {
        let c = s[i];
        proof {
            assert(s@.take(i + 1).drop_last() =~= s@.take(i as int));
            lemma_counts_bounded(s@.take(i as int));
            lemma_char_slot_bound(t@, c);
        }
        let p = find_char_slot(&t, c);
        if p < t.len() && t[p].0 == c {
            let n = t[p].1;
            assert(n <= i);
            t.set(p, (c, n + 1));
        } else {
            t.insert(p, (c, 1));
        }
        i = i + 1;
    }
    assert(s@.take(s@.len() as int) =~= s@);
    t
}

// ---------------------------------------------------------------------
// Stable insertion sort by (frequency, character).
// ---------------------------------------------------------------------
/// The order the code tree's leaves are queued in: by frequency, then by
/// character.
pub open spec fn leaf_le(a: (char, usize), b: (char, usize)) -> bool {
    a.1 < b.1 || (a.1 == b.1 && a.0 <= b.0)
}

/// First position in `t` holding an entry strictly after `x`.
pub open spec fn freq_slot(t: Seq<(char, usize)>, x: (char, usize)) -> int
    decreases t.len(),
{
    if t.len() == 0 {
        0
    } else if !leaf_le(t[0], x) {
        0
    } else {
        1 + freq_slot(t.drop_first(), x)
    }
}

/// `t` sorted by frequency then character; equal entries keep their order.
pub open spec fn sort_by_freq(t: Seq<(char, usize)>) -> Seq<(char, usize)>
    decreases t.len(),
{
    if t.len() == 0 {
        Seq::empty()
    } else {
        let sorted = sort_by_freq(t.drop_last());
        sorted.insert(freq_slot(sorted, t.last()), t.last())
    }
}

/// Sum of the frequencies of a table.
pub open spec fn freq_total(t: Seq<(char, usize)>) -> int
    decreases t.len(),
{
    if t.len() == 0 {
        0
    } else {
        freq_total(t.drop_last()) + t.last().1
    }
}

proof fn lemma_freq_slot_bound(t: Seq<(char, usize)>, x: (char, usize))
    ensures
        0 <= freq_slot(t, x) <= t.len(),
    decreases t.len(),
{
    if t.len() > 0 && leaf_le(t[0], x) {
        lemma_freq_slot_bound(t.drop_first(), x);
    }
}

proof fn lemma_total_insert(t: Seq<(char, usize)>, p: int, x: (char, usize))
    requires
        0 <= p <= t.len(),
    ensures
        freq_total(t.insert(p, x)) == freq_total(t) + x.1,
    decreases t.len(),
{
    if p == t.len() {
        assert(t.insert(p, x).drop_last() =~= t);
    } else {
        lemma_total_insert(t.drop_last(), p, x);
        assert(t.insert(p, x).drop_last() =~= t.drop_last().insert(p, x));
    }
}

proof fn lemma_total_update(t: Seq<(char, usize)>, p: int, x: (char, usize))
    requires
        0 <= p < t.len(),
    ensures
        freq_total(t.update(p, x)) == freq_total(t) - t[p].1 + x.1,
    decreases t.len(),
{
    if p == t.len() - 1 {
        assert(t.update(p, x).drop_last() =~= t.drop_last());
    } else {
        lemma_total_update(t.drop_last(), p, x);
        assert(t.update(p, x).drop_last() =~= t.drop_last().update(p, x));
    }
}

proof fn lemma_total_nonneg(t: Seq<(char, usize)>)
    ensures
        freq_total(t) >= 0,
        forall|k: int| 0 <= k < t.len() ==> #[trigger] t[k].1 <= freq_total(t),
    decreases t.len(),
{
    if t.len() > 0 {
        lemma_total_nonneg(t.drop_last());
        assert forall|k: int| 0 <= k < t.len() implies #[trigger] t[k].1 <= freq_total(t) by {
            if k < t.len() - 1 {
                assert(t[k] == t.drop_last()[k]);
            }
        }
    }
}

proof fn lemma_sort_total(t: Seq<(char, usize)>)
    ensures
        freq_total(sort_by_freq(t)) == freq_total(t),
        sort_by_freq(t).len() == t.len(),
    decreases t.len(),
{
    if t.len() > 0 {
        lemma_sort_total(t.drop_last());
        let sorted = sort_by_freq(t.drop_last());
        lemma_freq_slot_bound(sorted, t.last());
        lemma_total_insert(sorted, freq_slot(sorted, t.last()), t.last());
    }
}

proof fn lemma_counts_total(s: Seq<char>)
    requires
        s.len() <= usize::MAX,
    ensures
        freq_total(char_counts(s)) == s.len(),
    decreases s.len(),
{
    if s.len() > 0 {
        lemma_counts_total(s.drop_last());
        lemma_counts_bounded(s.drop_last());
        let t = char_counts(s.drop_last());
        let c = s.last();
        lemma_char_slot_bound(t, c);
        let p = char_slot(t, c);
        if p < t.len() && t[p].0 == c {
            lemma_total_update(t, p, (c, (t[p].1 + 1) as usize));
            lemma_total_nonneg(t);
        } else {
            lemma_total_insert(t, p, (c, 1usize));
        }
    }
}

fn find_freq_slot(t: &Vec<(char, usize)>, x: (char, usize)) -> (p: usize)
    ensures
        p == freq_slot(t@, x),
{
    let mut p: usize = 0;
    assert(t@.skip(0) =~= t@);
    while p < t.len() && (t[p].1 < x.1 || (t[p].1 == x.1 && t[p].0 <= x.0))
        invariant
            p <= t.len(),
            freq_slot(t@, x) == p + freq_slot(t@.skip(p as int), x),
        decreases t.len() - p,
    {
        assert(t@.skip(p as int).drop_first() =~= t@.skip(p + 1));
        p = p + 1;
    }
    assert(freq_slot(t@.skip(p as int), x) == 0);
    p
}

/// Sort a frequency table by frequency, then character.
fn sort_leaves(t: &Vec<(char, usize)>) -> (r: Vec<(char, usize)>)
    ensures
        r@ == sort_by_freq(t@),
{
    let mut r: Vec<(char, usize)> = Vec::new();
    let mut i: usize = 0;
    while i < t.len()
        invariant
            i <= t.len(),
            r@ == sort_by_freq(t@.take(i as int)),
        decreases t.len() - i,
    {
        proof {
            assert(t@.take(i + 1).drop_last() =~= t@.take(i as int));
            lemma_freq_slot_bound(r@, t@[i as int]);
        }
        let x = t[i];
        let p = find_freq_slot(&r, x);
        r.insert(p, x);
        i = i + 1;
    }
    assert(t@.take(t@.len() as int) =~= t@);
    r
}

// ---------------------------------------------------------------------
// Building the code tree.
// ---------------------------------------------------------------------
/// A subtree waiting to be merged, ordered by weight and then by the order
/// in which it was queued.
struct QueueEntry {
    freq: usize,
    order: u128,
    node: HuffmanNode,
}

spec fn entry_before(a: QueueEntry, b: QueueEntry) -> bool {
    a.freq < b.freq || (a.freq == b.freq && a.order < b.order)
}

/// Position of the first entry of `q` that no other entry comes before.
spec fn min_index(q: Seq<QueueEntry>) -> int
    decreases q.len(),
{
    if q.len() <= 1 {
        0
    } else {
        let m = min_index(q.drop_last());
        if entry_before(q.last(), q[m]) {
            q.len() - 1
        } else {
            m
        }
    }
}

spec fn queue_total(q: Seq<QueueEntry>) -> int
    decreases q.len(),
{
    if q.len() == 0 {
        0
    } else {
        queue_total(q.drop_last()) + q.last().freq
    }
}

/// The subtree joining `a` (left) and `b` (right), queued as number `order`.
spec fn merged_entry(a: QueueEntry, b: QueueEntry, order: nat) -> QueueEntry {
    QueueEntry {
        freq: (a.freq + b.freq) as usize,
        order: order as u128,
        node: HuffmanNode::Internal {
            freq: (a.freq + b.freq) as usize,
            left: Box::new(a.node),
            right: Box::new(b.node),
        },
    }
}

/// Repeatedly merge the two first-ordered subtrees of `q`, numbering the
/// merged subtrees from `seq` on, until one tree is left.
spec fn merge_queue(q: Seq<QueueEntry>, seq: nat) -> HuffmanNode
    decreases q.len(),
{
    if q.len() <= 1 {
        q[0].node
    } else {
        let i = min_index(q);
        let a = q[i];
        let q1 = q.remove(i);
        proof {
            lemma_min_index_bound(q);
        }
        let j = min_index(q1);
        proof {
            lemma_min_index_bound(q1);
        }
        let b = q1[j];
        let q2 = q1.remove(j);
        merge_queue(q2.push(merged_entry(a, b, seq)), seq + 1)
    }
}

/// The queue entry for leaf `x` queued at position `k`.
spec fn leaf_entry(x: (char, usize), k: int) -> QueueEntry {
    QueueEntry {
        freq: x.1,
        order: k as u128,
        node: HuffmanNode::Leaf { symbol: x.0, freq: x.1 },
    }
}

/// The leaves of a table sorted by frequency, queued in order.
spec fn leaf_queue(sorted: Seq<(char, usize)>) -> Seq<QueueEntry>
    decreases sorted.len(),
{
    if sorted.len() == 0 {
        Seq::empty()
    } else {
        leaf_queue(sorted.drop_last()).push(leaf_entry(sorted.last(), sorted.len() - 1))
    }
}

/// The tree for a single symbol: its leaf on the left and a zero-weight
/// `'\0'` leaf on the right, so that its code is one bit long.
pub open spec fn single_symbol_tree(x: (char, usize)) -> HuffmanNode {
    HuffmanNode::Internal {
        freq: x.1,
        left: Box::new(HuffmanNode::Leaf { symbol: x.0, freq: x.1 }),
        right: Box::new(HuffmanNode::Leaf { symbol: '\0', freq: 0 }),
    }
}

/// The code tree built from a non-empty table sorted by frequency. A
/// single symbol gets an internal root with a zero-weight `'\0'` leaf on
/// the right, so that its code is one bit long.
pub closed spec fn tree_of_sorted(sorted: Seq<(char, usize)>) -> HuffmanNode {
    if sorted.len() == 1 {
        single_symbol_tree(sorted[0])
    } else {
        merge_queue(leaf_queue(sorted), sorted.len())
    }
}

/// The code tree for a character frequency table.
pub open spec fn huffman_tree(table: Seq<(char, usize)>) -> HuffmanNode {
    tree_of_sorted(sort_by_freq(table))
}

proof fn lemma_min_index_bound(q: Seq<QueueEntry>)
    requires
        q.len() >= 1,
    ensures
        0 <= min_index(q) < q.len(),
    decreases q.len(),
{
    if q.len() > 1 {
        lemma_min_index_bound(q.drop_last());
    }
}

proof fn lemma_queue_remove(q: Seq<QueueEntry>, i: int)
    requires
        0 <= i < q.len(),
    ensures
        queue_total(q.remove(i)) == queue_total(q) - q[i].freq,
    decreases q.len(),
{
    if i < q.len() - 1 {
        lemma_queue_remove(q.drop_last(), i);
        assert(q.remove(i).drop_last() =~= q.drop_last().remove(i));
    } else {
        assert(q.remove(i) =~= q.drop_last());
    }
}

proof fn lemma_queue_entry_bound(q: Seq<QueueEntry>, i: int)
    requires
        0 <= i < q.len(),
    ensures
        q[i].freq <= queue_total(q),
        queue_total(q) >= 0,
    decreases q.len(),
{
    lemma_queue_nonneg(q.drop_last());
    if i < q.len() - 1 {
        lemma_queue_entry_bound(q.drop_last(), i);
    }
}

proof fn lemma_queue_nonneg(q: Seq<QueueEntry>)
    ensures
        queue_total(q) >= 0,
    decreases q.len(),
{
    if q.len() > 0 {
        lemma_queue_nonneg(q.drop_last());
    }
}

proof fn lemma_leaf_queue_total(sorted: Seq<(char, usize)>)
    ensures
        queue_total(leaf_queue(sorted)) == freq_total(sorted),
        leaf_queue(sorted).len() == sorted.len(),
    decreases sorted.len(),
{
    if sorted.len() > 0 {
        lemma_leaf_queue_total(sorted.drop_last());
        let e = leaf_entry(sorted.last(), sorted.len() - 1);
        assert(leaf_queue(sorted) == leaf_queue(sorted.drop_last()).push(e));
        assert(leaf_queue(sorted).drop_last() =~= leaf_queue(sorted.drop_last()));
    }
}

/// Position of the first-ordered entry of `q`.
fn queue_min(q: &Vec<QueueEntry>) -> (m: usize)
    requires
        q.len() >= 1,
    ensures
        m == min_index(q@),
        m < q.len(),
{
    let mut best: usize = 0;
    let mut k: usize = 1;
    proof {
        assert(q@.take(1).len() == 1);
    }
    while k < q.len()
        invariant
            1 <= k <= q.len(),
            best < k,
            best == min_index(q@.take(k as int)),
        decreases q.len() - k,
    {
        proof {
            assert(q@.take(k + 1).drop_last() =~= q@.take(k as int));
            assert(q@.take(k + 1)[best as int] == q@[best as int]);
        }
        if q[k].freq < q[best].freq || (q[k].freq == q[best].freq && q[k].order < q[best].order) {
            best = k;
        }
        k = k + 1;
    }
    assert(q@.take(q@.len() as int) =~= q@);
    best
}

/// Merge queued subtrees until one is left.
fn merge_all(q: Vec<QueueEntry>, seq: u128) -> (r: HuffmanNode)
    requires
        q.len() >= 1,
        queue_total(q@) <= usize::MAX,
        seq + q.len() <= u128::MAX,
    ensures
        r == merge_queue(q@, seq as nat),
{
    let mut q = q;
    let mut seq = seq;
    let ghost target = merge_queue(q@, seq as nat);
    while q.len() > 1
        invariant
            q.len() >= 1,
            queue_total(q@) <= usize::MAX,
            seq + q.len() <= u128::MAX,
            merge_queue(q@, seq as nat) == target,
        decreases q.len(),
    {
        let ghost q0 = q@;
        let i = queue_min(&q);
        let a = q.remove(i);
        let ghost q1 = q@;
        proof {
            lemma_queue_remove(q0, i as int);
            lemma_queue_entry_bound(q0, i as int);
            lemma_min_index_bound(q0);
        }
        let j = queue_min(&q);
        let b = q.remove(j);
        let ghost q2 = q@;
        proof {
            lemma_queue_remove(q1, j as int);
            lemma_queue_entry_bound(q1, j as int);
            lemma_queue_nonneg(q2);
        }
        let merged_freq = a.freq + b.freq;
        let node = HuffmanNode::Internal {
            freq: merged_freq,
            left: Box::new(a.node),
            right: Box::new(b.node),
        };
        q.push(QueueEntry { freq: merged_freq, order: seq, node });
        proof {
            assert(q@.drop_last() =~= q2);
        }
        seq = seq + 1;
    }
    let last = q.pop().unwrap();
    last.node
}

fn leaves_to_queue(sorted: &Vec<(char, usize)>) -> (q: Vec<QueueEntry>)
    ensures
        q@ == leaf_queue(sorted@),
{
    let mut q: Vec<QueueEntry> = Vec::new();
    let mut k: usize = 0;
    while k < sorted.len()
        invariant
            k <= sorted.len(),
            q@ == leaf_queue(sorted@.take(k as int)),
        decreases sorted.len() - k,
    {
        let x = sorted[k];
        proof {
            assert(sorted@.take(k + 1).drop_last() =~= sorted@.take(k as int));
        }
        let entry = QueueEntry {
            freq: x.1,
            order: k as u128,
            node: HuffmanNode::Leaf { symbol: x.0, freq: x.1 },
        };
        assert(entry == leaf_entry(sorted@.take(k + 1).last(), k as int));
        q.push(entry);
        k = k + 1;
    }
    assert(sorted@.take(sorted@.len() as int) =~= sorted@);
    q
}

/// The code tree for a non-empty table sorted by frequency.
fn tree_from_sorted(sorted: &Vec<(char, usize)>) -> (r: HuffmanNode)
    requires
        sorted.len() >= 1,
        freq_total(sorted@) <= usize::MAX,
    ensures
        r == tree_of_sorted(sorted@),
{
    if sorted.len() == 1 {
        let x = sorted[0];
        let r = HuffmanNode::Internal {
            freq: x.1,
            left: Box::new(HuffmanNode::Leaf { symbol: x.0, freq: x.1 }),
            right: Box::new(HuffmanNode::Leaf { symbol: '\0', freq: 0 }),
        };
        assert(r == single_symbol_tree(sorted@[0]));
        r
    } else {
        let q = leaves_to_queue(sorted);
        proof {
            lemma_leaf_queue_total(sorted@);
        }
        merge_all(q, sorted.len() as u128)
    }
}

/// Build the Huffman code tree for `text`, or `None` when it is empty.
pub fn build_tree(text: &str) -> (r: Option<HuffmanNode>)
    ensures
        text@.len() == 0 ==> r is None,
        text@.len() > 0 ==> r == Some(huffman_tree(char_counts(text@))),
{
    let chars = chars_of(text);
    if chars.len() == 0 {
        return None;
    }
    let table = count_chars(&chars);
    let sorted = sort_leaves(&table);
    proof {
        lemma_counts_total(chars@);
        lemma_sort_total(table@);
    }
    Some(tree_from_sorted(&sorted))
}

// ---------------------------------------------------------------------
// Code table.
// ---------------------------------------------------------------------
/// The (symbol, code) pairs of the leaves under `node`, left to right,
/// where `path` is the code of `node` itself.
pub open spec fn code_entries(node: HuffmanNode, path: Seq<bool>) -> Seq<(char, Seq<bool>)>
    decreases node,
{
    match node {
        HuffmanNode::Leaf { symbol, .. } => seq![(symbol, path)],
        HuffmanNode::Internal { left, right, .. } => code_entries(*left, path.push(false))
            + code_entries(*right, path.push(true)),
    }
}

/// The code a table gives `c`: that of its last entry for `c`, as a map
/// keeps the last value inserted under a key.
pub open spec fn code_for(entries: Seq<(char, Seq<bool>)>, c: char) -> Option<Seq<bool>>
    decreases entries.len(),
{
    if entries.len() == 0 {
        None
    } else if entries.last().0 == c {
        Some(entries.last().1)
    } else {
        code_for(entries.drop_last(), c)
    }
}

/// The per-symbol codes of a code tree.
pub struct CodeTable {
    entries: Vec<(char, Vec<bool>)>,
}

/// The entries of a code table as plain sequences.
pub open spec fn entries_view(v: Seq<(char, Vec<bool>)>) -> Seq<(char, Seq<bool>)> {
    v.map_values(|e: (char, Vec<bool>)| (e.0, e.1@))
}

impl View for CodeTable {
    type V = Seq<(char, Seq<bool>)>;

    closed spec fn view(&self) -> Seq<(char, Seq<bool>)> {
        entries_view(self.entries@)
    }
}

impl CodeTable {
    /// The code of `c`, if the tree has a leaf for it.
    pub fn get(&self, c: &char) -> (r: Option<&Vec<bool>>)
        ensures
            match code_for(self@, *c) {
                None => r is None,
                Some(code) => r is Some && r->0@ == code,
            },
    {
        let mut k = self.entries.len();
        assert(self@.take(k as int) =~= self@);
        while k > 0
            invariant
                k <= self.entries.len(),
                code_for(self@, *c) == code_for(self@.take(k as int), *c),
            decreases k,
        {
            if self.entries[k - 1].0 == *c {
                return Some(&self.entries[k - 1].1);
            }
            proof {
                assert(self@.take(k as int).drop_last() =~= self@.take(k - 1));
            }
            k = k - 1;
        }
        None
    }

    /// Number of entries.
    pub fn len(&self) -> (r: usize)
        ensures
            r == self@.len(),
    {
        self.entries.len()
    }
}

fn copy_bits(v: &Vec<bool>) -> (r: Vec<bool>)
    ensures
        r@ == v@,
{
    let mut r: Vec<bool> = Vec::new();
    let mut i: usize = 0;
    while i < v.len()
        invariant
            i <= v.len(),
            r@ == v@.take(i as int),
        decreases v.len() - i,
    {
        r.push(v[i]);
        proof {
            assert(v@.take(i + 1) =~= v@.take(i as int).push(v@[i as int]));
        }
        i = i + 1;
    }
    assert(v@.take(v@.len() as int) =~= v@);
    r
}

fn walk(node: &HuffmanNode, path: &mut Vec<bool>, out: &mut Vec<(char, Vec<bool>)>)
    ensures
        final(path)@ == old(path)@,
        entries_view(final(out)@) == entries_view(old(out)@) + code_entries(*node, old(path)@),
    decreases node,
{
    match node {
        HuffmanNode::Leaf { symbol, .. } => {
            let code = copy_bits(path);
            out.push((*symbol, code));
            assert(entries_view(out@) =~= entries_view(old(out)@) + code_entries(*node, path@));
        },
        HuffmanNode::Internal { left, right, .. } => {
            let ghost p0 = path@;
            let ghost o0 = entries_view(out@);
            path.push(false);
            walk(left, path, out);
            let ghost o1 = entries_view(out@);
            path.pop();
            assert(path@ =~= p0);
            path.push(true);
            walk(right, path, out);
            path.pop();
            assert(path@ =~= p0);
            assert(entries_view(out@) =~= o0 + code_entries(*node, p0));
        },
    }
}

/// The codes of all leaves of `root`: for each symbol the path of bits
/// (`false` = left) from the root to its leaf.
pub fn build_codes(root: &HuffmanNode) -> (codes: CodeTable)
    ensures
        codes@ == code_entries(*root, Seq::empty()),
{
    let mut entries: Vec<(char, Vec<bool>)> = Vec::new();
    let mut path: Vec<bool> = Vec::new();
    walk(root, &mut path, &mut entries);
    let codes = CodeTable { entries };
    assert(codes@ =~= code_entries(*root, Seq::empty()));
    codes
}

// ---------------------------------------------------------------------
// Every symbol of a text gets a code.
// ---------------------------------------------------------------------
/// The symbols at the leaves under `node`.
pub open spec fn leaf_symbols(node: HuffmanNode) -> Set<char>
    decreases node,
{
    match node {
        HuffmanNode::Leaf { symbol, .. } => set![symbol],
        HuffmanNode::Internal { left, right, .. } => leaf_symbols(*left) + leaf_symbols(*right),
    }
}

/// The symbols listed in a frequency table.
pub open spec fn table_symbols(t: Seq<(char, usize)>) -> Set<char>
    decreases t.len(),
{
    if t.len() == 0 {
        Set::empty()
    } else {
        table_symbols(t.drop_last()).insert(t.last().0)
    }
}

/// The characters occurring in `s`.
pub open spec fn text_symbols(s: Seq<char>) -> Set<char>
    decreases s.len(),
{
    if s.len() == 0 {
        Set::empty()
    } else {
        text_symbols(s.drop_last()).insert(s.last())
    }
}

spec fn queue_symbols(q: Seq<QueueEntry>) -> Set<char>
    decreases q.len(),
{
    if q.len() == 0 {
        Set::empty()
    } else {
        queue_symbols(q.drop_last()) + leaf_symbols(q.last().node)
    }
}

proof fn lemma_code_for_concat(a: Seq<(char, Seq<bool>)>, b: Seq<(char, Seq<bool>)>, c: char)
    ensures
        code_for(a + b, c) == (if code_for(b, c) is Some {
            code_for(b, c)
        } else {
            code_for(a, c)
        }),
    decreases b.len(),
{
    if b.len() == 0 {
        assert(a + b =~= a);
    } else {
        assert((a + b).drop_last() =~= a + b.drop_last());
        lemma_code_for_concat(a, b.drop_last(), c);
    }
}

proof fn lemma_codes_cover(node: HuffmanNode, path: Seq<bool>, c: char)
    ensures
        code_for(code_entries(node, path), c) is Some <==> leaf_symbols(node).contains(c),
    decreases node,
{
    match node {
        HuffmanNode::Leaf { symbol, .. } => {
            let ce = code_entries(node, path);
            assert(ce == seq![(symbol, path)]);
            assert(ce.len() == 1);
            assert(ce.last() == (symbol, path));
            assert(ce.drop_last() =~= Seq::<(char, Seq<bool>)>::empty());
            assert(leaf_symbols(node) == set![symbol]);
            if symbol == c {
                assert(code_for(ce, c) == Some(path));
            } else {
                assert(code_for(ce, c) == code_for(ce.drop_last(), c));
                assert(!leaf_symbols(node).contains(c));
            }
        },
        HuffmanNode::Internal { left, right, .. } => {
            lemma_codes_cover(*left, path.push(false), c);
            lemma_codes_cover(*right, path.push(true), c);
            lemma_code_for_concat(
                code_entries(*left, path.push(false)),
                code_entries(*right, path.push(true)),
                c,
            );
        },
    }
}

proof fn lemma_queue_symbols_remove(q: Seq<QueueEntry>, i: int)
    requires
        0 <= i < q.len(),
    ensures
        queue_symbols(q) == queue_symbols(q.remove(i)) + leaf_symbols(q[i].node),
    decreases q.len(),
{
    if i == q.len() - 1 {
        assert(q.remove(i) =~= q.drop_last());
    } else {
        lemma_queue_symbols_remove(q.drop_last(), i);
        assert(q.remove(i).drop_last() =~= q.drop_last().remove(i));
        assert(queue_symbols(q) =~= queue_symbols(q.remove(i)) + leaf_symbols(q[i].node));
    }
}

proof fn lemma_merge_symbols(q: Seq<QueueEntry>, seq: nat)
    requires
        q.len() >= 1,
    ensures
        leaf_symbols(merge_queue(q, seq)) == queue_symbols(q),
    decreases q.len(),
{
    if q.len() == 1 {
        assert(q.drop_last() =~= Seq::<QueueEntry>::empty());
        assert(queue_symbols(q.drop_last()) =~= Set::<char>::empty());
        assert(q.last() == q[0]);
        assert(queue_symbols(q) =~= leaf_symbols(q[0].node));
    } else {
        let i = min_index(q);
        lemma_min_index_bound(q);
        let a = q[i];
        let q1 = q.remove(i);
        let j = min_index(q1);
        lemma_min_index_bound(q1);
        let b = q1[j];
        let q2 = q1.remove(j);
        let e = merged_entry(a, b, seq);
        lemma_queue_symbols_remove(q, i);
        lemma_queue_symbols_remove(q1, j);
        assert(q2.push(e).drop_last() =~= q2);
        lemma_merge_symbols(q2.push(e), seq + 1);
        assert(queue_symbols(q2.push(e)) =~= queue_symbols(q));
    }
}

proof fn lemma_leaf_queue_symbols(sorted: Seq<(char, usize)>)
    ensures
        queue_symbols(leaf_queue(sorted)) == table_symbols(sorted),
    decreases sorted.len(),
{
    if sorted.len() > 0 {
        lemma_leaf_queue_symbols(sorted.drop_last());
        let e = leaf_entry(sorted.last(), sorted.len() - 1);
        assert(leaf_queue(sorted) == leaf_queue(sorted.drop_last()).push(e));
        assert(leaf_queue(sorted).drop_last() =~= leaf_queue(sorted.drop_last()));
        assert(queue_symbols(leaf_queue(sorted)) =~= table_symbols(sorted));
    }
}

proof fn lemma_table_symbols_insert(t: Seq<(char, usize)>, p: int, x: (char, usize))
    requires
        0 <= p <= t.len(),
    ensures
        table_symbols(t.insert(p, x)) == table_symbols(t).insert(x.0),
    decreases t.len(),
{
    if p == t.len() {
        assert(t.insert(p, x).drop_last() =~= t);
    } else {
        lemma_table_symbols_insert(t.drop_last(), p, x);
        assert(t.insert(p, x).drop_last() =~= t.drop_last().insert(p, x));
        assert(table_symbols(t.insert(p, x)) =~= table_symbols(t).insert(x.0));
    }
}

proof fn lemma_table_symbols_update(t: Seq<(char, usize)>, p: int, f: usize)
    requires
        0 <= p < t.len(),
    ensures
        table_symbols(t.update(p, (t[p].0, f))) == table_symbols(t),
    decreases t.len(),
{
    if p == t.len() - 1 {
        assert(t.update(p, (t[p].0, f)).drop_last() =~= t.drop_last());
    } else {
        lemma_table_symbols_update(t.drop_last(), p, f);
        assert(t.update(p, (t[p].0, f)).drop_last() =~= t.drop_last().update(p, (t[p].0, f)));
    }
}

proof fn lemma_sort_symbols(t: Seq<(char, usize)>)
    ensures
        table_symbols(sort_by_freq(t)) == table_symbols(t),
    decreases t.len(),
{
    if t.len() > 0 {
        lemma_sort_symbols(t.drop_last());
        let sorted = sort_by_freq(t.drop_last());
        lemma_freq_slot_bound(sorted, t.last());
        lemma_table_symbols_insert(sorted, freq_slot(sorted, t.last()), t.last());
    }
}

proof fn lemma_counts_symbols(s: Seq<char>)
    ensures
        table_symbols(char_counts(s)) == text_symbols(s),
    decreases s.len(),
{
    if s.len() > 0 {
        lemma_counts_symbols(s.drop_last());
        let t = char_counts(s.drop_last());
        let c = s.last();
        lemma_char_slot_bound(t, c);
        let p = char_slot(t, c);
        if p < t.len() && t[p].0 == c {
            lemma_table_symbols_update(t, p, (t[p].1 + 1) as usize);
            assert(table_symbols(t).contains(c)) by {
                lemma_table_has(t, p);
            }
            assert(table_symbols(char_counts(s)) =~= text_symbols(s));
        } else {
            lemma_table_symbols_insert(t, p, (c, 1usize));
        }
    }
}

proof fn lemma_table_has(t: Seq<(char, usize)>, p: int)
    requires
        0 <= p < t.len(),
    ensures
        table_symbols(t).contains(t[p].0),
    decreases t.len(),
{
    if p < t.len() - 1 {
        lemma_table_has(t.drop_last(), p);
    }
}

proof fn lemma_text_has(s: Seq<char>, i: int)
    requires
        0 <= i < s.len(),
    ensures
        text_symbols(s).contains(s[i]),
    decreases s.len(),
{
    if i < s.len() - 1 {
        lemma_text_has(s.drop_last(), i);
    }
}

proof fn lemma_tree_symbols(sorted: Seq<(char, usize)>)
    requires
        sorted.len() >= 1,
    ensures
        table_symbols(sorted).subset_of(leaf_symbols(tree_of_sorted(sorted))),
{
    if sorted.len() == 1 {
        assert(sorted.drop_last() =~= Seq::<(char, usize)>::empty());
        assert(table_symbols(sorted.drop_last()) =~= Set::<char>::empty());
        let t = single_symbol_tree(sorted[0]);
        assert(tree_of_sorted(sorted) == t);
        match t {
            HuffmanNode::Internal { left, right, .. } => {
                assert(leaf_symbols(*left) == set![sorted[0].0]);
            },
            _ => {},
        }
        assert(table_symbols(sorted) =~= set![sorted[0].0]);
    } else {
        lemma_leaf_queue_symbols(sorted);
        lemma_leaf_queue_total(sorted);
        lemma_merge_symbols(leaf_queue(sorted), sorted.len());
    }
}

/// Every character of a non-empty text has a code in the text's tree.
proof fn lemma_text_coded(s: Seq<char>, i: int)
    requires
        0 <= i < s.len(),
    ensures
        code_for(code_entries(huffman_tree(char_counts(s)), Seq::empty()), s[i]) is Some,
{
    lemma_text_has(s, i);
    lemma_counts_symbols(s);
    lemma_sort_symbols(char_counts(s));
    lemma_sort_total(char_counts(s));
    assert(char_counts(s).len() >= 1) by {
        if char_counts(s).len() == 0 {
            assert(table_symbols(char_counts(s)) =~= Set::<char>::empty());
        }
    }
    lemma_tree_symbols(sort_by_freq(char_counts(s)));
    lemma_codes_cover(huffman_tree(char_counts(s)), Seq::empty(), s[i]);
}

// ---------------------------------------------------------------------
// Bit packing.
// ---------------------------------------------------------------------
/// `bits` packed into bytes, bit `k` at position `k % 8` (least
/// significant first) of byte `k / 8`; unused high bits are zero.
pub open spec fn pack_bits(bits: Seq<bool>) -> Seq<u8>
    decreases bits.len(),
{
    if bits.len() == 0 {
        Seq::empty()
    } else {
        let prev = pack_bits(bits.drop_last());
        let k = bits.len() - 1;
        let grown = if k % 8 == 0 {
            prev.push(0u8)
        } else {
            prev
        };
        if bits.last() {
            grown.update(k / 8, grown[k / 8] | (1u8 << ((k % 8) as u8)))
        } else {
            grown
        }
    }
}

/// Bit `k` of a packed byte sequence, if the bytes reach that far.
pub open spec fn bit_of(bytes: Seq<u8>, k: int) -> Option<bool> {
    if 0 <= k && k / 8 < bytes.len() {
        Some((bytes[k / 8] >> ((k % 8) as u8)) & 1u8 == 1u8)
    } else {
        None
    }
}

proof fn lemma_set_bit(x: u8, i: u8, j: u8)
    requires
        i < 8,
        j < 8,
    ensures
        ((x | (1u8 << i)) >> j) & 1u8 == (if i == j {
            1u8
        } else {
            (x >> j) & 1u8
        }),
{
    assert(((x | (1u8 << i)) >> j) & 1u8 == (if i == j {
        1u8
    } else {
        (x >> j) & 1u8
    })) by (bit_vector)
        requires
            i < 8,
            j < 8,
    ;
}

proof fn lemma_zero_bit(j: u8)
    requires
        j < 8,
    ensures
        (0u8 >> j) & 1u8 == 0u8,
{
    assert((0u8 >> j) & 1u8 == 0u8) by (bit_vector);
}

/// Packing takes one byte per eight bits, rounding up; reading the packed
/// bytes gives back the bits and, beyond them, zeros.
pub proof fn lemma_pack_bits(bits: Seq<bool>)
    ensures
        pack_bits(bits).len() == (bits.len() + 7) / 8,
        forall|k: int|
            0 <= k < 8 * pack_bits(bits).len() ==> #[trigger] bit_of(pack_bits(bits), k) == Some(
                k < bits.len() && bits[k],
            ),
    decreases bits.len(),
{
    if bits.len() > 0 {
        let prev_bits = bits.drop_last();
        lemma_pack_bits(prev_bits);
        let prev = pack_bits(prev_bits);
        let k = bits.len() - 1;
        let grown = if k % 8 == 0 {
            prev.push(0u8)
        } else {
            prev
        };
        assert forall|m: int| 0 <= m < 8 * grown.len() implies #[trigger] bit_of(grown, m) == Some(
            m < prev_bits.len() && prev_bits[m],
        ) by {
            if m / 8 < prev.len() {
                assert(grown[m / 8] == prev[m / 8]);
                assert(bit_of(prev, m) == Some(m < prev_bits.len() && prev_bits[m]));
            } else {
                assert(grown[m / 8] == 0u8);
                lemma_zero_bit((m % 8) as u8);
            }
        }
        let packed = pack_bits(bits);
        assert forall|m: int| 0 <= m < 8 * packed.len() implies #[trigger] bit_of(packed, m) == Some(
            m < bits.len() && bits[m],
        ) by {
            assert(bit_of(grown, m) == Some(m < prev_bits.len() && prev_bits[m]));
            if bits.last() {
                lemma_set_bit(grown[k / 8], (k % 8) as u8, (m % 8) as u8);
                if m / 8 == k / 8 {
                    if m != k {
                        assert(m % 8 != k % 8);
                    }
                } else {
                    assert(packed[m / 8] == grown[m / 8]);
                }
            }
            if m < prev_bits.len() {
                assert(bits[m] == prev_bits[m]);
            }
        }
    }
}

// ---------------------------------------------------------------------
// Encoding.
// ---------------------------------------------------------------------
/// The codes used for a text: those of its own code tree.
pub open spec fn text_codes(s: Seq<char>) -> Seq<(char, Seq<bool>)> {
    code_entries(huffman_tree(char_counts(s)), Seq::empty())
}

/// The code bits of the characters of `s`, one code after another.
pub open spec fn bits_for(codes: Seq<(char, Seq<bool>)>, s: Seq<char>) -> Seq<bool>
    decreases s.len(),
{
    if s.len() == 0 {
        Seq::empty()
    } else {
        bits_for(codes, s.drop_last()) + match code_for(codes, s.last()) {
            Some(code) => code,
            None => Seq::empty(),
        }
    }
}

/// The code bits the encoding of `s` consists of.
pub open spec fn encoded_bits(s: Seq<char>) -> Seq<bool> {
    bits_for(text_codes(s), s)
}

/// `e` is the encoding of the non-empty text `s`.
pub open spec fn encodes(e: HuffmanEncoded, s: Seq<char>) -> bool {
    &&& e.bits@ == pack_bits(encoded_bits(s))
    &&& e.bit_length == encoded_bits(s).len()
    &&& e.freq_table@ == char_counts(s)
    &&& e.original_len == s.len()
}

/// Huffman-encode `text`. `None` for empty text, and when the code bits
/// would outnumber `usize::MAX`.
pub fn encode(text: &str) -> (r: Option<HuffmanEncoded>)
    ensures
        text@.len() == 0 ==> r is None,
        text@.len() > 0 && encoded_bits(text@).len() > usize::MAX ==> r is None,
        text@.len() > 0 && encoded_bits(text@).len() <= usize::MAX ==> r is Some && encodes(
            r->0,
            text@,
        ),
{
    let chars = chars_of(text);
    if chars.len() == 0 {
        return None;
    }
    let tree = match build_tree(text) {
        Some(t) => t,
        None => {
            return None;
        },
    };
    let codes = build_codes(&tree);
    let freq_table = count_chars(&chars);
    let ghost s = text@;
    let ghost all_codes = codes@;
    let mut bits: Vec<u8> = Vec::new();
    let mut bit_len: usize = 0;
    let mut i: usize = 0;
    while i < chars.len()
        invariant
            chars@ == s,
            s == text@,
            codes@ == all_codes,
            all_codes == text_codes(s),
            i <= chars.len(),
            bit_len == bits_for(all_codes, s.take(i as int)).len(),
            bits@ == pack_bits(bits_for(all_codes, s.take(i as int))),
        decreases chars.len() - i,
    {
        let c = chars[i];
        proof {
            lemma_text_coded(s, i as int);
            assert(s.take(i + 1).drop_last() =~= s.take(i as int));
        }
        let code = match codes.get(&c) {
            Some(code) => code,
            None => {
                return None;
            },
        };
        let ghost done = bits_for(all_codes, s.take(i as int));
        proof {
            assert(s.take(i + 1).last() == c);
            assert(bits_for(all_codes, s.take(i + 1)) =~= done + code@);
        }
        let mut j: usize = 0;
        while j < code.len()
            invariant
                j <= code.len(),
                i < s.len(),
                s == text@,
                all_codes == text_codes(s),
                bits_for(all_codes, s.take(i + 1)) == done + code@,
                bit_len == done.len() + j,
                bits@ == pack_bits(done + code@.take(j as int)),
            decreases code.len() - j,
        {
            let ghost before = done + code@.take(j as int);
            proof {
                lemma_pack_bits(before);
            }
            let byte_idx = bit_len / 8;
            if byte_idx >= bits.len() {
                bits.push(0u8);
            }
            if code[j] {
                let b = bits[byte_idx];
                bits.set(byte_idx, b | (1u8 << ((bit_len % 8) as u8)));
            }
            proof {
                let after = done + code@.take(j + 1);
                assert(after.drop_last() =~= before);
                assert(after.last() == code@[j as int]);
            }
            bit_len = match bit_len.checked_add(1) {
                Some(n) => n,
                None => {
                    proof {
                        lemma_bits_grow(all_codes, s, i + 1);
                    }
                    return None;
                },
            };
            j = j + 1;
        }
        proof {
            assert(code@.take(code@.len() as int) =~= code@);
            assert(bits_for(all_codes, s.take(i + 1)) =~= done + code@);
        }
        i = i + 1;
    }
    proof {
        assert(s.take(s.len() as int) =~= s);
    }
    Some(HuffmanEncoded { bits, bit_length: bit_len, freq_table, original_len: chars.len() })
}

/// The code bits of a prefix are a prefix of the code bits.
proof fn lemma_bits_grow(codes: Seq<(char, Seq<bool>)>, s: Seq<char>, i: int)
    requires
        0 <= i <= s.len(),
    ensures
        bits_for(codes, s.take(i)).len() <= bits_for(codes, s).len(),
    decreases s.len() - i,
{
    if i < s.len() {
        lemma_bits_grow(codes, s, i + 1);
        assert(s.take(i + 1).drop_last() =~= s.take(i));
    } else {
        assert(s.take(i) =~= s);
    }
}

/// The compressed form a clip is stored in, if any: clips of at most
/// `COMPRESSION_THRESHOLD_BYTES` bytes, and those `encode` declines, are
/// stored as they are.
pub fn compress_for_storage(text: &str) -> (r: Option<HuffmanEncoded>)
    ensures
        text.len() <= COMPRESSION_THRESHOLD_BYTES ==> r is None,
        text.len() > COMPRESSION_THRESHOLD_BYTES ==> {
            &&& text@.len() > 0 && encoded_bits(text@).len() <= usize::MAX ==> r is Some && encodes(
                r->0,
                text@,
            )
            &&& !(text@.len() > 0 && encoded_bits(text@).len() <= usize::MAX) ==> r is None
        },
{
    if text.len() <= COMPRESSION_THRESHOLD_BYTES {
        return None;
    }
    encode(text)
}

// ---------------------------------------------------------------------
// Decoding.
// ---------------------------------------------------------------------
/// Why the bits of an encoding do not decode.
pub enum DecodeFault {
    EmptyTable,
    MissingBits,
    UnexpectedLeaf,
    LengthMismatch,
}

/// The message a decoding fault is reported with.
pub open spec fn fault_message(f: DecodeFault) -> Seq<char> {
    match f {
        DecodeFault::EmptyTable => "empty freq table"@,
        DecodeFault::MissingBits => "bits shorter than bit_length"@,
        DecodeFault::UnexpectedLeaf => "unexpected leaf during walk"@,
        DecodeFault::LengthMismatch => "decoded length does not match original"@,
    }
}

pub open spec fn finish_decode(out: Seq<char>, original_len: nat) -> Result<Seq<char>, DecodeFault> {
    if out.len() == original_len {
        Ok(out)
    } else {
        Err(DecodeFault::LengthMismatch)
    }
}

/// Walk the code tree along the bits from position `pos`, standing at
/// `node` with `out` decoded so far: each leaf reached emits its symbol and
/// restarts at the root, and decoding stops as soon as `original_len`
/// symbols are out.
pub open spec fn decode_walk(
    root: HuffmanNode,
    bytes: Seq<u8>,
    bit_length: nat,
    original_len: nat,
    pos: nat,
    node: HuffmanNode,
    out: Seq<char>,
) -> Result<Seq<char>, DecodeFault>
    decreases bit_length - pos,
{
    if pos >= bit_length {
        finish_decode(out, original_len)
    } else {
        match bit_of(bytes, pos as int) {
            None => Err(DecodeFault::MissingBits),
            Some(bit) => match node {
                HuffmanNode::Leaf { .. } => Err(DecodeFault::UnexpectedLeaf),
                HuffmanNode::Internal { left, right, .. } => {
                    let child = if bit {
                        *right
                    } else {
                        *left
                    };
                    match child {
                        HuffmanNode::Leaf { symbol, .. } => {
                            let next = out.push(symbol);
                            if next.len() == original_len {
                                finish_decode(next, original_len)
                            } else {
                                decode_walk(
                                    root,
                                    bytes,
                                    bit_length,
                                    original_len,
                                    pos + 1,
                                    root,
                                    next,
                                )
                            }
                        },
                        HuffmanNode::Internal { .. } => decode_walk(
                            root,
                            bytes,
                            bit_length,
                            original_len,
                            pos + 1,
                            child,
                            out,
                        ),
                    }
                },
            },
        }
    }
}

/// What decoding `e` yields: the walk over its bits of the tree rebuilt
/// from its frequency table.
pub open spec fn decode_result(e: HuffmanEncoded) -> Result<Seq<char>, DecodeFault> {
    if e.freq_table@.len() == 0 {
        Err(DecodeFault::EmptyTable)
    } else {
        let root = huffman_tree(e.freq_table@);
        decode_walk(root, e.bits@, e.bit_length as nat, e.original_len as nat, 0, root, Seq::empty())
    }
}


fn malformed(f: DecodeFault) -> (e: HuffmanError)
    ensures
        e matches HuffmanError::Malformed(m) && m@ == fault_message(f),
{
    let m = match f {
        DecodeFault::EmptyTable => "empty freq table",
        DecodeFault::MissingBits => "bits shorter than bit_length",
        DecodeFault::UnexpectedLeaf => "unexpected leaf during walk",
        DecodeFault::LengthMismatch => "decoded length does not match original",
    };
    HuffmanError::Malformed(m.to_string())
}

/// The table's frequencies add up to at most `usize::MAX`, so the code
/// tree's weights fit.
pub open spec fn decodable(e: HuffmanEncoded) -> bool {
    freq_total(e.freq_table@) <= usize::MAX
}

/// Whether the frequencies of `encoded` add up within `usize`, as `decode`
/// requires.
pub fn is_decodable(encoded: &HuffmanEncoded) -> (b: bool)
    ensures
        b == decodable(*encoded),
{
    let t = &encoded.freq_table;
    let mut total: usize = 0;
    let mut i: usize = 0;
    while i < t.len()
        invariant
            i <= t@.len(),
            t@ == encoded.freq_table@,
            total == freq_total(t@.take(i as int)),
        decreases t@.len() - i,
    {
        assert(t@.take(i + 1).drop_last() =~= t@.take(i as int));
        match total.checked_add(t[i].1) {
            Some(x) => {
                total = x;
            },
            None => {
                proof {
                    lemma_freq_total_prefix(t@, i + 1);
                    assert(t@.take(i + 1).last() == t@[i as int]);
                    assert(freq_total(t@.take(i + 1)) == total + t@[i as int].1);
                }
                return false;
            },
        }
        i = i + 1;
    }
    assert(t@.take(t@.len() as int) =~= t@);
    true
}

/// A table's total is at least the total of any of its prefixes.
proof fn lemma_freq_total_prefix(t: Seq<(char, usize)>, k: int)
    requires
        0 <= k <= t.len(),
    ensures
        freq_total(t.take(k)) <= freq_total(t),
    decreases t.len() - k,
{
    if k < t.len() {
        lemma_freq_total_prefix(t, k + 1);
        assert(t.take(k + 1).drop_last() =~= t.take(k));
    } else {
        assert(t.take(k) =~= t);
    }
}

/// Decode a Huffman-encoded clip.
pub fn decode(encoded: &HuffmanEncoded) -> (r: Result<String, HuffmanError>)
    requires
        decodable(*encoded),
    ensures
        match decode_result(*encoded) {
            Ok(s) => r is Ok && r->Ok_0@ == s,
            Err(f) => r matches Err(HuffmanError::Malformed(m)) && m@ == fault_message(f),
        },
{
    if encoded.freq_table.len() == 0 {
        return Err(malformed(DecodeFault::EmptyTable));
    }
    let sorted = sort_leaves(&encoded.freq_table);
    proof {
        lemma_sort_total(encoded.freq_table@);
    }
    let root = tree_from_sorted(&sorted);
    let ghost bytes = encoded.bits@;
    let ghost bl = encoded.bit_length as nat;
    let ghost ol = encoded.original_len as nat;
    let ghost target = decode_result(*encoded);
    let mut out: Vec<char> = Vec::new();
    let mut node: &HuffmanNode = &root;
    let mut pos: usize = 0;
    while pos < encoded.bit_length
        invariant
            pos <= encoded.bit_length,
            bytes == encoded.bits@,
            bl == encoded.bit_length,
            ol == encoded.original_len,
            root == huffman_tree(encoded.freq_table@),
            encoded.freq_table@.len() > 0,
            target == decode_result(*encoded),
            decode_walk(root, bytes, bl, ol, pos as nat, *node, out@) == target,
        decreases encoded.bit_length - pos,
    {
        let byte_idx = pos / 8;
        let bit_idx = pos % 8;
        if byte_idx >= encoded.bits.len() {
            return Err(malformed(DecodeFault::MissingBits));
        }
        let byte = encoded.bits[byte_idx];
        let bit = (byte >> (bit_idx as u8)) & 1u8 == 1u8;
        let child: &HuffmanNode = match node {
            HuffmanNode::Internal { left, right, .. } => {
                if bit {
                    &**right
                } else {
                    &**left
                }
            },
            HuffmanNode::Leaf { .. } => {
                return Err(malformed(DecodeFault::UnexpectedLeaf));
            },
        };
        match child {
            HuffmanNode::Leaf { symbol, .. } => {
                out.push(*symbol);
                if out.len() == encoded.original_len {
                    return Ok(string_from_chars(&out));
                }
                node = &root;
            },
            HuffmanNode::Internal { .. } => {
                node = child;
            },
        }
        pos = pos + 1;
    }
    if out.len() != encoded.original_len {
        return Err(malformed(DecodeFault::LengthMismatch));
    }
    Ok(string_from_chars(&out))
}


// ---------------------------------------------------------------------
// Decoding gives back what was encoded.
// ---------------------------------------------------------------------
/// The node reached from `node` by following `path` (`false` = left), if
/// no leaf stops the way before the path ends.
pub open spec fn descend(node: HuffmanNode, path: Seq<bool>) -> Option<HuffmanNode>
    decreases path.len(),
{
    if path.len() == 0 {
        Some(node)
    } else {
        match node {
            HuffmanNode::Leaf { .. } => None,
            HuffmanNode::Internal { left, right, .. } => descend(
                if path[0] {
                    *right
                } else {
                    *left
                },
                path.drop_first(),
            ),
        }
    }
}

/// Following `path` from `node` ends at a leaf for `c`.
pub open spec fn reaches(node: HuffmanNode, path: Seq<bool>, c: char) -> bool {
    match descend(node, path) {
        Some(HuffmanNode::Leaf { symbol, .. }) => symbol == c,
        _ => false,
    }
}

/// A code tree with more than one queued subtree merges into an internal node.
proof fn lemma_merge_internal(q: Seq<QueueEntry>, seq: nat)
    requires
        q.len() >= 2,
    ensures
        merge_queue(q, seq) is Internal,
    decreases q.len(),
{
    let i = min_index(q);
    lemma_min_index_bound(q);
    let q1 = q.remove(i);
    let j = min_index(q1);
    lemma_min_index_bound(q1);
    let q2 = q1.remove(j);
    let e = merged_entry(q[i], q1[j], seq);
    if q2.push(e).len() >= 2 {
        lemma_merge_internal(q2.push(e), seq + 1);
    } else {
        assert(q2.push(e)[0] == e);
    }
}

/// The code tree of a non-empty table has an internal root.
proof fn lemma_tree_internal(table: Seq<(char, usize)>)
    requires
        table.len() >= 1,
    ensures
        huffman_tree(table) is Internal,
{
    let sorted = sort_by_freq(table);
    lemma_sort_total(table);
    if sorted.len() >= 2 {
        lemma_leaf_queue_total(sorted);
        lemma_merge_internal(leaf_queue(sorted), sorted.len());
    }
}

/// Each entry of `code_entries(node, prefix)` extends `prefix` by a path
/// that leads from `node` to a leaf of its symbol, a non-empty one when
/// `node` is internal.
proof fn lemma_entries_reach(node: HuffmanNode, prefix: Seq<bool>, k: int)
    requires
        0 <= k < code_entries(node, prefix).len(),
    ensures
        ({
            let (c, p) = code_entries(node, prefix)[k];
            &&& p.len() >= prefix.len()
            &&& p.take(prefix.len() as int) == prefix
            &&& reaches(node, p.skip(prefix.len() as int), c)
            &&& (node is Internal ==> p.len() > prefix.len())
        }),
    decreases node,
{
    match node {
        HuffmanNode::Leaf { symbol, .. } => {
            let ce = code_entries(node, prefix);
            assert(ce == seq![(symbol, prefix)]);
            assert(ce[k] == (symbol, prefix));
            assert(prefix.take(prefix.len() as int) =~= prefix);
            assert(prefix.skip(prefix.len() as int) =~= Seq::<bool>::empty());
        },
        HuffmanNode::Internal { left, right, .. } => {
            let lp = prefix.push(false);
            let rp = prefix.push(true);
            let le = code_entries(*left, lp);
            let re = code_entries(*right, rp);
            assert(code_entries(node, prefix) == le + re);
            let n = prefix.len() as int;
            if k < le.len() {
                lemma_entries_reach(*left, lp, k);
                let (c, p) = le[k];
                assert(code_entries(node, prefix)[k] == le[k]);
                assert(p.take(n + 1) == lp);
                assert(p.take(n) =~= prefix) by {
                    assert forall|m: int| 0 <= m < n implies p.take(n)[m] == prefix[m] by {
                        assert(p.take(n + 1)[m] == lp[m]);
                    }
                }
                let rest = p.skip(n);
                assert(rest[0] == false) by {
                    assert(p.take(n + 1)[n] == lp[n]);
                }
                assert(rest.drop_first() =~= p.skip(n + 1));
            } else {
                let k2 = k - le.len();
                lemma_entries_reach(*right, rp, k2);
                let (c, p) = re[k2];
                assert(code_entries(node, prefix)[k] == re[k2]);
                assert(p.take(n + 1) == rp);
                assert(p.take(n) =~= prefix) by {
                    assert forall|m: int| 0 <= m < n implies p.take(n)[m] == prefix[m] by {
                        assert(p.take(n + 1)[m] == rp[m]);
                    }
                }
                let rest = p.skip(n);
                assert(rest[0] == true) by {
                    assert(p.take(n + 1)[n] == rp[n]);
                }
                assert(rest.drop_first() =~= p.skip(n + 1));
            }
        },
    }
}

/// The code a table gives a symbol is the code of one of its entries.
proof fn lemma_code_for_entry(entries: Seq<(char, Seq<bool>)>, c: char)
    requires
        code_for(entries, c) is Some,
    ensures
        exists|k: int| 0 <= k < entries.len() && entries[k] == (c, code_for(entries, c)->0),
    decreases entries.len(),
{
    if entries.last().0 == c {
        assert(entries[entries.len() - 1] == (c, code_for(entries, c)->0));
    } else {
        lemma_code_for_entry(entries.drop_last(), c);
        let k = choose|k: int|
            0 <= k < entries.drop_last().len() && entries.drop_last()[k] == (
                c,
                code_for(entries.drop_last(), c)->0,
            );
        assert(entries[k] == entries.drop_last()[k]);
    }
}

/// A non-empty text has a non-empty frequency table.
proof fn lemma_counts_nonempty(s: Seq<char>)
    requires
        s.len() > 0,
    ensures
        char_counts(s).len() >= 1,
{
    lemma_char_slot_bound(char_counts(s.drop_last()), s.last());
}

/// The code of every character of a non-empty text is non-empty and leads
/// from the root of the text's tree to a leaf of that character.
proof fn lemma_code_reaches(s: Seq<char>, i: int)
    requires
        0 <= i < s.len(),
    ensures
        code_for(text_codes(s), s[i]) is Some,
        code_for(text_codes(s), s[i])->0.len() >= 1,
        reaches(huffman_tree(char_counts(s)), code_for(text_codes(s), s[i])->0, s[i]),
{
    lemma_text_coded(s, i);
    let root = huffman_tree(char_counts(s));
    let entries = text_codes(s);
    lemma_code_for_entry(entries, s[i]);
    let code = code_for(entries, s[i])->0;
    let k = choose|k: int| 0 <= k < entries.len() && entries[k] == (s[i], code);
    lemma_entries_reach(root, Seq::empty(), k);
    assert(code.skip(0) =~= code);
    lemma_counts_nonempty(s);
    lemma_tree_internal(char_counts(s));
}

/// Walking the code `q` of `c` from `node`, with `q` at bit `pos` of the
/// packed bits, emits `c` and goes on from the root right after `q`.
proof fn lemma_walk_code(
    root: HuffmanNode,
    bytes: Seq<u8>,
    bit_length: nat,
    original_len: nat,
    pos: nat,
    node: HuffmanNode,
    out: Seq<char>,
    q: Seq<bool>,
    c: char,
)
    requires
        q.len() >= 1,
        reaches(node, q, c),
        pos + q.len() <= bit_length,
        forall|j: int| 0 <= j < q.len() ==> bit_of(bytes, pos + j) == Some(q[j]),
    ensures
        decode_walk(root, bytes, bit_length, original_len, pos, node, out) == (if out.len() + 1
            == original_len {
            Ok(out.push(c))
        } else {
            decode_walk(
                root,
                bytes,
                bit_length,
                original_len,
                pos + q.len(),
                root,
                out.push(c),
            )
        }),
    decreases q.len(),
{
    assert(bit_of(bytes, pos + 0int) == Some(q[0]));
    match node {
        HuffmanNode::Leaf { .. } => {},
        HuffmanNode::Internal { left, right, .. } => {
            let child = if q[0] {
                *right
            } else {
                *left
            };
            let rest = q.drop_first();
            assert(descend(node, q) == descend(child, rest));
            if q.len() == 1 {
                assert(descend(child, rest) == Some(child));
            } else {
                match child {
                    HuffmanNode::Leaf { .. } => {},
                    HuffmanNode::Internal { .. } => {
                        assert forall|j: int| 0 <= j < rest.len() implies bit_of(
                            bytes,
                            (pos + 1) + j,
                        ) == Some(rest[j]) by {
                            assert(bit_of(bytes, pos + (j + 1)) == Some(q[j + 1]));
                        }
                        lemma_walk_code(
                            root,
                            bytes,
                            bit_length,
                            original_len,
                            pos + 1,
                            child,
                            out,
                            rest,
                            c,
                        );
                    },
                }
            }
        },
    }
}

/// From the end of the code bits of the first `i` characters, with those
/// characters out, the walk decodes the rest of the text.
proof fn lemma_decode_suffix(e: HuffmanEncoded, s: Seq<char>, i: int)
    requires
        encodes(e, s),
        0 <= i < s.len(),
    ensures
        decode_walk(
            huffman_tree(char_counts(s)),
            e.bits@,
            e.bit_length as nat,
            e.original_len as nat,
            bits_for(text_codes(s), s.take(i)).len(),
            huffman_tree(char_counts(s)),
            s.take(i),
        ) == Ok::<Seq<char>, DecodeFault>(s),
    decreases s.len() - i,
{
    let root = huffman_tree(char_counts(s));
    let codes = text_codes(s);
    let all = encoded_bits(s);
    let done = bits_for(codes, s.take(i));
    lemma_code_reaches(s, i);
    let q = code_for(codes, s[i])->0;
    assert(s.take(i + 1).drop_last() =~= s.take(i));
    assert(s.take(i + 1).last() == s[i]);
    let upto = bits_for(codes, s.take(i + 1));
    assert(upto == done + q);
    lemma_bits_grow(codes, s, i + 1);
    assert(upto.len() <= all.len());
    lemma_bits_prefix(codes, s, i + 1);
    lemma_pack_bits(all);
    assert forall|j: int| 0 <= j < q.len() implies bit_of(e.bits@, done.len() + j) == Some(q[j]) by {
        let m = done.len() + j;
        assert(upto[m] == q[j]);
        assert(all[m] == upto[m]);
        assert(m < 8 * pack_bits(all).len());
        assert(bit_of(pack_bits(all), m) == Some(m < all.len() && all[m]));
    }
    lemma_walk_code(
        root,
        e.bits@,
        e.bit_length as nat,
        e.original_len as nat,
        done.len(),
        root,
        s.take(i),
        q,
        s[i],
    );
    assert(s.take(i).push(s[i]) =~= s.take(i + 1));
    if i + 1 == s.len() {
        assert(s.take(i + 1) =~= s);
    } else {
        lemma_decode_suffix(e, s, i + 1);
    }
}

/// The code bits of a prefix begin the code bits of the whole text.
proof fn lemma_bits_prefix(codes: Seq<(char, Seq<bool>)>, s: Seq<char>, i: int)
    requires
        0 <= i <= s.len(),
    ensures
        forall|m: int|
            0 <= m < bits_for(codes, s.take(i)).len() ==> #[trigger] bits_for(codes, s)[m]
                == bits_for(codes, s.take(i))[m],
    decreases s.len() - i,
{
    if i < s.len() {
        lemma_bits_prefix(codes, s, i + 1);
        assert(s.take(i + 1).drop_last() =~= s.take(i));
        let a = bits_for(codes, s.take(i));
        let b = bits_for(codes, s.take(i + 1));
        assert forall|m: int| 0 <= m < a.len() implies #[trigger] bits_for(codes, s)[m] == a[m] by {
            assert(b[m] == a[m]);
        }
    } else {
        assert(s.take(i) =~= s);
    }
}

/// Decoding the encoding of a non-empty text gives the text back, and the
/// encoding meets what `decode` requires.
pub proof fn lemma_decode_encode(e: HuffmanEncoded, s: Seq<char>)
    requires
        s.len() > 0,
        encodes(e, s),
    ensures
        decodable(e),
        decode_result(e) == Ok::<Seq<char>, DecodeFault>(s),
{
    lemma_counts_total(s);
    assert(s.take(0) =~= Seq::<char>::empty());
    lemma_decode_suffix(e, s, 0);
}


// ---------------------------------------------------------------------
// More frequent characters get codes no longer than rarer ones.
// ---------------------------------------------------------------------
/// No character is listed twice in a table.
pub open spec fn distinct_chars(t: Seq<(char, usize)>) -> bool {
    forall|a: int, b: int| 0 <= a < b < t.len() ==> t[a].0 != t[b].0
}

/// A table listed in strictly increasing character order.
spec fn char_sorted(t: Seq<(char, usize)>) -> bool {
    forall|a: int, b: int| 0 <= a < b < t.len() ==> t[a].0 < t[b].0
}

/// The frequency table of a text lists its characters in increasing order.
proof fn lemma_counts_sorted(s: Seq<char>)
    ensures
        char_sorted(char_counts(s)),
    decreases s.len(),
{
    if s.len() > 0 {
        lemma_counts_sorted(s.drop_last());
        let t = char_counts(s.drop_last());
        let c = s.last();
        lemma_char_slot_bound(t, c);
        let p = char_slot(t, c);
        if p < t.len() && t[p].0 == c {
            let u = t.update(p, (c, (t[p].1 + 1) as usize));
            assert forall|a: int, b: int| 0 <= a < b < u.len() implies u[a].0 < u[b].0 by {
                assert(u[a].0 == t[a].0);
                assert(u[b].0 == t[b].0);
            }
        } else {
            let u = t.insert(p, (c, 1usize));
            assert forall|a: int, b: int| 0 <= a < b < u.len() implies u[a].0 < u[b].0 by {
                if b < p {
                    assert(u[a] == t[a] && u[b] == t[b]);
                } else if b == p {
                    assert(u[a] == t[a]);
                } else if a == p {
                    assert(u[b] == t[b - 1]);
                    assert(t[p].0 > c);
                    if b - 1 > p {
                        assert(t[p].0 < t[b - 1].0);
                    }
                } else if a < p {
                    assert(u[a] == t[a] && u[b] == t[b - 1]);
                } else {
                    assert(u[a] == t[a - 1] && u[b] == t[b - 1]);
                }
            }
        }
    }
}

/// A character is listed in a table exactly when some entry holds it.
proof fn lemma_table_symbols_has(t: Seq<(char, usize)>, c: char)
    ensures
        table_symbols(t).contains(c) <==> exists|k: int| 0 <= k < t.len() && t[k].0 == c,
    decreases t.len(),
{
    if t.len() > 0 {
        lemma_table_symbols_has(t.drop_last(), c);
        if exists|k: int| 0 <= k < t.drop_last().len() && t.drop_last()[k].0 == c {
            let k = choose|k: int| 0 <= k < t.drop_last().len() && t.drop_last()[k].0 == c;
            assert(t[k].0 == c);
        }
        if exists|k: int| 0 <= k < t.len() && t[k].0 == c {
            let k = choose|k: int| 0 <= k < t.len() && t[k].0 == c;
            if k < t.len() - 1 {
                assert(t.drop_last()[k].0 == c);
            }
        }
    }
}

/// Sorting by frequency keeps the characters of a table distinct.
proof fn lemma_sort_distinct(t: Seq<(char, usize)>)
    requires
        distinct_chars(t),
    ensures
        distinct_chars(sort_by_freq(t)),
    decreases t.len(),
{
    if t.len() > 0 {
        let rest = t.drop_last();
        assert(distinct_chars(rest)) by {
            assert forall|a: int, b: int| 0 <= a < b < rest.len() implies rest[a].0 != rest[b].0 by {
                assert(rest[a] == t[a] && rest[b] == t[b]);
            }
        }
        lemma_sort_distinct(rest);
        let sorted = sort_by_freq(rest);
        let x = t.last();
        lemma_freq_slot_bound(sorted, x);
        lemma_sort_symbols(rest);
        lemma_table_symbols_has(sorted, x.0);
        lemma_table_symbols_has(rest, x.0);
        assert(!table_symbols(rest).contains(x.0)) by {
            if exists|k: int| 0 <= k < rest.len() && rest[k].0 == x.0 {
                let k = choose|k: int| 0 <= k < rest.len() && rest[k].0 == x.0;
                assert(t[k].0 == t[t.len() - 1].0);
            }
        }
        let p = freq_slot(sorted, x);
        let u = sorted.insert(p, x);
        assert forall|a: int, b: int| 0 <= a < b < u.len() implies u[a].0 != u[b].0 by {
            if a == p {
                assert(u[b] == sorted[b - 1]);
            } else if b == p {
                assert(u[a] == sorted[a]);
            } else {
                let a0 = if a < p { a } else { a - 1 };
                let b0 = if b < p { b } else { b - 1 };
                assert(u[a] == sorted[a0] && u[b] == sorted[b0]);
            }
        }
    }
}

/// The step of the merge: the two first-ordered entries of `q` leave and
/// their join, numbered `seq`, is queued last.
spec fn merge_step(q: Seq<QueueEntry>, seq: nat) -> Seq<QueueEntry> {
    let i = min_index(q);
    let q1 = q.remove(i);
    let j = min_index(q1);
    q1.remove(j).push(merged_entry(q[i], q1[j], seq))
}

/// The position in `q` of the second entry a merge step takes.
spec fn second_index(q: Seq<QueueEntry>) -> int {
    let i = min_index(q);
    let j = min_index(q.remove(i));
    if j < i {
        j
    } else {
        j + 1
    }
}

/// Entry `k` of `q` is one of the two a merge step joins.
spec fn merged_away(q: Seq<QueueEntry>, k: int) -> bool {
    k == min_index(q) || k == second_index(q)
}

/// The position after a merge step of what was entry `k`: the joined
/// entry for the two that were merged.
spec fn step_index(q: Seq<QueueEntry>, k: int) -> int {
    let i = min_index(q);
    let i2 = second_index(q);
    if merged_away(q, k) {
        q.len() - 2
    } else {
        k - (if i < k {
            1int
        } else {
            0int
        }) - (if i2 < k {
            1int
        } else {
            0int
        })
    }
}

/// The position before a merge step of what is entry `u` after it, for an
/// entry the step did not make.
spec fn orig_index(q: Seq<QueueEntry>, u: int) -> int {
    let i = min_index(q);
    let j = min_index(q.remove(i));
    let u1 = if u < j {
        u
    } else {
        u + 1
    };
    if u1 < i {
        u1
    } else {
        u1 + 1
    }
}

proof fn lemma_merge_step(q: Seq<QueueEntry>, seq: nat)
    requires
        q.len() >= 2,
    ensures
        merge_step(q, seq).len() == q.len() - 1,
        merge_queue(q, seq) == merge_queue(merge_step(q, seq), seq + 1),
        0 <= min_index(q) < q.len(),
        0 <= second_index(q) < q.len(),
        min_index(q) != second_index(q),
        merge_step(q, seq).last() == merged_entry(q[min_index(q)], q[second_index(q)], seq),
        forall|k: int|
            0 <= k < q.len() ==> 0 <= #[trigger] step_index(q, k) < q.len() - 1,
        forall|k: int|
            0 <= k < q.len() && !merged_away(q, k) ==> #[trigger] step_index(q, k) < q.len() - 2
                && merge_step(q, seq)[step_index(q, k)] == q[k],
        forall|u: int|
            0 <= u < q.len() - 2 ==> 0 <= #[trigger] orig_index(q, u) < q.len() && !merged_away(
                q,
                orig_index(q, u),
            ) && step_index(q, orig_index(q, u)) == u,
{
    let i = min_index(q);
    lemma_min_index_bound(q);
    let q1 = q.remove(i);
    let j = min_index(q1);
    lemma_min_index_bound(q1);
    let i2 = second_index(q);
    assert(q1[j] == q[i2]);
    let q2 = q1.remove(j);
    let n = merge_step(q, seq);
    assert forall|k: int| 0 <= k < q.len() && !merged_away(q, k) implies #[trigger] step_index(q, k)
        < q.len() - 2 && n[step_index(q, k)] == q[k] by {
        let k1 = if k < i { k } else { k - 1 };
        assert(q1[k1] == q[k]);
        if i2 < i {
            assert(j == i2);
        } else {
            assert(j == i2 - 1);
        }
        let k2 = if k1 < j { k1 } else { k1 - 1 };
        assert(q2[k2] == q1[k1]);
        assert(step_index(q, k) == k2);
    }
    assert forall|u: int| 0 <= u < q.len() - 2 implies 0 <= #[trigger] orig_index(q, u) < q.len()
        && !merged_away(q, orig_index(q, u)) && step_index(q, orig_index(q, u)) == u by {
        let u1 = if u < j { u } else { u + 1 };
        let k = if u1 < i { u1 } else { u1 + 1 };
        assert(orig_index(q, u) == k);
        if i2 < i {
            assert(j == i2);
        } else {
            assert(j == i2 - 1);
        }
        assert(!merged_away(q, k));
        assert(step_index(q, k) == u);
    }
}

/// How many merges lie above entry `k` of `q`: the depth at which its
/// subtree ends up in the finished tree.
spec fn entry_depth(q: Seq<QueueEntry>, seq: nat, k: int) -> nat
    decreases q.len(),
{
    if q.len() <= 1 {
        0
    } else {
        proof {
            lemma_min_index_bound(q);
            lemma_min_index_bound(q.remove(min_index(q)));
        }
        let d = entry_depth(merge_step(q, seq), seq + 1, step_index(q, k));
        if merged_away(q, k) {
            d + 1
        } else {
            d
        }
    }
}


/// The entries under a prefix are those under the empty path, with the
/// prefix in front of each code.
proof fn lemma_entries_prefix(node: HuffmanNode, prefix: Seq<bool>)
    ensures
        code_entries(node, prefix).len() == code_entries(node, Seq::empty()).len(),
        forall|m: int|
            0 <= m < code_entries(node, prefix).len() ==> #[trigger] code_entries(node, prefix)[m]
                == (code_entries(node, Seq::empty())[m].0, prefix + code_entries(
                node,
                Seq::empty(),
            )[m].1),
    decreases node,
{
    let e = Seq::<bool>::empty();
    match node {
        HuffmanNode::Leaf { symbol, .. } => {
            assert(prefix + e =~= prefix);
        },
        HuffmanNode::Internal { left, right, .. } => {
            lemma_entries_prefix(*left, prefix.push(false));
            lemma_entries_prefix(*left, e.push(false));
            lemma_entries_prefix(*right, prefix.push(true));
            lemma_entries_prefix(*right, e.push(true));
            let lp = code_entries(*left, prefix.push(false));
            let l0 = code_entries(*left, e.push(false));
            let ln = code_entries(*left, e).len();
            assert forall|m: int| 0 <= m < code_entries(node, prefix).len() implies #[trigger] code_entries(
                node,
                prefix,
            )[m] == (code_entries(node, e)[m].0, prefix + code_entries(node, e)[m].1) by {
                if m < ln {
                    let r = code_entries(*left, e)[m].1;
                    assert(code_entries(node, prefix)[m] == lp[m]);
                    assert(code_entries(node, e)[m] == l0[m]);
                    assert(prefix.push(false) + r =~= prefix + (e.push(false) + r));
                } else {
                    let r = code_entries(*right, e)[m - ln].1;
                    assert(code_entries(node, prefix)[m] == code_entries(*right, prefix.push(true))[m
                        - ln]);
                    assert(code_entries(node, e)[m] == code_entries(*right, e.push(true))[m - ln]);
                    assert(prefix.push(true) + r =~= prefix + (e.push(true) + r));
                }
            }
        },
    }
}

/// Each code a queued subtree gives a symbol shows up in the finished
/// tree, longer by that subtree's depth; the position of that entry.
proof fn lemma_depth_code(q: Seq<QueueEntry>, seq: nat, k: int, m: int) -> (t: int)
    requires
        q.len() >= 1,
        0 <= k < q.len(),
        0 <= m < code_entries(q[k].node, Seq::empty()).len(),
    ensures
        0 <= t < code_entries(merge_queue(q, seq), Seq::empty()).len(),
        code_entries(merge_queue(q, seq), Seq::empty())[t].0 == code_entries(q[k].node, Seq::empty())[m].0,
        code_entries(merge_queue(q, seq), Seq::empty())[t].1.len() == entry_depth(q, seq, k)
            + code_entries(q[k].node, Seq::empty())[m].1.len(),
    decreases q.len(),
{
    let e = Seq::<bool>::empty();
    if q.len() == 1 {
        assert(merge_queue(q, seq) == q[0].node);
        m
    } else {
        lemma_merge_step(q, seq);
        let n = merge_step(q, seq);
        let k2 = step_index(q, k);
        assert(entry_depth(q, seq, k) == entry_depth(n, seq + 1, k2) + if merged_away(q, k) {
            1nat
        } else {
            0nat
        });
        if !merged_away(q, k) {
            assert(n[k2] == q[k]);
            lemma_depth_code(n, seq + 1, k2, m)
        } else {
            let mi = min_index(q);
            let si = second_index(q);
            let me = merged_entry(q[mi], q[si], seq);
            assert(n[k2] == me);
            let (c, p0) = code_entries(q[k].node, e)[m];
            let le = code_entries(q[mi].node, e.push(false));
            let re = code_entries(q[si].node, e.push(true));
            assert(code_entries(me.node, e) == le + re);
            lemma_entries_prefix(q[mi].node, e.push(false));
            lemma_entries_prefix(q[si].node, e.push(true));
            let m2 = if k == mi {
                m
            } else {
                le.len() + m
            };
            assert(code_entries(me.node, e)[m2] == (c, e.push(k != mi) + p0));
            assert((e.push(k != mi) + p0).len() == 1 + p0.len());
            lemma_depth_code(n, seq + 1, k2, m2)
        }
    }
}


/// No symbol sits at two leaves of `node`.
spec fn node_distinct(node: HuffmanNode) -> bool
    decreases node,
{
    match node {
        HuffmanNode::Leaf { .. } => true,
        HuffmanNode::Internal { left, right, .. } => node_distinct(*left) && node_distinct(*right)
            && leaf_symbols(*left).disjoint(leaf_symbols(*right)),
    }
}

/// No symbol sits at two leaves of the queued subtrees together.
spec fn queue_distinct(q: Seq<QueueEntry>) -> bool {
    &&& forall|k: int| 0 <= k < q.len() ==> node_distinct(#[trigger] q[k].node)
    &&& forall|k: int, l: int|
        0 <= k < q.len() && 0 <= l < q.len() && k != l ==> leaf_symbols(#[trigger] q[k].node).disjoint(
            leaf_symbols(#[trigger] q[l].node),
        )
}

/// The symbol of every code entry is at a leaf of the tree.
proof fn lemma_entry_leaf(node: HuffmanNode, prefix: Seq<bool>, m: int)
    requires
        0 <= m < code_entries(node, prefix).len(),
    ensures
        leaf_symbols(node).contains(code_entries(node, prefix)[m].0),
    decreases node,
{
    match node {
        HuffmanNode::Leaf { .. } => {},
        HuffmanNode::Internal { left, right, .. } => {
            let ln = code_entries(*left, prefix.push(false)).len();
            if m < ln {
                lemma_entry_leaf(*left, prefix.push(false), m);
            } else {
                lemma_entry_leaf(*right, prefix.push(true), m - ln);
            }
        },
    }
}

/// A tree without repeated symbols gives each symbol one code entry.
proof fn lemma_entries_distinct(node: HuffmanNode, prefix: Seq<bool>)
    requires
        node_distinct(node),
    ensures
        forall|a: int, b: int|
            0 <= a < b < code_entries(node, prefix).len() ==> #[trigger] code_entries(node, prefix)[a].0
                != #[trigger] code_entries(node, prefix)[b].0,
    decreases node,
{
    match node {
        HuffmanNode::Leaf { .. } => {},
        HuffmanNode::Internal { left, right, .. } => {
            let le = code_entries(*left, prefix.push(false));
            let re = code_entries(*right, prefix.push(true));
            lemma_entries_distinct(*left, prefix.push(false));
            lemma_entries_distinct(*right, prefix.push(true));
            let ce = code_entries(node, prefix);
            assert(ce == le + re);
            assert forall|a: int, b: int| 0 <= a < b < ce.len() implies #[trigger] ce[a].0
                != #[trigger] ce[b].0 by {
                if b < le.len() {
                    assert(ce[a] == le[a] && ce[b] == le[b]);
                } else if a >= le.len() {
                    assert(ce[a] == re[a - le.len()] && ce[b] == re[b - le.len()]);
                } else {
                    assert(ce[a] == le[a] && ce[b] == re[b - le.len()]);
                    lemma_entry_leaf(*left, prefix.push(false), a);
                    lemma_entry_leaf(*right, prefix.push(true), b - le.len());
                }
            }
        },
    }
}

/// A merge step keeps the queued symbols apart.
proof fn lemma_step_distinct(q: Seq<QueueEntry>, seq: nat)
    requires
        q.len() >= 2,
        queue_distinct(q),
    ensures
        queue_distinct(merge_step(q, seq)),
{
    lemma_merge_step(q, seq);
    let n = merge_step(q, seq);
    let mi = min_index(q);
    let si = second_index(q);
    let last = n.len() - 1;
    assert(n[last] == n.last());
    assert forall|u: int| 0 <= u < n.len() implies node_distinct(#[trigger] n[u].node) by {
        if u < last {
            let k = orig_index(q, u);
            assert(n[u] == q[k]);
        } else {
            assert(node_distinct(q[mi].node) && node_distinct(q[si].node));
            assert(leaf_symbols(q[mi].node).disjoint(leaf_symbols(q[si].node)));
        }
    }
    assert forall|u: int, v: int| 0 <= u < n.len() && 0 <= v < n.len() && u != v implies leaf_symbols(
        #[trigger] n[u].node,
    ).disjoint(leaf_symbols(#[trigger] n[v].node)) by {
        if u < last && v < last {
            let ku = orig_index(q, u);
            let kv = orig_index(q, v);
            assert(n[u] == q[ku] && n[v] == q[kv]);
            assert(ku != kv);
        } else if u < last {
            let ku = orig_index(q, u);
            assert(n[u] == q[ku]);
            assert(leaf_symbols(q[ku].node).disjoint(leaf_symbols(q[mi].node)));
            assert(leaf_symbols(q[ku].node).disjoint(leaf_symbols(q[si].node)));
            assert(leaf_symbols(n[v].node) == leaf_symbols(q[mi].node) + leaf_symbols(q[si].node));
        } else {
            let kv = orig_index(q, v);
            assert(n[v] == q[kv]);
            assert(leaf_symbols(q[kv].node).disjoint(leaf_symbols(q[mi].node)));
            assert(leaf_symbols(q[kv].node).disjoint(leaf_symbols(q[si].node)));
            assert(leaf_symbols(n[u].node) == leaf_symbols(q[mi].node) + leaf_symbols(q[si].node));
        }
    }
}

/// Merging a queue without repeated symbols gives a tree without them.
proof fn lemma_merge_distinct(q: Seq<QueueEntry>, seq: nat)
    requires
        q.len() >= 1,
        queue_distinct(q),
    ensures
        node_distinct(merge_queue(q, seq)),
    decreases q.len(),
{
    if q.len() == 1 {
        assert(node_distinct(q[0].node));
    } else {
        lemma_merge_step(q, seq);
        lemma_step_distinct(q, seq);
        lemma_merge_distinct(merge_step(q, seq), seq + 1);
    }
}

/// The code a table without repeated symbols gives `c` is that of its
/// entry for `c`.
proof fn lemma_code_for_unique(entries: Seq<(char, Seq<bool>)>, t: int)
    requires
        0 <= t < entries.len(),
        forall|a: int, b: int|
            0 <= a < b < entries.len() ==> #[trigger] entries[a].0 != #[trigger] entries[b].0,
    ensures
        code_for(entries, entries[t].0) == Some(entries[t].1),
    decreases entries.len(),
{
    if t < entries.len() - 1 {
        assert(entries.last().0 != entries[t].0);
        let rest = entries.drop_last();
        assert forall|a: int, b: int| 0 <= a < b < rest.len() implies #[trigger] rest[a].0
            != #[trigger] rest[b].0 by {
            assert(rest[a] == entries[a] && rest[b] == entries[b]);
        }
        lemma_code_for_unique(rest, t);
        assert(rest[t] == entries[t]);
    }
}


/// A queue the merge can run on: its numbering stays within `u128`, its
/// weights add up within `usize`, every entry was queued before number
/// `seq`, and no two entries share a number.
spec fn queue_ok(q: Seq<QueueEntry>, seq: nat) -> bool {
    &&& seq + q.len() <= u128::MAX
    &&& queue_total(q) <= usize::MAX
    &&& forall|k: int| 0 <= k < q.len() ==> (#[trigger] q[k]).order < seq
    &&& forall|k: int, l: int|
        0 <= k < q.len() && 0 <= l < q.len() && k != l ==> (#[trigger] q[k]).order != (
        #[trigger] q[l]).order
}

/// Entry `v` weighs no more than any two other entries together, as the
/// join a merge step just made does.
spec fn eligible(q: Seq<QueueEntry>, v: int) -> bool {
    forall|a: int, b: int|
        0 <= a < q.len() && 0 <= b < q.len() && a != b && a != v && b != v ==> q[v].freq <= (
        #[trigger] q[a]).freq + (#[trigger] q[b]).freq
}

/// With distinct numbers, the first-ordered entry comes before every other.
proof fn lemma_min_first(q: Seq<QueueEntry>)
    requires
        q.len() >= 1,
        forall|k: int, l: int|
            0 <= k < q.len() && 0 <= l < q.len() && k != l ==> (#[trigger] q[k]).order != (
            #[trigger] q[l]).order,
    ensures
        forall|k: int|
            0 <= k < q.len() && k != min_index(q) ==> entry_before(q[min_index(q)], #[trigger] q[k]),
    decreases q.len(),
{
    lemma_min_index_bound(q);
    if q.len() > 1 {
        let r = q.drop_last();
        assert forall|k: int, l: int| 0 <= k < r.len() && 0 <= l < r.len() && k != l implies (
        #[trigger] r[k]).order != (#[trigger] r[l]).order by {
            assert(r[k] == q[k] && r[l] == q[l]);
        }
        lemma_min_first(r);
        lemma_min_index_bound(r);
        let m = min_index(r);
        assert(q[m] == r[m]);
        assert forall|k: int| 0 <= k < q.len() && k != min_index(q) implies entry_before(
            q[min_index(q)],
            #[trigger] q[k],
        ) by {
            if k < q.len() - 1 {
                assert(q[k] == r[k]);
            } else {
                assert(q[k].order != q[m].order);
            }
        }
    }
}

/// Two distinct entries weigh no more than the whole queue.
proof fn lemma_pair_bound(q: Seq<QueueEntry>, a: int, b: int)
    requires
        0 <= a < q.len(),
        0 <= b < q.len(),
        a != b,
    ensures
        q[a].freq + q[b].freq <= queue_total(q),
{
    lemma_queue_remove(q, a);
    let r = q.remove(a);
    let b1 = if b < a {
        b
    } else {
        b - 1
    };
    assert(r[b1] == q[b]);
    lemma_queue_entry_bound(r, b1);
}

/// What a merge step does to the order of the queue: the two it joins come
/// before all others, and the queue stays one the merge can run on.
proof fn lemma_step_ok(q: Seq<QueueEntry>, seq: nat)
    requires
        q.len() >= 2,
        queue_ok(q, seq),
    ensures
        queue_ok(merge_step(q, seq), seq + 1),
        forall|k: int|
            0 <= k < q.len() && k != min_index(q) ==> entry_before(q[min_index(q)], #[trigger] q[k]),
        forall|k: int|
            0 <= k < q.len() && !merged_away(q, k) ==> entry_before(q[second_index(q)], #[trigger] q[k]),
        merge_step(q, seq).last().freq == q[min_index(q)].freq + q[second_index(q)].freq,
        merge_step(q, seq).last().order == seq,
{
    lemma_merge_step(q, seq);
    let mi = min_index(q);
    let si = second_index(q);
    lemma_min_first(q);
    let q1 = q.remove(mi);
    assert forall|k: int, l: int| 0 <= k < q1.len() && 0 <= l < q1.len() && k != l implies (
    #[trigger] q1[k]).order != (#[trigger] q1[l]).order by {
        let k0 = if k < mi { k } else { k + 1 };
        let l0 = if l < mi { l } else { l + 1 };
        assert(q1[k] == q[k0] && q1[l] == q[l0]);
    }
    lemma_min_first(q1);
    let j = min_index(q1);
    assert(q1[j] == q[si]);
    assert forall|k: int| 0 <= k < q.len() && !merged_away(q, k) implies entry_before(
        q[si],
        #[trigger] q[k],
    ) by {
        let k1 = if k < mi { k } else { k - 1 };
        assert(q1[k1] == q[k]);
    }
    lemma_pair_bound(q, mi, si);
    let n = merge_step(q, seq);
    let me = n.last();
    lemma_queue_remove(q, mi);
    lemma_queue_remove(q1, j);
    let q2 = q1.remove(j);
    assert(n.drop_last() =~= q2);
    assert(queue_total(n) == queue_total(q));
    assert forall|u: int| 0 <= u < n.len() implies (#[trigger] n[u]).order < seq + 1 by {
        if u < n.len() - 1 {
            assert(n[u] == q[orig_index(q, u)]);
        }
    }
    assert forall|u: int, v: int| 0 <= u < n.len() && 0 <= v < n.len() && u != v implies (
    #[trigger] n[u]).order != (#[trigger] n[v]).order by {
        if u < n.len() - 1 && v < n.len() - 1 {
            assert(n[u] == q[orig_index(q, u)]);
            assert(n[v] == q[orig_index(q, v)]);
            assert(orig_index(q, u) != orig_index(q, v));
        } else if u < n.len() - 1 {
            assert(n[u] == q[orig_index(q, u)]);
        } else {
            assert(n[v] == q[orig_index(q, v)]);
        }
    }
}

/// In the finished tree a later-ordered entry sits no deeper than an
/// earlier-ordered one, and the join a merge step just made sits at most
/// one level above anything ordered before it.
proof fn lemma_depth_order(q: Seq<QueueEntry>, seq: nat)
    requires
        q.len() >= 1,
        queue_ok(q, seq),
    ensures
        forall|a: int, b: int|
            0 <= a < q.len() && 0 <= b < q.len() && entry_before(#[trigger] q[b], #[trigger] q[a])
                ==> entry_depth(q, seq, a) <= entry_depth(q, seq, b),
        forall|v: int, e: int|
            0 <= v < q.len() && 0 <= e < q.len() && eligible(q, v) && entry_before(
                #[trigger] q[e],
                #[trigger] q[v],
            ) ==> entry_depth(q, seq, e) <= entry_depth(q, seq, v) + 1,
    decreases q.len(),
{
    if q.len() >= 2 {
        lemma_merge_step(q, seq);
        lemma_step_ok(q, seq);
        let n = merge_step(q, seq);
        let mi = min_index(q);
        let si = second_index(q);
        let last = n.len() - 1;
        let me = n[last];
        assert(me == n.last());
        lemma_depth_order(n, seq + 1);
        assert(eligible(n, last)) by {
            assert forall|a: int, b: int|
                0 <= a < n.len() && 0 <= b < n.len() && a != b && a != last && b != last implies n[last].freq
                <= (#[trigger] n[a]).freq + (#[trigger] n[b]).freq by {
                let ka = orig_index(q, a);
                let kb = orig_index(q, b);
                assert(n[a] == q[ka] && n[b] == q[kb]);
                assert(entry_before(q[mi], q[ka]) && entry_before(q[si], q[ka]));
                assert(entry_before(q[mi], q[kb]) && entry_before(q[si], q[kb]));
            }
        }
        assert forall|k: int| 0 <= k < q.len() implies #[trigger] entry_depth(q, seq, k)
            == entry_depth(n, seq + 1, step_index(q, k)) + if merged_away(q, k) {
            1nat
        } else {
            0nat
        } by {}
        assert forall|a: int, b: int|
            0 <= a < q.len() && 0 <= b < q.len() && entry_before(#[trigger] q[b], #[trigger] q[a])
                implies entry_depth(q, seq, a) <= entry_depth(q, seq, b) by {
            let a2 = step_index(q, a);
            let b2 = step_index(q, b);
            assert(entry_depth(q, seq, a) == entry_depth(n, seq + 1, a2) + if merged_away(q, a) {
                1nat
            } else {
                0nat
            });
            assert(entry_depth(q, seq, b) == entry_depth(n, seq + 1, b2) + if merged_away(q, b) {
                1nat
            } else {
                0nat
            });
            if !merged_away(q, a) && !merged_away(q, b) {
                assert(n[a2] == q[a] && n[b2] == q[b]);
            } else if !merged_away(q, a) {
                assert(n[a2] == q[a]);
                assert(b2 == last);
                if !entry_before(me, q[a]) {
                    assert(q[a].order < seq);
                    assert(entry_before(n[a2], n[last]));
                }
            } else if !merged_away(q, b) {
                if a == mi {
                    assert(entry_before(q[mi], q[b]));
                } else {
                    assert(entry_before(q[si], q[b]));
                }
            }
        }
        assert forall|v: int, e: int|
            0 <= v < q.len() && 0 <= e < q.len() && eligible(q, v) && entry_before(
                #[trigger] q[e],
                #[trigger] q[v],
            ) implies entry_depth(q, seq, e) <= entry_depth(q, seq, v) + 1 by {
            let v2 = step_index(q, v);
            let e2 = step_index(q, e);
            assert(entry_depth(q, seq, v) == entry_depth(n, seq + 1, v2) + if merged_away(q, v) {
                1nat
            } else {
                0nat
            });
            assert(entry_depth(q, seq, e) == entry_depth(n, seq + 1, e2) + if merged_away(q, e) {
                1nat
            } else {
                0nat
            });
            if merged_away(q, v) {
                if v == mi {
                    assert(entry_before(q[mi], q[e]));
                } else if e != mi {
                    assert(entry_before(q[si], q[e]));
                }
            } else {
                assert(n[v2] == q[v]);
                assert(q[v].freq <= q[mi].freq + q[si].freq);
                assert(entry_before(n[v2], n[last]));
                if !merged_away(q, e) {
                    assert(n[e2] == q[e]);
                    assert(entry_before(n[e2], n[last]));
                }
            }
        }
    }
}


/// A text has no more distinct characters than characters.
proof fn lemma_counts_len(s: Seq<char>)
    ensures
        char_counts(s).len() <= s.len(),
    decreases s.len(),
{
    if s.len() > 0 {
        lemma_counts_len(s.drop_last());
        lemma_char_slot_bound(char_counts(s.drop_last()), s.last());
    }
}

/// Sorting by frequency keeps exactly the entries of the table.
proof fn lemma_sort_elements(t: Seq<(char, usize)>)
    ensures
        forall|x: (char, usize)| #[trigger] sort_by_freq(t).contains(x) <==> t.contains(x),
    decreases t.len(),
{
    if t.len() > 0 {
        let rest = t.drop_last();
        lemma_sort_elements(rest);
        let sorted = sort_by_freq(rest);
        let x = t.last();
        lemma_freq_slot_bound(sorted, x);
        let p = freq_slot(sorted, x);
        let u = sorted.insert(p, x);
        assert forall|y: (char, usize)| #[trigger] u.contains(y) <==> t.contains(y) by {
            if u.contains(y) {
                let k = choose|k: int| 0 <= k < u.len() && u[k] == y;
                if k < p {
                    assert(sorted[k] == y);
                } else if k > p {
                    assert(sorted[k - 1] == y);
                }
                if y != x {
                    assert(sorted.contains(y));
                    let r = choose|r: int| 0 <= r < rest.len() && rest[r] == y;
                    assert(t[r] == y);
                } else {
                    assert(t[t.len() - 1] == y);
                }
            }
            if t.contains(y) {
                let k = choose|k: int| 0 <= k < t.len() && t[k] == y;
                if k < t.len() - 1 {
                    assert(rest[k] == y);
                    assert(sorted.contains(y));
                    let r = choose|r: int| 0 <= r < sorted.len() && sorted[r] == y;
                    if r < p {
                        assert(u[r] == y);
                    } else {
                        assert(u[r + 1] == y);
                    }
                } else {
                    assert(u[p] == y);
                }
            }
        }
    }
}

/// The queued leaves are the table's entries in order, numbered by position.
proof fn lemma_leaf_queue_at(sorted: Seq<(char, usize)>, k: int)
    requires
        0 <= k < sorted.len(),
    ensures
        leaf_queue(sorted)[k] == leaf_entry(sorted[k], k),
    decreases sorted.len(),
{
    lemma_leaf_queue_total(sorted);
    lemma_leaf_queue_total(sorted.drop_last());
    if k < sorted.len() - 1 {
        lemma_leaf_queue_at(sorted.drop_last(), k);
    }
}

/// The queue of a table's leaves is one the merge can run on, without
/// repeated symbols when the table has none.
proof fn lemma_leaf_queue_ok(sorted: Seq<(char, usize)>)
    requires
        sorted.len() >= 1,
        sorted.len() <= usize::MAX,
        freq_total(sorted) <= usize::MAX,
        distinct_chars(sorted),
    ensures
        queue_ok(leaf_queue(sorted), sorted.len()),
        queue_distinct(leaf_queue(sorted)),
{
    let q = leaf_queue(sorted);
    lemma_leaf_queue_total(sorted);
    assert forall|k: int| 0 <= k < q.len() implies #[trigger] q[k] == leaf_entry(sorted[k], k) by {
        lemma_leaf_queue_at(sorted, k);
    }
    assert forall|k: int| 0 <= k < q.len() implies (#[trigger] q[k]).order < sorted.len() by {
        assert(q[k] == leaf_entry(sorted[k], k));
    }
    assert forall|k: int, l: int| 0 <= k < q.len() && 0 <= l < q.len() && k != l implies (
    #[trigger] q[k]).order != (#[trigger] q[l]).order by {
        assert(q[k] == leaf_entry(sorted[k], k));
        assert(q[l] == leaf_entry(sorted[l], l));
    }
    assert forall|k: int| 0 <= k < q.len() implies node_distinct(#[trigger] q[k].node) by {
        assert(q[k] == leaf_entry(sorted[k], k));
    }
    assert forall|k: int, l: int| 0 <= k < q.len() && 0 <= l < q.len() && k != l implies leaf_symbols(
        #[trigger] q[k].node,
    ).disjoint(leaf_symbols(#[trigger] q[l].node)) by {
        assert(q[k] == leaf_entry(sorted[k], k));
        assert(q[l] == leaf_entry(sorted[l], l));
        assert(leaf_symbols(q[k].node) == set![sorted[k].0]);
        assert(leaf_symbols(q[l].node) == set![sorted[l].0]);
        if k < l {
            assert(sorted[k].0 != sorted[l].0);
        } else {
            assert(sorted[l].0 != sorted[k].0);
        }
    }
}

/// A character that occurs in a text more often than another gets a code
/// no longer than the other's.
pub proof fn lemma_frequent_codes_shorter(s: Seq<char>, i: int, j: int)
    requires
        s.len() <= usize::MAX,
        0 <= i < char_counts(s).len(),
        0 <= j < char_counts(s).len(),
        char_counts(s)[i].1 > char_counts(s)[j].1,
    ensures
        code_for(text_codes(s), char_counts(s)[i].0) is Some,
        code_for(text_codes(s), char_counts(s)[j].0) is Some,
        code_for(text_codes(s), char_counts(s)[i].0)->0.len() <= code_for(
            text_codes(s),
            char_counts(s)[j].0,
        )->0.len(),
{
    let t = char_counts(s);
    let sorted = sort_by_freq(t);
    let e = Seq::<bool>::empty();
    lemma_sort_total(t);
    lemma_counts_total(s);
    lemma_counts_sorted(s);
    lemma_sort_distinct(t);
    lemma_sort_elements(t);
    assert(t.contains(t[i]) && t.contains(t[j]));
    assert(sorted.contains(t[i]) && sorted.contains(t[j]));
    lemma_counts_len(s);
    let ka = choose|k: int| 0 <= k < sorted.len() && sorted[k] == t[i];
    let kb = choose|k: int| 0 <= k < sorted.len() && sorted[k] == t[j];
    assert(ka != kb);
    let n = sorted.len();
    let q = leaf_queue(sorted);
    lemma_leaf_queue_ok(sorted);
    lemma_leaf_queue_total(sorted);
    lemma_leaf_queue_at(sorted, ka);
    lemma_leaf_queue_at(sorted, kb);
    lemma_depth_order(q, n);
    assert(entry_before(q[kb], q[ka]));
    let tree = merge_queue(q, n);
    assert(huffman_tree(t) == tree);
    let ce = code_entries(tree, e);
    assert(code_entries(q[ka].node, e)[0] == (t[i].0, e));
    assert(code_entries(q[kb].node, e)[0] == (t[j].0, e));
    let ta = lemma_depth_code(q, n, ka, 0);
    let tb = lemma_depth_code(q, n, kb, 0);
    lemma_merge_distinct(q, n);
    lemma_entries_distinct(tree, e);
    lemma_code_for_unique(ce, ta);
    lemma_code_for_unique(ce, tb);
}

// ---------------------------------------------------------------------
// Laws of the frequency table and the code tree.
// ---------------------------------------------------------------------
/// `p` begins `q`.
pub open spec fn bits_prefix(p: Seq<bool>, q: Seq<bool>) -> bool {
    p.len() <= q.len() && q.take(p.len() as int) == p
}

/// No code of a tree begins another one: the paths to two different
/// leaves part somewhere.
pub proof fn lemma_codes_prefix_free(node: HuffmanNode, path: Seq<bool>, a: int, b: int)
    requires
        0 <= a < code_entries(node, path).len(),
        0 <= b < code_entries(node, path).len(),
        a != b,
    ensures
        !bits_prefix(code_entries(node, path)[a].1, code_entries(node, path)[b].1),
    decreases node,
{
    match node {
        HuffmanNode::Leaf { .. } => {},
        HuffmanNode::Internal { left, right, .. } => {
            let lp = path.push(false);
            let rp = path.push(true);
            let le = code_entries(*left, lp);
            let re = code_entries(*right, rp);
            let ce = code_entries(node, path);
            assert(ce == le + re);
            let n = path.len() as int;
            if a < le.len() && b < le.len() {
                lemma_codes_prefix_free(*left, lp, a, b);
            } else if a >= le.len() && b >= le.len() {
                lemma_codes_prefix_free(*right, rp, a - le.len(), b - le.len());
            } else {
                let (ka, kb) = if a < le.len() {
                    (a, b - le.len())
                } else {
                    (b, a - le.len())
                };
                lemma_entries_reach(*left, lp, ka);
                lemma_entries_reach(*right, rp, kb);
                let pl = le[ka].1;
                let pr = re[kb].1;
                assert(pl.take(n + 1)[n] == lp[n]);
                assert(pr.take(n + 1)[n] == rp[n]);
                assert(pl[n] == false && pr[n] == true);
                let pa = ce[a].1;
                let pb = ce[b].1;
                if bits_prefix(pa, pb) {
                    assert(pb.take(pa.len() as int)[n] == pa[n]);
                }
            }
        },
    }
}

/// Number of times `c` occurs in `s`.
pub open spec fn occurrences(s: Seq<char>, c: char) -> nat
    decreases s.len(),
{
    if s.len() == 0 {
        0
    } else {
        occurrences(s.drop_last(), c) + if s.last() == c {
            1nat
        } else {
            0nat
        }
    }
}

proof fn lemma_occurrences(s: Seq<char>, c: char)
    ensures
        occurrences(s, c) <= s.len(),
        occurrences(s, c) > 0 ==> text_symbols(s).contains(c),
    decreases s.len(),
{
    if s.len() > 0 {
        lemma_occurrences(s.drop_last(), c);
    }
}

/// The frequency table of a text lists each distinct character of the text
/// once, in strictly increasing order, with its number of occurrences.
pub proof fn lemma_freq_table(s: Seq<char>)
    requires
        s.len() <= usize::MAX,
    ensures
        forall|a: int, b: int|
            0 <= a < b < char_counts(s).len() ==> #[trigger] char_counts(s)[a].0 < #[trigger] char_counts(
                s,
            )[b].0,
        table_symbols(char_counts(s)) == text_symbols(s),
        forall|k: int|
            0 <= k < char_counts(s).len() ==> #[trigger] char_counts(s)[k].1 == occurrences(
                s,
                char_counts(s)[k].0,
            ),
    decreases s.len(),
{
    lemma_counts_sorted(s);
    lemma_counts_symbols(s);
    if s.len() > 0 {
        let s0 = s.drop_last();
        lemma_freq_table(s0);
        let t = char_counts(s0);
        let c = s.last();
        lemma_char_slot_bound(t, c);
        lemma_occurrences(s0, c);
        let p = char_slot(t, c);
        let u = char_counts(s);
        if p < t.len() && t[p].0 == c {
            assert(u == t.update(p, (c, (t[p].1 + 1) as usize)));
            assert forall|k: int| 0 <= k < u.len() implies #[trigger] u[k].1 == occurrences(s, u[k].0) by {
                if k != p {
                    assert(u[k] == t[k]);
                    if k < p {
                        assert(t[k].0 < t[p].0);
                    } else {
                        assert(t[p].0 < t[k].0);
                    }
                }
            }
        } else {
            assert(u == t.insert(p, (c, 1usize)));
            lemma_table_symbols_has(t, c);
            assert(!table_symbols(t).contains(c)) by {
                if exists|k: int| 0 <= k < t.len() && t[k].0 == c {
                    let k = choose|k: int| 0 <= k < t.len() && t[k].0 == c;
                    if k >= p {
                        assert(p < t.len());
                        if k > p {
                            assert(t[p].0 < t[k].0);
                        }
                    }
                }
            }
            assert forall|k: int| 0 <= k < u.len() implies #[trigger] u[k].1 == occurrences(s, u[k].0) by {
                if k < p {
                    assert(u[k] == t[k]);
                } else if k > p {
                    assert(u[k] == t[k - 1]);
                }
            }
        }
    }
}

/// The leaves of a text's code tree carry exactly the text's characters,
/// with one more zero-weight `'\0'` leaf when the text has a single
/// distinct character.
pub proof fn lemma_tree_leaves(s: Seq<char>)
    requires
        s.len() > 0,
    ensures
        char_counts(s).len() >= 2 ==> leaf_symbols(huffman_tree(char_counts(s))) == text_symbols(s),
        char_counts(s).len() == 1 ==> leaf_symbols(huffman_tree(char_counts(s))) == text_symbols(
            s,
        ).insert('\0'),
{
    let t = char_counts(s);
    let sorted = sort_by_freq(t);
    lemma_sort_total(t);
    lemma_sort_symbols(t);
    lemma_counts_symbols(s);
    if sorted.len() == 1 {
        assert(sorted.drop_last() =~= Seq::<(char, usize)>::empty());
        assert(table_symbols(sorted.drop_last()) =~= Set::<char>::empty());
        assert(sorted.last() == sorted[0]);
        assert(table_symbols(sorted) =~= set![sorted[0].0]);
        let tr = single_symbol_tree(sorted[0]);
        assert(tree_of_sorted(sorted) == tr);
        match tr {
            HuffmanNode::Internal { left, right, .. } => {
                assert(leaf_symbols(*left) == set![sorted[0].0]);
                assert(leaf_symbols(*right) == set!['\0']);
            },
            _ => {},
        }
        assert(leaf_symbols(tr) =~= set![sorted[0].0].insert('\0'));
    } else if sorted.len() >= 2 {
        lemma_leaf_queue_symbols(sorted);
        lemma_leaf_queue_total(sorted);
        lemma_merge_symbols(leaf_queue(sorted), sorted.len());
    }
}

/// Every internal node weighs what its two children weigh together.
pub open spec fn weights_add_up(node: HuffmanNode) -> bool
    decreases node,
{
    match node {
        HuffmanNode::Leaf { .. } => true,
        HuffmanNode::Internal { freq, left, right } => {
            &&& freq == left.weight() + right.weight()
            &&& weights_add_up(*left)
            &&& weights_add_up(*right)
        },
    }
}

spec fn queue_weights_ok(q: Seq<QueueEntry>) -> bool {
    forall|k: int|
        0 <= k < q.len() ==> weights_add_up(#[trigger] q[k].node) && q[k].node.weight() == q[k].freq
}

proof fn lemma_leaf_queue_weights(sorted: Seq<(char, usize)>)
    ensures
        queue_weights_ok(leaf_queue(sorted)),
    decreases sorted.len(),
{
    if sorted.len() > 0 {
        lemma_leaf_queue_weights(sorted.drop_last());
        let prev = leaf_queue(sorted.drop_last());
        let e = leaf_entry(sorted.last(), sorted.len() - 1);
        assert(leaf_queue(sorted) == prev.push(e));
        assert forall|k: int| 0 <= k < prev.push(e).len() implies weights_add_up(
            #[trigger] prev.push(e)[k].node,
        ) && prev.push(e)[k].node.weight() == prev.push(e)[k].freq by {
            if k < prev.len() {
                assert(prev.push(e)[k] == prev[k]);
            }
        }
    }
}

proof fn lemma_merge_weights(q: Seq<QueueEntry>, seq: nat)
    requires
        q.len() >= 1,
        queue_weights_ok(q),
        queue_total(q) <= usize::MAX,
    ensures
        weights_add_up(merge_queue(q, seq)),
        merge_queue(q, seq).weight() == queue_total(q),
    decreases q.len(),
{
    if q.len() == 1 {
        assert(queue_total(q.drop_last()) == 0);
        assert(q.last() == q[0]);
        assert(queue_total(q) == q[0].freq);
    } else {
        let i = min_index(q);
        lemma_min_index_bound(q);
        let a = q[i];
        let q1 = q.remove(i);
        let j = min_index(q1);
        lemma_min_index_bound(q1);
        let b = q1[j];
        let q2 = q1.remove(j);
        let e = merged_entry(a, b, seq);
        lemma_queue_remove(q, i);
        lemma_queue_remove(q1, j);
        lemma_queue_nonneg(q2);
        assert(a.freq + b.freq <= queue_total(q));
        let q3 = q2.push(e);
        assert(q3.drop_last() =~= q2);
        assert(queue_total(q3) == queue_total(q));
        assert forall|k: int| 0 <= k < q1.len() implies #[trigger] q1[k] == (if k < i {
            q[k]
        } else {
            q[k + 1]
        }) by {}
        assert forall|k: int| 0 <= k < q3.len() implies weights_add_up(#[trigger] q3[k].node)
            && q3[k].node.weight() == q3[k].freq by {
            if k < q2.len() {
                let k1 = if k < j {
                    k
                } else {
                    k + 1
                };
                assert(q3[k] == q1[k1]);
                let k0 = if k1 < i {
                    k1
                } else {
                    k1 + 1
                };
                assert(q1[k1] == q[k0]);
            } else {
                assert(q3[k] == e);
                assert(q[i].node.weight() == q[i].freq);
                assert(q1[j] == q[if j < i { j } else { j + 1 }]);
            }
        }
        lemma_merge_weights(q3, seq + 1);
    }
}

/// In a text's code tree every internal node weighs what its children weigh
/// together, and the root weighs the length of the text.
pub proof fn lemma_tree_weights(s: Seq<char>)
    requires
        0 < s.len() <= usize::MAX,
    ensures
        weights_add_up(huffman_tree(char_counts(s))),
        huffman_tree(char_counts(s)).weight() == s.len(),
{
    let t = char_counts(s);
    let sorted = sort_by_freq(t);
    lemma_sort_total(t);
    lemma_counts_total(s);
    lemma_counts_nonempty(s);
    if sorted.len() == 1 {
        assert(freq_total(sorted.drop_last()) == 0);
        assert(sorted.last() == sorted[0]);
        assert(freq_total(sorted) == sorted[0].1);
        let tr = single_symbol_tree(sorted[0]);
        assert(huffman_tree(t) == tr);
        match tr {
            HuffmanNode::Internal { left, right, .. } => {
                assert(weights_add_up(*left) && weights_add_up(*right));
            },
            _ => {},
        }
    } else {
        lemma_leaf_queue_total(sorted);
        lemma_leaf_queue_weights(sorted);
        lemma_merge_weights(leaf_queue(sorted), sorted.len());
    }
}

/// The length of the code `codes` give `c`, zero when there is none.
pub open spec fn code_len(codes: Seq<(char, Seq<bool>)>, c: char) -> nat {
    match code_for(codes, c) {
        Some(code) => code.len(),
        None => 0,
    }
}

/// Each table entry's count times the length of its character's code,
/// summed over the table.
pub open spec fn weighted_len(t: Seq<(char, usize)>, codes: Seq<(char, Seq<bool>)>) -> int
    decreases t.len(),
{
    if t.len() == 0 {
        0
    } else {
        weighted_len(t.drop_last(), codes) + t.last().1 * code_len(codes, t.last().0)
    }
}

proof fn lemma_weighted_insert(
    t: Seq<(char, usize)>,
    codes: Seq<(char, Seq<bool>)>,
    p: int,
    x: (char, usize),
)
    requires
        0 <= p <= t.len(),
    ensures
        weighted_len(t.insert(p, x), codes) == weighted_len(t, codes) + x.1 * code_len(codes, x.0),
    decreases t.len(),
{
    if p == t.len() {
        assert(t.insert(p, x).drop_last() =~= t);
    } else {
        lemma_weighted_insert(t.drop_last(), codes, p, x);
        assert(t.insert(p, x).drop_last() =~= t.drop_last().insert(p, x));
    }
}

proof fn lemma_weighted_update(
    t: Seq<(char, usize)>,
    codes: Seq<(char, Seq<bool>)>,
    p: int,
    x: (char, usize),
)
    requires
        0 <= p < t.len(),
    ensures
        weighted_len(t.update(p, x), codes) == weighted_len(t, codes) - t[p].1 * code_len(codes, t[p].0)
            + x.1 * code_len(codes, x.0),
    decreases t.len(),
{
    if p == t.len() - 1 {
        assert(t.update(p, x).drop_last() =~= t.drop_last());
    } else {
        lemma_weighted_update(t.drop_last(), codes, p, x);
        assert(t.update(p, x).drop_last() =~= t.drop_last().update(p, x));
    }
}

/// The code bits of a text number, for each distinct character, its count
/// in the frequency table times the length of its code; for an encoding,
/// `bit_length` is this sum over `freq_table` with the text's own codes.
pub proof fn lemma_bits_weighted(codes: Seq<(char, Seq<bool>)>, s: Seq<char>)
    requires
        s.len() <= usize::MAX,
    ensures
        bits_for(codes, s).len() == weighted_len(char_counts(s), codes),
    decreases s.len(),
{
    if s.len() > 0 {
        let s0 = s.drop_last();
        lemma_bits_weighted(codes, s0);
        lemma_counts_bounded(s0);
        let t = char_counts(s0);
        let c = s.last();
        let l = code_len(codes, c);
        lemma_char_slot_bound(t, c);
        let p = char_slot(t, c);
        if p < t.len() && t[p].0 == c {
            let n = t[p].1;
            assert(n <= s0.len());
            lemma_weighted_update(t, codes, p, (c, (n + 1) as usize));
            assert((n + 1) * l == n * l + l) by (nonlinear_arith);
        } else {
            lemma_weighted_insert(t, codes, p, (c, 1usize));
        }
    }
}

/// The bit length of a text's encoding is the sum over its frequency table
/// of each count times the length of the character's code.
pub proof fn lemma_encoded_len(s: Seq<char>)
    requires
        s.len() <= usize::MAX,
    ensures
        encoded_bits(s).len() == weighted_len(char_counts(s), text_codes(s)),
{
    lemma_bits_weighted(text_codes(s), s);
}

/// The leaves of a code tree, left to right, as (symbol, weight).
pub open spec fn leaves(node: HuffmanNode) -> Seq<(char, usize)>
    decreases node,
{
    match node {
        HuffmanNode::Leaf { symbol, freq } => seq![(symbol, freq)],
        HuffmanNode::Internal { left, right, .. } => leaves(*left) + leaves(*right),
    }
}

/// Each entry of `l` carries the number of times its character occurs in `s`.
pub open spec fn counts_match(s: Seq<char>, l: Seq<(char, usize)>) -> bool {
    forall|k: int| 0 <= k < l.len() ==> (#[trigger] l[k]).1 == occurrences(s, l[k].0)
}

spec fn queue_counts_ok(s: Seq<char>, q: Seq<QueueEntry>) -> bool {
    forall|k: int| 0 <= k < q.len() ==> counts_match(s, leaves(#[trigger] q[k].node))
}

proof fn lemma_sort_members(t: Seq<(char, usize)>)
    ensures
        forall|k: int|
            0 <= k < sort_by_freq(t).len() ==> exists|m: int| 0 <= m < t.len() && #[trigger] sort_by_freq(t)[k] == t[m],
    decreases t.len(),
{
    lemma_sort_total(t);
    if t.len() > 0 {
        let t0 = t.drop_last();
        lemma_sort_members(t0);
        let sorted = sort_by_freq(t0);
        lemma_sort_total(t0);
        lemma_freq_slot_bound(sorted, t.last());
        let p = freq_slot(sorted, t.last());
        assert forall|k: int| 0 <= k < sort_by_freq(t).len() implies exists|m: int|
            0 <= m < t.len() && #[trigger] sort_by_freq(t)[k] == t[m] by {
            let u = sorted.insert(p, t.last());
            assert(sort_by_freq(t) == u);
            if k < p {
                assert(u[k] == sorted[k]);
                let m = choose|m: int| 0 <= m < t0.len() && sorted[k] == t0[m];
                assert(t0[m] == t[m]);
            } else if k == p {
                assert(u[k] == t[t.len() - 1]);
            } else {
                assert(u[k] == sorted[k - 1]);
                let m = choose|m: int| 0 <= m < t0.len() && sorted[k - 1] == t0[m];
                assert(t0[m] == t[m]);
            }
        }
    }
}

proof fn lemma_leaf_queue_counts(s: Seq<char>, sorted: Seq<(char, usize)>)
    requires
        counts_match(s, sorted),
    ensures
        queue_counts_ok(s, leaf_queue(sorted)),
    decreases sorted.len(),
{
    if sorted.len() > 0 {
        let sd = sorted.drop_last();
        assert(counts_match(s, sd)) by {
            assert forall|k: int| 0 <= k < sd.len() implies (#[trigger] sd[k]).1 == occurrences(s, sd[k].0) by {
                assert(sd[k] == sorted[k]);
            }
        }
        lemma_leaf_queue_counts(s, sd);
        let prev = leaf_queue(sd);
        let e = leaf_entry(sorted.last(), sorted.len() - 1);
        assert(leaf_queue(sorted) == prev.push(e));
        assert(leaves(e.node) == seq![(sorted.last().0, sorted.last().1)]);
        assert(counts_match(s, leaves(e.node))) by {
            assert(sorted.last() == sorted[sorted.len() - 1]);
        }
        assert forall|k: int| 0 <= k < prev.push(e).len() implies counts_match(s, leaves(#[trigger] prev.push(e)[k].node)) by {
            if k < prev.len() {
                assert(prev.push(e)[k] == prev[k]);
            }
        }
    }
}

proof fn lemma_merge_counts(s: Seq<char>, q: Seq<QueueEntry>, seq: nat)
    requires
        q.len() >= 1,
        queue_counts_ok(s, q),
    ensures
        counts_match(s, leaves(merge_queue(q, seq))),
    decreases q.len(),
{
    if q.len() > 1 {
        let i = min_index(q);
        lemma_min_index_bound(q);
        let a = q[i];
        let q1 = q.remove(i);
        let j = min_index(q1);
        lemma_min_index_bound(q1);
        let b = q1[j];
        let q2 = q1.remove(j);
        let e = merged_entry(a, b, seq);
        let q3 = q2.push(e);
        assert(leaves(e.node) == leaves(a.node) + leaves(b.node));
        assert(q1[j] == q[if j < i { j } else { j + 1 }]);
        assert(counts_match(s, leaves(e.node))) by {
            let la = leaves(a.node);
            let lb = leaves(b.node);
            assert(counts_match(s, la) && counts_match(s, lb));
            assert forall|k: int| 0 <= k < (la + lb).len() implies (#[trigger] (la + lb)[k]).1 == occurrences(
                s,
                (la + lb)[k].0,
            ) by {
                if k < la.len() {
                    assert((la + lb)[k] == la[k]);
                } else {
                    assert((la + lb)[k] == lb[k - la.len()]);
                }
            }
        }
        assert forall|k: int| 0 <= k < q3.len() implies counts_match(s, leaves(#[trigger] q3[k].node)) by {
            if k < q2.len() {
                let k1 = if k < j { k } else { k + 1 };
                assert(q3[k] == q1[k1]);
                let k0 = if k1 < i { k1 } else { k1 + 1 };
                assert(q1[k1] == q[k0]);
            } else {
                assert(q3[k] == e);
            }
        }
        lemma_merge_counts(s, q3, seq + 1);
    }
}

/// Each leaf of a text's code tree carries the number of times its
/// character occurs in the text. With a single distinct character the tree
/// is that character's leaf, carrying the text's length, and a `'\0'` leaf
/// carrying zero.
pub proof fn lemma_tree_leaf_counts(s: Seq<char>)
    requires
        0 < s.len() <= usize::MAX,
    ensures
        char_counts(s).len() >= 2 ==> counts_match(s, leaves(huffman_tree(char_counts(s)))),
        char_counts(s).len() == 1 ==> leaves(huffman_tree(char_counts(s))) == seq![
            (s[0], s.len() as usize),
            ('\0', 0usize),
        ],
{
    let t = char_counts(s);
    let sorted = sort_by_freq(t);
    lemma_freq_table(s);
    lemma_sort_total(t);
    lemma_sort_members(t);
    assert(counts_match(s, sorted)) by {
        assert forall|k: int| 0 <= k < sorted.len() implies (#[trigger] sorted[k]).1 == occurrences(s, sorted[k].0) by {
            let m = choose|m: int| 0 <= m < t.len() && sorted[k] == t[m];
            assert(t[m].1 == occurrences(s, t[m].0));
        }
    }
    if sorted.len() == 1 {
        lemma_counts_total(s);
        assert(freq_total(t.drop_last()) == 0);
        assert(t.last() == t[0]);
        assert(t[0].1 == s.len());
        lemma_text_has(s, 0);
        lemma_table_symbols_has(t, s[0]);
        assert(t[0].0 == s[0]);
        let m = choose|m: int| 0 <= m < t.len() && sorted[0] == t[m];
        assert(sorted[0] == t[0]);
        let tr = single_symbol_tree(sorted[0]);
        assert(huffman_tree(t) == tr);
        match tr {
            HuffmanNode::Internal { left, right, .. } => {
                assert(leaves(*left) == seq![(s[0], s.len() as usize)]);
                assert(leaves(*right) == seq![('\0', 0usize)]);
            },
            _ => {},
        }
        assert(leaves(tr) =~= seq![(s[0], s.len() as usize), ('\0', 0usize)]);
    } else if sorted.len() >= 2 {
        lemma_leaf_queue_total(sorted);
        lemma_leaf_queue_counts(s, sorted);
        lemma_merge_counts(s, leaf_queue(sorted), sorted.len());
    }
}

} // verus!
