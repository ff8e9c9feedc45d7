//! Compressed trie (Patricia trie) for prefix search on clip content.
//!
//! Each edge carries a string label rather than a single character, so
//! chains of single-child nodes are collapsed into one edge. The children
//! of a node form a list in which no two labels start with the same
//! character.
use crate::text::{capped, chars_of, lowercase, string_from_chars, take_chars, to_lower, trim_str, trimmed};
use vstd::prelude::*;

verus! {

broadcast use vstd::string::group_string_axioms;

/// Maximum number of characters indexed per clip.
pub const MAX_INDEX_LEN: usize = 200;

/// `p` is a prefix of `s`.
pub open spec fn prefix_of(p: Seq<char>, s: Seq<char>) -> bool {
    p.len() <= s.len() && s.take(p.len() as int) == p
}

/// The key under which content is indexed: trimmed, lowercased and cut to
/// `MAX_INDEX_LEN` characters.
pub open spec fn index_key(s: Seq<char>) -> Seq<char> {
    capped(lowercase(trimmed(s)), MAX_INDEX_LEN as nat)
}

struct TrieNode {
    label: Vec<char>,
    clip_ids: Vec<i64>,
    child: Option<Box<TrieNode>>,
    sibling: Option<Box<TrieNode>>,
}

/// The list starting at `l` holds id `x` under key `k`: some node of the
/// list has a label that begins `k`, and either holds `x` itself when the
/// label is all of `k`, or its children hold `x` under the rest of `k`.
spec fn list_holds(l: Option<Box<TrieNode>>, k: Seq<char>, x: i64) -> bool
    decreases l,
{
    match l {
        None => false,
        Some(b) => {
            ||| (prefix_of(b.label@, k) && ((k.len() == b.label@.len() && b.clip_ids@.contains(x))
                || list_holds(b.child, k.skip(b.label@.len() as int), x)))
            ||| list_holds(b.sibling, k, x)
        },
    }
}

/// Some node of the list has a label starting with `c`.
spec fn list_has_first(l: Option<Box<TrieNode>>, c: char) -> bool
    decreases l,
{
    match l {
        None => false,
        Some(b) => b.label@[0] == c || list_has_first(b.sibling, c),
    }
}

/// Every label in the list is non-empty, no two siblings start alike, and
/// the same holds below.
spec fn list_wf(l: Option<Box<TrieNode>>) -> bool
    decreases l,
{
    match l {
        None => true,
        Some(b) => {
            &&& b.label@.len() > 0
            &&& !list_has_first(b.sibling, b.label@[0])
            &&& list_wf(b.child)
            &&& list_wf(b.sibling)
        },
    }
}

/// The node of the list whose label starts with `c`.
spec fn find_child(l: Option<Box<TrieNode>>, c: char) -> Option<TrieNode>
    decreases l,
{
    match l {
        None => None,
        Some(b) => if b.label@[0] == c {
            Some(*b)
        } else {
            find_child(b.sibling, c)
        },
    }
}

/// Every id held anywhere in the list.
spec fn list_ids(l: Option<Box<TrieNode>>) -> Set<i64>
    decreases l,
{
    match l {
        None => Set::empty(),
        Some(b) => b.clip_ids@.to_set() + list_ids(b.child) + list_ids(b.sibling),
    }
}

/// `n` holds `x` under key `k` (the key starts with the node's label).
spec fn node_holds(n: TrieNode, k: Seq<char>, x: i64) -> bool {
    prefix_of(n.label@, k) && ((k.len() == n.label@.len() && n.clip_ids@.contains(x))
        || list_holds(n.child, k.skip(n.label@.len() as int), x))
}

/// Every id held at `n` or below.
spec fn node_ids(n: TrieNode) -> Set<i64> {
    n.clip_ids@.to_set() + list_ids(n.child)
}

/// The list holds `x` under some key that starts with `q`.
spec fn list_match(l: Option<Box<TrieNode>>, q: Seq<char>, x: i64) -> bool {
    exists|k: Seq<char>| #[trigger] list_holds(l, k, x) && prefix_of(q, k)
}

/// Number of nodes in the sibling list `l`.
spec fn list_len(l: Option<Box<TrieNode>>) -> nat
    decreases l,
{
    match l {
        None => 0,
        Some(b) => 1 + list_len(b.sibling),
    }
}

/// Path compression: every node of the list, and below it, either holds
/// ids or branches into at least two edges.
spec fn list_compressed(l: Option<Box<TrieNode>>) -> bool
    decreases l,
{
    match l {
        None => true,
        Some(b) => {
            &&& (b.clip_ids@.len() > 0 || list_len(b.child) >= 2)
            &&& list_compressed(b.child)
            &&& list_compressed(b.sibling)
        },
    }
}

proof fn lemma_prefix_skip(p: Seq<char>, k: Seq<char>)
    requires
        prefix_of(p, k),
    ensures
        p + k.skip(p.len() as int) == k,
{
    assert(p + k.skip(p.len() as int) =~= k);
}

/// A list holds nothing under a key whose first character no label starts with.
proof fn lemma_no_first(l: Option<Box<TrieNode>>, k: Seq<char>, x: i64)
    requires
        list_wf(l),
        k.len() > 0,
        !list_has_first(l, k[0]),
    ensures
        !list_holds(l, k, x),
    decreases l,
{
    match l {
        None => {},
        Some(b) => {
            if prefix_of(b.label@, k) {
                assert(b.label@[0] == k.take(b.label@.len() as int)[0]);
            }
            lemma_no_first(b.sibling, k, x);
        },
    }
}

/// Under a non-empty key, only the child starting with the key's first
/// character can hold anything.
proof fn lemma_find_child(l: Option<Box<TrieNode>>, k: Seq<char>, x: i64)
    requires
        list_wf(l),
        k.len() > 0,
    ensures
        list_holds(l, k, x) == match find_child(l, k[0]) {
            None => false,
            Some(n) => node_holds(n, k, x),
        },
        find_child(l, k[0]) matches Some(n) ==> n.label@.len() > 0 && n.label@[0] == k[0]
            && list_wf(n.child),
        find_child(l, k[0]) is None ==> !list_has_first(l, k[0]),
    decreases l,
{
    match l {
        None => {},
        Some(b) => {
            if b.label@[0] == k[0] {
                lemma_no_first(b.sibling, k, x);
            } else {
                if prefix_of(b.label@, k) {
                    assert(b.label@[0] == k.take(b.label@.len() as int)[0]);
                }
                lemma_find_child(b.sibling, k, x);
            }
        },
    }
}

/// `list_ids` collects exactly the ids the list holds under some key.
proof fn lemma_list_ids(l: Option<Box<TrieNode>>, x: i64)
    ensures
        list_ids(l).contains(x) == exists|k: Seq<char>| #[trigger] list_holds(l, k, x),
    decreases l,
{
    match l {
        None => {},
        Some(b) => {
            lemma_list_ids(b.child, x);
            lemma_list_ids(b.sibling, x);
            let lab = b.label@;
            if b.clip_ids@.contains(x) {
                assert(lab.take(lab.len() as int) =~= lab);
                assert(list_holds(l, lab, x));
            }
            if list_ids(b.child).contains(x) {
                let k2 = choose|k: Seq<char>| #[trigger] list_holds(b.child, k, x);
                let k = lab + k2;
                assert(k.take(lab.len() as int) =~= lab);
                assert(k.skip(lab.len() as int) =~= k2);
                assert(list_holds(l, k, x));
            }
            if list_ids(b.sibling).contains(x) {
                let k2 = choose|k: Seq<char>| #[trigger] list_holds(b.sibling, k, x);
                assert(list_holds(l, k2, x));
            }
            if exists|k: Seq<char>| #[trigger] list_holds(l, k, x) {
                let k = choose|k: Seq<char>| #[trigger] list_holds(l, k, x);
                if list_holds(b.sibling, k, x) {
                } else if k.len() == lab.len() && b.clip_ids@.contains(x) {
                    assert(b.clip_ids@.to_set().contains(x));
                } else {
                    assert(list_holds(b.child, k.skip(lab.len() as int), x));
                }
            }
        },
    }
}

/// `node_ids` collects exactly the ids the node holds under some key.
proof fn lemma_node_ids(n: TrieNode, x: i64)
    ensures
        node_ids(n).contains(x) == exists|k: Seq<char>| #[trigger] node_holds(n, k, x),
{
    lemma_list_ids(n.child, x);
    let lab = n.label@;
    if n.clip_ids@.contains(x) {
        assert(lab.take(lab.len() as int) =~= lab);
        assert(node_holds(n, lab, x));
    }
    if list_ids(n.child).contains(x) {
        let k2 = choose|k: Seq<char>| #[trigger] list_holds(n.child, k, x);
        let k = lab + k2;
        assert(k.take(lab.len() as int) =~= lab);
        assert(k.skip(lab.len() as int) =~= k2);
        assert(node_holds(n, k, x));
    }
    if exists|k: Seq<char>| #[trigger] node_holds(n, k, x) {
        let k = choose|k: Seq<char>| #[trigger] node_holds(n, k, x);
        if k.len() == lab.len() && n.clip_ids@.contains(x) {
            assert(n.clip_ids@.to_set().contains(x));
        } else {
            assert(list_holds(n.child, k.skip(lab.len() as int), x));
        }
    }
}

/// `a + b` begins `k` exactly when `a` does and `b` begins the rest.
proof fn lemma_prefix_split(a: Seq<char>, b: Seq<char>, k: Seq<char>)
    ensures
        prefix_of(a + b, k) == (prefix_of(a, k) && prefix_of(b, k.skip(a.len() as int))),
        k.len() >= a.len() + b.len() ==> k.skip(a.len() as int).skip(b.len() as int) == k.skip(
            (a.len() + b.len()) as int,
        ),
{
    if prefix_of(a + b, k) {
        assert(k.take(a.len() as int) =~= (a + b).take(a.len() as int));
        assert((a + b).take(a.len() as int) =~= a);
        assert forall|j: int| 0 <= j < b.len() implies k.skip(a.len() as int).take(
            b.len() as int,
        )[j] == b[j] by {
            assert(k.take((a.len() + b.len()) as int)[a.len() + j] == (a + b)[a.len() + j]);
        }
        assert(k.skip(a.len() as int).take(b.len() as int) =~= b);
    }
    if prefix_of(a, k) && prefix_of(b, k.skip(a.len() as int)) {
        assert(k.take((a.len() + b.len()) as int) =~= a + b);
    }
    if k.len() >= a.len() + b.len() {
        assert(k.skip(a.len() as int).skip(b.len() as int) =~= k.skip((a.len() + b.len()) as int));
    }
}

/// Two prefixes of one key agree where both are defined.
proof fn lemma_prefixes_agree(p: Seq<char>, r: Seq<char>, k: Seq<char>, i: int)
    requires
        prefix_of(p, k),
        prefix_of(r, k),
        0 <= i < p.len(),
        i < r.len(),
    ensures
        p[i] == r[i],
{
    assert(p[i] == k.take(p.len() as int)[i]);
    assert(r[i] == k.take(r.len() as int)[i]);
}

/// What a node offers a query `r` that reaches it: the ids it holds under
/// keys starting with `r`.
proof fn lemma_descend(m: TrieNode, r: Seq<char>, x: i64)
    requires
        m.label@.len() > 0,
        r.len() > 0,
    ensures
        (exists|k: Seq<char>| #[trigger] node_holds(m, k, x) && prefix_of(r, k)) == if r.len()
            < m.label@.len() {
            prefix_of(r, m.label@) && node_ids(m).contains(x)
        } else if !prefix_of(m.label@, r) {
            false
        } else if r.len() == m.label@.len() {
            node_ids(m).contains(x)
        } else {
            list_match(m.child, r.skip(m.label@.len() as int), x)
        },
{
    let lab = m.label@;
    lemma_node_ids(m, x);
    if exists|k: Seq<char>| #[trigger] node_holds(m, k, x) && prefix_of(r, k) {
        let k = choose|k: Seq<char>| #[trigger] node_holds(m, k, x) && prefix_of(r, k);
        if r.len() < lab.len() {
            assert forall|i: int| 0 <= i < r.len() implies r[i] == lab[i] by {
                lemma_prefixes_agree(lab, r, k, i);
            }
            assert(lab.take(r.len() as int) =~= r);
        } else {
            assert forall|i: int| 0 <= i < lab.len() implies r[i] == lab[i] by {
                lemma_prefixes_agree(lab, r, k, i);
            }
            assert(r.take(lab.len() as int) =~= lab);
            if r.len() > lab.len() {
                let k2 = k.skip(lab.len() as int);
                assert(list_holds(m.child, k2, x));
                lemma_prefix_skip(lab, r);
                lemma_prefix_split(lab, r.skip(lab.len() as int), k);
                assert(list_holds(m.child, k2, x) && prefix_of(r.skip(lab.len() as int), k2));
            }
        }
    }
    if r.len() < lab.len() && prefix_of(r, lab) && node_ids(m).contains(x) {
        let k = choose|k: Seq<char>| #[trigger] node_holds(m, k, x);
        assert(k.take(r.len() as int) =~= lab.take(r.len() as int));
        assert(node_holds(m, k, x) && prefix_of(r, k));
    }
    if r.len() >= lab.len() && prefix_of(lab, r) {
        if r.len() == lab.len() && node_ids(m).contains(x) {
            let k = choose|k: Seq<char>| #[trigger] node_holds(m, k, x);
            assert(r =~= lab);
            assert(node_holds(m, k, x) && prefix_of(r, k));
        }
        if r.len() > lab.len() && list_match(m.child, r.skip(lab.len() as int), x) {
            let r2 = r.skip(lab.len() as int);
            let k2 = choose|k: Seq<char>| #[trigger] list_holds(m.child, k, x) && prefix_of(r2, k);
            let k = lab + k2;
            lemma_prefix_skip(lab, r);
            lemma_prefix_split(lab, r2, k);
            assert(k.take(lab.len() as int) =~= lab);
            assert(k.skip(lab.len() as int) =~= k2);
            assert(node_holds(m, k, x) && prefix_of(r, k));
        }
    }
}

impl TrieNode {
    /// A node with the given edge label, no ids and no children.
    fn new(edge_label: Vec<char>) -> (n: TrieNode)
        ensures
            n.label@ == edge_label@,
            n.clip_ids@.len() == 0,
            n.child is None,
            n.sibling is None,
    {
        TrieNode { label: edge_label, clip_ids: Vec::new(), child: None, sibling: None }
    }
}

/// The characters `v[from..to]`.
fn slice_chars(v: &Vec<char>, from: usize, to: usize) -> (r: Vec<char>)
    requires
        from <= to <= v@.len(),
    ensures
        r@ == v@.subrange(from as int, to as int),
{
    let mut r: Vec<char> = Vec::new();
    let mut i = from;
    while i < to
        invariant
            from <= i <= to <= v@.len(),
            r@ == v@.subrange(from as int, i as int),
        decreases to - i,
    {
        r.push(v[i]);
        assert(v@.subrange(from as int, i + 1) =~= v@.subrange(from as int, i as int).push(
            v@[i as int],
        ));
        i = i + 1;
    }
    r
}

/// Adds `x` to `v` unless it is already there.
fn push_unique(v: &mut Vec<i64>, x: i64)
    ensures
        forall|y: i64| #[trigger] final(v)@.contains(y) == (old(v)@.contains(y) || y == x),
        old(v)@.no_duplicates() ==> final(v)@.no_duplicates(),
{
    let mut i: usize = 0;
    while i < v.len()
        invariant
            i <= v@.len(),
            forall|t: int| 0 <= t < i ==> v@[t] != x,
        decreases v@.len() - i,
    {
        if v[i] == x {
            assert(v@.contains(x));
            return;
        }
        i = i + 1;
    }
    let ghost before = v@;
    v.push(x);
    proof {
        assert forall|y: i64| #[trigger] v@.contains(y) == (before.contains(y) || y == x) by {
            if v@.contains(y) {
                let t = choose|t: int| 0 <= t < v@.len() && v@[t] == y;
                if t < before.len() {
                    assert(before[t] == y);
                }
            }
            if before.contains(y) {
                let t = choose|t: int| 0 <= t < before.len() && before[t] == y;
                assert(v@[t] == y);
            }
            if y == x {
                assert(v@[before.len() as int] == x);
            }
        }
    }
}

/// A key equals `p + tail` exactly when `p` begins it and `tail` is the rest.
proof fn lemma_concat_eq(p: Seq<char>, tail: Seq<char>, k: Seq<char>)
    ensures
        (prefix_of(p, k) && k.skip(p.len() as int) == tail) == (k == p + tail),
{
    if prefix_of(p, k) && k.skip(p.len() as int) == tail {
        lemma_prefix_skip(p, k);
    }
    if k == p + tail {
        assert(k.take(p.len() as int) =~= p);
        assert(k.skip(p.len() as int) =~= tail);
    }
}

/// A single leaf holds exactly one entry.
proof fn lemma_leaf(leaf: TrieNode, id: i64)
    requires
        leaf.clip_ids@ == seq![id],
        leaf.child is None,
        leaf.sibling is None,
        leaf.label@.len() > 0,
    ensures
        forall|k: Seq<char>, x: i64|
            #[trigger] list_holds(Some(Box::new(leaf)), k, x) == (k == leaf.label@ && x == id),
        list_wf(Some(Box::new(leaf))),
        forall|c: char| #[trigger] list_has_first(Some(Box::new(leaf)), c) == (c == leaf.label@[0]),
{
    reveal_with_fuel(list_holds, 2);
    reveal_with_fuel(list_wf, 2);
    reveal_with_fuel(list_has_first, 2);
    assert forall|k: Seq<char>, x: i64| #[trigger]
        list_holds(Some(Box::new(leaf)), k, x) == (k == leaf.label@ && x == id) by {
        if k == leaf.label@ {
            assert(k.take(k.len() as int) =~= k);
            assert(seq![id][0] == id);
        }
        if prefix_of(leaf.label@, k) && k.len() == leaf.label@.len() {
            assert(k =~= leaf.label@);
        }
    }
}

/// Splitting a node's edge after `i` characters keeps every entry and adds
/// the new one.
proof fn lemma_split(
    old_b: TrieNode,
    new_b: TrieNode,
    mid: TrieNode,
    key: Seq<char>,
    depth: int,
    i: int,
    id: i64,
)
    requires
        0 <= depth,
        1 <= i < old_b.label@.len(),
        depth + i <= key.len(),
        old_b.label@.take(i) == key.subrange(depth, depth + i),
        depth + i < key.len() ==> old_b.label@[i] != key[depth + i],
        new_b.label@ == old_b.label@.skip(i),
        new_b.clip_ids == old_b.clip_ids,
        new_b.child == old_b.child,
        mid.label@ == old_b.label@.take(i),
        mid.child == Some(Box::new(new_b)),
        mid.sibling == old_b.sibling,
        depth + i == key.len() ==> mid.clip_ids@ == seq![id] && new_b.sibling is None,
        depth + i < key.len() ==> mid.clip_ids@.len() == 0 && (new_b.sibling matches Some(
            leaf,
        ) && leaf.label@ == key.skip(depth + i) && leaf.clip_ids@ == seq![id] && leaf.child is None
            && leaf.sibling is None),
    ensures
        forall|k: Seq<char>, x: i64| #[trigger]
            list_holds(Some(Box::new(mid)), k, x) == (list_holds(Some(Box::new(old_b)), k, x) || (
            k == key.skip(depth) && x == id)),
{
    let lab = old_b.label@;
    let a = lab.take(i);
    let b = lab.skip(i);
    assert(a + b =~= lab);
    assert(key.skip(depth) =~= a + key.skip(depth + i));
    if depth + i < key.len() {
        let leaf = new_b.sibling->0;
        lemma_leaf(*leaf, id);
    }
    reveal_with_fuel(list_holds, 2);
    assert forall|k: Seq<char>, x: i64| #[trigger]
        list_holds(Some(Box::new(mid)), k, x) == (list_holds(Some(Box::new(old_b)), k, x) || (k
            == key.skip(depth) && x == id)) by {
        lemma_prefix_split(a, b, k);
        let r = k.skip(i);
        let nb = list_holds(Some(Box::new(new_b)), r, x);
        let t = list_holds(new_b.sibling, r, x);
        let node_b = prefix_of(b, r) && ((r.len() == b.len() && new_b.clip_ids@.contains(x))
            || list_holds(new_b.child, r.skip(b.len() as int), x));
        assert(nb == (node_b || t));
        let node_o = prefix_of(lab, k) && ((k.len() == lab.len() && old_b.clip_ids@.contains(x))
            || list_holds(old_b.child, k.skip(lab.len() as int), x));
        if prefix_of(lab, k) {
            assert(r.len() == k.len() - i);
            assert(r.skip(b.len() as int) =~= k.skip(lab.len() as int));
        }
        assert((prefix_of(a, k) && node_b) == node_o);
        let extra = prefix_of(a, k) && ((k.len() == i && mid.clip_ids@.contains(x)) || t);
        if depth + i == key.len() {
            assert(key.skip(depth + i) =~= Seq::<char>::empty());
            assert(a + Seq::<char>::empty() =~= a);
            if k == key.skip(depth) && x == id {
                assert(k =~= a);
                assert(k.take(i) =~= a);
                assert(mid.clip_ids@[0] == id);
            }
            if extra {
                assert(k.take(i) == a);
                assert(k =~= a);
                assert(x == id);
            }
            assert(extra == (k == key.skip(depth) && x == id));
        } else {
            lemma_concat_eq(a, key.skip(depth + i), k);
            assert(extra == (k == key.skip(depth) && x == id));
        }
    }
}

/// Inserts `clip_id` under the key `key[depth..]` into the child list `l`.
fn insert_at(l: &mut Option<Box<TrieNode>>, key: &Vec<char>, depth: usize, clip_id: i64)
    requires
        list_wf(*old(l)),
        depth < key@.len(),
    ensures
        list_wf(*final(l)),
        forall|k: Seq<char>, x: i64| #[trigger]
            list_holds(*final(l), k, x) == (list_holds(*old(l), k, x) || (k == key@.skip(
                depth as int,
            ) && x == clip_id)),
        forall|c: char| #[trigger]
            list_has_first(*final(l), c) == (list_has_first(*old(l), c) || c == key@[depth as int]),
        list_compressed(*old(l)) ==> list_compressed(*final(l)),
        list_len(*final(l)) >= list_len(*old(l)),
        list_len(*final(l)) >= 1,
    decreases key@.len() - depth, *old(l),
{
    assert(depth < key@.len());
    assert(list_wf(*l));
    let cur = l.take();
    assert(list_wf(cur));
    match cur {
        None => {
            let rem = slice_chars(key, depth, key.len());
            let mut leaf = TrieNode::new(rem);
            leaf.clip_ids.push(clip_id);
            proof {
                assert(leaf.clip_ids@ =~= seq![clip_id]);
                assert(rem@ =~= key@.skip(depth as int));
                lemma_leaf(leaf, clip_id);
                assert forall|k: Seq<char>, x: i64| !#[trigger] list_holds(None, k, x) by {}
                assert forall|c: char| !#[trigger] list_has_first(None, c) by {}
                assert(leaf.clip_ids@.len() > 0);
                assert(list_compressed(leaf.child) && list_compressed(leaf.sibling));
                assert(list_compressed(Some(Box::new(leaf))));
            }
            *l = Some(Box::new(leaf));
        },
        Some(mut b) => {
            let ghost old_b = *b;
            if b.label[0] != key[depth] {
                insert_at(&mut b.sibling, key, depth, clip_id);
                proof {
                    assert(list_wf(Some(b)));
                    assert forall|k: Seq<char>, x: i64| #[trigger]
                        list_holds(Some(b), k, x) == (list_holds(Some(Box::new(old_b)), k, x) || (k
                            == key@.skip(depth as int) && x == clip_id)) by {
                        let lab = b.label@;
                        let node = prefix_of(lab, k) && ((k.len() == lab.len() && b.clip_ids@.contains(x))
                            || list_holds(b.child, k.skip(lab.len() as int), x));
                        assert(list_holds(Some(b), k, x) == (node || list_holds(b.sibling, k, x)));
                        assert(list_holds(Some(Box::new(old_b)), k, x) == (node || list_holds(old_b.sibling, k, x)));
                    }
                    assert forall|c: char| #[trigger] list_has_first(Some(b), c) == (list_has_first(Some(Box::new(old_b)), c) || c == key@[depth as int]) by {
                        assert(list_has_first(Some(b), c) == (b.label@[0] == c || list_has_first(b.sibling, c)));
                        assert(list_has_first(Some(Box::new(old_b)), c) == (b.label@[0] == c || list_has_first(old_b.sibling, c)));
                    }
                    if list_compressed(Some(Box::new(old_b))) {
                        assert(list_compressed(Some(b)));
                    }
                }
                *l = Some(b);
            } else {
                let lab_len = b.label.len();
                let avail = key.len() - depth;
                let mut i: usize = 1;
                assert(b.label@.take(1) =~= key@.subrange(depth as int, depth + 1));
                while i < lab_len && i < avail
                    invariant
                        1 <= i <= lab_len,
                        i <= avail,
                        avail == key@.len() - depth,
                        depth < key@.len() <= usize::MAX,
                        lab_len == b.label@.len(),
                        b.label@.take(i as int) == key@.subrange(depth as int, depth + i),
                    ensures
                        1 <= i <= lab_len,
                        i <= avail,
                        b.label@.take(i as int) == key@.subrange(depth as int, depth + i),
                        i < lab_len && i < avail ==> b.label@[i as int] != key@[depth + i],
                    decreases lab_len - i,
                {
                    let at = depth + i;
                    if b.label[i] != key[at] {
                        break;
                    }
                    assert(b.label@.take(i + 1) =~= b.label@.take(i as int).push(b.label@[i as int]));
                    assert(key@.subrange(depth as int, depth + i + 1) =~= key@.subrange(
                        depth as int,
                        depth + i,
                    ).push(key@[depth + i]));
                    i = i + 1;
                }
                if i == lab_len {
                    proof {
                        assert(b.label@.take(i as int) =~= b.label@);
                        assert(key@.skip(depth as int) =~= b.label@ + key@.skip(depth + i));
                    }
                    if i == avail {
                        push_unique(&mut b.clip_ids, clip_id);
                        proof {
                            assert(key@.skip(depth as int) =~= b.label@);
                            assert forall|k: Seq<char>, x: i64| #[trigger]
                                list_holds(Some(b), k, x) == (list_holds(Some(Box::new(old_b)), k, x) || (k == key@.skip(
                                    depth as int,
                                ) && x == clip_id)) by {
                                let lab = b.label@;
                                assert(lab == old_b.label@);
                                assert(b.child == old_b.child);
                                assert(b.sibling == old_b.sibling);
                                assert(b.clip_ids@.contains(x) == (old_b.clip_ids@.contains(x) || x == clip_id));
                                if k == key@.skip(depth as int) {
                                    assert(k.take(lab.len() as int) =~= lab);
                                    assert(b.clip_ids@.contains(clip_id));
                                }
                                if prefix_of(lab, k) && k.len() == lab.len() {
                                    assert(k =~= lab);
                                }
                                let new_node = prefix_of(lab, k) && ((k.len() == lab.len() && b.clip_ids@.contains(x))
                                    || list_holds(b.child, k.skip(lab.len() as int), x));
                                let old_node = prefix_of(lab, k) && ((k.len() == lab.len() && old_b.clip_ids@.contains(x))
                                    || list_holds(old_b.child, k.skip(lab.len() as int), x));
                                assert(list_holds(Some(b), k, x) == (new_node || list_holds(b.sibling, k, x)));
                                assert(list_holds(Some(Box::new(old_b)), k, x) == (old_node || list_holds(old_b.sibling, k, x)));
                                assert(new_node == (old_node || (k == key@.skip(depth as int) && x == clip_id)));
                            }
                        }
                    } else {
                        insert_at(&mut b.child, key, depth + i, clip_id);
                        proof {
                            assert forall|k: Seq<char>, x: i64| #[trigger]
                                list_holds(Some(b), k, x) == (list_holds(Some(Box::new(old_b)), k, x) || (k == key@.skip(
                                    depth as int,
                                ) && x == clip_id)) by {
                                let lab = b.label@;
                                lemma_concat_eq(lab, key@.skip(depth + i), k);
                                let new_node = prefix_of(lab, k) && ((k.len() == lab.len() && b.clip_ids@.contains(x))
                                    || list_holds(b.child, k.skip(lab.len() as int), x));
                                let old_node = prefix_of(lab, k) && ((k.len() == lab.len() && old_b.clip_ids@.contains(x))
                                    || list_holds(old_b.child, k.skip(lab.len() as int), x));
                                assert(list_holds(Some(b), k, x) == (new_node || list_holds(b.sibling, k, x)));
                                assert(list_holds(Some(Box::new(old_b)), k, x) == (old_node || list_holds(old_b.sibling, k, x)));
                                assert(new_node == (old_node || (k == key@.skip(depth as int) && x == clip_id)));
                            }
                        }
                    }
                    proof {
                        assert(list_wf(Some(b)));
                        assert forall|c: char| #[trigger] list_has_first(Some(b), c) == (list_has_first(Some(Box::new(old_b)), c) || c == key@[depth as int]) by {
                        }
                        if list_compressed(Some(Box::new(old_b))) {
                            if i == avail {
                                assert(b.clip_ids@.contains(clip_id));
                                assert(b.clip_ids@.len() > 0);
                            } else {
                                assert(old_b.clip_ids@.len() > 0 || list_len(b.child) >= 2);
                            }
                            assert(list_compressed(Some(b)));
                        }
                    }
                    *l = Some(b);
                } else {
                    let common = slice_chars(&b.label, 0, i);
                    let suffix = slice_chars(&b.label, i, lab_len);
                    let rest = b.sibling.take();
                    b.label = suffix;
                    let mut mid = TrieNode::new(common);
                    if i == avail {
                        mid.clip_ids.push(clip_id);
                        assert(mid.clip_ids@ =~= seq![clip_id]);
                    } else {
                        let rem = slice_chars(key, depth + i, key.len());
                        let mut leaf = TrieNode::new(rem);
                        leaf.clip_ids.push(clip_id);
                        assert(leaf.clip_ids@ =~= seq![clip_id]);
                        assert(rem@ =~= key@.skip(depth + i));
                        proof {
                            lemma_leaf(leaf, clip_id);
                        }
                        b.sibling = Some(Box::new(leaf));
                    }
                    mid.child = Some(b);
                    mid.sibling = rest;
                    proof {
                        assert(common@ =~= old_b.label@.take(i as int));
                        assert(suffix@ =~= old_b.label@.skip(i as int));
                        lemma_split(old_b, *b, mid, key@, depth as int, i as int, clip_id);
                        assert(mid.label@[0] == old_b.label@[0]);
                        assert(b.label@[0] == old_b.label@[i as int]);
                        assert(list_wf(old_b.child));
                        assert(list_wf(b.sibling));
                        assert(!list_has_first(b.sibling, b.label@[0]));
                        assert(list_wf(mid.child));
                        assert(list_wf(Some(Box::new(mid))));
                        assert forall|c: char| #[trigger] list_has_first(Some(Box::new(mid)), c) == (list_has_first(Some(Box::new(old_b)), c) || c == key@[depth as int]) by {
                        }
                        if list_compressed(Some(Box::new(old_b))) {
                            assert(old_b.clip_ids@.len() > 0 || list_len(old_b.child) >= 2);
                            assert(list_compressed(old_b.child));
                            assert(b.clip_ids == old_b.clip_ids && b.child == old_b.child);
                            if i < avail {
                                let leaf = b.sibling->0;
                                assert(leaf.clip_ids@.len() > 0);
                                assert(list_compressed(leaf.child) && list_compressed(leaf.sibling));
                                assert(list_compressed(b.sibling));
                                assert(list_len(b.sibling) >= 1);
                                assert(list_len(mid.child) >= 2);
                            } else {
                                assert(mid.clip_ids@.len() > 0);
                                assert(b.sibling is None);
                            }
                            assert(b.clip_ids@.len() > 0 || list_len(b.child) >= 2);
                            assert(list_compressed(b.child));
                            assert(list_compressed(b.sibling));
                            assert(list_compressed(Some(b)));
                            assert(list_compressed(mid.child));
                            assert(list_compressed(Some(Box::new(mid))));
                        }
                    }
                    *l = Some(Box::new(mid));
                }
            }
        },
    }
}

/// Adds every id held in the list `l` to `out`, skipping ones already there.
fn collect_list(l: &Option<Box<TrieNode>>, out: &mut Vec<i64>)
    requires
        old(out)@.no_duplicates(),
    ensures
        final(out)@.no_duplicates(),
        forall|y: i64| #[trigger]
            final(out)@.contains(y) == (old(out)@.contains(y) || list_ids(*l).contains(y)),
    decreases l,
{
    match l {
        None => {},
        Some(b) => {
            let ghost start = out@;
            let mut j: usize = 0;
            while j < b.clip_ids.len()
                invariant
                    j <= b.clip_ids@.len(),
                    out@.no_duplicates(),
                    forall|y: i64| #[trigger]
                        out@.contains(y) == (start.contains(y) || b.clip_ids@.take(
                            j as int,
                        ).contains(y)),
                decreases b.clip_ids@.len() - j,
            {
                let ghost before = out@;
                push_unique(out, b.clip_ids[j]);
                proof {
                    let t = b.clip_ids@.take(j + 1);
                    assert(t =~= b.clip_ids@.take(j as int).push(b.clip_ids@[j as int]));
                    assert forall|y: i64| #[trigger]
                        out@.contains(y) == (start.contains(y) || t.contains(y)) by {
                        if t.contains(y) {
                            let p = choose|p: int| 0 <= p < t.len() && t[p] == y;
                            if p < j {
                                assert(b.clip_ids@.take(j as int)[p] == y);
                            }
                        }
                        if b.clip_ids@.take(j as int).contains(y) {
                            let p = choose|p: int| 0 <= p < j && b.clip_ids@.take(j as int)[p] == y;
                            assert(t[p] == y);
                        }
                        if y == b.clip_ids@[j as int] {
                            assert(t[j as int] == y);
                        }
                    }
                }
                j = j + 1;
            }
            assert(b.clip_ids@.take(b.clip_ids@.len() as int) =~= b.clip_ids@);
            collect_list(&b.child, out);
            collect_list(&b.sibling, out);
        },
    }
}

/// Every id held at `node` or below, without repeats.
fn collect_ids(node: &TrieNode) -> (out: Vec<i64>)
    ensures
        out@.no_duplicates(),
        forall|y: i64| #[trigger] out@.contains(y) == node_ids(*node).contains(y),
{
    let mut out: Vec<i64> = Vec::new();
    let mut j: usize = 0;
    while j < node.clip_ids.len()
        invariant
            j <= node.clip_ids@.len(),
            out@.no_duplicates(),
            forall|y: i64| #[trigger]
                out@.contains(y) == node.clip_ids@.take(j as int).contains(y),
        decreases node.clip_ids@.len() - j,
    {
        push_unique(&mut out, node.clip_ids[j]);
        proof {
            let t = node.clip_ids@.take(j + 1);
            assert(t =~= node.clip_ids@.take(j as int).push(node.clip_ids@[j as int]));
            assert forall|y: i64| #[trigger] out@.contains(y) == t.contains(y) by {
                if t.contains(y) {
                    let p = choose|p: int| 0 <= p < t.len() && t[p] == y;
                    if p < j {
                        assert(node.clip_ids@.take(j as int)[p] == y);
                    }
                }
                if node.clip_ids@.take(j as int).contains(y) {
                    let p = choose|p: int| 0 <= p < j && node.clip_ids@.take(j as int)[p] == y;
                    assert(t[p] == y);
                }
                if y == node.clip_ids@[j as int] {
                    assert(t[j as int] == y);
                }
            }
        }
        j = j + 1;
    }
    assert(node.clip_ids@.take(node.clip_ids@.len() as int) =~= node.clip_ids@);
    collect_list(&node.child, &mut out);
    out
}

/// The child of the list `l` whose label starts with `c`, if any.
fn find_in(l: &Option<Box<TrieNode>>, c: char) -> (r: Option<&TrieNode>)
    requires
        list_wf(*l),
    ensures
        match r {
            None => find_child(*l, c) is None,
            Some(n) => find_child(*l, c) == Some(*n),
        },
    decreases l,
{
    match l {
        None => None,
        Some(b) => {
            if b.label[0] == c {
                Some(&**b)
            } else {
                find_in(&b.sibling, c)
            }
        },
    }
}

/// The ids of `v` other than `id`.
fn without_id(v: &Vec<i64>, id: i64) -> (r: Vec<i64>)
    ensures
        forall|y: i64| #[trigger] r@.contains(y) == (v@.contains(y) && y != id),
{
    let mut r: Vec<i64> = Vec::new();
    let mut j: usize = 0;
    while j < v.len()
        invariant
            j <= v@.len(),
            forall|y: i64| #[trigger] r@.contains(y) == (v@.take(j as int).contains(y) && y != id),
        decreases v@.len() - j,
    {
        let ghost before = r@;
        let x = v[j];
        if x != id {
            r.push(x);
        }
        proof {
            let t = v@.take(j + 1);
            assert(t =~= v@.take(j as int).push(x));
            assert forall|y: i64| #[trigger] r@.contains(y) == (t.contains(y) && y != id) by {
                if t.contains(y) {
                    let p = choose|p: int| 0 <= p < t.len() && t[p] == y;
                    if p < j {
                        assert(v@.take(j as int)[p] == y);
                    }
                }
                if v@.take(j as int).contains(y) {
                    let p = choose|p: int| 0 <= p < j && v@.take(j as int)[p] == y;
                    assert(t[p] == y);
                }
                if r@.contains(y) {
                    let p = choose|p: int| 0 <= p < r@.len() && r@[p] == y;
                    if p < before.len() {
                        assert(before[p] == y);
                    }
                }
                if before.contains(y) {
                    let p = choose|p: int| 0 <= p < before.len() && before[p] == y;
                    assert(r@[p] == y);
                }
                if y == x && x != id {
                    assert(r@[before.len() as int] == y);
                    assert(t[j as int] == y);
                }
            }
        }
        j = j + 1;
    }
    assert(v@.take(v@.len() as int) =~= v@);
    r
}

/// Drops `clip_id` from every node of the list `l`, and removes nodes left
/// with neither ids nor children.
fn remove_id(l: &mut Option<Box<TrieNode>>, clip_id: i64)
    requires
        list_wf(*old(l)),
    ensures
        list_wf(*final(l)),
        forall|k: Seq<char>, x: i64| #[trigger]
            list_holds(*final(l), k, x) == (list_holds(*old(l), k, x) && x != clip_id),
        forall|c: char| #[trigger] list_has_first(*final(l), c) ==> list_has_first(*old(l), c),
    decreases *old(l),
{
    let cur = l.take();
    match cur {
        None => {},
        Some(mut b) => {
            let ghost old_b = *b;
            let kept = without_id(&b.clip_ids, clip_id);
            b.clip_ids = kept;
            remove_id(&mut b.child, clip_id);
            remove_id(&mut b.sibling, clip_id);
            proof {
                let lab = b.label@;
                assert forall|k: Seq<char>, x: i64| #[trigger]
                    list_holds(Some(b), k, x) == (list_holds(Some(Box::new(old_b)), k, x)
                        && x != clip_id) by {
                    let new_node = prefix_of(lab, k) && ((k.len() == lab.len()
                        && b.clip_ids@.contains(x)) || list_holds(
                        b.child,
                        k.skip(lab.len() as int),
                        x,
                    ));
                    let old_node = prefix_of(lab, k) && ((k.len() == lab.len()
                        && old_b.clip_ids@.contains(x)) || list_holds(
                        old_b.child,
                        k.skip(lab.len() as int),
                        x,
                    ));
                    assert(list_holds(Some(b), k, x) == (new_node || list_holds(b.sibling, k, x)));
                    assert(list_holds(Some(Box::new(old_b)), k, x) == (old_node || list_holds(
                        old_b.sibling,
                        k,
                        x,
                    )));
                }
                assert forall|c: char| #[trigger] list_has_first(b.sibling, c) implies list_has_first(
                    Some(Box::new(old_b)),
                    c,
                ) by {
                    assert(list_has_first(Some(Box::new(old_b)), c) == (lab[0] == c
                        || list_has_first(old_b.sibling, c)));
                }
            }
            if b.clip_ids.len() == 0 && b.child.is_none() {
                proof {
                    assert forall|k: Seq<char>, x: i64| #[trigger]
                        list_holds(b.sibling, k, x) == list_holds(Some(b), k, x) by {
                        assert(!list_holds(b.child, k.skip(b.label@.len() as int), x));
                        assert(!b.clip_ids@.contains(x));
                    }
                }
                *l = b.sibling.take();
            } else {
                proof {
                    assert(list_wf(Some(b)));
                    assert forall|c: char| #[trigger] list_has_first(Some(b), c) implies list_has_first(
                        Some(Box::new(old_b)),
                        c,
                    ) by {
                        assert(list_has_first(Some(b), c) == (b.label@[0] == c || list_has_first(
                            b.sibling,
                            c,
                        )));
                    }
                }
                *l = Some(b);
            }
        },
    }
}

/// The first characters of the labels in the list, in list order.
spec fn list_firsts(l: Option<Box<TrieNode>>) -> Seq<char>
    decreases l,
{
    match l {
        None => Seq::empty(),
        Some(b) => seq![b.label@[0]] + list_firsts(b.sibling),
    }
}

fn firsts_of(l: &Option<Box<TrieNode>>) -> (r: Vec<char>)
    requires
        list_wf(*l),
    ensures
        r@ == list_firsts(*l),
    decreases l,
{
    match l {
        None => Vec::new(),
        Some(b) => {
            let mut rest = firsts_of(&b.sibling);
            rest.insert(0, b.label[0]);
            assert(rest@ =~= seq![b.label@[0]] + list_firsts(b.sibling));
            rest
        },
    }
}

/// The key under which `s` is indexed.
fn normalize(s: &str) -> (key: Vec<char>)
    ensures
        key@ == index_key(s@),
{
    let lowered = to_lower(trim_str(s));
    let chars = chars_of(lowered.as_str());
    take_chars(&chars, MAX_INDEX_LEN)
}

/// Whether `label[..n]` equals `q[from..from + n]`.
fn agree(label: &Vec<char>, q: &Vec<char>, from: usize, n: usize) -> (b: bool)
    requires
        n <= label@.len(),
        from + n <= q@.len(),
    ensures
        b == forall|t: int| 0 <= t < n ==> label@[t] == q@[from + t],
{
    let ql = q.len();
    let mut i: usize = 0;
    while i < n
        invariant
            i <= n,
            n <= label@.len(),
            from + n <= q@.len(),
            ql == q@.len(),
            forall|t: int| 0 <= t < i ==> label@[t] == q@[from + t],
        decreases n - i,
    {
        if label[i] != q[from + i] {
            return false;
        }
        i = i + 1;
    }
    true
}

/// A compressed trie mapping normalized content to clip ids.
pub struct Trie {
    root: TrieNode,
    size: usize,
}

impl Trie {
    #[verifier::type_invariant]
    spec fn well_formed(self) -> bool {
        &&& self.root.label@.len() == 0
        &&& self.root.clip_ids@.len() == 0
        &&& list_wf(self.root.child)
    }

    /// The trie holds `id` under the indexed key `k`.
    pub closed spec fn holds(&self, k: Seq<char>, id: i64) -> bool {
        list_holds(self.root.child, k, id)
    }

    /// Number of insertions of non-empty keys performed since creation or
    /// the last clear.
    pub closed spec fn count(&self) -> nat {
        self.size as nat
    }

    /// Every node below the root either holds ids or branches into at least
    /// two edges, so no chain of single-child nodes is left uncollapsed.
    pub closed spec fn compressed(&self) -> bool {
        list_compressed(self.root.child)
    }

    /// The label of the edge from the root that starts with `c`, if any.
    pub closed spec fn root_edge_label(&self, c: char) -> Option<Seq<char>> {
        match find_child(self.root.child, c) {
            None => None,
            Some(n) => Some(n.label@),
        }
    }

    /// The first characters of the edges below the root edge starting with `c`.
    pub closed spec fn root_edge_children(&self, c: char) -> Seq<char> {
        match find_child(self.root.child, c) {
            None => Seq::empty(),
            Some(n) => list_firsts(n.child),
        }
    }

    /// An empty trie.
    pub fn new() -> (t: Self)
        ensures
            forall|k: Seq<char>, id: i64| !#[trigger] t.holds(k, id),
            t.count() == 0,
            t.compressed(),
    {
        Trie { root: TrieNode::new(Vec::new()), size: 0 }
    }

    /// Indexes `content` under `clip_id`. The key is the content trimmed,
    /// lowercased and cut to `MAX_INDEX_LEN` characters; an empty key is
    /// ignored.
    pub fn insert(&mut self, content: &str, clip_id: i64)
        requires
            index_key(content@).len() > 0 ==> old(self).count() < usize::MAX,
        ensures
            index_key(content@).len() == 0 ==> final(self).count() == old(self).count(),
            index_key(content@).len() > 0 ==> final(self).count() == old(self).count() + 1,
            forall|k: Seq<char>, id: i64| #[trigger]
                final(self).holds(k, id) == (old(self).holds(k, id) || (index_key(content@).len() > 0
                    && k == index_key(content@) && id == clip_id)),
            old(self).compressed() ==> final(self).compressed(),
    {
        proof {
            use_type_invariant(&*self);
        }
        let key = normalize(content);
        if key.len() == 0 {
            return;
        }
        let mut child: Option<Box<TrieNode>> = None;
        std::mem::swap(&mut child, &mut self.root.child);
        insert_at(&mut child, &key, 0, clip_id);
        assert(key@.skip(0) =~= key@);
        self.root.child = child;
        self.size = self.size + 1;
    }

    /// The ids indexed under a key that starts with the normalized
    /// `prefix`, without repeats; nothing for an empty prefix.
    pub fn prefix_search(&self, prefix: &str) -> (ids: Vec<i64>)
        ensures
            ids@.no_duplicates(),
            forall|id: i64| #[trigger]
                ids@.contains(id) == (index_key(prefix@).len() > 0 && exists|k: Seq<char>|
                    #[trigger] self.holds(k, id) && prefix_of(index_key(prefix@), k)),
    {
        let q = normalize(prefix);
        if q.len() == 0 {
            return Vec::new();
        }
        let ids = self.search_from_root(&q);
        proof {
            assert forall|x: i64| #[trigger] ids@.contains(x) == (exists|k: Seq<char>|
                #[trigger] self.holds(k, x) && prefix_of(q@, k)) by {
                if list_match(self.root.child, q@, x) {
                    let k = choose|k: Seq<char>| #[trigger] list_holds(self.root.child, k, x) && prefix_of(q@, k);
                    assert(self.holds(k, x));
                }
                if exists|k: Seq<char>| #[trigger] self.holds(k, x) && prefix_of(q@, k) {
                    let k = choose|k: Seq<char>| #[trigger] self.holds(k, x) && prefix_of(q@, k);
                    assert(list_holds(self.root.child, k, x));
                }
            }
        }
        ids
    }

    /// The ids held under keys that start with the non-empty `q`.
    fn search_from_root(&self, q: &Vec<char>) -> (ids: Vec<i64>)
        requires
            q@.len() > 0,
        ensures
            ids@.no_duplicates(),
            forall|x: i64| #[trigger] ids@.contains(x) == list_match(self.root.child, q@, x),
    {
        proof {
            use_type_invariant(self);
        }
        let ghost root_list = self.root.child;
        let mut node: &TrieNode = &self.root;
        let mut consumed: usize = 0;
        assert(q@.skip(0) =~= q@);
        let qlen = q.len();
        while consumed < qlen
            invariant
                qlen == q@.len(),
                consumed <= q@.len() <= usize::MAX,
                q@.len() > 0,
                root_list == self.root.child,
                list_wf(node.child),
                consumed < q@.len() ==> forall|x: i64| #[trigger]
                    list_match(root_list, q@, x) == list_match(node.child, q@.skip(consumed as int), x),
                consumed == q@.len() ==> forall|x: i64| #[trigger]
                    list_match(root_list, q@, x) == node_ids(*node).contains(x),
            decreases q@.len() - consumed,
        {
            let ghost r = q@.skip(consumed as int);
            let first = q[consumed];
            proof {
                assert forall|x: i64| #[trigger] list_match(node.child, r, x) == match find_child(
                    node.child,
                    first,
                ) {
                    None => false,
                    Some(m) => exists|k: Seq<char>| #[trigger]
                        node_holds(m, k, x) && prefix_of(r, k),
                } by {
                    if list_match(node.child, r, x) {
                        let k = choose|k: Seq<char>| #[trigger]
                            list_holds(node.child, k, x) && prefix_of(r, k);
                        lemma_find_child(node.child, k, x);
                        assert(k[0] == r[0]);
                    }
                    if let Some(m) = find_child(node.child, first) {
                        if exists|k: Seq<char>| #[trigger] node_holds(m, k, x) && prefix_of(r, k) {
                            let k = choose|k: Seq<char>| #[trigger]
                                node_holds(m, k, x) && prefix_of(r, k);
                            lemma_find_child(node.child, k, x);
                            assert(k[0] == r[0]);
                        }
                    }
                }
            }
            let found = find_in(&node.child, first);
            match found {
                None => {
                    return Vec::new();
                },
                Some(child) => {
                    proof {
                        let k0 = seq![first];
                        lemma_find_child(node.child, k0, 0);
                        assert forall|x: i64| #[trigger] list_match(node.child, r, x) == (exists|
                            k: Seq<char>,
                        | #[trigger] node_holds(*child, k, x) && prefix_of(r, k)) by {}
                        lemma_find_child(node.child, r, 0);
                    }
                    let lab_len = child.label.len();
                    let rem_len = q.len() - consumed;
                    let to_compare = if lab_len < rem_len {
                        lab_len
                    } else {
                        rem_len
                    };
                    if !agree(&child.label, &q, consumed, to_compare) {
                        proof {
                            let i = choose|t: int| 0 <= t < to_compare && child.label@[t] != q@[consumed + t];
                            assert(r[i] == q@[consumed + i]);
                            assert forall|x: i64| !#[trigger] list_match(root_list, q@, x) by {
                                lemma_descend(*child, r, x);
                                if rem_len < lab_len && prefix_of(r, child.label@) {
                                    assert(child.label@.take(rem_len as int)[i] == child.label@[i]);
                                }
                                if rem_len >= lab_len && prefix_of(child.label@, r) {
                                    assert(r.take(lab_len as int)[i] == r[i]);
                                }
                            }
                        }
                        return Vec::new();
                    }
                    if rem_len < lab_len {
                        proof {
                            assert(child.label@.take(rem_len as int) =~= r);
                            assert forall|x: i64| #[trigger]
                                list_match(root_list, q@, x) == node_ids(*child).contains(x) by {
                                lemma_descend(*child, r, x);
                            }
                        }
                        return collect_ids(child);
                    }
                    proof {
                        assert(r.take(lab_len as int) =~= child.label@);
                        let r2 = q@.skip(consumed + lab_len);
                        assert(r.skip(lab_len as int) =~= r2);
                        assert forall|x: i64| #[trigger] list_match(root_list, q@, x) == (if rem_len == lab_len {
                            node_ids(*child).contains(x)
                        } else {
                            list_match(child.child, r2, x)
                        }) by {
                            lemma_descend(*child, r, x);
                        }
                    }
                    consumed = consumed + lab_len;
                    node = child;
                },
            }
        }
        collect_ids(node)
    }

    /// Drops `clip_id` everywhere; nodes holding other ids are kept.
    pub fn remove(&mut self, clip_id: i64)
        ensures
            final(self).count() == old(self).count(),
            forall|k: Seq<char>, id: i64| #[trigger]
                final(self).holds(k, id) == (old(self).holds(k, id) && id != clip_id),
    {
        proof {
            use_type_invariant(&*self);
        }
        let mut child: Option<Box<TrieNode>> = None;
        std::mem::swap(&mut child, &mut self.root.child);
        remove_id(&mut child, clip_id);
        self.root.child = child;
    }

    /// Number of insertions of non-empty keys performed.
    pub fn size(&self) -> (n: usize)
        ensures
            n == self.count(),
    {
        self.size
    }

    /// Removes everything.
    pub fn clear(&mut self)
        ensures
            forall|k: Seq<char>, id: i64| !#[trigger] final(self).holds(k, id),
            final(self).count() == 0,
            final(self).compressed(),
    {
        self.root = TrieNode::new(Vec::new());
        self.size = 0;
    }

    /// The label of the root edge starting with `first` and the first
    /// characters of the edges below it, if there is such an edge.
    pub fn root_edge(&self, first: char) -> (r: Option<(String, Vec<char>)>)
        ensures
            match r {
                None => self.root_edge_label(first) is None,
                Some((label, below)) => self.root_edge_label(first) == Some(label@) && below@
                    == self.root_edge_children(first),
            },
    {
        proof {
            use_type_invariant(self);
        }
        match find_in(&self.root.child, first) {
            None => None,
            Some(n) => {
                proof {
                    let k0 = seq![first];
                    lemma_find_child(self.root.child, k0, 0);
                }
                Some((string_from_chars(&n.label), firsts_of(&n.child)))
            },
        }
    }
}


/// Content indexed under an id is found, under that id, by every query
/// whose key is a non-empty prefix of the content's key, the content
/// itself among them.
pub proof fn lemma_found_by_prefix(t: &Trie, content: Seq<char>, id: i64, query: Seq<char>)
    requires
        t.holds(index_key(content), id),
        index_key(query).len() > 0,
        prefix_of(index_key(query), index_key(content)),
    ensures
        exists|k: Seq<char>| #[trigger] t.holds(k, id) && prefix_of(index_key(query), k),
        index_key(content).len() > 0 ==> prefix_of(index_key(content), index_key(content)),
{
    assert(index_key(content).take(index_key(content).len() as int) =~= index_key(content));
}

} // verus!
