//! Rule-based classification of clip content into categories.
use crate::search::trie::{index_key, prefix_of, Trie};
use crate::text::{chars_of, contains_chars, is_hex, is_hex_digit, is_ws, lead_ws, lowercase, occurs_at, starts_with, take_chars, to_lower, trail_ws, trim_str, trimmed};
use vstd::prelude::*;

verus! {

broadcast use vstd::string::group_string_axioms;

/// What a clip looks like.
#[derive(Debug)]
pub enum ClipCategory {
    Link,
    FilePath,
    Code,
    Email,
    Color,
    PlainText,
}

impl ClipCategory {
    /// The name shown for the category.
    pub fn label(&self) -> (s: &'static str)
        ensures
            s@ == match self {
                ClipCategory::Link => "Link"@,
                ClipCategory::FilePath => "File Path"@,
                ClipCategory::Code => "Code"@,
                ClipCategory::Email => "Email"@,
                ClipCategory::Color => "Color"@,
                ClipCategory::PlainText => "Plain Text"@,
            },
    {
        match self {
            ClipCategory::Link => "Link",
            ClipCategory::FilePath => "File Path",
            ClipCategory::Code => "Code",
            ClipCategory::Email => "Email",
            ClipCategory::Color => "Color",
            ClipCategory::PlainText => "Plain Text",
        }
    }
}

/// Beginnings that mark a link.
pub open spec fn link_prefixes() -> Seq<Seq<char>> {
    seq!["http://"@, "https://"@, "ftp://"@, "www."@]
}

/// Beginnings that mark a file path.
pub open spec fn path_prefixes() -> Seq<Seq<char>> {
    seq!["/"@, "~/"@, "./"@, "../"@, "c:\\"@, "d:\\"@, "e:\\"@]
}

/// Every beginning kept in the classifier's trie.
pub open spec fn known_prefixes() -> Seq<Seq<char>> {
    link_prefixes() + path_prefixes()
}

/// Fragments that mark source code.
pub open spec fn code_keywords() -> Seq<Seq<char>> {
    seq![
        "fn "@,
        "def "@,
        "class "@,
        "import "@,
        "#include"@,
        "const "@,
        "let "@,
        "var "@,
        "return "@,
        "if ("@,
        "for ("@,
        "while ("@,
        "struct "@,
        "pub "@,
        "async "@,
        "await "@,
        "=>"@,
        "{}"@,
        "();"@,
    ]
}

/// `s` begins with one of `ps`.
pub open spec fn starts_with_any(s: Seq<char>, ps: Seq<Seq<char>>) -> bool {
    exists|j: int| 0 <= j < ps.len() && occurs_at(s, #[trigger] ps[j], 0)
}

/// `s` contains one of `ps`.
pub open spec fn contains_any(s: Seq<char>, ps: Seq<Seq<char>>) -> bool {
    exists|j: int, at: int| 0 <= j < ps.len() && #[trigger] occurs_at(s, ps[j], at)
}

/// Some beginning of `lower`, of one to nine characters, once normalized
/// for the trie, begins a known prefix's key.
pub open spec fn prefix_hit(lower: Seq<char>) -> bool {
    exists|len: int, j: int|
        1 <= len <= lower.len() && len <= 9 && 0 <= j < known_prefixes().len() && index_key(
            known_prefixes()[j],
        ).len() > 0 && index_key(#[trigger] lower.take(len)).len() > 0 && prefix_of(
            index_key(lower.take(len)),
            index_key(#[trigger] known_prefixes()[j]),
        )
}

/// `s` has an `@` that is not its first character, followed later by a `.`.
pub open spec fn looks_like_email(s: Seq<char>) -> bool {
    exists|p: int|
        0 < p < s.len() && #[trigger] s[p] == '@' && (forall|q: int| 0 <= q < p ==> s[q] != '@')
            && exists|r: int| p < r < s.len() && s[r] == '.'
}

/// `s` is `#` followed by three or six hexadecimal digits.
pub open spec fn looks_like_color(s: Seq<char>) -> bool {
    &&& s.len() == 4 || s.len() == 7
    &&& s[0] == '#'
    &&& forall|i: int| 1 <= i < s.len() ==> is_hex(#[trigger] s[i])
}

/// `c` is an ASCII hexadecimal digit, in either case.
pub open spec fn ascii_hex_digit(c: char) -> bool {
    ('0' <= c && c <= '9') || ('a' <= c && c <= 'f') || ('A' <= c && c <= 'F')
}

/// `s` is `#` followed by three or six ASCII hexadecimal digits.
pub open spec fn hex_color_shape(s: Seq<char>) -> bool {
    &&& (s.len() == 4 || s.len() == 7)
    &&& s[0] == '#'
    &&& forall|i: int| 1 <= i < s.len() ==> ascii_hex_digit(#[trigger] s[i])
}

proof fn lemma_trail_short(s: Seq<char>)
    requires
        s.len() > 0,
        !is_ws(s[0]),
    ensures
        trail_ws(s) < s.len(),
    decreases s.len(),
{
    if s.len() > 1 && is_ws(s.last()) {
        lemma_trail_short(s.drop_last());
    }
}

/// Content whose first character is not whitespace keeps something after
/// trimming.
proof fn lemma_trim_keeps(s: Seq<char>)
    requires
        s.len() > 0,
        !is_ws(s[0]),
    ensures
        trimmed(s).len() > 0,
{
    lemma_trail_short(s);
    assert(lead_ws(s) == 0);
}

/// The color rule accepts exactly `#` and three or six hexadecimal digits,
/// upper- or lowercase.
pub proof fn lemma_color_rule(s: Seq<char>)
    ensures
        looks_like_color(s) <==> hex_color_shape(s),
{
    if looks_like_color(s) {
        assert forall|i: int| 1 <= i < s.len() implies ascii_hex_digit(#[trigger] s[i]) by {
            assert(is_hex(s[i]));
        }
    }
    if hex_color_shape(s) {
        assert forall|i: int| 1 <= i < s.len() implies is_hex(#[trigger] s[i]) by {
            assert(ascii_hex_digit(s[i]));
        }
    }
}

/// A hex color, such as `#FF5733` or `#0af`, is classified Color unless its
/// lowercased form begins like a link or a path; it is never classified
/// anything but Color, Link or File Path.
pub proof fn lemma_hex_color_classified(s: Seq<char>)
    requires
        hex_color_shape(s),
    ensures
        !starts_with_any(lowercase(s), link_prefixes()) && !starts_with_any(lowercase(s), path_prefixes())
            ==> category_of(s) == ClipCategory::Color,
        category_of(s) == ClipCategory::Color || category_of(s) == ClipCategory::Link || category_of(s)
            == ClipCategory::FilePath,
{
    lemma_color_rule(s);
    lemma_trim_keeps(s);
    assert(!looks_like_email(s)) by {
        if looks_like_email(s) {
            let p = choose|p: int|
                0 < p < s.len() && #[trigger] s[p] == '@' && (forall|q: int| 0 <= q < p ==> s[q] != '@')
                    && exists|r: int| p < r < s.len() && s[r] == '.';
            assert(ascii_hex_digit(s[p]));
        }
    }
}

/// The category the rules give to content `s`, the first rule that applies
/// deciding.
pub open spec fn category_of(s: Seq<char>) -> ClipCategory {
    let lower = lowercase(s);
    if trimmed(s).len() == 0 {
        ClipCategory::PlainText
    } else if prefix_hit(lower) && starts_with_any(lower, link_prefixes()) {
        ClipCategory::Link
    } else if prefix_hit(lower) && starts_with_any(lower, path_prefixes()) {
        ClipCategory::FilePath
    } else if looks_like_email(s) {
        ClipCategory::Email
    } else if looks_like_color(s) {
        ClipCategory::Color
    } else if contains_any(s, code_keywords()) {
        ClipCategory::Code
    } else {
        ClipCategory::PlainText
    }
}

/// Literal strings as character vectors.
fn literals(words: &[&str]) -> (r: Vec<Vec<char>>)
    ensures
        r@.len() == words@.len(),
        forall|j: int| 0 <= j < words@.len() ==> #[trigger] r@[j]@ == words@[j]@,
{
    let mut r: Vec<Vec<char>> = Vec::new();
    let mut j: usize = 0;
    while j < words.len()
        invariant
            j <= words@.len(),
            r@.len() == j,
            forall|t: int| 0 <= t < j ==> #[trigger] r@[t]@ == words@[t]@,
        decreases words@.len() - j,
    {
        r.push(chars_of(words[j]));
        j = j + 1;
    }
    r
}

/// How many of the first `n` known prefixes have a non-empty index key.
pub open spec fn keyed_prefixes(n: int) -> nat
    decreases n,
{
    if n <= 0 {
        0
    } else {
        keyed_prefixes(n - 1) + if index_key(known_prefixes()[n - 1]).len() > 0 {
            1nat
        } else {
            0nat
        }
    }
}

/// Classifies clip content as a link, file path, code, email, color or plain text.
pub struct ClipClassifier {
    prefix_trie: Trie,
    links: Vec<Vec<char>>,
    paths: Vec<Vec<char>>,
    code_keywords: Vec<Vec<char>>,
}

impl ClipClassifier {
    #[verifier::type_invariant]
    spec fn built(self) -> bool {
        &&& forall|k: Seq<char>, id: i64| #[trigger]
            self.prefix_trie.holds(k, id) == (id == 0 && exists|j: int|
                0 <= j < known_prefixes().len() && index_key(#[trigger] known_prefixes()[j]).len()
                    > 0 && k == index_key(known_prefixes()[j]))
        &&& self.links@.len() == link_prefixes().len()
        &&& forall|j: int| 0 <= j < self.links@.len() ==> #[trigger] self.links@[j]@ == link_prefixes()[j]
        &&& self.paths@.len() == path_prefixes().len()
        &&& forall|j: int| 0 <= j < self.paths@.len() ==> #[trigger] self.paths@[j]@ == path_prefixes()[j]
        &&& self.code_keywords@.len() == code_keywords().len()
        &&& forall|j: int|
            0 <= j < self.code_keywords@.len() ==> #[trigger] self.code_keywords@[j]@
                == code_keywords()[j]
    }

    /// The link prefixes the classifier checks.
    pub closed spec fn link_table(&self) -> Seq<Seq<char>> {
        self.links@.map_values(|v: Vec<char>| v@)
    }

    /// The path prefixes the classifier checks.
    pub closed spec fn path_table(&self) -> Seq<Seq<char>> {
        self.paths@.map_values(|v: Vec<char>| v@)
    }

    /// The code keywords the classifier looks for.
    pub closed spec fn keyword_table(&self) -> Seq<Seq<char>> {
        self.code_keywords@.map_values(|v: Vec<char>| v@)
    }

    /// The prefix index holds `id` under the key `k`.
    pub closed spec fn indexes(&self, k: Seq<char>, id: i64) -> bool {
        self.prefix_trie.holds(k, id)
    }

    /// How many prefixes were indexed.
    pub closed spec fn indexed_count(&self) -> nat {
        self.prefix_trie.count()
    }

    /// A classifier with the built-in prefixes and code keywords: the link
    /// and path prefixes and the keywords in their tables, and each known
    /// prefix with a non-empty key indexed once under id 0.
    pub fn new() -> (c: Self)
        ensures
            c.link_table() == link_prefixes(),
            c.path_table() == path_prefixes(),
            c.keyword_table() == code_keywords(),
            forall|k: Seq<char>, id: i64| #[trigger]
                c.indexes(k, id) == (id == 0 && exists|j: int|
                    0 <= j < known_prefixes().len() && index_key(#[trigger] known_prefixes()[j]).len()
                        > 0 && k == index_key(known_prefixes()[j])),
            c.indexed_count() == keyed_prefixes(known_prefixes().len() as int),
    {
        let links = literals(&["http://", "https://", "ftp://", "www."]);
        let paths = literals(&["/", "~/", "./", "../", "c:\\", "d:\\", "e:\\"]);
        let keywords = literals(
            &[
                "fn ",
                "def ",
                "class ",
                "import ",
                "#include",
                "const ",
                "let ",
                "var ",
                "return ",
                "if (",
                "for (",
                "while (",
                "struct ",
                "pub ",
                "async ",
                "await ",
                "=>",
                "{}",
                "();",
            ],
        );
        assert(links@.len() == link_prefixes().len());
        assert(paths@.len() == path_prefixes().len());
        assert(keywords@.len() == code_keywords().len());
        let all = ["http://", "https://", "ftp://", "www.", "/", "~/", "./", "../", "c:\\", "d:\\", "e:\\"];
        assert(all@ =~= seq!["http://", "https://", "ftp://", "www.", "/", "~/", "./", "../", "c:\\", "d:\\", "e:\\"]);
        let mut prefix_trie = Trie::new();
        let mut j: usize = 0;
        while j < all.len()
            invariant
                j <= all@.len(),
                all@.len() == known_prefixes().len(),
                forall|t: int| 0 <= t < all@.len() ==> #[trigger] all@[t]@ == known_prefixes()[t],
                prefix_trie.count() == keyed_prefixes(j as int),
                prefix_trie.count() <= j,
                forall|k: Seq<char>, id: i64| #[trigger]
                    prefix_trie.holds(k, id) == (id == 0 && exists|t: int|
                        0 <= t < j && index_key(#[trigger] known_prefixes()[t]).len() > 0 && k
                            == index_key(known_prefixes()[t])),
            decreases all@.len() - j,
        {
            prefix_trie.insert(all[j], 0);
            proof {
                assert forall|k: Seq<char>, id: i64| #[trigger]
                    prefix_trie.holds(k, id) == (id == 0 && exists|t: int|
                        0 <= t < j + 1 && index_key(#[trigger] known_prefixes()[t]).len() > 0 && k
                            == index_key(known_prefixes()[t])) by {
                    if id == 0 && k == index_key(known_prefixes()[j as int]) && index_key(
                        known_prefixes()[j as int],
                    ).len() > 0 {
                        assert(0 <= j < j + 1);
                    }
                    if exists|t: int|
                        0 <= t < j + 1 && index_key(#[trigger] known_prefixes()[t]).len() > 0 && k
                            == index_key(known_prefixes()[t]) {
                        let t = choose|t: int|
                            0 <= t < j + 1 && index_key(#[trigger] known_prefixes()[t]).len() > 0
                                && k == index_key(known_prefixes()[t]);
                        if t < j {
                            assert(0 <= t < j);
                        }
                    }
                }
            }
            j = j + 1;
        }
        let c = ClipClassifier { prefix_trie, links, paths, code_keywords: keywords };
        assert(c.link_table() =~= link_prefixes());
        assert(c.path_table() =~= path_prefixes());
        assert(c.keyword_table() =~= code_keywords());
        c
    }

    /// Whether some beginning of `lower` of one to nine characters is a
    /// prefix of a key in the trie.
    fn trie_prefix_hit(&self, lower: &Vec<char>) -> (b: bool)
        ensures
            b == prefix_hit(lower@),
    {
        proof {
            use_type_invariant(self);
        }
        let head = take_chars(lower, 9);
        let mut len: usize = 1;
        while len <= head.len()
            invariant
                1 <= len <= head@.len() + 1,
                head@ == crate::text::capped(lower@, 9),
                forall|l: int, j: int|
                    1 <= l < len && 0 <= j < known_prefixes().len() ==> !(index_key(
                        known_prefixes()[j],
                    ).len() > 0 && index_key(#[trigger] lower@.take(l)).len() > 0 && prefix_of(
                        index_key(lower@.take(l)),
                        index_key(#[trigger] known_prefixes()[j]),
                    )),
                forall|k: Seq<char>, id: i64| #[trigger]
                    self.prefix_trie.holds(k, id) == (id == 0 && exists|j: int|
                        0 <= j < known_prefixes().len() && index_key(
                            #[trigger] known_prefixes()[j],
                        ).len() > 0 && k == index_key(known_prefixes()[j])),
            decreases head@.len() + 1 - len,
        {
            let q = take_chars(&head, len);
            let qs = crate::text::string_from_chars(&q);
            assert(q@ =~= lower@.take(len as int));
            let found = self.prefix_trie.prefix_search(qs.as_str());
            proof {
                let qk = index_key(lower@.take(len as int));
                if found@.len() > 0 {
                    assert(found@.contains(found@[0]));
                    let k = choose|k: Seq<char>| #[trigger]
                        self.prefix_trie.holds(k, found@[0]) && prefix_of(qk, k);
                    let j = choose|j: int|
                        0 <= j < known_prefixes().len() && index_key(#[trigger] known_prefixes()[j]).len()
                            > 0 && k == index_key(known_prefixes()[j]);
                    assert(1 <= len as int <= lower@.len() && len <= 9);
                    assert(index_key(lower@.take(len as int)).len() > 0 && prefix_of(
                        index_key(lower@.take(len as int)),
                        index_key(known_prefixes()[j]),
                    ));
                } else {
                    assert forall|j: int| 0 <= j < known_prefixes().len() implies !(index_key(
                        known_prefixes()[j],
                    ).len() > 0 && index_key(#[trigger] lower@.take(len as int)).len() > 0
                        && prefix_of(
                        index_key(lower@.take(len as int)),
                        index_key(#[trigger] known_prefixes()[j]),
                    )) by {
                        if index_key(known_prefixes()[j]).len() > 0 && qk.len() > 0 && prefix_of(
                            qk,
                            index_key(known_prefixes()[j]),
                        ) {
                            assert(self.prefix_trie.holds(index_key(known_prefixes()[j]), 0));
                            assert(found@.contains(0));
                        }
                    }
                }
            }
            if found.len() > 0 {
                return true;
            }
            len = len + 1;
        }
        false
    }

    /// The category of `content`; see `category_of`.
    pub fn classify(&self, content: &str) -> (c: ClipCategory)
        ensures
            c == category_of(content@),
    {
        proof {
            use_type_invariant(self);
        }
        let chars = chars_of(content);
        let trimmed_chars = chars_of(trim_str(content));
        if trimmed_chars.len() == 0 {
            return ClipCategory::PlainText;
        }
        let lowered = to_lower(content);
        let lower = chars_of(lowered.as_str());
        if self.trie_prefix_hit(&lower) {
            if self.any_starts(&lower, &self.links, Ghost(link_prefixes())) {
                return ClipCategory::Link;
            }
            if self.any_starts(&lower, &self.paths, Ghost(path_prefixes())) {
                return ClipCategory::FilePath;
            }
        }
        if email_like(&chars) {
            return ClipCategory::Email;
        }
        if color_like(&chars) {
            return ClipCategory::Color;
        }
        if self.any_contained(&chars) {
            return ClipCategory::Code;
        }
        ClipCategory::PlainText
    }

    fn any_starts(&self, s: &Vec<char>, ps: &Vec<Vec<char>>, Ghost(spec_ps): Ghost<Seq<Seq<char>>>) -> (b: bool)
        requires
            ps@.len() == spec_ps.len(),
            forall|j: int| 0 <= j < ps@.len() ==> #[trigger] ps@[j]@ == spec_ps[j],
        ensures
            b == starts_with_any(s@, spec_ps),
    {
        let mut j: usize = 0;
        while j < ps.len()
            invariant
                j <= ps@.len(),
                ps@.len() == spec_ps.len(),
                forall|t: int| 0 <= t < ps@.len() ==> #[trigger] ps@[t]@ == spec_ps[t],
                forall|t: int| 0 <= t < j ==> !occurs_at(s@, #[trigger] spec_ps[t], 0),
            decreases ps@.len() - j,
        {
            if starts_with(s, &ps[j]) {
                assert(ps@[j as int]@ == spec_ps[j as int]);
                return true;
            }
            assert(ps@[j as int]@ == spec_ps[j as int]);
            j = j + 1;
        }
        false
    }

    fn any_contained(&self, s: &Vec<char>) -> (b: bool)
        ensures
            b == contains_any(s@, code_keywords()),
    {
        proof {
            use_type_invariant(self);
        }
        let ks = &self.code_keywords;
        let mut j: usize = 0;
        while j < ks.len()
            invariant
                j <= ks@.len(),
                ks@.len() == code_keywords().len(),
                forall|t: int| 0 <= t < ks@.len() ==> #[trigger] ks@[t]@ == code_keywords()[t],
                forall|t: int, at: int| 0 <= t < j ==> !#[trigger] occurs_at(s@, code_keywords()[t], at),
            decreases ks@.len() - j,
        {
            assert(ks@[j as int]@ == code_keywords()[j as int]);
            if contains_chars(s, &ks[j]) {
                let ghost at = choose|at: int| occurs_at(s@, ks@[j as int]@, at);
                assert(occurs_at(s@, code_keywords()[j as int], at));
                return true;
            }
            j = j + 1;
        }
        false
    }
}

/// Whether `s` looks like an email address; see `looks_like_email`.
fn email_like(s: &Vec<char>) -> (b: bool)
    ensures
        b == looks_like_email(s@),
{
    let mut p: usize = 0;
    while p < s.len() && s[p] != '@'
        invariant
            p <= s@.len(),
            forall|q: int| 0 <= q < p ==> s@[q] != '@',
        decreases s@.len() - p,
    {
        p = p + 1;
    }
    if p == s.len() || p == 0 {
        proof {
            assert forall|p2: int| 0 < p2 < s@.len() && #[trigger] s@[p2] == '@' implies !(forall|q: int| 0 <= q < p2 ==> s@[q] != '@') by {
                assert(0 <= p < p2 || p == 0);
                if p == 0 {
                    assert(s@[0] == '@');
                }
            }
        }
        return false;
    }
    let mut r: usize = p + 1;
    while r < s.len()
        invariant
            0 < p < r <= s@.len(),
            s@[p as int] == '@',
            forall|q: int| 0 <= q < p ==> s@[q] != '@',
            forall|t: int| p < t < r ==> s@[t] != '.',
        decreases s@.len() - r,
    {
        if s[r] == '.' {
            assert(s@[p as int] == '@');
            return true;
        }
        r = r + 1;
    }
    proof {
        assert forall|p2: int| 0 < p2 < s@.len() && #[trigger] s@[p2] == '@' && (forall|q: int| 0 <= q < p2 ==> s@[q] != '@') implies !(exists|r2: int| p2 < r2 < s@.len() && s@[r2] == '.') by {
            if p2 > p {
                assert(s@[p as int] == '@');
            }
        }
    }
    false
}

/// Whether `s` looks like a hex color; see `looks_like_color`.
fn color_like(s: &Vec<char>) -> (b: bool)
    ensures
        b == looks_like_color(s@),
{
    if s.len() != 4 && s.len() != 7 {
        return false;
    }
    if s[0] != '#' {
        return false;
    }
    let mut i: usize = 1;
    while i < s.len()
        invariant
            1 <= i <= s@.len(),
            forall|t: int| 1 <= t < i ==> is_hex(#[trigger] s@[t]),
        decreases s@.len() - i,
    {
        if !is_hex_digit(s[i]) {
            return false;
        }
        i = i + 1;
    }
    true
}

} // verus!
