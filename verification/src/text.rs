//! Character-level helpers shared by the search structures.
use vstd::prelude::*;

verus! {

broadcast use vstd::string::group_string_axioms;

/// The Unicode `White_Space` property, which `char::is_whitespace` reports.
pub open spec fn is_ws(c: char) -> bool {
    let u = c as u32;
    ||| 0x09 <= u <= 0x0D
    ||| u == 0x20
    ||| u == 0x85
    ||| u == 0xA0
    ||| u == 0x1680
    ||| 0x2000 <= u <= 0x200A
    ||| u == 0x2028
    ||| u == 0x2029
    ||| u == 0x202F
    ||| u == 0x205F
    ||| u == 0x3000
}

/// Number of whitespace characters at the start of `s`.
pub open spec fn lead_ws(s: Seq<char>) -> nat
    decreases s.len(),
{
    if s.len() > 0 && is_ws(s[0]) {
        1 + lead_ws(s.drop_first())
    } else {
        0
    }
}

/// Number of whitespace characters at the end of `s`.
pub open spec fn trail_ws(s: Seq<char>) -> nat
    decreases s.len(),
{
    if s.len() > 0 && is_ws(s.last()) {
        1 + trail_ws(s.drop_last())
    } else {
        0
    }
}

/// `s` without its leading and trailing whitespace.
pub open spec fn trimmed(s: Seq<char>) -> Seq<char> {
    if lead_ws(s) >= s.len() {
        Seq::empty()
    } else {
        s.subrange(lead_ws(s) as int, s.len() - trail_ws(s))
    }
}

/// The maximal runs of non-whitespace characters of `cur + s`, where `cur`
/// is a run already under way.
pub open spec fn words_from(s: Seq<char>, cur: Seq<char>) -> Seq<Seq<char>>
    decreases s.len(),
{
    let done = if cur.len() > 0 { seq![cur] } else { Seq::empty() };
    if s.len() == 0 {
        done
    } else if is_ws(s[0]) {
        done + words_from(s.drop_first(), Seq::empty())
    } else {
        words_from(s.drop_first(), cur.push(s[0]))
    }
}

/// The whitespace-separated words of `s`, in order.
pub open spec fn words(s: Seq<char>) -> Seq<Seq<char>> {
    words_from(s, Seq::empty())
}

/// At most the first `n` characters of `s`.
pub open spec fn capped(s: Seq<char>, n: nat) -> Seq<char> {
    if s.len() <= n {
        s
    } else {
        s.take(n as int)
    }
}

/// What `str::to_lowercase` returns for a string with these characters.
pub uninterp spec fn lowercase(s: Seq<char>) -> Seq<char>;

/// Whether `c` is whitespace, as `char::is_whitespace` decides it.
pub fn is_whitespace(c: char) -> (b: bool)
    ensures
        b == is_ws(c),
{
    let u = c as u32;
    (0x09 <= u && u <= 0x0D) || u == 0x20 || u == 0x85 || u == 0xA0 || u == 0x1680 || (0x2000
        <= u && u <= 0x200A) || u == 0x2028 || u == 0x2029 || u == 0x202F || u == 0x205F || u
        == 0x3000
}

/// Whether `c` is an ASCII hexadecimal digit.
pub open spec fn is_hex(c: char) -> bool {
    ('0' <= c && c <= '9') || ('a' <= c && c <= 'f') || ('A' <= c && c <= 'F')
}

/// Whether `c` is an ASCII hexadecimal digit, as `char::is_ascii_hexdigit` decides it.
pub fn is_hex_digit(c: char) -> (b: bool)
    ensures
        b == is_hex(c),
{
    ('0' <= c && c <= '9') || ('a' <= c && c <= 'f') || ('A' <= c && c <= 'F')
}

/// The characters of `s`, in order.
pub fn chars_of(s: &str) -> (v: Vec<char>)
    ensures
        v@ == s@,
{
    let mut v: Vec<char> = Vec::new();
    for c in it: s.chars()
        invariant
            v@ == it.seq().take(it.index() as int),
            it.seq() == s@,
    {
        v.push(c);
    }
    v
}

/// Calls `str::trim`, which drops the leading and trailing characters that
/// have the `White_Space` property.
#[verifier::external_body]
pub(crate) fn trim_str(s: &str) -> (r: &str)
    ensures
        r@ == trimmed(s@),
{
    s.trim()
}

/// Calls `str::to_lowercase`; the result is named by `lowercase`. Each
/// character maps to one or more characters, so the result is never shorter
/// and is empty only for an empty string.
#[verifier::external_body]
pub(crate) fn to_lower(s: &str) -> (r: String)
    ensures
        r@ == lowercase(s@),
        s@.len() <= r@.len(),
        r@.len() == 0 <==> s@.len() == 0,
{
    s.to_lowercase()
}

/// Calls `str::split_whitespace`, which yields the maximal runs of
/// non-whitespace characters in order.
#[verifier::external_body]
pub(crate) fn split_words(s: &str) -> (r: Vec<&str>)
    ensures
        r@.len() == words(s@).len(),
        forall|i: int| 0 <= i < r@.len() ==> #[trigger] r@[i]@ == words(s@)[i],
{
    s.split_whitespace().collect()
}

/// The characters `chars` as a `String`.
///
/// Calls `String::from_iter`; the contract claims the string holds exactly
/// these characters in order.
#[verifier::external_body]
pub(crate) fn string_from_chars(chars: &Vec<char>) -> (s: String)
    ensures
        s@ == chars@,
{
    chars.iter().collect()
}

/// The first `n` characters of `v`, or all of them when there are fewer.
pub fn take_chars(v: &Vec<char>, n: usize) -> (r: Vec<char>)
    ensures
        r@ == capped(v@, n as nat),
{
    let mut r: Vec<char> = Vec::new();
    let mut i: usize = 0;
    while i < v.len() && i < n
        invariant
            i <= v.len(),
            i <= n,
            r@ == v@.take(i as int),
        decreases v.len() - i,
    {
        r.push(v[i]);
        i = i + 1;
    }
    proof {
        if v@.len() <= n {
            assert(r@ =~= v@);
        }
    }
    r
}

/// Whether the characters `pat` occur in `v` starting at position `at`.
pub open spec fn occurs_at(v: Seq<char>, pat: Seq<char>, at: int) -> bool {
    0 <= at && at + pat.len() <= v.len() && v.subrange(at, at + pat.len()) == pat
}

/// Whether `v` begins with `pat`.
pub fn starts_with(v: &Vec<char>, pat: &Vec<char>) -> (b: bool)
    ensures
        b == occurs_at(v@, pat@, 0),
{
    if pat.len() > v.len() {
        return false;
    }
    let mut i: usize = 0;
    while i < pat.len()
        invariant
            i <= pat.len() <= v.len(),
            v@.subrange(0, i as int) == pat@.subrange(0, i as int),
        decreases pat.len() - i,
    {
        if v[i] != pat[i] {
            assert(v@.subrange(0, pat@.len() as int)[i as int] != pat@[i as int]);
            return false;
        }
        assert(v@.subrange(0, i + 1) =~= v@.subrange(0, i as int).push(v@[i as int]));
        assert(pat@.subrange(0, i + 1) =~= pat@.subrange(0, i as int).push(pat@[i as int]));
        i = i + 1;
    }
    assert(pat@.subrange(0, pat@.len() as int) =~= pat@);
    true
}

/// Whether `pat` occurs anywhere in `v`.
pub fn contains_chars(v: &Vec<char>, pat: &Vec<char>) -> (b: bool)
    ensures
        b == exists|at: int| occurs_at(v@, pat@, at),
{
    if pat.len() > v.len() {
        return false;
    }
    let last = v.len() - pat.len();
    let mut at: usize = 0;
    loop
        invariant
            pat.len() <= v.len(),
            last == v.len() - pat.len(),
            at <= last,
            forall|k: int| 0 <= k < at ==> !occurs_at(v@, pat@, k),
        decreases last - at,
    {
        let mut i: usize = 0;
        let mut ok = true;
        while i < pat.len()
            invariant_except_break
                ok,
            invariant
                at <= last,
                last == v.len() - pat.len(),
                i <= pat.len(),
                ok ==> v@.subrange(at as int, at + i) == pat@.subrange(0, i as int),
            ensures
                ok ==> i == pat.len() && v@.subrange(at as int, at + i) == pat@.subrange(
                    0,
                    i as int,
                ),
                !ok ==> !occurs_at(v@, pat@, at as int),
            decreases pat.len() - i,
        {
            if v[at + i] != pat[i] {
                ok = false;
                assert(v@.subrange(at as int, at + pat@.len())[i as int] != pat@[i as int]);
                assert(!occurs_at(v@, pat@, at as int));
                break;
            }
            assert(v@.subrange(at as int, at + i + 1) =~= v@.subrange(at as int, at + i).push(
                v@[at + i],
            ));
            assert(pat@.subrange(0, i + 1) =~= pat@.subrange(0, i as int).push(pat@[i as int]));
            i = i + 1;
        }
        if ok {
            assert(pat@.subrange(0, pat@.len() as int) =~= pat@);
            assert(occurs_at(v@, pat@, at as int));
            return true;
        }
        if at == last {
            assert forall|k: int| !occurs_at(v@, pat@, k) by {
                if 0 <= k < at {
                }
            }
            return false;
        }
        at = at + 1;
    }
}

/// The decimal digit character for `d` below ten.
pub open spec fn digit_char(d: nat) -> char {
    if d == 0 {
        '0'
    } else if d == 1 {
        '1'
    } else if d == 2 {
        '2'
    } else if d == 3 {
        '3'
    } else if d == 4 {
        '4'
    } else if d == 5 {
        '5'
    } else if d == 6 {
        '6'
    } else if d == 7 {
        '7'
    } else if d == 8 {
        '8'
    } else {
        '9'
    }
}

/// The decimal representation of `n`, without leading zeros.
pub open spec fn decimal(n: nat) -> Seq<char>
    decreases n,
{
    if n < 10 {
        seq![digit_char(n)]
    } else {
        decimal(n / 10).push(digit_char(n % 10))
    }
}

fn digit(d: usize) -> (c: char)
    requires
        d < 10,
    ensures
        c == digit_char(d as nat),
{
    match d {
        0 => '0',
        1 => '1',
        2 => '2',
        3 => '3',
        4 => '4',
        5 => '5',
        6 => '6',
        7 => '7',
        8 => '8',
        _ => '9',
    }
}

/// The decimal digits of `n`.
pub fn decimal_chars(n: usize) -> (v: Vec<char>)
    ensures
        v@ == decimal(n as nat),
    decreases n,
{
    if n < 10 {
        let mut v = Vec::new();
        v.push(digit(n));
        assert(v@ =~= seq![digit_char(n as nat)]);
        v
    } else {
        let mut v = decimal_chars(n / 10);
        v.push(digit(n % 10));
        v
    }
}

/// Appends the characters of `s` to `v`.
pub fn push_str(v: &mut Vec<char>, s: &str)
    ensures
        final(v)@ == old(v)@ + s@,
{
    let cs = chars_of(s);
    let mut i: usize = 0;
    while i < cs.len()
        invariant
            i <= cs@.len(),
            cs@ == s@,
            v@ == old(v)@ + cs@.take(i as int),
        decreases cs@.len() - i,
    {
        v.push(cs[i]);
        assert(cs@.take(i + 1) =~= cs@.take(i as int).push(cs@[i as int]));
        i = i + 1;
    }
    assert(cs@.take(cs@.len() as int) =~= cs@);
}

/// Appends `w` to `v`.
pub fn push_chars(v: &mut Vec<char>, w: &Vec<char>)
    ensures
        final(v)@ == old(v)@ + w@,
{
    let mut i: usize = 0;
    while i < w.len()
        invariant
            i <= w@.len(),
            v@ == old(v)@ + w@.take(i as int),
        decreases w@.len() - i,
    {
        v.push(w[i]);
        assert(w@.take(i + 1) =~= w@.take(i as int).push(w@[i as int]));
        i = i + 1;
    }
    assert(w@.take(w@.len() as int) =~= w@);
}

/// Whether `a` and `b` hold the same characters.
pub fn str_eq(a: &str, b: &str) -> (r: bool)
    ensures
        r == (a@ == b@),
{
    let x = chars_of(a);
    let y = chars_of(b);
    if x.len() != y.len() {
        return false;
    }
    let mut i: usize = 0;
    while i < x.len()
        invariant
            i <= x@.len(),
            x@ == a@,
            y@ == b@,
            x@.len() == y@.len(),
            forall|k: int| 0 <= k < i ==> x@[k] == y@[k],
        decreases x@.len() - i,
    {
        if x[i] != y[i] {
            return false;
        }
        i = i + 1;
    }
    assert(x@ =~= y@);
    true
}

} // verus!
