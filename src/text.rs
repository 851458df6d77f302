//! Character-sequence helpers shared by the URL parser and the provider client.
use vstd::prelude::*;

verus! {

/// `p` is a prefix of `s`.
pub open spec fn starts_with(s: Seq<char>, p: Seq<char>) -> bool {
    p.len() <= s.len() && s.subrange(0, p.len() as int) == p
}

/// `p` is a suffix of `s`.
pub open spec fn ends_with(s: Seq<char>, p: Seq<char>) -> bool {
    p.len() <= s.len() && s.subrange(s.len() - p.len(), s.len() as int) == p
}

/// What is left of `s` once every leading copy of `p` has been removed.
pub open spec fn trim_start(s: Seq<char>, p: Seq<char>) -> Seq<char>
    decreases s.len(),
{
    if p.len() > 0 && starts_with(s, p) {
        trim_start(s.subrange(p.len() as int, s.len() as int), p)
    } else {
        s
    }
}

/// What is left of `s` once every trailing copy of `p` has been removed.
pub open spec fn trim_end(s: Seq<char>, p: Seq<char>) -> Seq<char>
    decreases s.len(),
{
    if p.len() > 0 && ends_with(s, p) {
        trim_end(s.subrange(0, s.len() - p.len()), p)
    } else {
        s
    }
}

/// Whether `c` occurs in `s`.
pub open spec fn has_char(s: Seq<char>, c: char) -> bool {
    exists|i: int| 0 <= i < s.len() && s[i] == c
}

/// `i` is the position of the first `c` in `s`.
pub open spec fn is_first_index(s: Seq<char>, c: char, i: int) -> bool {
    0 <= i < s.len() && s[i] == c && forall|j: int| 0 <= j < i ==> s[j] != c
}

/// The position of the first `c` in `s`.
pub open spec fn first_index(s: Seq<char>, c: char) -> int
    recommends
        has_char(s, c),
{
    choose|i: int| is_first_index(s, c, i)
}

/// The first occurrence is the one `first_index` names.
pub proof fn lemma_first_index_unique(s: Seq<char>, c: char, i: int)
    requires
        is_first_index(s, c, i),
    ensures
        has_char(s, c),
        first_index(s, c) == i,
{
    let j = first_index(s, c);
    assert(is_first_index(s, c, j));
    if j < i {
        assert(s[j] != c);
    }
    if i < j {
        assert(s[i] != c);
    }
}

/// Strict lexicographic order on characters by code point, as `str` orders.
pub open spec fn seq_lt(a: Seq<char>, b: Seq<char>) -> bool
    decreases a.len(),
{
    if a.len() == 0 {
        b.len() > 0
    } else if b.len() == 0 {
        false
    } else if a[0] != b[0] {
        a[0] < b[0]
    } else {
        seq_lt(a.drop_first(), b.drop_first())
    }
}

/// `seq_lt` is transitive.
pub proof fn lemma_seq_lt_transitive(a: Seq<char>, b: Seq<char>, c: Seq<char>)
    requires
        seq_lt(a, b),
        seq_lt(b, c),
    ensures
        seq_lt(a, c),
    decreases a.len(),
{
    if a.len() > 0 && b.len() > 0 && c.len() > 0 && a[0] == b[0] && b[0] == c[0] {
        lemma_seq_lt_transitive(a.drop_first(), b.drop_first(), c.drop_first());
    }
}

/// No sequence comes before itself.
pub proof fn lemma_seq_lt_irreflexive(a: Seq<char>)
    ensures
        !seq_lt(a, a),
    decreases a.len(),
{
    if a.len() > 0 {
        lemma_seq_lt_irreflexive(a.drop_first());
    }
}

/// Of two different sequences, one comes before the other.
pub proof fn lemma_seq_lt_total(a: Seq<char>, b: Seq<char>)
    requires
        a != b,
    ensures
        seq_lt(a, b) || seq_lt(b, a),
    decreases a.len(),
{
    if a.len() == 0 {
        if b.len() == 0 {
            assert(a =~= b);
        }
    } else if b.len() == 0 {
    } else if a[0] == b[0] {
        if a.drop_first() == b.drop_first() {
            assert(a =~= seq![a[0]] + a.drop_first());
            assert(b =~= seq![b[0]] + b.drop_first());
        }
        lemma_seq_lt_total(a.drop_first(), b.drop_first());
    } else {
        assert(a[0] < b[0] || b[0] < a[0]);
    }
}

/// Not coming before is transitive.
pub proof fn lemma_seq_not_lt_transitive(a: Seq<char>, b: Seq<char>, c: Seq<char>)
    requires
        !seq_lt(a, b),
        !seq_lt(b, c),
    ensures
        !seq_lt(a, c),
{
    if seq_lt(a, c) {
        if a != b {
            lemma_seq_lt_total(a, b);
            lemma_seq_lt_transitive(b, a, c);
        }
    }
}

/// The result of `str::to_lowercase` on `s`.
pub uninterp spec fn lower_of(s: Seq<char>) -> Seq<char>;

/// Relies on `str::to_lowercase`: the lower-case form of `s`, which depends on
/// the characters of `s` alone.
#[verifier::external_body]
pub(crate) fn lowercase(s: &str) -> (r: String)
    ensures
        r@ == lower_of(s@),
{
    s.to_lowercase()
}

/// A fresh `String` holding the characters of `s`.
pub fn to_string(s: &str) -> (r: String)
    ensures
        r@ == s@,
{
    String::from_str(s)
}

/// Whether `s`, read from `at` up to `hi`, begins with `p`.
pub fn matches_at(s: &str, at: usize, hi: usize, p: &str) -> (r: bool)
    requires
        at <= hi <= s@.len(),
    ensures
        r == starts_with(s@.subrange(at as int, hi as int), p@),
{
    let n = p.unicode_len();
    if n > hi - at {
        return false;
    }
    let ghost w = s@.subrange(at as int, hi as int);
    let mut k: usize = 0;
    while k < n
        invariant
            k <= n,
            n == p@.len(),
            at + n <= hi,
            hi <= s@.len(),
            w == s@.subrange(at as int, hi as int),
            forall|j: int| 0 <= j < k ==> s@[at + j] == p@[j],
        decreases n - k,
    {
        if s.get_char(at + k) != p.get_char(k) {
            assert(w.subrange(0, n as int)[k as int] != p@[k as int]);
            return false;
        }
        k = k + 1;
    }
    assert(w.subrange(0, n as int) =~= p@);
    true
}

/// Drops every leading copy of `p` from the window `lo..hi` of `s`; returns
/// where the rest begins.
pub fn trim_start_at(s: &str, lo: usize, hi: usize, p: &str) -> (r: usize)
    requires
        lo <= hi <= s@.len(),
    ensures
        lo <= r <= hi,
        s@.subrange(r as int, hi as int) == trim_start(s@.subrange(lo as int, hi as int), p@),
{
    let n = p.unicode_len();
    if n == 0 {
        return lo;
    }
    let mut cur = lo;
    while matches_at(s, cur, hi, p)
        invariant
            lo <= cur <= hi <= s@.len(),
            n == p@.len(),
            n > 0,
            trim_start(s@.subrange(cur as int, hi as int), p@) == trim_start(
                s@.subrange(lo as int, hi as int),
                p@,
            ),
        decreases hi - cur,
    {
        assert(s@.subrange(cur as int, hi as int).subrange(n as int, (hi - cur) as int)
            =~= s@.subrange((cur + n) as int, hi as int));
        cur = cur + n;
    }
    cur
}

/// Drops every trailing copy of `p` from the window `lo..hi` of `s`; returns
/// where the rest ends.
pub fn trim_end_at(s: &str, lo: usize, hi: usize, p: &str) -> (r: usize)
    requires
        lo <= hi <= s@.len(),
    ensures
        lo <= r <= hi,
        s@.subrange(lo as int, r as int) == trim_end(s@.subrange(lo as int, hi as int), p@),
{
    let n = p.unicode_len();
    if n == 0 {
        return hi;
    }
    let mut cur = hi;
    loop
        invariant
            lo <= cur <= hi <= s@.len(),
            n == p@.len(),
            n > 0,
            trim_end(s@.subrange(lo as int, cur as int), p@) == trim_end(
                s@.subrange(lo as int, hi as int),
                p@,
            ),
        decreases cur - lo,
    {
        let ghost w = s@.subrange(lo as int, cur as int);
        if n > cur - lo {
            return cur;
        }
        assert(w.subrange(w.len() - n, w.len() as int) =~= s@.subrange(
            (cur - n) as int,
            cur as int,
        ).subrange(0, n as int));
        if !matches_at(s, cur - n, cur, p) {
            return cur;
        }
        assert(w.subrange(0, w.len() - n) =~= s@.subrange(lo as int, (cur - n) as int));
        cur = cur - n;
    }
}

/// The position of the first `c` in the window `lo..hi` of `s`, if any.
pub fn find_char_at(s: &str, lo: usize, hi: usize, c: char) -> (r: Option<usize>)
    requires
        lo <= hi <= s@.len(),
    ensures
        match r {
            Some(i) => lo <= i < hi && is_first_index(
                s@.subrange(lo as int, hi as int),
                c,
                i - lo,
            ),
            None => !has_char(s@.subrange(lo as int, hi as int), c),
        },
{
    let ghost w = s@.subrange(lo as int, hi as int);
    let mut i = lo;
    while i < hi
        invariant
            lo <= i <= hi <= s@.len(),
            w == s@.subrange(lo as int, hi as int),
            forall|j: int| 0 <= j < i - lo ==> w[j] != c,
        decreases hi - i,
    {
        if s.get_char(i) == c {
            return Some(i);
        }
        i = i + 1;
    }
    None
}

/// `seq_lt(a@, b@)`, the order of `str`.
pub fn str_lt(a: &str, b: &str) -> (r: bool)
    ensures
        r == seq_lt(a@, b@),
{
    let na = a.unicode_len();
    let nb = b.unicode_len();
    let mut k: usize = 0;
    assert(a@.skip(0) =~= a@);
    assert(b@.skip(0) =~= b@);
    while k < na && k < nb
        invariant
            na == a@.len(),
            nb == b@.len(),
            k <= na,
            k <= nb,
            seq_lt(a@, b@) == seq_lt(a@.skip(k as int), b@.skip(k as int)),
        decreases na - k,
    {
        let x = a.get_char(k);
        let y = b.get_char(k);
        if x != y {
            return x < y;
        }
        assert(a@.skip(k as int).drop_first() =~= a@.skip(k + 1));
        assert(b@.skip(k as int).drop_first() =~= b@.skip(k + 1));
        k = k + 1;
    }
    k < nb
}

} // verus!
