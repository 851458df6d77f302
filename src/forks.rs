//! The ranking of fork candidates: a stable sort by key, where a candidate's
//! key is its owner in lower case, and the choice of the candidate to offer by
//! default.
use vstd::prelude::*;
use crate::text::{
    lemma_seq_lt_irreflexive, lemma_seq_lt_transitive, lemma_seq_not_lt_transitive, lowercase,
    lower_of, seq_lt, str_lt,
};
use crate::url::{Owner, Url};

verus! {

/// A fork candidate: its owner and its URL.
pub type Candidate = (Owner, Url);

/// A candidate with the key it ranks by, as a view.
pub type KeyedView = (Seq<char>, Candidate);

/// The key that a keyed candidate ranks by.
pub open spec fn key_of(k: KeyedView) -> Seq<char> {
    k.0
}

/// `s` with `x` placed after every element that does not rank above it.
pub open spec fn insert_by_key(s: Seq<KeyedView>, x: KeyedView) -> Seq<KeyedView>
    decreases s.len(),
{
    if s.len() == 0 || !seq_lt(key_of(x), key_of(s.last())) {
        s.push(x)
    } else {
        insert_by_key(s.drop_last(), x).push(s.last())
    }
}

/// `s` sorted by key; elements with equal keys keep their order.
pub open spec fn sort_by_key(s: Seq<KeyedView>) -> Seq<KeyedView>
    decreases s.len(),
{
    if s.len() == 0 {
        s
    } else {
        insert_by_key(sort_by_key(s.drop_last()), s.last())
    }
}

/// No element of `s` has a key below that of one before it.
pub open spec fn sorted_by_key(s: Seq<KeyedView>) -> bool {
    forall|i: int, j: int|
        0 <= i < j < s.len() ==> !seq_lt(#[trigger] key_of(s[j]), #[trigger] key_of(s[i]))
}

/// Placing `x` at `j`, after what does not rank above it and before what
/// does, is `insert_by_key`.
proof fn lemma_insert_at(s: Seq<KeyedView>, x: KeyedView, j: int)
    requires
        0 <= j <= s.len(),
        forall|k: int| j <= k < s.len() ==> seq_lt(key_of(x), #[trigger] key_of(s[k])),
        j == 0 || !seq_lt(key_of(x), key_of(s[j - 1])),
    ensures
        insert_by_key(s, x) == s.insert(j, x),
    decreases s.len(),
{
    if j == s.len() {
        assert(s.push(x) =~= s.insert(j, x));
    } else {
        assert(seq_lt(key_of(x), key_of(s[s.len() - 1])));
        let d = s.drop_last();
        assert forall|k: int| j <= k < d.len() implies seq_lt(key_of(x), #[trigger] key_of(d[k])) by {
            assert(d[k] == s[k]);
        }
        if j > 0 {
            assert(d[j - 1] == s[j - 1]);
        }
        lemma_insert_at(d, x, j);
        assert(d.insert(j, x).push(s.last()) =~= s.insert(j, x));
    }
}

/// Every element that `insert_by_key` returns is `x` or one of `s`.
proof fn lemma_insert_elements(s: Seq<KeyedView>, x: KeyedView)
    ensures
        insert_by_key(s, x).len() == s.len() + 1,
        forall|i: int|
            0 <= i < s.len() + 1 ==> #[trigger] insert_by_key(s, x)[i] == x || exists|j: int|
                0 <= j < s.len() && insert_by_key(s, x)[i] == s[j],
    decreases s.len(),
{
    if s.len() > 0 && seq_lt(key_of(x), key_of(s.last())) {
        let d = s.drop_last();
        lemma_insert_elements(d, x);
        let r = insert_by_key(s, x);
        assert forall|i: int| 0 <= i < s.len() + 1 implies #[trigger] r[i] == x || exists|j: int|
            0 <= j < s.len() && r[i] == s[j] by {
            if i == s.len() {
                assert(r[i] == s[s.len() - 1]);
            } else {
                assert(r[i] == insert_by_key(d, x)[i]);
                if r[i] != x {
                    let j = choose|j: int| 0 <= j < d.len() && insert_by_key(d, x)[i] == d[j];
                    assert(r[i] == s[j]);
                }
            }
        }
    } else {
        let r = insert_by_key(s, x);
        assert forall|i: int| 0 <= i < s.len() + 1 implies #[trigger] r[i] == x || exists|j: int|
            0 <= j < s.len() && r[i] == s[j] by {
            if i < s.len() {
                assert(r[i] == s[i]);
            }
        }
    }
}

/// Sorting keeps the length, and every element it returns is one of `s`.
pub proof fn lemma_sort_elements(s: Seq<KeyedView>)
    ensures
        sort_by_key(s).len() == s.len(),
        forall|i: int|
            0 <= i < s.len() ==> exists|j: int| 0 <= j < s.len() && #[trigger] sort_by_key(s)[i] == s[j],
    decreases s.len(),
{
    if s.len() > 0 {
        let d = s.drop_last();
        lemma_sort_elements(d);
        let sd = sort_by_key(d);
        lemma_insert_elements(sd, s.last());
        assert forall|i: int| 0 <= i < s.len() implies exists|j: int|
            0 <= j < s.len() && #[trigger] sort_by_key(s)[i] == s[j] by {
            let r = sort_by_key(s);
            assert(r == insert_by_key(sd, s.last()));
            if r[i] == s.last() {
                assert(r[i] == s[s.len() - 1]);
            } else {
                let j = choose|j: int| 0 <= j < sd.len() && r[i] == sd[j];
                let j2 = choose|j2: int| 0 <= j2 < d.len() && #[trigger] sd[j] == d[j2];
                assert(sd[j] == d[j2]);
                assert(r[i] == s[j2]);
            }
        }
    }
}

/// Inserting into a sorted list keeps it sorted.
proof fn lemma_insert_sorted(s: Seq<KeyedView>, x: KeyedView)
    requires
        sorted_by_key(s),
    ensures
        sorted_by_key(insert_by_key(s, x)),
    decreases s.len(),
{
    let r = insert_by_key(s, x);
    if s.len() == 0 || !seq_lt(key_of(x), key_of(s.last())) {
        assert forall|i: int, j: int| 0 <= i < j < r.len() implies !seq_lt(
            #[trigger] key_of(r[j]),
            #[trigger] key_of(r[i]),
        ) by {
            if j == s.len() {
                assert(r[i] == s[i]);
                if i < s.len() - 1 {
                    assert(!seq_lt(key_of(s[s.len() - 1]), key_of(s[i])));
                    lemma_seq_not_lt_transitive(key_of(x), key_of(s.last()), key_of(s[i]));
                }
            } else {
                assert(r[i] == s[i] && r[j] == s[j]);
            }
        }
    } else {
        let d = s.drop_last();
        assert forall|i: int, j: int| 0 <= i < j < d.len() implies !seq_lt(
            #[trigger] key_of(d[j]),
            #[trigger] key_of(d[i]),
        ) by {
            assert(d[i] == s[i] && d[j] == s[j]);
        }
        lemma_insert_sorted(d, x);
        lemma_insert_elements(d, x);
        let rd = insert_by_key(d, x);
        assert forall|i: int, j: int| 0 <= i < j < r.len() implies !seq_lt(
            #[trigger] key_of(r[j]),
            #[trigger] key_of(r[i]),
        ) by {
            if j == r.len() - 1 {
                assert(r[j] == s.last());
                assert(r[i] == rd[i]);
                if rd[i] == x {
                    if seq_lt(key_of(s.last()), key_of(x)) {
                        lemma_seq_lt_transitive(key_of(x), key_of(s.last()), key_of(x));
                        lemma_seq_lt_irreflexive(key_of(x));
                    }
                } else {
                    let k = choose|k: int| 0 <= k < d.len() && rd[i] == d[k];
                    assert(d[k] == s[k]);
                }
            } else {
                assert(r[i] == rd[i] && r[j] == rd[j]);
            }
        }
    }
}

/// `sort_by_key` returns a list sorted by key.
pub proof fn lemma_sort_sorted(s: Seq<KeyedView>)
    ensures
        sorted_by_key(sort_by_key(s)),
    decreases s.len(),
{
    if s.len() > 0 {
        lemma_sort_sorted(s.drop_last());
        lemma_insert_sorted(sort_by_key(s.drop_last()), s.last());
    }
}

/// Sorting a list that is already sorted by key leaves it as it is.
pub proof fn lemma_resort_sorted(s: Seq<KeyedView>)
    requires
        sorted_by_key(s),
    ensures
        sort_by_key(s) == s,
    decreases s.len(),
{
    if s.len() > 0 {
        let d = s.drop_last();
        assert forall|i: int, j: int| 0 <= i < j < d.len() implies !seq_lt(
            #[trigger] key_of(d[j]),
            #[trigger] key_of(d[i]),
        ) by {
            assert(d[i] == s[i] && d[j] == s[j]);
        }
        lemma_resort_sorted(d);
        if d.len() > 0 {
            assert(!seq_lt(key_of(s[s.len() - 1]), key_of(s[s.len() - 2])));
            assert(d.last() == s[s.len() - 2]);
        }
        assert(d.push(s.last()) =~= s);
    }
}

/// The view of candidates paired with their keys.
pub open spec fn keyed_view(v: Seq<(String, Candidate)>) -> Seq<KeyedView> {
    v.map_values(|p: (String, Candidate)| (p.0@, p.1))
}

/// The candidates of `v`, each paired with its key, sorted by key; those with
/// equal keys keep their order.
pub fn sort_by_keys(v: &Vec<(String, Candidate)>) -> (r: Vec<(String, Candidate)>)
    ensures
        keyed_view(r@) == sort_by_key(keyed_view(v@)),
{
    let mut res: Vec<(String, Candidate)> = Vec::new();
    let mut i: usize = 0;
    assert(keyed_view(v@).take(0) =~= Seq::<KeyedView>::empty());
    assert(keyed_view(res@) =~= Seq::<KeyedView>::empty());
    while i < v.len()
        invariant
            i <= v@.len(),
            keyed_view(res@) == sort_by_key(keyed_view(v@).take(i as int)),
        decreases v@.len() - i,
    {
        let x = (v[i].0.clone(), (v[i].1.0.duplicate(), v[i].1.1.duplicate()));
        let ghost xv = (x.0@, x.1);
        let mut j = res.len();
        while j > 0 && str_lt(x.0.as_str(), res[j - 1].0.as_str())
            invariant
                j <= res@.len(),
                xv == (x.0@, x.1),
                forall|k: int|
                    j <= k < res@.len() ==> seq_lt(xv.0, #[trigger] keyed_view(res@)[k].0),
            decreases j,
        {
            j = j - 1;
        }
        proof {
            lemma_insert_at(keyed_view(res@), xv, j as int);
            assert(keyed_view(v@).take(i + 1).drop_last() =~= keyed_view(v@).take(i as int));
            assert(keyed_view(v@).take(i + 1).last() == xv);
        }
        let ghost res0 = res@;
        res.insert(j, x);
        assert(keyed_view(res@) =~= keyed_view(res0).insert(j as int, xv));
        i = i + 1;
    }
    assert(keyed_view(v@).take(i as int) =~= keyed_view(v@));
    res
}

/// A candidate ranks by the lower-case form of its owner.
pub open spec fn owner_key(c: Candidate) -> Seq<char> {
    lower_of(c.0.0@)
}

/// The candidates `s`, each paired with its owner in lower case.
pub open spec fn with_owner_keys(s: Seq<Candidate>) -> Seq<KeyedView> {
    s.map_values(|c: Candidate| (owner_key(c), c))
}

/// `s` sorted by owner ignoring case; candidates that rank equal keep their
/// order.
pub open spec fn sort_by_owner(s: Seq<Candidate>) -> Seq<Candidate> {
    sort_by_key(with_owner_keys(s)).map_values(|k: KeyedView| k.1)
}

/// No candidate of `s` ranks below one before it.
pub open spec fn sorted_by_owner(s: Seq<Candidate>) -> bool {
    forall|i: int, j: int|
        0 <= i < j < s.len() ==> !seq_lt(#[trigger] owner_key(s[j]), #[trigger] owner_key(s[i]))
}

/// Sorting by owner keeps each candidate with its own key.
proof fn lemma_owner_keys_kept(s: Seq<Candidate>)
    ensures
        with_owner_keys(sort_by_owner(s)) == sort_by_key(with_owner_keys(s)),
        sort_by_owner(s).len() == s.len(),
        forall|i: int|
            0 <= i < s.len() ==> exists|j: int| 0 <= j < s.len() && #[trigger] sort_by_owner(s)[i] == s[j],
{
    let w = with_owner_keys(s);
    lemma_sort_elements(w);
    let sw = sort_by_key(w);
    assert forall|i: int| 0 <= i < sw.len() implies (#[trigger] sw[i]).0 == owner_key(sw[i].1) by {
        let j = choose|j: int| 0 <= j < w.len() && sw[i] == w[j];
    }
    assert(with_owner_keys(sort_by_owner(s)) =~= sw);
    assert forall|i: int| 0 <= i < s.len() implies exists|j: int|
        0 <= j < s.len() && #[trigger] sort_by_owner(s)[i] == s[j] by {
        let j = choose|j: int| 0 <= j < w.len() && #[trigger] sw[i] == w[j];
        assert(sort_by_owner(s)[i] == sw[i].1);
    }
}

/// Sorting by owner keeps the length, and every candidate it returns is one
/// of `s`.
pub proof fn lemma_sort_by_owner_elements(s: Seq<Candidate>)
    ensures
        sort_by_owner(s).len() == s.len(),
        forall|i: int|
            0 <= i < s.len() ==> exists|j: int| 0 <= j < s.len() && #[trigger] sort_by_owner(s)[i] == s[j],
{
    lemma_owner_keys_kept(s);
}

/// `sort_by_owner` returns a list sorted by owner, ignoring case.
pub proof fn lemma_sort_by_owner_sorted(s: Seq<Candidate>)
    ensures
        sorted_by_owner(sort_by_owner(s)),
{
    lemma_owner_keys_kept(s);
    lemma_sort_sorted(with_owner_keys(s));
    let r = sort_by_owner(s);
    assert forall|i: int, j: int| 0 <= i < j < r.len() implies !seq_lt(
        #[trigger] owner_key(r[j]),
        #[trigger] owner_key(r[i]),
    ) by {
        assert(with_owner_keys(r)[i].0 == owner_key(r[i]));
        assert(with_owner_keys(r)[j].0 == owner_key(r[j]));
        assert(!seq_lt(key_of(with_owner_keys(r)[j]), key_of(with_owner_keys(r)[i])));
    }
}

/// Re-sorting a list that is already sorted by owner leaves it as it is.
pub proof fn lemma_resort_by_owner(s: Seq<Candidate>)
    requires
        sorted_by_owner(s),
    ensures
        sort_by_owner(s) == s,
{
    let w = with_owner_keys(s);
    assert forall|i: int, j: int| 0 <= i < j < w.len() implies !seq_lt(
        #[trigger] key_of(w[j]),
        #[trigger] key_of(w[i]),
    ) by {
        assert(!seq_lt(owner_key(s[j]), owner_key(s[i])));
    }
    lemma_resort_sorted(w);
    assert(sort_by_owner(s) =~= s);
}

/// Sorting twice sorts once: re-sorting the candidates is a no-op.
pub proof fn lemma_sort_idempotent(s: Seq<Candidate>)
    ensures
        sort_by_owner(sort_by_owner(s)) == sort_by_owner(s),
{
    lemma_sort_by_owner_sorted(s);
    lemma_resort_by_owner(sort_by_owner(s));
}

/// `s` sorted by owner ignoring case, candidates that rank equal in their
/// order in `s`.
pub fn sort_forks(s: &Vec<Candidate>) -> (r: Vec<Candidate>)
    ensures
        r@ == sort_by_owner(s@),
{
    let mut keyed: Vec<(String, Candidate)> = Vec::new();
    let mut i: usize = 0;
    assert(keyed_view(keyed@) =~= with_owner_keys(s@.take(0)));
    while i < s.len()
        invariant
            i <= s@.len(),
            keyed@.len() == i,
            keyed_view(keyed@) == with_owner_keys(s@.take(i as int)),
        decreases s@.len() - i,
    {
        let key = lowercase(s[i].0.0.as_str());
        let c = (s[i].0.duplicate(), s[i].1.duplicate());
        assert(c == s@[i as int]);
        let ghost k0 = keyed@;
        keyed.push((key, c));
        assert forall|j: int| 0 <= j <= i implies #[trigger] keyed_view(keyed@)[j] == with_owner_keys(
            s@.take(i + 1),
        )[j] by {
            if j < i {
                assert(keyed@[j] == k0[j]);
                assert(keyed_view(k0)[j] == with_owner_keys(s@.take(i as int))[j]);
            }
        }
        assert(keyed_view(keyed@) =~= with_owner_keys(s@.take(i + 1)));
        i = i + 1;
    }
    assert(s@.take(i as int) =~= s@);
    let sorted = sort_by_keys(&keyed);
    let mut r: Vec<Candidate> = Vec::new();
    let mut k: usize = 0;
    proof {
        assert(keyed_view(sorted@).len() == sorted@.len());
        lemma_sort_elements(keyed_view(keyed@));
    }
    while k < sorted.len()
        invariant
            k <= sorted@.len(),
            keyed_view(sorted@) == sort_by_key(with_owner_keys(s@)),
            r@ == sort_by_owner(s@).take(k as int),
            sort_by_owner(s@).len() == sorted@.len(),
        decreases sorted@.len() - k,
    {
        r.push((sorted[k].1.0.duplicate(), sorted[k].1.1.duplicate()));
        assert(keyed_view(sorted@)[k as int].1 == sorted@[k as int].1);
        assert(r@ =~= sort_by_owner(s@).take(k + 1));
        k = k + 1;
    }
    assert(sort_by_owner(s@).take(k as int) =~= sort_by_owner(s@));
    r
}

/// `i` is the first position in `keys` that holds `key`.
pub open spec fn is_first_key(keys: Seq<Seq<char>>, key: Seq<char>, i: int) -> bool {
    &&& 0 <= i < keys.len()
    &&& keys[i] == key
    &&& forall|j: int| 0 <= j < i ==> #[trigger] keys[j] != key
}

/// `keys` holds `key`.
pub open spec fn has_key(keys: Seq<Seq<char>>, key: Seq<char>) -> bool {
    exists|i: int| 0 <= i < keys.len() && #[trigger] keys[i] == key
}

/// The views of the strings `v`.
pub open spec fn views(v: Seq<String>) -> Seq<Seq<char>> {
    v.map_values(|s: String| s@)
}

/// The first position in `keys` that holds `key`.
pub fn find_key(keys: &Vec<String>, key: &String) -> (r: Option<usize>)
    ensures
        match r {
            Some(i) => is_first_key(views(keys@), key@, i as int),
            None => !has_key(views(keys@), key@),
        },
{
    let mut i: usize = 0;
    while i < keys.len()
        invariant
            i <= keys@.len(),
            forall|j: int| 0 <= j < i ==> #[trigger] views(keys@)[j] != key@,
        decreases keys@.len() - i,
    {
        if keys[i] == *key {
            return Some(i);
        }
        i = i + 1;
    }
    None
}

/// The candidate to offer by default, given the keys of the ranked
/// candidates: the only one; else the first whose key is `main_key`; else the
/// first whose key is `preferred_key`; else none.
pub fn suggest_index(keys: &Vec<String>, main_key: &String, preferred_key: &Option<String>) -> (r:
    Option<u64>)
    ensures
        keys@.len() == 1 ==> r == Some(0u64),
        keys@.len() != 1 && has_key(views(keys@), main_key@) ==> (r matches Some(i) && is_first_key(
            views(keys@),
            main_key@,
            i as int,
        )),
        keys@.len() != 1 && !has_key(views(keys@), main_key@) ==> match preferred_key {
            Some(p) => if has_key(views(keys@), p@) {
                r matches Some(i) && is_first_key(views(keys@), p@, i as int)
            } else {
                r is None
            },
            None => r is None,
        },
{
    if keys.len() == 1 {
        return Some(0);
    }
    if let Some(i) = find_key(keys, main_key) {
        return Some(i as u64);
    }
    match preferred_key {
        Some(p) => match find_key(keys, p) {
            Some(i) => Some(i as u64),
            None => None,
        },
        None => None,
    }
}

/// The keys of the candidates `s`: their owners in lower case.
pub fn owner_keys(s: &Vec<Candidate>) -> (r: Vec<String>)
    ensures
        views(r@) == s@.map_values(|c: Candidate| owner_key(c)),
{
    let mut r: Vec<String> = Vec::new();
    let mut i: usize = 0;
    while i < s.len()
        invariant
            i <= s@.len(),
            r@.len() == i,
            views(r@) == s@.take(i as int).map_values(|c: Candidate| owner_key(c)),
        decreases s@.len() - i,
    {
        let ghost r0 = r@;
        r.push(lowercase(s[i].0.0.as_str()));
        assert forall|j: int| 0 <= j <= i implies #[trigger] views(r@)[j] == s@.take(i + 1).map_values(
            |c: Candidate| owner_key(c),
        )[j] by {
            if j < i {
                assert(r@[j] == r0[j]);
                assert(views(r0)[j] == s@.take(i as int).map_values(|c: Candidate| owner_key(c))[j]);
            }
        }
        assert(views(r@) =~= s@.take(i + 1).map_values(|c: Candidate| owner_key(c)));
        i = i + 1;
    }
    assert(s@.take(i as int) =~= s@);
    r
}

} // verus!
