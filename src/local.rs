//! The local remotes of supported hosts: the table built from the remotes
//! that the repository lists, the remote that resolution starts from, and the
//! lines that adding a remote brings to the listing of remotes.
use vstd::prelude::*;
use crate::error::RepoError;
use crate::text::{lemma_seq_lt_transitive, seq_lt, str_lt};
use crate::url::{Name, Owner, ParsedUrl, RemoteAlias, Url, parse_url};

verus! {

/// A remote of the local repository that belongs to a supported host.
#[derive(Clone, Debug)]
pub struct LocalRemote {
    pub owner: Owner,
    pub name: Name,
    pub alias: RemoteAlias,
    pub url: Url,
}

/// The owner that the remote URL `u` names, where it parses.
pub open spec fn url_owner(u: Seq<char>) -> Seq<char> {
    match parse_url(u) {
        ParsedUrl::Parsed { owner, .. } => owner,
        _ => Seq::empty(),
    }
}

/// `e` is what the remote `rs[i]`, an alias and its URL, parses to.
pub open spec fn entry_from(rs: Seq<(String, String)>, i: int, e: LocalRemote) -> bool {
    &&& 0 <= i < rs.len()
    &&& parse_url(rs[i].1@) matches ParsedUrl::Parsed { host, https, owner, name }
    &&& e.owner.0@ == owner
    &&& e.name.0@ == name
    &&& e.alias.0@ == rs[i].0@
    &&& e.url.host() == host
    &&& e.url.spec_is_https() == https
    &&& e.url.text() == rs[i].1@
}

/// No remote after `rs[i]` parses to the same owner.
pub open spec fn last_with_owner(rs: Seq<(String, String)>, i: int) -> bool {
    forall|j: int|
        i < j < rs.len() && #[trigger] parse_url(rs[j].1@) is Parsed ==> url_owner(rs[j].1@)
            != url_owner(rs[i].1@)
}

/// `e` is the entry of the last remote in `rs` that names its owner.
pub open spec fn has_source(rs: Seq<(String, String)>, e: LocalRemote) -> bool {
    exists|i: int| entry_from(rs, i, e) && last_with_owner(rs, i)
}

/// No two entries of `t` have the same owner.
pub open spec fn distinct_owners(t: Seq<LocalRemote>) -> bool {
    forall|a: int, b: int|
        0 <= a < b < t.len() ==> #[trigger] t[a].owner.0@ != #[trigger] t[b].owner.0@
}

/// `t` is the table of the remotes `rs`: one entry per owner, from the last
/// remote that names that owner.
pub open spec fn table_of(rs: Seq<(String, String)>, t: Seq<LocalRemote>) -> bool {
    &&& distinct_owners(t)
    &&& forall|k: int|
        0 <= k < t.len() ==> has_source(rs, #[trigger] t[k])
    &&& forall|i: int|
        0 <= i < rs.len() && #[trigger] parse_url(rs[i].1@) is Parsed ==> exists|k: int|
            0 <= k < t.len() && #[trigger] t[k].owner.0@ == url_owner(rs[i].1@)
}

/// The position in `t` of the entry owned by `owner`, if any.
fn find_owner(t: &Vec<LocalRemote>, owner: &Owner) -> (r: Option<usize>)
    ensures
        match r {
            Some(k) => k < t@.len() && t@[k as int].owner.0@ == owner.0@,
            None => forall|k: int| 0 <= k < t@.len() ==> t@[k].owner.0@ != owner.0@,
        },
{
    let mut k: usize = 0;
    while k < t.len()
        invariant
            k <= t@.len(),
            forall|j: int| 0 <= j < k ==> t@[j].owner.0@ != owner.0@,
        decreases t@.len() - k,
    {
        if t[k].owner.0 == owner.0 {
            return Some(k);
        }
        k = k + 1;
    }
    None
}

/// Taking in a remote that no supported host claims leaves the table as it is.
proof fn lemma_table_skip(rs: Seq<(String, String)>, i: int, t: Seq<LocalRemote>)
    requires
        0 <= i < rs.len(),
        table_of(rs.take(i), t),
        !(parse_url(rs[i].1@) is Parsed),
    ensures
        table_of(rs.take(i + 1), t),
{
    let p = rs.take(i);
    let q = rs.take(i + 1);
    assert forall|k: int| 0 <= k < t.len() implies has_source(q, #[trigger] t[k]) by {
        let j = choose|j: int| entry_from(p, j, t[k]) && last_with_owner(p, j);
        assert(entry_from(p, j, t[k]) && last_with_owner(p, j));
        assert(p[j] == q[j]);
        assert(entry_from(q, j, t[k]));
        assert forall|jj: int|
            j < jj < q.len() && #[trigger] parse_url(q[jj].1@) is Parsed implies url_owner(
            q[jj].1@,
        ) != url_owner(q[j].1@) by {
            if jj < i {
                assert(p[jj] == q[jj]);
            } else {
                assert(q[jj] == rs[i]);
            }
        }
        assert(last_with_owner(q, j));
    }
    assert forall|j: int|
        0 <= j < q.len() && #[trigger] parse_url(q[j].1@) is Parsed implies exists|k: int|
        0 <= k < t.len() && #[trigger] t[k].owner.0@ == url_owner(q[j].1@) by {
        if j == i {
            assert(q[j] == rs[i]);
        }
        assert(j < i);
        assert(p[j] == q[j]);
        assert(parse_url(p[j].1@) is Parsed);
    }
}

/// Taking in the remote `rs[i]`, which parses to `e`: its entry takes the
/// place of an entry with the same owner, or is added where there is none.
#[verifier::rlimit(40)]
proof fn lemma_table_add(
    rs: Seq<(String, String)>,
    i: int,
    t: Seq<LocalRemote>,
    e: LocalRemote,
    found: Option<int>,
)
    requires
        0 <= i < rs.len(),
        table_of(rs.take(i), t),
        entry_from(rs, i, e),
        match found {
            Some(k) => 0 <= k < t.len() && t[k].owner.0@ == e.owner.0@,
            None => forall|k: int| 0 <= k < t.len() ==> t[k].owner.0@ != e.owner.0@,
        },
    ensures
        table_of(
            rs.take(i + 1),
            match found {
                Some(k) => t.update(k, e),
                None => t.push(e),
            },
        ),
{
    let p = rs.take(i);
    let q = rs.take(i + 1);
    let t2 = match found {
        Some(k) => t.update(k, e),
        None => t.push(e),
    };
    assert(q[i] == rs[i]);
    assert(entry_from(q, i, e));
    assert(url_owner(q[i].1@) == e.owner.0@);
    assert forall|a: int, b: int| 0 <= a < b < t2.len() implies #[trigger] t2[a].owner.0@
        != #[trigger] t2[b].owner.0@ by {
        if found is None {
            if b == t.len() {
                assert(t2[a] == t[a]);
            } else {
                assert(t2[a] == t[a] && t2[b] == t[b]);
            }
        } else {
            let k = found->Some_0;
            if a == k {
                assert(t[b].owner.0@ != t[k].owner.0@);
            } else if b == k {
                assert(t[a].owner.0@ != t[k].owner.0@);
            }
        }
    }
    assert forall|k: int| 0 <= k < t2.len() implies has_source(q, #[trigger] t2[k]) by {
        if t2[k] == e && (found is None ==> k == t.len()) && (found is Some ==> k
            == found->Some_0) {
            assert(entry_from(q, i, t2[k]));
            assert(last_with_owner(q, i));
        } else {
            assert(k < t.len());
            assert(t2[k] == t[k]);
            let j = choose|j: int| entry_from(p, j, t[k]) && last_with_owner(p, j);
            assert(entry_from(p, j, t[k]) && last_with_owner(p, j));
            assert(p[j] == q[j]);
            assert(entry_from(q, j, t2[k]));
            assert(t[k].owner.0@ != e.owner.0@) by {
                if let Some(kf) = found {
                    if k != kf {
                        if k < kf {
                            assert(t[k].owner.0@ != t[kf].owner.0@);
                        } else {
                            assert(t[kf].owner.0@ != t[k].owner.0@);
                        }
                    }
                }
            }
            assert(url_owner(q[j].1@) == t[k].owner.0@);
            assert forall|jj: int|
                j < jj < q.len() && #[trigger] parse_url(q[jj].1@) is Parsed implies url_owner(
                q[jj].1@,
            ) != url_owner(q[j].1@) by {
                if jj < i {
                    assert(p[jj] == q[jj]);
                } else {
                    assert(q[jj] == rs[i]);
                }
            }
            assert(last_with_owner(q, j));
        }
    }
    let ke = match found {
        Some(k) => k,
        None => t.len() as int,
    };
    assert(t2[ke] == e);
    assert forall|j: int|
        0 <= j < q.len() && #[trigger] parse_url(q[j].1@) is Parsed implies exists|k: int|
        0 <= k < t2.len() && #[trigger] t2[k].owner.0@ == url_owner(q[j].1@) by {
        if j == i {
            assert(t2[ke].owner.0@ == url_owner(q[j].1@));
        } else {
            assert(p[j] == q[j]);
            assert(parse_url(p[j].1@) is Parsed);
            let k0 = choose|k: int| 0 <= k < t.len() && #[trigger] t[k].owner.0@ == url_owner(p[j].1@);
            if k0 == ke {
                assert(t2[ke].owner.0@ == url_owner(q[j].1@));
            } else {
                assert(t2[k0] == t[k0]);
                assert(t2[k0].owner.0@ == url_owner(q[j].1@));
            }
        }
    }
}

/// Builds the table of local remotes from the pairs of alias and URL that the
/// repository lists. Remotes of other hosts are left out; a malformed remote
/// of a supported host is an error, and so is a table left empty.
pub fn populate_local_remotes(remotes: &Vec<(String, String)>) -> (r: Result<
    Vec<LocalRemote>,
    RepoError,
>)
    ensures
        (exists|i: int| 0 <= i < remotes@.len() && parse_url(remotes@[i].1@) is Malformed) ==> (r
            matches Err(RepoError::MalformedLocalRemote)),
        (forall|i: int| 0 <= i < remotes@.len() ==> parse_url(remotes@[i].1@) is Unsupported) ==> (r
            matches Err(RepoError::NoSupportedLocalRemotes)),
        (forall|i: int| 0 <= i < remotes@.len() ==> !(parse_url(remotes@[i].1@) is Malformed)) && (
        exists|i: int| 0 <= i < remotes@.len() && parse_url(remotes@[i].1@) is Parsed) ==> (r matches Ok(
            t,
        ) && table_of(remotes@, t@) && t@.len() > 0),
{
    let mut table: Vec<LocalRemote> = Vec::new();
    let mut i: usize = 0;
    assert(table_of(remotes@.take(0), table@));
    while i < remotes.len()
        invariant
            i <= remotes@.len(),
            forall|j: int| 0 <= j < i ==> !(parse_url(remotes@[j].1@) is Malformed),
            table_of(remotes@.take(i as int), table@),
            table@.len() == 0 <==> forall|j: int|
                0 <= j < i ==> parse_url(remotes@[j].1@) is Unsupported,
        decreases remotes@.len() - i,
    {
        let ghost old_t = table@;
        let parsed = Url::new(remotes[i].1.as_str());
        match parsed {
            Err(e) => {
                return Err(e);
            },
            Ok(None) => {
                proof {
                    lemma_table_skip(remotes@, i as int, table@);
                }
            },
            Ok(Some((url, owner, name))) => {
                let entry = LocalRemote {
                    owner,
                    name,
                    alias: RemoteAlias(remotes[i].0.clone()),
                    url,
                };
                let found = find_owner(&table, &entry.owner);
                proof {
                    let g: Option<int> = match found {
                        Some(k) => Some(k as int),
                        None => None,
                    };
                    lemma_table_add(remotes@, i as int, table@, entry, g);
                }
                match found {
                    Some(k) => {
                        table.set(k, entry);
                    },
                    None => {
                        table.push(entry);
                    },
                }
            },
        }
        i = i + 1;
    }
    assert(remotes@.take(i as int) =~= remotes@);
    if table.len() == 0 {
        return Err(RepoError::NoSupportedLocalRemotes);
    }
    Ok(table)
}

/// The position of the entry of `t` with the smallest owner.
pub(crate) fn seed_index(t: &Vec<LocalRemote>) -> (r: usize)
    requires
        t@.len() > 0,
    ensures
        r < t@.len(),
        forall|k: int| 0 <= k < t@.len() ==> !seq_lt(#[trigger] t@[k].owner.0@, t@[r as int].owner.0@),
{
    let mut best: usize = 0;
    let mut k: usize = 1;
    proof {
        crate::text::lemma_seq_lt_irreflexive(t@[0].owner.0@);
    }
    while k < t.len()
        invariant
            1 <= k <= t@.len(),
            best < k,
            forall|j: int| 0 <= j < k ==> !seq_lt(#[trigger] t@[j].owner.0@, t@[best as int].owner.0@),
        decreases t@.len() - k,
    {
        if str_lt(t[k].owner.0.as_str(), t[best].owner.0.as_str()) {
            proof {
                assert forall|j: int| 0 <= j < k implies !seq_lt(
                    #[trigger] t@[j].owner.0@,
                    t@[k as int].owner.0@,
                ) by {
                    if seq_lt(t@[j].owner.0@, t@[k as int].owner.0@) {
                        lemma_seq_lt_transitive(
                            t@[j].owner.0@,
                            t@[k as int].owner.0@,
                            t@[best as int].owner.0@,
                        );
                    }
                }
                crate::text::lemma_seq_lt_irreflexive(t@[k as int].owner.0@);
            }
            best = k;
        }
        k = k + 1;
    }
    best
}

/// Which lines of `after` are new, read from line `j` of `before` on: a line
/// equal to the next line of `before` not yet matched (an empty line once
/// `before` runs out) is old and is matched; any other line is new.
pub open spec fn new_line_marks(before: Seq<String>, after: Seq<String>, j: int) -> Seq<bool>
    decreases after.len(),
{
    if after.len() == 0 {
        Seq::empty()
    } else {
        let next = if 0 <= j < before.len() {
            before[j]@
        } else {
            Seq::<char>::empty()
        };
        if next == after[0]@ {
            seq![false] + new_line_marks(before, after.drop_first(), j + 1)
        } else {
            seq![true] + new_line_marks(before, after.drop_first(), j)
        }
    }
}

/// Marks each line of the remote listing `after` that the listing `before`
/// did not have, so that the new remote's lines can be highlighted.
pub fn new_remote_lines(before: &Vec<String>, after: &Vec<String>) -> (r: Vec<bool>)
    ensures
        r@ == new_line_marks(before@, after@, 0),
{
    let mut marks: Vec<bool> = Vec::new();
    let mut j: usize = 0;
    let mut i: usize = 0;
    let empty = String::new();
    assert(after@.skip(0) =~= after@);
    while i < after.len()
        invariant
            i <= after@.len(),
            j <= i,
            empty@ == Seq::<char>::empty(),
            marks@ + new_line_marks(before@, after@.skip(i as int), j as int) == new_line_marks(
                before@,
                after@,
                0,
            ),
        decreases after@.len() - i,
    {
        let ghost rest = after@.skip(i as int);
        let ghost m0 = marks@;
        assert(rest.drop_first() =~= after@.skip(i + 1));
        assert(rest[0] == after@[i as int]);
        let next = if j < before.len() {
            &before[j]
        } else {
            &empty
        };
        if *next == after[i] {
            marks.push(false);
            assert(m0 + (seq![false] + new_line_marks(before@, after@.skip(i + 1), j + 1)) =~= marks@
                + new_line_marks(before@, after@.skip(i + 1), j + 1));
            j = j + 1;
        } else {
            marks.push(true);
            assert(m0 + (seq![true] + new_line_marks(before@, after@.skip(i + 1), j as int)) =~= marks@
                + new_line_marks(before@, after@.skip(i + 1), j as int));
        }
        i = i + 1;
    }
    assert(after@.skip(i as int).len() == 0);
    assert(marks@ + Seq::<bool>::empty() =~= marks@);
    marks
}

} // verus!
