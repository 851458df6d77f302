//! What is sent to, and read back from, the hosting providers' REST APIs: the
//! request URLs, the credential, the link to the next page of a listing, and
//! the fields read out of JSON bodies.
use vstd::prelude::*;
use base64::Engine as _;
use crate::error::RepoError;
use crate::json::{
    absent, count, count_of, field, field_of, is_absent, opt, parse_json_doc, text, text_of, json_of,
    Json,
};
use crate::repo::{ForkEntry, GitHubSource, GitLabProject};
use crate::text::{
    find_char_at, has_char, matches_at, to_string, trim_end, trim_end_at,
};
use crate::url::{split_path, Host, Owner, Url};

verus! {

/// The result of encoding the UTF-8 bytes of `s` with the standard base64
/// alphabet, with padding.
pub uninterp spec fn base64_of(s: Seq<char>) -> Seq<char>;

/// Relies on `base64::engine::general_purpose::STANDARD.encode`: the standard
/// base64 encoding of the bytes of `s`, a function of those bytes alone.
#[verifier::external_body]
fn encode_base64(s: &str) -> (r: String)
    ensures
        r@ == base64_of(s@),
{
    base64::engine::general_purpose::STANDARD.encode(s)
}

/// The credential sent to GitHub: `username:token` in base64.
pub fn github_credential(user_and_token: &str) -> (r: String)
    ensures
        r@ == base64_of(user_and_token@),
{
    encode_base64(user_and_token)
}

/// The base of GitLab's project API.
pub open spec fn gitlab_api() -> Seq<char> {
    "https://gitlab.com/api/v4/projects/"@
}

/// The base of GitHub's repository API.
pub open spec fn github_api() -> Seq<char> {
    "https://api.github.com/repos/"@
}

/// `s` with each `/` written `%2F`.
pub open spec fn escape_slashes(s: Seq<char>) -> Seq<char>
    decreases s.len(),
{
    if s.len() == 0 {
        s
    } else {
        escape_slashes(s.drop_last()) + if s.last() == '/' {
            "%2F"@
        } else {
            seq![s.last()]
        }
    }
}

/// `s` with each `/` written `%2F`.
pub fn encode_slashes(s: &str) -> (r: String)
    ensures
        r@ == escape_slashes(s@),
{
    let len = s.unicode_len();
    let mut r = String::new();
    let mut i: usize = 0;
    while i < len
        invariant
            i <= len,
            len == s@.len(),
            r@ == escape_slashes(s@.take(i as int)),
        decreases len - i,
    {
        proof {
            assert(s@.take(i + 1).drop_last() =~= s@.take(i as int));
            assert(s@.take(i + 1).last() == s@[i as int]);
        }
        if s.get_char(i) == '/' {
            r.append("%2F");
        } else {
            let c = s.substring_char(i, i + 1);
            assert(c@ =~= seq![s@[i as int]]);
            r.append(c);
        }
        i = i + 1;
    }
    assert(s@.take(len as int) =~= s@);
    r
}

/// The GitLab request for the project `owner/name`.
pub fn gitlab_project_request(owner: &str, name: &str, token: &str) -> (r: String)
    ensures
        r@ == gitlab_api() + owner@ + "%2F"@ + escape_slashes(name@) + "?private_token="@ + token@,
{
    let mut r = to_string("https://gitlab.com/api/v4/projects/");
    r.append(owner);
    r.append("%2F");
    r.append(encode_slashes(name).as_str());
    r.append("?private_token=");
    r.append(token);
    r
}

/// The GitLab request for the forks of the project `owner/name`.
pub fn gitlab_forks_request(owner: &str, name: &str, token: &str) -> (r: String)
    ensures
        r@ == gitlab_api() + owner@ + "%2F"@ + escape_slashes(name@) + "/forks?private_token="@
            + token@,
{
    let mut r = to_string("https://gitlab.com/api/v4/projects/");
    r.append(owner);
    r.append("%2F");
    r.append(encode_slashes(name).as_str());
    r.append("/forks?private_token=");
    r.append(token);
    r
}

/// The GitHub request for the repository `owner/name`.
pub fn github_repo_request(owner: &str, name: &str) -> (r: String)
    ensures
        r@ == github_api() + owner@ + "/"@ + name@,
{
    let mut r = to_string("https://api.github.com/repos/");
    r.append(owner);
    r.append("/");
    r.append(name);
    r
}

/// The GitHub request for the first page of forks of `owner/name`.
pub fn github_forks_request(owner: &str, name: &str) -> (r: String)
    ensures
        r@ == github_api() + owner@ + "/"@ + name@ + "/forks?per_page=100"@,
{
    let mut r = github_repo_request(owner, name);
    r.append("/forks?per_page=100");
    r
}

/// `p` occurs somewhere in `s`.
pub open spec fn contains(s: Seq<char>, p: Seq<char>) -> bool {
    exists|i: int| 0 <= i && i + p.len() <= s.len() && #[trigger] s.subrange(i, i + p.len()) == p
}

/// `s` without the leading characters that occur in `cs`.
pub open spec fn trim_start_chars(s: Seq<char>, cs: Seq<char>) -> Seq<char>
    decreases s.len(),
{
    if s.len() > 0 && has_char(cs, s[0]) {
        trim_start_chars(s.drop_first(), cs)
    } else {
        s
    }
}

/// `s` without the trailing characters that occur in `cs`.
pub open spec fn trim_end_chars(s: Seq<char>, cs: Seq<char>) -> Seq<char>
    decreases s.len(),
{
    if s.len() > 0 && has_char(cs, s.last()) {
        trim_end_chars(s.drop_last(), cs)
    } else {
        s
    }
}

/// The relation that marks the link to the next page.
pub open spec fn rel_next() -> Seq<char> {
    "rel=\"next\""@
}

/// The URL that a `Link` entry such as `<url>; rel="next"` holds.
pub open spec fn link_target(entry: Seq<char>) -> Seq<char> {
    trim_end_chars(trim_end(trim_start_chars(entry, " <"@), rel_next()), " >;"@)
}

/// The link to the next page in the comma-separated entries of `h`, read
/// from the entry that begins at `start`, whose characters up to `i` hold no
/// comma: the target of the first entry that mentions `rel="next"`.
pub open spec fn next_link_scan(h: Seq<char>, start: int, i: int) -> Option<Seq<char>>
    decreases h.len() - i,
{
    if i >= h.len() || h[i] == ',' {
        let entry = h.subrange(start, i);
        if contains(entry, rel_next()) {
            Some(link_target(entry))
        } else if i < h.len() {
            next_link_scan(h, i + 1, i + 1)
        } else {
            None
        }
    } else {
        next_link_scan(h, start, i + 1)
    }
}

/// The link to the next page that the `Link` header value `h` gives, if any.
pub open spec fn next_page_link(h: Seq<char>) -> Option<Seq<char>> {
    next_link_scan(h, 0, 0)
}

/// Whether `p` occurs in the window `lo..hi` of `s`.
fn contains_at(s: &str, lo: usize, hi: usize, p: &str) -> (r: bool)
    requires
        lo <= hi <= s@.len(),
    ensures
        r == contains(s@.subrange(lo as int, hi as int), p@),
{
    let ghost w = s@.subrange(lo as int, hi as int);
    let n = p.unicode_len();
    let mut j = lo;
    loop
        invariant
            lo <= j <= hi,
            hi <= s@.len(),
            n == p@.len(),
            w == s@.subrange(lo as int, hi as int),
            forall|k: int|
                0 <= k < j - lo && k + n <= w.len() ==> #[trigger] w.subrange(k, k + n) != p@,
        decreases hi - j,
    {
        if matches_at(s, j, hi, p) {
            assert(w.subrange(j - lo, j - lo + n) =~= s@.subrange(j as int, hi as int).subrange(
                0,
                n as int,
            ));
            return true;
        }
        proof {
            if j - lo + n <= w.len() {
                assert(w.subrange(j - lo, j - lo + n) =~= s@.subrange(j as int, hi as int).subrange(
                    0,
                    n as int,
                ));
            }
        }
        if j == hi {
            assert forall|k: int| 0 <= k && k + n <= w.len() implies #[trigger] w.subrange(k, k + n)
                != p@ by {
                if k < j - lo {
                } else {
                    assert(k == j - lo);
                }
            }
            return false;
        }
        j = j + 1;
    }
}

/// Drops from the window `lo..hi` of `s` the leading characters that occur
/// in `cs`; returns where the rest begins.
fn trim_start_chars_at(s: &str, lo: usize, hi: usize, cs: &str) -> (r: usize)
    requires
        lo <= hi <= s@.len(),
    ensures
        lo <= r <= hi,
        s@.subrange(r as int, hi as int) == trim_start_chars(s@.subrange(lo as int, hi as int), cs@),
{
    let n = cs.unicode_len();
    let mut cur = lo;
    proof {
        assert(cs@.subrange(0, n as int) =~= cs@);
    }
    while cur < hi && find_char_at(cs, 0, n, s.get_char(cur)).is_some()
        invariant
            lo <= cur <= hi <= s@.len(),
            n == cs@.len(),
            cs@.subrange(0, n as int) == cs@,
            trim_start_chars(s@.subrange(cur as int, hi as int), cs@) == trim_start_chars(
                s@.subrange(lo as int, hi as int),
                cs@,
            ),
        decreases hi - cur,
    {
        assert(s@.subrange(cur as int, hi as int).drop_first() =~= s@.subrange(cur + 1, hi as int));
        cur = cur + 1;
    }
    cur
}

/// Drops from the window `lo..hi` of `s` the trailing characters that occur
/// in `cs`; returns where the rest ends.
fn trim_end_chars_at(s: &str, lo: usize, hi: usize, cs: &str) -> (r: usize)
    requires
        lo <= hi <= s@.len(),
    ensures
        lo <= r <= hi,
        s@.subrange(lo as int, r as int) == trim_end_chars(s@.subrange(lo as int, hi as int), cs@),
{
    let n = cs.unicode_len();
    let mut cur = hi;
    proof {
        assert(cs@.subrange(0, n as int) =~= cs@);
    }
    while cur > lo && find_char_at(cs, 0, n, s.get_char(cur - 1)).is_some()
        invariant
            lo <= cur <= hi <= s@.len(),
            n == cs@.len(),
            cs@.subrange(0, n as int) == cs@,
            trim_end_chars(s@.subrange(lo as int, cur as int), cs@) == trim_end_chars(
                s@.subrange(lo as int, hi as int),
                cs@,
            ),
        decreases cur - lo,
    {
        assert(s@.subrange(lo as int, cur as int).drop_last() =~= s@.subrange(lo as int, cur - 1));
        cur = cur - 1;
    }
    cur
}

/// The link to the next page that the `Link` header value `header` gives:
/// the target of its first comma-separated entry that mentions `rel="next"`.
pub fn get_link_to_next_from_header(header: &str) -> (r: Option<String>)
    ensures
        match next_page_link(header@) {
            Some(l) => r matches Some(s) && s@ == l,
            None => r is None,
        },
{
    let len = header.unicode_len();
    let mut start: usize = 0;
    let mut i: usize = 0;
    loop
        invariant
            start <= i <= len,
            len == header@.len(),
            next_link_scan(header@, start as int, i as int) == next_page_link(header@),
        decreases len - i,
    {
        if i == len || header.get_char(i) == ',' {
            if contains_at(header, start, i, "rel=\"next\"") {
                let a = trim_start_chars_at(header, start, i, " <");
                let b = trim_end_at(header, a, i, "rel=\"next\"");
                proof {
                    assert(header@.subrange(a as int, i as int).subrange(0, b - a) =~= header@.subrange(
                        a as int,
                        b as int,
                    ));
                }
                let c = trim_end_chars_at(header, a, b, " >;");
                return Some(to_string(header.substring_char(a, c)));
            }
            if i == len {
                return None;
            }
            start = i + 1;
        }
        i = i + 1;
    }
}

/// The error for a missing or mistyped field at `pointer`.
pub open spec fn shape_error(e: RepoError, pointer: Seq<char>) -> bool {
    e matches RepoError::UnexpectedResponseShape(f) && f@ == pointer
}

/// What a GitLab project document reports: `(false, url)` for a project
/// that is no fork, with its SSH clone URL; `(true, path)` for a fork, with
/// the `namespace/name` path of its parent; else the field that is missing
/// or mistyped (empty for a body that is not JSON).
pub open spec fn gitlab_project_of(doc: Option<Json>) -> Result<(bool, Seq<char>), Seq<char>> {
    if doc is None {
        Err(Seq::empty())
    } else if absent(field_of(doc, "forked_from_project"@)) {
        match text_of(field_of(doc, "ssh_url_to_repo"@)) {
            Some(u) => Ok((false, u)),
            None => Err("/ssh_url_to_repo"@),
        }
    } else {
        match text_of(field_of(field_of(doc, "forked_from_project"@), "path_with_namespace"@)) {
            Some(p) => Ok((true, p)),
            None => Err("/forked_from_project/path_with_namespace"@),
        }
    }
}

/// The view of a decoded GitLab project, as `gitlab_project_of` gives it.
pub open spec fn project_view(p: GitLabProject) -> (bool, Seq<char>) {
    match p {
        GitLabProject::Root { ssh_url } => (false, ssh_url@),
        GitLabProject::Fork { parent_path } => (true, parent_path@),
    }
}

/// The owner login, name and SSH clone URL in the repository object `s`,
/// or the field of the three that is missing or mistyped, reported by the
/// names given.
pub open spec fn source_fields(
    s: Option<Json>,
    owner_field: Seq<char>,
    name_field: Seq<char>,
    url_field: Seq<char>,
) -> Result<(Seq<char>, Seq<char>, Seq<char>), Seq<char>> {
    match text_of(field_of(field_of(s, "owner"@), "login"@)) {
        None => Err(owner_field),
        Some(o) => match text_of(field_of(s, "name"@)) {
            None => Err(name_field),
            Some(n) => match text_of(field_of(s, "ssh_url"@)) {
                None => Err(url_field),
                Some(u) => Ok((o, n, u)),
            },
        },
    }
}

/// What a GitHub repository document reports of the canonical upstream: the
/// fields of its `source` where it has one, else its own.
pub open spec fn github_source_of(doc: Option<Json>) -> Result<
    (Seq<char>, Seq<char>, Seq<char>),
    Seq<char>,
> {
    if doc is None {
        Err(Seq::empty())
    } else if absent(field_of(doc, "source"@)) {
        source_fields(doc, "/owner/login"@, "/name"@, "/ssh_url"@)
    } else {
        source_fields(
            field_of(doc, "source"@),
            "/source/owner/login"@,
            "/source/name"@,
            "/source/ssh_url"@,
        )
    }
}

/// A fork entry as a view: owner, SSH clone URL, number of its own forks.
pub type ForkView = (Seq<char>, Seq<char>, u64);

/// What one entry of a fork listing from `host` reports. A GitLab entry
/// gives its owner as the first part of `path_with_namespace` and counts
/// its forks in `forks_count`; a GitHub entry gives `owner.login`, and its
/// forks are not counted.
pub open spec fn fork_entry_of(j: Json, host: Host) -> Result<ForkView, Seq<char>> {
    let o = Some(j);
    match host {
        Host::GitLab => match text_of(field_of(o, "path_with_namespace"@)) {
            None => Err("/path_with_namespace"@),
            Some(p) => match split_path(p) {
                None => Err("/path_with_namespace"@),
                Some((owner, _)) => match text_of(field_of(o, "ssh_url_to_repo"@)) {
                    None => Err("/ssh_url_to_repo"@),
                    Some(u) => match count_of(field_of(o, "forks_count"@)) {
                        None => Err("/forks_count"@),
                        Some(c) => Ok((owner, u, c)),
                    },
                },
            },
        },
        Host::GitHub => match text_of(field_of(field_of(o, "owner"@), "login"@)) {
            None => Err("/owner/login"@),
            Some(owner) => match text_of(field_of(o, "ssh_url"@)) {
                None => Err("/ssh_url"@),
                Some(u) => Ok((owner, u, 0)),
            },
        },
    }
}

/// The entries `items` read in order, or the field missing or mistyped in
/// the first entry that lacks one.
pub open spec fn fork_entries_of(items: Seq<Json>, host: Host) -> Result<Seq<ForkView>, Seq<char>>
    decreases items.len(),
{
    if items.len() == 0 {
        Ok(Seq::empty())
    } else {
        match fork_entries_of(items.drop_last(), host) {
            Err(f) => Err(f),
            Ok(vs) => match fork_entry_of(items.last(), host) {
                Err(f) => Err(f),
                Ok(v) => Ok(vs.push(v)),
            },
        }
    }
}

/// What a page of a fork listing from `host` reports: the entries of its
/// array, or the field missing or mistyped (empty where the body is not a
/// JSON array).
pub open spec fn fork_page_of(doc: Option<Json>, host: Host) -> Result<Seq<ForkView>, Seq<char>> {
    match doc {
        Some(Json::Array(items)) => fork_entries_of(items@, host),
        _ => Err(Seq::empty()),
    }
}

/// The view of a decoded fork entry.
pub open spec fn entry_view(e: ForkEntry) -> ForkView {
    (e.owner.0@, e.url.text(), e.subforks)
}

/// `es` are the entries `vs` read from `host`, as SSH URLs of that host.
pub open spec fn entries_match(es: Seq<ForkEntry>, vs: Seq<ForkView>, host: Host) -> bool {
    &&& es.len() == vs.len()
    &&& forall|i: int|
        0 <= i < es.len() ==> entry_view(#[trigger] es[i]) == vs[i] && es[i].url.host() == host
            && !es[i].url.spec_is_https()
}

/// The shape error naming `field`.
fn shape(field: &str) -> (r: RepoError)
    ensures
        shape_error(r, field@),
{
    RepoError::UnexpectedResponseShape(to_string(field))
}

/// Reads a GitLab project body: the project it was forked from, or, where
/// there is none, its SSH clone URL.
pub fn decode_gitlab_project(body: &str) -> (r: Result<GitLabProject, RepoError>)
    ensures
        match gitlab_project_of(json_of(body@)) {
            Ok(v) => r matches Ok(p) && project_view(p) == v,
            Err(f) => r matches Err(e) && shape_error(e, f),
        },
{
    let doc = parse_json_doc(body);
    let d = match &doc {
        Some(j) => Some(j),
        None => {
            return Err(RepoError::UnexpectedResponseShape(String::new()));
        },
    };
    if is_absent(field(d, "forked_from_project")) {
        match text(field(d, "ssh_url_to_repo")) {
            Some(ssh_url) => Ok(GitLabProject::Root { ssh_url }),
            None => Err(shape("/ssh_url_to_repo")),
        }
    } else {
        match text(field(field(d, "forked_from_project"), "path_with_namespace")) {
            Some(parent_path) => Ok(GitLabProject::Fork { parent_path }),
            None => Err(shape("/forked_from_project/path_with_namespace")),
        }
    }
}

/// Reads the owner login, name and SSH clone URL of the repository object
/// `s`, reporting a missing field by the names given.
fn read_source(s: Option<&Json>, owner_field: &str, name_field: &str, url_field: &str) -> (r:
    Result<GitHubSource, RepoError>)
    ensures
        match source_fields(opt(s), owner_field@, name_field@, url_field@) {
            Ok((o, n, u)) => r matches Ok(g) && g.owner@ == o && g.name@ == n && g.ssh_url@ == u,
            Err(f) => r matches Err(e) && shape_error(e, f),
        },
{
    let owner = match text(field(field(s, "owner"), "login")) {
        Some(o) => o,
        None => {
            return Err(shape(owner_field));
        },
    };
    let name = match text(field(s, "name")) {
        Some(n) => n,
        None => {
            return Err(shape(name_field));
        },
    };
    let ssh_url = match text(field(s, "ssh_url")) {
        Some(u) => u,
        None => {
            return Err(shape(url_field));
        },
    };
    Ok(GitHubSource { owner, name, ssh_url })
}

/// Reads a GitHub repository body: the owner, name and SSH clone URL of its
/// `source` where it has one, else its own.
pub fn decode_github_source(body: &str) -> (r: Result<GitHubSource, RepoError>)
    ensures
        match github_source_of(json_of(body@)) {
            Ok((o, n, u)) => r matches Ok(g) && g.owner@ == o && g.name@ == n && g.ssh_url@ == u,
            Err(f) => r matches Err(e) && shape_error(e, f),
        },
{
    let doc = parse_json_doc(body);
    let d = match &doc {
        Some(j) => Some(j),
        None => {
            return Err(RepoError::UnexpectedResponseShape(String::new()));
        },
    };
    if is_absent(field(d, "source")) {
        read_source(d, "/owner/login", "/name", "/ssh_url")
    } else {
        read_source(field(d, "source"), "/source/owner/login", "/source/name", "/source/ssh_url")
    }
}

/// Reads one entry of a fork listing from `host`.
fn decode_fork_entry(j: &Json, host: Host) -> (r: Result<ForkEntry, RepoError>)
    ensures
        match fork_entry_of(*j, host) {
            Ok(v) => r matches Ok(e) && entry_view(e) == v && e.url.host() == host
                && !e.url.spec_is_https(),
            Err(f) => r matches Err(e) && shape_error(e, f),
        },
{
    let o = Some(j);
    match host {
        Host::GitLab => {
            let path = match text(field(o, "path_with_namespace")) {
                Some(p) => p,
                None => {
                    return Err(shape("/path_with_namespace"));
                },
            };
            let owner = match Url::split_owner_and_repo(path.as_str()) {
                Some((owner, _)) => owner,
                None => {
                    return Err(shape("/path_with_namespace"));
                },
            };
            let url = match text(field(o, "ssh_url_to_repo")) {
                Some(u) => u,
                None => {
                    return Err(shape("/ssh_url_to_repo"));
                },
            };
            let subforks = match count(field(o, "forks_count")) {
                Some(c) => c,
                None => {
                    return Err(shape("/forks_count"));
                },
            };
            Ok(ForkEntry { owner, url: Url::GitLabSsh(url), subforks })
        },
        Host::GitHub => {
            let owner = match text(field(field(o, "owner"), "login")) {
                Some(x) => x,
                None => {
                    return Err(shape("/owner/login"));
                },
            };
            let url = match text(field(o, "ssh_url")) {
                Some(u) => u,
                None => {
                    return Err(shape("/ssh_url"));
                },
            };
            Ok(ForkEntry { owner: Owner(owner), url: Url::GitHubSsh(url), subforks: 0 })
        },
    }
}

/// Once a prefix of the entries fails, all of them fail the same way.
proof fn lemma_entries_error_persists(items: Seq<Json>, host: Host, k: int)
    requires
        0 <= k <= items.len(),
        fork_entries_of(items.take(k), host) is Err,
    ensures
        fork_entries_of(items, host) == fork_entries_of(items.take(k), host),
    decreases items.len() - k,
{
    if k < items.len() {
        assert(items.take(k + 1).drop_last() =~= items.take(k));
        lemma_entries_error_persists(items, host, k + 1);
    } else {
        assert(items.take(k) =~= items);
    }
}

/// Reads one page of a fork listing from `host`: the entries of its array,
/// in order, or an error naming the first field missing or mistyped.
pub fn decode_fork_page(body: &str, host: Host) -> (r: Result<Vec<ForkEntry>, RepoError>)
    ensures
        match fork_page_of(json_of(body@), host) {
            Ok(vs) => r matches Ok(es) && entries_match(es@, vs, host),
            Err(f) => r matches Err(e) && shape_error(e, f),
        },
{
    let doc = parse_json_doc(body);
    let items = match &doc {
        Some(Json::Array(items)) => items,
        _ => {
            return Err(RepoError::UnexpectedResponseShape(String::new()));
        },
    };
    let mut entries: Vec<ForkEntry> = Vec::new();
    let ghost mut vs: Seq<ForkView> = Seq::empty();
    let mut i: usize = 0;
    assert(items@.take(0) =~= Seq::<Json>::empty());
    while i < items.len()
        invariant
            i <= items@.len(),
            fork_page_of(json_of(body@), host) == fork_entries_of(items@, host),
            fork_entries_of(items@.take(i as int), host) == Ok::<Seq<ForkView>, Seq<char>>(vs),
            entries_match(entries@, vs, host),
        decreases items@.len() - i,
    {
        proof {
            assert(items@.take(i + 1).drop_last() =~= items@.take(i as int));
            assert(items@.take(i + 1).last() == items@[i as int]);
        }
        match decode_fork_entry(&items[i], host) {
            Ok(e) => {
                proof {
                    vs = vs.push(entry_view(e));
                }
                entries.push(e);
            },
            Err(e) => {
                proof {
                    lemma_entries_error_persists(items@, host, i + 1);
                }
                return Err(e);
            },
        }
        i = i + 1;
    }
    assert(items@.take(i as int) =~= items@);
    Ok(entries)
}

} // verus!
