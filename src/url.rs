//! Remote URLs of the two supported hosts, and the owner and name they carry.
use vstd::prelude::*;
use crate::error::RepoError;
use crate::text::{
    ends_with, find_char_at, first_index, has_char, lemma_first_index_unique,
    matches_at, starts_with, to_string, trim_end, trim_end_at, trim_start, trim_start_at,
};

verus! {

/// The hosting user or group that owns a repository or fork.
#[derive(Clone, Debug, PartialEq, Eq, Hash, Default)]
pub struct Owner(pub String);

/// The name of a repository or fork on its host.
#[derive(Clone, Debug, PartialEq, Eq, Hash, Default)]
pub struct Name(pub String);

/// The name of a remote in the local repository.
#[derive(Clone, Debug, PartialEq, Eq, Hash, Default)]
pub struct RemoteAlias(pub String);

impl Owner {
    /// A copy with the same characters.
    pub fn duplicate(&self) -> (r: Owner)
        ensures
            r == *self,
    {
        Owner(self.0.clone())
    }
}

impl Name {
    /// A copy with the same characters.
    pub fn duplicate(&self) -> (r: Name)
        ensures
            r == *self,
    {
        Name(self.0.clone())
    }
}

impl RemoteAlias {
    /// A copy with the same characters.
    pub fn duplicate(&self) -> (r: RemoteAlias)
        ensures
            r == *self,
    {
        RemoteAlias(self.0.clone())
    }
}

/// The two supported hosting providers.
#[derive(Clone, Copy, Debug, PartialEq, Eq, Structural)]
pub enum Host {
    GitLab,
    GitHub,
}

/// The beginning of an SSH remote URL on `h`.
pub open spec fn ssh_prefix(h: Host) -> Seq<char> {
    match h {
        Host::GitLab => "git@gitlab.com:"@,
        Host::GitHub => "git@github.com:"@,
    }
}

/// The beginning of an HTTPS remote URL on `h`.
pub open spec fn https_prefix(h: Host) -> Seq<char> {
    match h {
        Host::GitLab => "https://gitlab.com/"@,
        Host::GitHub => "https://github.com/"@,
    }
}

/// The suffix that repository URLs may end with.
pub open spec fn git_suffix() -> Seq<char> {
    ".git"@
}

/// `u` with the SSH and then the HTTPS prefix of `h` trimmed off.
pub open spec fn strip_host(u: Seq<char>, h: Host) -> Seq<char> {
    trim_start(trim_start(u, ssh_prefix(h)), https_prefix(h))
}

/// Whether `u` uses the HTTPS transport.
pub open spec fn url_is_https(u: Seq<char>) -> bool {
    starts_with(u, "https://"@)
}

/// The host that `u` belongs to: the first whose prefixes shorten it.
pub open spec fn url_host(u: Seq<char>) -> Option<Host> {
    if !url_is_https(u) && !starts_with(u, "git@git"@) {
        None
    } else if strip_host(u, Host::GitLab) != u {
        Some(Host::GitLab)
    } else if strip_host(u, Host::GitHub) != u {
        Some(Host::GitHub)
    } else {
        None
    }
}

/// `s` split at its first `/` into an owner and a name.
pub open spec fn split_path(s: Seq<char>) -> Option<(Seq<char>, Seq<char>)> {
    if has_char(s, '/') {
        let i = first_index(s, '/');
        Some((s.subrange(0, i), s.subrange(i + 1, s.len() as int)))
    } else {
        None
    }
}

/// What the parser makes of a remote URL.
pub enum ParsedUrl {
    /// Not a URL of a supported host.
    Unsupported,
    /// A supported host, but no `owner/name` after it.
    Malformed,
    Parsed { host: Host, https: bool, owner: Seq<char>, name: Seq<char> },
}

/// The parse of the remote URL `u`.
pub open spec fn parse_url(u: Seq<char>) -> ParsedUrl {
    match url_host(u) {
        None => ParsedUrl::Unsupported,
        Some(h) => match split_path(trim_end(strip_host(u, h), git_suffix())) {
            None => ParsedUrl::Malformed,
            Some((o, n)) => ParsedUrl::Parsed { host: h, https: url_is_https(u), owner: o, name: n },
        },
    }
}

/// The HTTPS remote URL of the same repository as the SSH URL `u` on `h`.
pub open spec fn https_form(h: Host, u: Seq<char>) -> Seq<char> {
    https_prefix(h) + trim_end(trim_start(u, ssh_prefix(h)), git_suffix())
}

/// A remote URL of a supported host, with its transport.
#[derive(Clone, Debug)]
pub enum Url {
    GitLabHttps(String),
    GitLabSsh(String),
    GitHubHttps(String),
    GitHubSsh(String),
}

impl Url {
    /// The URL on host `h`, with the HTTPS transport if `https`, holding `s`.
    pub open spec fn make(h: Host, https: bool, s: String) -> Url {
        match (h, https) {
            (Host::GitLab, true) => Url::GitLabHttps(s),
            (Host::GitLab, false) => Url::GitLabSsh(s),
            (Host::GitHub, true) => Url::GitHubHttps(s),
            (Host::GitHub, false) => Url::GitHubSsh(s),
        }
    }

    pub open spec fn host(&self) -> Host {
        match self {
            Url::GitLabHttps(_) | Url::GitLabSsh(_) => Host::GitLab,
            Url::GitHubHttps(_) | Url::GitHubSsh(_) => Host::GitHub,
        }
    }

    pub open spec fn spec_is_https(&self) -> bool {
        match self {
            Url::GitLabHttps(_) | Url::GitHubHttps(_) => true,
            Url::GitLabSsh(_) | Url::GitHubSsh(_) => false,
        }
    }

    /// The characters of the URL.
    pub open spec fn text(&self) -> Seq<char> {
        match self {
            Url::GitLabHttps(s) | Url::GitLabSsh(s) | Url::GitHubHttps(s) | Url::GitHubSsh(s) => s@,
        }
    }

    /// The URL this one becomes when rewritten to the HTTPS transport.
    pub open spec fn to_https(&self) -> Seq<char> {
        if self.spec_is_https() {
            self.text()
        } else {
            https_form(self.host(), self.text())
        }
    }

    /// Parses the remote URL `url`: `Ok(None)` where it belongs to no supported
    /// host, an error where it does but carries no `owner/name` path.
    pub fn new(url: &str) -> (r: Result<Option<(Url, Owner, Name)>, RepoError>)
        ensures
            match parse_url(url@) {
                ParsedUrl::Unsupported => r matches Ok(None),
                ParsedUrl::Malformed => r matches Err(RepoError::MalformedLocalRemote),
                ParsedUrl::Parsed { host, https, owner, name } => r matches Ok(Some((u, o, n)))
                    && u.host() == host && u.spec_is_https() == https && u.text() == url@
                    && o.0@ == owner && n.0@ == name,
            },
    {
        let len = url.unicode_len();
        proof {
            assert(url@.subrange(0, len as int) =~= url@);
        }
        let is_https = matches_at(url, 0, len, "https://");
        if !is_https && !matches_at(url, 0, len, "git@git") {
            return Ok(None);
        }
        let a = trim_start_at(url, 0, len, "git@gitlab.com:");
        let mut start = trim_start_at(url, a, len, "https://gitlab.com/");
        let host = if start == 0 {
            let b = trim_start_at(url, 0, len, "git@github.com:");
            start = trim_start_at(url, b, len, "https://github.com/");
            if start == 0 {
                return Ok(None);
            }
            Host::GitHub
        } else {
            Host::GitLab
        };
        assert(url@.subrange(start as int, len as int) == strip_host(url@, host));
        assert(strip_host(url@, host) != url@ <==> start != 0) by {
            if start != 0 {
                assert(strip_host(url@, host).len() != url@.len());
            } else {
                assert(url@.subrange(0, len as int) =~= url@);
            }
        };
        let end = trim_end_at(url, start, len, ".git");
        let path = url.substring_char(start, end);
        match Self::split_owner_and_repo(path) {
            None => Err(RepoError::MalformedLocalRemote),
            Some((owner, name)) => {
                let s = to_string(url);
                let u = match host {
                    Host::GitLab => if is_https {
                        Url::GitLabHttps(s)
                    } else {
                        Url::GitLabSsh(s)
                    },
                    Host::GitHub => if is_https {
                        Url::GitHubHttps(s)
                    } else {
                        Url::GitHubSsh(s)
                    },
                };
                Ok(Some((u, owner, name)))
            },
        }
    }

    /// Splits `owner_and_repo` at its first `/` into owner and name; `None`
    /// where it holds no `/`.
    pub fn split_owner_and_repo(owner_and_repo: &str) -> (r: Option<(Owner, Name)>)
        ensures
            match split_path(owner_and_repo@) {
                None => r is None,
                Some((owner, name)) => r matches Some((o, n)) && o.0@ == owner && n.0@ == name,
            },
    {
        let len = owner_and_repo.unicode_len();
        proof {
            assert(owner_and_repo@.subrange(0, len as int) =~= owner_and_repo@);
        }
        match find_char_at(owner_and_repo, 0, len, '/') {
            None => None,
            Some(i) => {
                proof {
                    lemma_first_index_unique(owner_and_repo@, '/', i as int);
                }
                let owner = to_string(owner_and_repo.substring_char(0, i));
                let name = to_string(owner_and_repo.substring_char(i + 1, len));
                Some((Owner(owner), Name(name)))
            },
        }
    }

    /// Rewrites an SSH URL to the HTTPS URL of the same repository; leaves an
    /// HTTPS URL as it is.
    pub fn change_to_https(&mut self)
        ensures
            final(self).host() == old(self).host(),
            final(self).spec_is_https(),
            final(self).text() == old(self).to_https(),
    {
        let next = match &*self {
            Url::GitLabHttps(_) | Url::GitHubHttps(_) => None,
            Url::GitLabSsh(url) => Some(
                Url::GitLabHttps(
                    rewrite_to_https(url.as_str(), "git@gitlab.com:", "https://gitlab.com/"),
                ),
            ),
            Url::GitHubSsh(url) => Some(
                Url::GitHubHttps(
                    rewrite_to_https(url.as_str(), "git@github.com:", "https://github.com/"),
                ),
            ),
        };
        if let Some(u) = next {
            *self = u;
        }
    }

    /// The URL as text.
    pub fn value(&self) -> (r: &str)
        ensures
            r@ == self.text(),
    {
        match self {
            Url::GitLabHttps(url) | Url::GitLabSsh(url) | Url::GitHubHttps(url) | Url::GitHubSsh(
                url,
            ) => url.as_str(),
        }
    }

    /// Whether the URL uses the HTTPS transport.
    pub fn is_https(&self) -> (r: bool)
        ensures
            r == self.spec_is_https(),
    {
        match self {
            Url::GitLabHttps(_) | Url::GitHubHttps(_) => true,
            Url::GitLabSsh(_) | Url::GitHubSsh(_) => false,
        }
    }

    /// Whether the URL belongs to GitLab.
    pub fn is_git_lab(&self) -> (r: bool)
        ensures
            r == (self.host() == Host::GitLab),
    {
        match self {
            Url::GitLabHttps(_) | Url::GitLabSsh(_) => true,
            Url::GitHubHttps(_) | Url::GitHubSsh(_) => false,
        }
    }

    /// A copy of the URL.
    pub fn duplicate(&self) -> (r: Url)
        ensures
            r == *self,
    {
        match self {
            Url::GitLabHttps(s) => Url::GitLabHttps(s.clone()),
            Url::GitLabSsh(s) => Url::GitLabSsh(s.clone()),
            Url::GitHubHttps(s) => Url::GitHubHttps(s.clone()),
            Url::GitHubSsh(s) => Url::GitHubSsh(s.clone()),
        }
    }
}

/// `https` followed by `url` without its leading `ssh` prefixes and trailing
/// `.git` suffixes.
fn rewrite_to_https(url: &str, ssh: &str, https: &str) -> (r: String)
    ensures
        r@ == https@ + trim_end(trim_start(url@, ssh@), git_suffix()),
{
    let len = url.unicode_len();
    proof {
        assert(url@.subrange(0, len as int) =~= url@);
    }
    let start = trim_start_at(url, 0, len, ssh);
    let end = trim_end_at(url, start, len, ".git");
    let mut r = to_string(https);
    r.append(url.substring_char(start, end));
    r
}

/// A remote URL of `owner/name` on `h`: the SSH prefix `git@<host>:` or
/// the HTTPS prefix `https://<host>/`, then `owner/name`, then `.git` where
/// `git` holds.
pub open spec fn url_of(h: Host, https: bool, git: bool, owner: Seq<char>, name: Seq<char>) -> Seq<
    char,
> {
    (if https {
        https_prefix(h)
    } else {
        ssh_prefix(h)
    }) + owner + seq!['/'] + name + (if git {
        git_suffix()
    } else {
        Seq::empty()
    })
}

/// The characters of the fixed prefixes and suffix.
proof fn lemma_literals()
    ensures
        ssh_prefix(Host::GitLab) =~= seq!['g', 'i', 't', '@', 'g', 'i', 't', 'l', 'a', 'b', '.', 'c', 'o', 'm', ':'],
        ssh_prefix(Host::GitHub) =~= seq!['g', 'i', 't', '@', 'g', 'i', 't', 'h', 'u', 'b', '.', 'c', 'o', 'm', ':'],
        https_prefix(Host::GitLab) =~= seq!['h', 't', 't', 'p', 's', ':', '/', '/', 'g', 'i', 't', 'l', 'a', 'b', '.', 'c', 'o', 'm', '/'],
        https_prefix(Host::GitHub) =~= seq!['h', 't', 't', 'p', 's', ':', '/', '/', 'g', 'i', 't', 'h', 'u', 'b', '.', 'c', 'o', 'm', '/'],
        "https://"@ =~= seq!['h', 't', 't', 'p', 's', ':', '/', '/'],
        "git@git"@ =~= seq!['g', 'i', 't', '@', 'g', 'i', 't'],
        git_suffix() =~= seq!['.', 'g', 'i', 't'],
{
    reveal_strlit("git@gitlab.com:");
    reveal_strlit("git@github.com:");
    reveal_strlit("https://gitlab.com/");
    reveal_strlit("https://github.com/");
    reveal_strlit("https://");
    reveal_strlit("git@git");
    reveal_strlit(".git");
}

/// Trimming `p` off `p + x` trims it off `x`.
proof fn lemma_trim_start_once(p: Seq<char>, x: Seq<char>)
    requires
        p.len() > 0,
    ensures
        trim_start(p + x, p) == trim_start(x, p),
{
    assert((p + x).subrange(0, p.len() as int) =~= p);
    assert((p + x).subrange(p.len() as int, (p + x).len() as int) =~= x);
}

/// Trimming `p` off `x + p` trims it off `x`.
proof fn lemma_trim_end_once(x: Seq<char>, p: Seq<char>)
    requires
        p.len() > 0,
    ensures
        trim_end(x + p, p) == trim_end(x, p),
{
    assert((x + p).subrange((x + p).len() - p.len(), (x + p).len() as int) =~= p);
    assert((x + p).subrange(0, (x + p).len() - p.len()) =~= x);
}

/// In `o/rest`, with no `/` in `o` or `rest`, the one `/` is at `o.len()`.
proof fn lemma_single_slash(o: Seq<char>, rest: Seq<char>, i: int)
    requires
        !has_char(o, '/'),
        !has_char(rest, '/'),
        0 <= i < (o + seq!['/'] + rest).len(),
        (o + seq!['/'] + rest)[i] == '/',
    ensures
        i == o.len(),
{
    let s = o + seq!['/'] + rest;
    if i < o.len() {
        assert(s[i] == o[i]);
    } else if i > o.len() {
        assert(s[i] == rest[i - o.len() - 1]);
    }
}

/// A path `o/rest` does not begin with a prefix that holds no `/` and that
/// `o` does not begin with.
proof fn lemma_path_not_prefixed(o: Seq<char>, rest: Seq<char>, p: Seq<char>)
    requires
        !has_char(o, '/'),
        !has_char(p, '/'),
        !starts_with(o, p),
    ensures
        !starts_with(o + seq!['/'] + rest, p),
{
    let s = o + seq!['/'] + rest;
    if starts_with(s, p) {
        if p.len() <= o.len() {
            assert(o.subrange(0, p.len() as int) =~= s.subrange(0, p.len() as int));
        } else {
            assert(s[o.len() as int] == '/');
            assert(p[o.len() as int] == s.subrange(0, p.len() as int)[o.len() as int]);
        }
    }
}

/// A path `o/rest` with a single `/` does not begin with an HTTPS prefix,
/// which holds two.
proof fn lemma_path_not_https(o: Seq<char>, rest: Seq<char>, h: Host)
    requires
        !has_char(o, '/'),
        !has_char(rest, '/'),
    ensures
        !starts_with(o + seq!['/'] + rest, https_prefix(h)),
{
    lemma_literals();
    let s = o + seq!['/'] + rest;
    let p = https_prefix(h);
    if starts_with(s, p) {
        assert(s[6] == s.subrange(0, p.len() as int)[6]);
        assert(s[7] == s.subrange(0, p.len() as int)[7]);
        lemma_single_slash(o, rest, 6);
        lemma_single_slash(o, rest, 7);
    }
}

/// A path `o/n` whose name does not end with `.git` does not either.
proof fn lemma_path_not_git_suffix(o: Seq<char>, n: Seq<char>)
    requires
        !has_char(o, '/'),
        !has_char(n, '/'),
        !ends_with(n, git_suffix()),
    ensures
        !ends_with(o + seq!['/'] + n, git_suffix()),
{
    lemma_literals();
    let s = o + seq!['/'] + n;
    let g = git_suffix();
    if ends_with(s, g) {
        if n.len() >= 4 {
            assert(n.subrange(n.len() - 4, n.len() as int) =~= s.subrange(s.len() - 4, s.len() as int));
        } else {
            let k = o.len() - (s.len() - 4);
            assert(s[o.len() as int] == '/');
            assert(g[k] == s.subrange(s.len() - 4, s.len() as int)[k]);
        }
    }
}

/// `o/n` splits at its first `/` into `o` and `n` where `o` holds no `/`.
proof fn lemma_split_path(o: Seq<char>, n: Seq<char>)
    requires
        !has_char(o, '/'),
    ensures
        split_path(o + seq!['/'] + n) == Some((o, n)),
{
    let s = o + seq!['/'] + n;
    assert forall|j: int| 0 <= j < o.len() implies s[j] != '/' by {
        assert(s[j] == o[j]);
    }
    lemma_first_index_unique(s, '/', o.len() as int);
    assert(s.subrange(0, o.len() as int) =~= o);
    assert(s.subrange(o.len() + 1int, s.len() as int) =~= n);
}

/// A URL that begins with a prefix of one host does not begin with those of
/// the other: the prefixes differ where both are defined.
proof fn lemma_hosts_apart(u: Seq<char>, h: Host, https: bool)
    requires
        starts_with(u, if https { https_prefix(h) } else { ssh_prefix(h) }),
    ensures
        h == Host::GitHub ==> !starts_with(u, ssh_prefix(Host::GitLab)) && !starts_with(
            u,
            https_prefix(Host::GitLab),
        ),
        https ==> !starts_with(u, ssh_prefix(h)),
        https == url_is_https(u),
        !https ==> starts_with(u, "git@git"@),
{
    lemma_literals();
    let p = if https { https_prefix(h) } else { ssh_prefix(h) };
    assert(u[0] == u.subrange(0, p.len() as int)[0]);
    assert(u[7] == u.subrange(0, p.len() as int)[7]);
    if h == Host::GitHub && https {
        assert(u[11] == u.subrange(0, p.len() as int)[11]);
        if starts_with(u, https_prefix(Host::GitLab)) {
            assert(u[11] == u.subrange(0, https_prefix(Host::GitLab).len() as int)[11]);
        }
    }
    if starts_with(u, ssh_prefix(Host::GitLab)) {
        assert(u[0] == u.subrange(0, 15)[0]);
        assert(u[7] == u.subrange(0, 15)[7]);
    }
    if starts_with(u, https_prefix(Host::GitLab)) {
        assert(u[0] == u.subrange(0, 19)[0]);
    }
    if https {
        assert(u.subrange(0, 8) =~= "https://"@) by {
            assert forall|i: int| 0 <= i < 8 implies u.subrange(0, 8)[i] == "https://"@[i] by {
                assert(u[i] == u.subrange(0, p.len() as int)[i]);
            }
        }
        if starts_with(u, ssh_prefix(h)) {
            assert(u[0] == u.subrange(0, 15)[0]);
        }
    } else {
        assert(u.subrange(0, 7) =~= "git@git"@) by {
            assert forall|i: int| 0 <= i < 7 implies u.subrange(0, 7)[i] == "git@git"@[i] by {
                assert(u[i] == u.subrange(0, p.len() as int)[i]);
            }
        }
        if url_is_https(u) {
            assert(u[0] == u.subrange(0, 8)[0]);
        }
    }
}

/// Facts of the fixed prefixes and suffix that the shapes rely on.
proof fn lemma_literal_facts()
    ensures
        !has_char(ssh_prefix(Host::GitLab), '/'),
        !has_char(ssh_prefix(Host::GitHub), '/'),
        !has_char(git_suffix(), '/'),
        ssh_prefix(Host::GitLab).len() > 0,
        ssh_prefix(Host::GitHub).len() > 0,
        https_prefix(Host::GitLab).len() > 0,
        https_prefix(Host::GitHub).len() > 0,
        git_suffix().len() > 0,
{
    lemma_literals();
    assert forall|i: int| 0 <= i < ssh_prefix(Host::GitLab).len() implies ssh_prefix(Host::GitLab)[i] != '/' by {}
    assert forall|i: int| 0 <= i < ssh_prefix(Host::GitHub).len() implies ssh_prefix(Host::GitHub)[i] != '/' by {}
    assert forall|i: int| 0 <= i < git_suffix().len() implies git_suffix()[i] != '/' by {}
}

/// `name.git` holds no `/` where `name` holds none.
proof fn lemma_name_git_no_slash(name: Seq<char>)
    requires
        !has_char(name, '/'),
    ensures
        !has_char(name + git_suffix(), '/'),
{
    lemma_literal_facts();
    let g = git_suffix();
    if has_char(name + g, '/') {
        let i = choose|i: int| 0 <= i < (name + g).len() && (name + g)[i] == '/';
        if i < name.len() {
            assert((name + g)[i] == name[i]);
        } else {
            assert((name + g)[i] == g[i - name.len()]);
        }
    }
}

/// The host prefix of a URL shape is trimmed off exactly once, and the shape
/// is read as of its host and transport.
proof fn lemma_shape_host(h: Host, https: bool, git: bool, owner: Seq<char>, name: Seq<char>)
    requires
        !has_char(owner, '/'),
        !has_char(name, '/'),
        !https ==> !starts_with(owner, ssh_prefix(h)),
    ensures
        strip_host(url_of(h, https, git, owner, name), h) == owner + seq!['/'] + name + (if git {
            git_suffix()
        } else {
            Seq::empty()
        }),
        url_host(url_of(h, https, git, owner, name)) == Some(h),
        url_is_https(url_of(h, https, git, owner, name)) == https,
{
    lemma_literal_facts();
    let u = url_of(h, https, git, owner, name);
    let p = if https { https_prefix(h) } else { ssh_prefix(h) };
    let g = git_suffix();
    let rest = if git { name + g } else { name };
    let body = owner + seq!['/'] + rest;
    assert(body =~= owner + seq!['/'] + name + (if git { g } else { Seq::empty() }));
    assert(u =~= p + body);
    assert((p + body).subrange(0, p.len() as int) =~= p);
    lemma_hosts_apart(u, h, https);
    if git {
        lemma_name_git_no_slash(name);
    }
    lemma_trim_start_once(p, body);
    if !https {
        lemma_path_not_prefixed(owner, rest, ssh_prefix(h));
    }
    lemma_path_not_https(owner, rest, h);
    assert(strip_host(u, h) == body);
    assert(body.len() < u.len());
    if h == Host::GitHub {
        assert(strip_host(u, Host::GitLab) == u);
    }
}

/// Each URL shape of `owner/name` (SSH or HTTPS, on either host, with or
/// without `.git`) parses back to that host and transport, and to `owner`
/// and `name`, where neither holds a `/`. Left out, as they parse otherwise:
/// a name that itself ends with `.git`, and an SSH URL whose owner begins
/// with the SSH prefix again.
pub proof fn lemma_url_shapes_parse(
    h: Host,
    https: bool,
    git: bool,
    owner: Seq<char>,
    name: Seq<char>,
)
    requires
        !has_char(owner, '/'),
        !has_char(name, '/'),
        !ends_with(name, git_suffix()),
        !https ==> !starts_with(owner, ssh_prefix(h)),
    ensures
        parse_url(url_of(h, https, git, owner, name)) == (ParsedUrl::Parsed {
            host: h,
            https,
            owner,
            name,
        }),
{
    lemma_literal_facts();
    lemma_shape_host(h, https, git, owner, name);
    let m = owner + seq!['/'] + name;
    let g = git_suffix();
    if git {
        lemma_trim_end_once(m, g);
    } else {
        assert(m + Seq::empty() =~= m);
    }
    lemma_path_not_git_suffix(owner, name);
    lemma_split_path(owner, name);
}

/// A URL that begins with none of the four prefixes is of no supported
/// host: it parses to `Unsupported`, and `Url::new` returns `Ok(None)`.
pub proof fn lemma_unsupported_host(u: Seq<char>)
    requires
        !starts_with(u, ssh_prefix(Host::GitLab)),
        !starts_with(u, https_prefix(Host::GitLab)),
        !starts_with(u, ssh_prefix(Host::GitHub)),
        !starts_with(u, https_prefix(Host::GitHub)),
    ensures
        parse_url(u) is Unsupported,
{
}

/// Rewriting an SSH URL of `owner/name`, with or without `.git`, to HTTPS
/// gives the HTTPS URL of the same `owner/name` on the same host, which
/// parses back to `owner` and `name`; under the conditions on which the SSH
/// URL does.
pub proof fn lemma_https_rewrite_keeps_identity(
    h: Host,
    git: bool,
    owner: Seq<char>,
    name: Seq<char>,
)
    requires
        !has_char(owner, '/'),
        !has_char(name, '/'),
        !ends_with(name, git_suffix()),
        !starts_with(owner, ssh_prefix(h)),
    ensures
        https_form(h, url_of(h, false, git, owner, name)) == url_of(h, true, false, owner, name),
        parse_url(url_of(h, false, git, owner, name)) == (ParsedUrl::Parsed {
            host: h,
            https: false,
            owner,
            name,
        }),
        parse_url(url_of(h, true, false, owner, name)) == (ParsedUrl::Parsed {
            host: h,
            https: true,
            owner,
            name,
        }),
{
    lemma_literal_facts();
    let m = owner + seq!['/'] + name;
    let g = git_suffix();
    let s = ssh_prefix(h);
    let rest = if git { name + g } else { name };
    let body = owner + seq!['/'] + rest;
    assert(url_of(h, false, git, owner, name) =~= s + body);
    lemma_trim_start_once(s, body);
    if git {
        lemma_name_git_no_slash(name);
    }
    lemma_path_not_prefixed(owner, rest, s);
    if git {
        assert(body =~= m + g);
        lemma_trim_end_once(m, g);
    } else {
        assert(body =~= m);
    }
    lemma_path_not_git_suffix(owner, name);
    assert(https_form(h, url_of(h, false, git, owner, name)) =~= url_of(h, true, false, owner, name));
    lemma_url_shapes_parse(h, false, git, owner, name);
    lemma_url_shapes_parse(h, true, false, owner, name);
}

/// Trimming `p` off the front of `s + g` stops before `g`, where `p` ends
/// with a character that `g` does not hold.
proof fn lemma_trim_start_before_suffix(s: Seq<char>, g: Seq<char>, p: Seq<char>)
    requires
        p.len() > 0,
        !has_char(g, p.last()),
    ensures
        trim_start(s + g, p) == trim_start(s, p) + g,
    decreases s.len(),
{
    if starts_with(s, p) {
        assert((s + g).subrange(0, p.len() as int) =~= s.subrange(0, p.len() as int));
        let t = s.subrange(p.len() as int, s.len() as int);
        assert((s + g).subrange(p.len() as int, (s + g).len() as int) =~= t + g);
        lemma_trim_start_before_suffix(t, g, p);
    } else if starts_with(s + g, p) {
        if p.len() <= s.len() {
            assert((s + g).subrange(0, p.len() as int) =~= s.subrange(0, p.len() as int));
        } else {
            let k = p.len() - 1 - s.len();
            assert((s + g)[p.len() - 1] == (s + g).subrange(0, p.len() as int)[p.len() - 1]);
            assert((s + g)[p.len() - 1] == g[k]);
        }
    }
}

/// Trimming a prefix never lengthens.
proof fn lemma_trim_start_shorter(s: Seq<char>, p: Seq<char>)
    ensures
        trim_start(s, p).len() <= s.len(),
    decreases s.len(),
{
    if p.len() > 0 && starts_with(s, p) {
        lemma_trim_start_shorter(s.subrange(p.len() as int, s.len() as int), p);
    }
}

/// Trimming `.git` off the end and `p` off the front, and `.git` again,
/// gives what trimming `p` and then `.git` gives, where `p` ends with a
/// character that `.git` does not hold.
proof fn lemma_trims_commute(s: Seq<char>, g: Seq<char>, p: Seq<char>)
    requires
        p.len() > 0,
        g.len() > 0,
        !has_char(g, p.last()),
    ensures
        trim_end(trim_start(trim_end(s, g), p), g) == trim_end(trim_start(s, p), g),
    decreases s.len(),
{
    if ends_with(s, g) {
        let s0 = s.subrange(0, s.len() - g.len());
        assert(s0 + g =~= s);
        lemma_trims_commute(s0, g, p);
        lemma_trim_start_before_suffix(s0, g, p);
        lemma_trim_end_once(trim_start(s0, p), g);
    }
}

/// Rewriting to HTTPS any SSH URL that parses to `owner` and `name` gives an
/// HTTPS URL of the same host that parses to the same `owner` and `name`.
pub proof fn lemma_https_rewrite_same_identity(u: Url, owner: Seq<char>, name: Seq<char>)
    requires
        !u.spec_is_https(),
        parse_url(u.text()) == (ParsedUrl::Parsed { host: u.host(), https: false, owner, name }),
    ensures
        parse_url(u.to_https()) == (ParsedUrl::Parsed { host: u.host(), https: true, owner, name }),
{
    lemma_literals();
    lemma_literal_facts();
    let h = u.host();
    let x = u.text();
    let sp = ssh_prefix(h);
    let hp = https_prefix(h);
    let g = git_suffix();
    let r1 = trim_start(x, sp);
    let t = trim_end(r1, g);
    let v = hp + t;
    assert(u.to_https() == v);
    // The SSH URL holds no HTTPS prefix, so its host part is its SSH prefixes.
    assert(!starts_with(x, hp)) by {
        if starts_with(x, hp) {
            assert forall|i: int| 0 <= i < 8 implies x.subrange(0, 8)[i] == "https://"@[i] by {
                assert(x[i] == x.subrange(0, hp.len() as int)[i]);
            }
            assert(x.subrange(0, 8) =~= "https://"@);
        }
    }
    assert(!starts_with(r1, hp) ==> trim_start(r1, hp) == r1);
    // The rewritten URL is an HTTPS URL of the same host.
    assert(v.subrange(0, hp.len() as int) =~= hp);
    lemma_hosts_apart(v, h, true);
    lemma_trim_start_once(hp, t);
    assert(trim_start(v, sp) == v);
    assert(strip_host(v, h) == trim_start(t, hp));
    lemma_trim_start_shorter(t, hp);
    if h == Host::GitHub {
        assert(strip_host(v, Host::GitLab) == v);
    }
    assert(url_host(v) == Some(h));
    // Its path is the SSH URL's path.
    assert(hp.last() == '/');
    lemma_trims_commute(r1, g, hp);
    assert(trim_end(strip_host(v, h), g) == trim_end(strip_host(x, h), g));
}

} // verus!
