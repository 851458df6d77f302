//! The fork resolution engine: the local remotes, the canonical upstream, the
//! forks that could be added, and the default choices offered to the user.
use vstd::prelude::*;
use crate::error::RepoError;
use crate::json::json_of;
use crate::provider::{
    entries_match, fork_page_of, github_source_of, gitlab_project_of, shape_error,
    base64_of, decode_fork_page, decode_github_source, decode_gitlab_project, escape_slashes,
    github_api, github_credential, github_forks_request, github_repo_request, gitlab_api,
    gitlab_forks_request, gitlab_project_request,
};
use crate::forks::{
    Candidate, has_key, is_first_key, lemma_sort_by_owner_elements, lemma_sort_by_owner_sorted,
    owner_key, owner_keys, sort_by_owner, sort_forks, sorted_by_owner, suggest_index, views,
};
use crate::text::{lower_of, lowercase, seq_lt, to_string};
use crate::local::{distinct_owners, populate_local_remotes, seed_index, table_of, LocalRemote};
use crate::url::{split_path, Host, Name, Owner, RemoteAlias, Url, parse_url};

verus! {

/// Whether `visited` holds the project `owner/name`.
fn contains_project(visited: &Vec<(Owner, Name)>, owner: &Owner, name: &Name) -> (r: bool)
    ensures
        r == exists|k: int|
            0 <= k < visited@.len() && (#[trigger] visited@[k]).0.0@ == owner.0@ && visited@[k].1.0@
                == name.0@,
{
    let mut k: usize = 0;
    while k < visited.len()
        invariant
            k <= visited@.len(),
            forall|j: int|
                0 <= j < k ==> !((#[trigger] visited@[j]).0.0@ == owner.0@ && visited@[j].1.0@
                    == name.0@),
        decreases visited@.len() - k,
    {
        if visited[k].0.0 == owner.0 && visited[k].1.0 == name.0 {
            return true;
        }
        k = k + 1;
    }
    false
}

/// What a GitLab project reports of where it was forked from.
pub enum GitLabProject {
    /// Not a fork: the project is the canonical upstream, cloned from `ssh_url`.
    Root { ssh_url: String },
    /// A fork of the project at `parent_path`, written `namespace/name`.
    Fork { parent_path: String },
}

/// What GitHub reports of a repository's canonical upstream: the source of a
/// fork, or the repository itself.
pub struct GitHubSource {
    pub owner: String,
    pub name: String,
    pub ssh_url: String,
}

/// A fork as a page of the provider's fork list reports it.
pub struct ForkEntry {
    pub owner: Owner,
    pub url: Url,
    /// How many forks the fork has of its own; they are never listed.
    pub subforks: u64,
}

/// The alias that `table`, pairs of owner and alias, gives `owner`: that of
/// its first entry for `owner`.
pub open spec fn known_alias(table: Seq<(String, String)>, owner: Seq<char>) -> Option<Seq<char>> {
    if exists|i: int| 0 <= i < table.len() && (#[trigger] table[i]).0@ == owner {
        let i = choose|i: int|
            0 <= i < table.len() && (#[trigger] table[i]).0@ == owner && forall|j: int|
                0 <= j < i ==> (#[trigger] table[j]).0@ != owner;
        Some(table[i].1@)
    } else {
        None
    }
}

/// The first entry of `table` for `owner`.
fn find_known_alias(table: &Vec<(String, String)>, owner: &String) -> (r: Option<usize>)
    ensures
        match r {
            Some(i) => i < table@.len() && table@[i as int].0@ == owner@ && known_alias(
                table@,
                owner@,
            ) == Some(table@[i as int].1@),
            None => known_alias(table@, owner@) is None,
        },
{
    let mut i: usize = 0;
    while i < table.len()
        invariant
            i <= table@.len(),
            forall|j: int| 0 <= j < i ==> (#[trigger] table@[j]).0@ != owner@,
        decreases table@.len() - i,
    {
        if table[i].0 == *owner {
            proof {
                let w = choose|w: int|
                    0 <= w < table@.len() && (#[trigger] table@[w]).0@ == owner@ && forall|j: int|
                        0 <= j < w ==> (#[trigger] table@[j]).0@ != owner@;
                assert(0 <= i < table@.len() && table@[i as int].0@ == owner@ && forall|j: int|
                    0 <= j < i ==> (#[trigger] table@[j]).0@ != owner@);
                if w < i {
                    assert(table@[w].0@ != owner@);
                }
                if i < w {
                    assert(table@[i as int].0@ != owner@);
                }
            }
            return Some(i);
        }
        i = i + 1;
    }
    None
}

/// One step of the walk to the canonical upstream on GitLab, from `old` to
/// `new` with result `r`, given what the current project reports: `v` as
/// `gitlab_project_of` gives it. A failed step changes nothing.
pub open spec fn gitlab_step(
    old: Repo,
    new: Repo,
    v: Result<(bool, Seq<char>), Seq<char>>,
    r: Result<bool, RepoError>,
) -> bool {
    match v {
        Err(f) => (r matches Err(e) && shape_error(e, f)) && new == old,
        Ok((false, u)) => {
            &&& r == Ok::<bool, RepoError>(false)
            &&& new.main_fork_url matches Url::GitLabSsh(s) && s@ == u
            &&& new.main_fork_owner == old.main_fork_owner
            &&& new.main_fork_name == old.main_fork_name
            &&& new.visited == old.visited
        },
        Ok((true, p)) => match split_path(p) {
            None => (r matches Err(e) && shape_error(e, "/forked_from_project/path_with_namespace"@))
                && new == old,
            Some((o, n)) => if old.was_visited(o, n) {
                (r matches Err(RepoError::CyclicForkChain)) && new == old
            } else {
                &&& r == Ok::<bool, RepoError>(true)
                &&& new.main_fork_owner.0@ == o
                &&& new.main_fork_name.0@ == n
                &&& new.main_fork_url == old.main_fork_url
                &&& new.visited@ == old.visited@.push((new.main_fork_owner, new.main_fork_name))
            },
        },
    }
}

/// The resolution on GitHub, from `old` to `new` with result `r`, given what
/// the repository reports: `v` as `github_source_of` gives it. A failure
/// changes nothing.
pub open spec fn github_step(
    old: Repo,
    new: Repo,
    v: Result<(Seq<char>, Seq<char>, Seq<char>), Seq<char>>,
    r: Result<bool, RepoError>,
) -> bool {
    match v {
        Err(f) => (r matches Err(e) && shape_error(e, f)) && new == old,
        Ok((o, n, u)) => {
            &&& r == Ok::<bool, RepoError>(false)
            &&& new.main_fork_owner.0@ == o
            &&& new.main_fork_name.0@ == n
            &&& new.main_fork_url matches Url::GitHubSsh(s) && s@ == u
            &&& new.visited == old.visited
        },
    }
}

/// The state of one session: the local remotes, the canonical upstream, the
/// forks that can be added and the user's choices.
pub struct Repo {
    /// The GitLab personal access token.
    pub gitlab_token: Option<String>,
    /// The GitHub `username:token`, base64-encoded.
    pub github_token: Option<String>,
    /// The host of the local remote that resolution starts from.
    pub host: Host,
    /// The local remotes of supported hosts, one per owner.
    pub local_remotes: Vec<LocalRemote>,
    /// The forks, and the canonical upstream, that are not local remotes.
    pub available_forks: Vec<(Owner, Url)>,
    /// The owner of the canonical upstream, once resolved.
    pub main_fork_owner: Owner,
    /// The name of the canonical upstream, once resolved.
    pub main_fork_name: Name,
    /// The URL of the canonical upstream, once resolved.
    pub main_fork_url: Url,
    /// The GitLab projects visited while walking up to the canonical upstream.
    pub visited: Vec<(Owner, Name)>,
    /// The index into `available_forks` that the user chose.
    pub chosen_fork_index: usize,
    /// The alias that the user chose for the new remote.
    pub chosen_remote_alias: RemoteAlias,
}

impl Repo {
    /// Whether `o` is, ignoring case, the owner of a local remote.
    pub open spec fn is_local_owner(&self, o: Seq<char>) -> bool {
        exists|k: int|
            0 <= k < self.local_remotes@.len() && lower_of(
                #[trigger] self.local_remotes@[k].owner.0@,
            ) == lower_of(o)
    }

    /// Whether the project `owner/name` was already visited.
    pub open spec fn was_visited(&self, owner: Seq<char>, name: Seq<char>) -> bool {
        exists|k: int|
            0 <= k < self.visited@.len() && (#[trigger] self.visited@[k]).0.0@ == owner
                && self.visited@[k].1.0@ == name
    }

    /// The invariant of a session.
    pub open spec fn wf(&self) -> bool {
        &&& distinct_owners(self.local_remotes@)
        &&& self.local_remotes@.len() > 0
        &&& (self.host == Host::GitLab ==> self.gitlab_token is Some)
        &&& forall|c: int|
            0 <= c < self.available_forks@.len() ==> !self.is_local_owner(
                #[trigger] self.available_forks@[c].0.0@,
            )
    }

    /// Starts a session from the tokens configured and the pairs of alias and
    /// URL of the local remotes. Resolution starts from the local remote with
    /// the smallest owner; a GitLab one needs `gitlab_token`.
    pub fn new(
        gitlab_token: Option<String>,
        github_user_and_token: Option<String>,
        remotes: &Vec<(String, String)>,
    ) -> (r: Result<Repo, RepoError>)
        ensures
            (exists|i: int| 0 <= i < remotes@.len() && parse_url(remotes@[i].1@) is Malformed) ==> (r
                matches Err(RepoError::MalformedLocalRemote)),
            (forall|i: int| 0 <= i < remotes@.len() ==> parse_url(remotes@[i].1@) is Unsupported)
                ==> (r matches Err(RepoError::NoSupportedLocalRemotes)),
            r matches Err(RepoError::MissingCredential) ==> gitlab_token is None,
            (forall|i: int| 0 <= i < remotes@.len() ==> !(parse_url(remotes@[i].1@) is Malformed))
                && (exists|i: int| 0 <= i < remotes@.len() && parse_url(remotes@[i].1@) is Parsed)
                ==> (r is Ok || r matches Err(RepoError::MissingCredential)),
            r matches Ok(repo) ==> {
                &&& repo.wf()
                &&& table_of(remotes@, repo.local_remotes@)
                &&& repo.gitlab_token == gitlab_token
                &&& match github_user_and_token {
                    Some(t) => repo.github_token matches Some(g) && g@ == base64_of(t@),
                    None => repo.github_token is None,
                }
                &&& repo.available_forks@.len() == 0
                &&& exists|k: int|
                    0 <= k < repo.local_remotes@.len() && {
                        let seed = #[trigger] repo.local_remotes@[k];
                        &&& repo.main_fork_owner == seed.owner
                        &&& repo.main_fork_name == seed.name
                        &&& repo.main_fork_url == seed.url
                        &&& repo.host == seed.url.host()
                    }
                &&& forall|k: int|
                    0 <= k < repo.local_remotes@.len() ==> !seq_lt(
                        #[trigger] repo.local_remotes@[k].owner.0@,
                        repo.main_fork_owner.0@,
                    )
                &&& repo.visited@ == seq![(repo.main_fork_owner, repo.main_fork_name)]
            },
            r matches Err(RepoError::MissingCredential) ==> exists|t: Seq<LocalRemote>, k: int|
                table_of(remotes@, t) && 0 <= k < t.len() && (#[trigger] t[k]).url.host()
                    == Host::GitLab && forall|j: int|
                    0 <= j < t.len() ==> !seq_lt(#[trigger] t[j].owner.0@, t[k].owner.0@),
    {
        let local_remotes = populate_local_remotes(remotes)?;
        let s = seed_index(&local_remotes);
        let seed = &local_remotes[s];
        let host = if seed.url.is_git_lab() {
            Host::GitLab
        } else {
            Host::GitHub
        };
        if host == Host::GitLab && gitlab_token.is_none() {
            proof {
                let t = local_remotes@;
                assert(table_of(remotes@, t) && 0 <= s < t.len() && t[s as int].url.host()
                    == Host::GitLab);
            }
            return Err(RepoError::MissingCredential);
        }
        let github_token = match github_user_and_token {
            Some(t) => Some(github_credential(t.as_str())),
            None => None,
        };
        let main_fork_owner = seed.owner.duplicate();
        let main_fork_name = seed.name.duplicate();
        let main_fork_url = seed.url.duplicate();
        let mut visited: Vec<(Owner, Name)> = Vec::new();
        visited.push((seed.owner.duplicate(), seed.name.duplicate()));
        let chosen_remote_alias = RemoteAlias(String::new());
        let repo = Repo {
            gitlab_token,
            github_token,
            host,
            local_remotes,
            available_forks: Vec::new(),
            main_fork_owner,
            main_fork_name,
            main_fork_url,
            visited,
            chosen_fork_index: 0,
            chosen_remote_alias,
        };
        assert(repo.visited@ =~= seq![(repo.main_fork_owner, repo.main_fork_name)]);
        Ok(repo)
    }

    /// One step of the walk from a GitLab project up to the canonical
    /// upstream, given what the current project reports. `Ok(true)` where the
    /// walk moved to the parent and must go on; `Ok(false)` where the current
    /// project is the canonical upstream. A parent already visited is a cycle.
    pub fn follow_gitlab_project(&mut self, project: GitLabProject) -> (r: Result<bool, RepoError>)
        requires
            old(self).wf(),
            old(self).host == Host::GitLab,
        ensures
            final(self).wf(),
            final(self).host == old(self).host,
            final(self).local_remotes == old(self).local_remotes,
            final(self).available_forks == old(self).available_forks,
            final(self).gitlab_token == old(self).gitlab_token,
            final(self).github_token == old(self).github_token,
            final(self).chosen_fork_index == old(self).chosen_fork_index,
            final(self).chosen_remote_alias == old(self).chosen_remote_alias,
            r is Err ==> *final(self) == *old(self),
            match project {
                GitLabProject::Root { ssh_url } => {
                    &&& r == Ok::<bool, RepoError>(false)
                    &&& final(self).main_fork_url == Url::GitLabSsh(ssh_url)
                    &&& final(self).main_fork_owner == old(self).main_fork_owner
                    &&& final(self).main_fork_name == old(self).main_fork_name
                    &&& final(self).visited == old(self).visited
                },
                GitLabProject::Fork { parent_path } => match crate::url::split_path(
                    parent_path@,
                ) {
                    None => r matches Err(e) && shape_error(
                        e,
                        "/forked_from_project/path_with_namespace"@,
                    ),
                    Some((o, n)) => if old(self).was_visited(o, n) {
                        r matches Err(RepoError::CyclicForkChain)
                    } else {
                        &&& r == Ok::<bool, RepoError>(true)
                        &&& final(self).main_fork_owner.0@ == o
                        &&& final(self).main_fork_name.0@ == n
                        &&& final(self).main_fork_url == old(self).main_fork_url
                        &&& final(self).visited@ == old(self).visited@.push(
                            (final(self).main_fork_owner, final(self).main_fork_name),
                        )
                    },
                },
            },
    {
        match project {
            GitLabProject::Root { ssh_url } => {
                self.main_fork_url = Url::GitLabSsh(ssh_url);
                Ok(false)
            },
            GitLabProject::Fork { parent_path } => {
                match Url::split_owner_and_repo(parent_path.as_str()) {
                    None => Err(
                        RepoError::UnexpectedResponseShape(
                            crate::text::to_string("/forked_from_project/path_with_namespace"),
                        ),
                    ),
                    Some((owner, name)) => {
                        if contains_project(&self.visited, &owner, &name) {
                            return Err(RepoError::CyclicForkChain);
                        }
                        self.visited.push((owner.duplicate(), name.duplicate()));
                        self.main_fork_owner = owner;
                        self.main_fork_name = name;
                        Ok(true)
                    },
                }
            },
        }
    }

    /// Takes GitHub's report of the canonical upstream.
    pub fn adopt_github_source(&mut self, source: GitHubSource)
        requires
            old(self).wf(),
        ensures
            final(self).wf(),
            final(self).host == old(self).host,
            final(self).local_remotes == old(self).local_remotes,
            final(self).available_forks == old(self).available_forks,
            final(self).gitlab_token == old(self).gitlab_token,
            final(self).github_token == old(self).github_token,
            final(self).chosen_fork_index == old(self).chosen_fork_index,
            final(self).chosen_remote_alias == old(self).chosen_remote_alias,
            final(self).visited == old(self).visited,
            final(self).main_fork_owner.0 == source.owner,
            final(self).main_fork_name.0 == source.name,
            final(self).main_fork_url == Url::GitHubSsh(source.ssh_url),
    {
        self.main_fork_owner = Owner(source.owner);
        self.main_fork_name = Name(source.name);
        self.main_fork_url = Url::GitHubSsh(source.ssh_url);
    }

    /// Whether `owner` is, ignoring case, the owner of a local remote.
    pub fn is_local(&self, owner: &str) -> (r: bool)
        ensures
            r == self.is_local_owner(owner@),
    {
        let key = lowercase(owner);
        let mut k: usize = 0;
        while k < self.local_remotes.len()
            invariant
                k <= self.local_remotes@.len(),
                key@ == lower_of(owner@),
                forall|j: int|
                    0 <= j < k ==> lower_of(#[trigger] self.local_remotes@[j].owner.0@) != lower_of(
                        owner@,
                    ),
            decreases self.local_remotes@.len() - k,
        {
            if lowercase(self.local_remotes[k].owner.0.as_str()) == key {
                return true;
            }
            k = k + 1;
        }
        false
    }

    /// The candidates that the fork entries `es` add: those whose owner is
    /// not a local remote, in order.
    pub open spec fn kept_forks(&self, es: Seq<ForkEntry>) -> Seq<(Owner, Url)>
        decreases es.len(),
    {
        if es.len() == 0 {
            Seq::empty()
        } else {
            let rest = self.kept_forks(es.drop_last());
            if self.is_local_owner(es.last().owner.0@) {
                rest
            } else {
                rest.push((es.last().owner, es.last().url))
            }
        }
    }

    /// How many of the fork entries `es` belong to the owner of a local remote.
    pub open spec fn local_entry_count(&self, es: Seq<ForkEntry>) -> nat
        decreases es.len(),
    {
        if es.len() == 0 {
            0
        } else {
            self.local_entry_count(es.drop_last()) + if self.is_local_owner(es.last().owner.0@) {
                1nat
            } else {
                0nat
            }
        }
    }

    /// The notes on the fork entries `es` whose own forks are ignored: the
    /// URL and the number of forks of each entry that has forks and is not
    /// owned by the canonical upstream's owner.
    pub open spec fn ignored_subforks(&self, es: Seq<ForkEntry>) -> Seq<(Seq<char>, u64)>
        decreases es.len(),
    {
        if es.len() == 0 {
            Seq::empty()
        } else {
            let rest = self.ignored_subforks(es.drop_last());
            let e = es.last();
            if e.owner.0@ != self.main_fork_owner.0@ && e.subforks > 0 {
                rest.push((e.url.text(), e.subforks))
            } else {
                rest
            }
        }
    }

    /// The candidates `s` with the canonical upstream added, unless its owner
    /// is a local remote.
    pub open spec fn with_main(&self, s: Seq<(Owner, Url)>) -> Seq<(Owner, Url)> {
        if self.is_local_owner(self.main_fork_owner.0@) {
            s
        } else {
            s.push((self.main_fork_owner, self.main_fork_url))
        }
    }

    /// Takes in one page of the fork list: each entry whose owner is not a
    /// local remote becomes a candidate. Returns, as pairs of URL and count,
    /// the entries whose own forks are ignored.
    pub fn add_forks(&mut self, entries: &Vec<ForkEntry>) -> (notes: Vec<(String, u64)>)
        requires
            old(self).wf(),
        ensures
            final(self).wf(),
            final(self).available_forks@ == old(self).available_forks@ + old(self).kept_forks(
                entries@,
            ),
            notes@.map_values(|n: (String, u64)| (n.0@, n.1)) == old(self).ignored_subforks(
                entries@,
            ),
            final(self).local_remotes == old(self).local_remotes,
            final(self).host == old(self).host,
            final(self).main_fork_owner == old(self).main_fork_owner,
            final(self).main_fork_name == old(self).main_fork_name,
            final(self).main_fork_url == old(self).main_fork_url,
            final(self).gitlab_token == old(self).gitlab_token,
            final(self).github_token == old(self).github_token,
            final(self).visited == old(self).visited,
            final(self).chosen_fork_index == old(self).chosen_fork_index,
            final(self).chosen_remote_alias == old(self).chosen_remote_alias,
    {
        let mut notes: Vec<(String, u64)> = Vec::new();
        let mut i: usize = 0;
        assert(entries@.take(0) =~= Seq::<ForkEntry>::empty());
        assert(old(self).available_forks@ + Seq::empty() =~= old(self).available_forks@);
        assert(notes@.map_values(|n: (String, u64)| (n.0@, n.1)) =~= Seq::empty());
        while i < entries.len()
            invariant
                i <= entries@.len(),
                self.wf(),
                self.available_forks@ == old(self).available_forks@ + old(self).kept_forks(
                    entries@.take(i as int),
                ),
                notes@.map_values(|n: (String, u64)| (n.0@, n.1)) == old(self).ignored_subforks(
                    entries@.take(i as int),
                ),
                self.local_remotes == old(self).local_remotes,
                self.host == old(self).host,
                self.main_fork_owner == old(self).main_fork_owner,
                self.main_fork_name == old(self).main_fork_name,
                self.main_fork_url == old(self).main_fork_url,
                self.gitlab_token == old(self).gitlab_token,
                self.github_token == old(self).github_token,
                self.visited == old(self).visited,
                self.chosen_fork_index == old(self).chosen_fork_index,
                self.chosen_remote_alias == old(self).chosen_remote_alias,
            decreases entries@.len() - i,
        {
            let e = &entries[i];
            proof {
                assert(entries@.take(i + 1).drop_last() =~= entries@.take(i as int));
                assert(entries@.take(i + 1).last() == *e);
            }
            let ghost notes0 = notes@;
            if e.owner.0 != self.main_fork_owner.0 && e.subforks > 0 {
                notes.push((to_string(e.url.value()), e.subforks));
                assert(notes@.map_values(|n: (String, u64)| (n.0@, n.1)) =~= notes0.map_values(
                    |n: (String, u64)| (n.0@, n.1),
                ).push((e.url.text(), e.subforks)));
            }
            let ghost forks0 = self.available_forks@;
            if !self.is_local(e.owner.0.as_str()) {
                self.available_forks.push((e.owner.duplicate(), e.url.duplicate()));
                assert(self.available_forks@ =~= old(self).available_forks@ + old(self).kept_forks(
                    entries@.take(i + 1),
                ));
            }
            i = i + 1;
        }
        assert(entries@.take(i as int) =~= entries@);
        notes
    }

    /// Ends the fork list: adds the canonical upstream unless its owner is a
    /// local remote, then ranks the candidates by owner, ignoring case.
    pub fn finish_available_forks(&mut self)
        requires
            old(self).wf(),
        ensures
            final(self).wf(),
            final(self).available_forks@ == sort_by_owner(old(self).with_main(
                old(self).available_forks@,
            )),
            sorted_by_owner(final(self).available_forks@),
            final(self).local_remotes == old(self).local_remotes,
            final(self).host == old(self).host,
            final(self).main_fork_owner == old(self).main_fork_owner,
            final(self).main_fork_name == old(self).main_fork_name,
            final(self).main_fork_url == old(self).main_fork_url,
            final(self).gitlab_token == old(self).gitlab_token,
            final(self).github_token == old(self).github_token,
            final(self).visited == old(self).visited,
            final(self).chosen_fork_index == old(self).chosen_fork_index,
            final(self).chosen_remote_alias == old(self).chosen_remote_alias,
    {
        if !self.is_local(self.main_fork_owner.0.as_str()) {
            let c = (self.main_fork_owner.duplicate(), self.main_fork_url.duplicate());
            self.available_forks.push(c);
        }
        assert(self.available_forks@ =~= old(self).with_main(old(self).available_forks@));
        let ghost unsorted = self.available_forks@;
        let sorted = sort_forks(&self.available_forks);
        proof {
            lemma_sort_by_owner_elements(unsorted);
            lemma_sort_by_owner_sorted(unsorted);
            assert forall|c: int| 0 <= c < sorted@.len() implies !self.is_local_owner(
                #[trigger] sorted@[c].0.0@,
            ) by {
                let j = choose|j: int| 0 <= j < unsorted.len() && sort_by_owner(unsorted)[c] == unsorted[j];
                if j == old(self).available_forks@.len() {
                    assert(unsorted[j].0 == self.main_fork_owner);
                } else {
                    assert(unsorted[j] == old(self).available_forks@[j]);
                }
            }
        }
        self.available_forks = sorted;
    }

    /// The keys that the candidates rank by: their owners in lower case.
    pub open spec fn fork_keys(&self) -> Seq<Seq<char>> {
        self.available_forks@.map_values(|c: Candidate| owner_key(c))
    }

    /// The candidate to offer by default: the only one; else the first whose
    /// owner is the canonical upstream's, ignoring case; else the first whose
    /// owner is `preferred`, ignoring case; else none.
    pub fn suggest_fork(&self, preferred: Option<String>) -> (r: Option<u64>)
        ensures
            self.available_forks@.len() == 1 ==> r == Some(0u64),
            self.available_forks@.len() != 1 && has_key(
                self.fork_keys(),
                lower_of(self.main_fork_owner.0@),
            ) ==> (r matches Some(i) && is_first_key(
                self.fork_keys(),
                lower_of(self.main_fork_owner.0@),
                i as int,
            )),
            self.available_forks@.len() != 1 && !has_key(
                self.fork_keys(),
                lower_of(self.main_fork_owner.0@),
            ) ==> match preferred {
                Some(p) => if has_key(self.fork_keys(), lower_of(p@)) {
                    r matches Some(i) && is_first_key(self.fork_keys(), lower_of(p@), i as int)
                } else {
                    r is None
                },
                None => r is None,
            },
    {
        let keys = owner_keys(&self.available_forks);
        let main_key = lowercase(self.main_fork_owner.0.as_str());
        let preferred_key = match preferred {
            Some(p) => Some(lowercase(p.as_str())),
            None => None,
        };
        proof {
            assert(views(keys@) =~= self.fork_keys());
        }
        suggest_index(&keys, &main_key, &preferred_key)
    }

    /// Takes the index that the user entered: `true`, and it is the choice,
    /// where it names a candidate; `false`, and nothing changes, otherwise.
    pub fn choose_fork(&mut self, index: u64) -> (r: bool)
        ensures
            r == (index < old(self).available_forks@.len()),
            r ==> final(self).chosen_fork_index == index,
            !r ==> final(self).chosen_fork_index == old(self).chosen_fork_index,
            final(self).available_forks == old(self).available_forks,
            final(self).local_remotes == old(self).local_remotes,
            final(self).host == old(self).host,
            final(self).main_fork_owner == old(self).main_fork_owner,
            final(self).main_fork_name == old(self).main_fork_name,
            final(self).main_fork_url == old(self).main_fork_url,
            final(self).gitlab_token == old(self).gitlab_token,
            final(self).github_token == old(self).github_token,
            final(self).chosen_remote_alias == old(self).chosen_remote_alias,
    {
        if index < self.available_forks.len() as u64 {
            self.chosen_fork_index = index as usize;
            true
        } else {
            false
        }
    }

    /// The git configuration key that may hold an alias for the chosen
    /// candidate: the one for the canonical upstream, or the one for its owner.
    pub fn alias_config_key(&self) -> (r: String)
        requires
            self.chosen_fork_index < self.available_forks@.len(),
        ensures
            ({
                let owner = self.available_forks@[self.chosen_fork_index as int].0;
                if owner.0@ == self.main_fork_owner.0@ {
                    r@ == "add-remote.mainForkOwnerAlias"@
                } else {
                    r@ == "add-remote.forkAlias."@ + owner.0@
                }
            }),
    {
        let owner = &self.available_forks[self.chosen_fork_index].0;
        if owner.0 == self.main_fork_owner.0 {
            to_string("add-remote.mainForkOwnerAlias")
        } else {
            let mut key = to_string("add-remote.forkAlias.");
            key.append(owner.0.as_str());
            key
        }
    }

    /// The alias to offer for the chosen candidate: `configured`, the value
    /// found under `alias_config_key`, if any; else `upstream` for the
    /// canonical upstream; else the alias that `known_aliases` gives the
    /// owner; else the owner.
    pub fn suggest_alias(&self, configured: Option<String>, known_aliases: &Vec<(String, String)>) -> (r: String)
        requires
            self.chosen_fork_index < self.available_forks@.len(),
        ensures
            ({
                let owner = self.available_forks@[self.chosen_fork_index as int].0.0@;
                match configured {
                    Some(c) => r@ == c@,
                    None => if owner == self.main_fork_owner.0@ {
                        r@ == "upstream"@
                    } else {
                        match known_alias(known_aliases@, owner) {
                            Some(a) => r@ == a,
                            None => r@ == owner,
                        }
                    },
                }
            }),
    {
        if let Some(c) = configured {
            return c;
        }
        let owner = &self.available_forks[self.chosen_fork_index].0;
        if owner.0 == self.main_fork_owner.0 {
            return to_string("upstream");
        }
        match find_known_alias(known_aliases, &owner.0) {
            Some(i) => known_aliases[i].1.clone(),
            None => owner.0.clone(),
        }
    }

    /// Takes the alias that the user entered: an empty answer takes `default`
    /// and returns `false`; any other is taken as it is and returns `true`.
    pub fn choose_local_remote_alias(&mut self, entered: String, default: String) -> (r: bool)
        ensures
            r == (entered@.len() > 0),
            final(self).chosen_remote_alias.0@ == if r {
                entered@
            } else {
                default@
            },
            final(self).available_forks == old(self).available_forks,
            final(self).local_remotes == old(self).local_remotes,
            final(self).host == old(self).host,
            final(self).main_fork_owner == old(self).main_fork_owner,
            final(self).main_fork_name == old(self).main_fork_name,
            final(self).main_fork_url == old(self).main_fork_url,
            final(self).gitlab_token == old(self).gitlab_token,
            final(self).github_token == old(self).github_token,
            final(self).chosen_fork_index == old(self).chosen_fork_index,
    {
        if entered.as_str().unicode_len() == 0 {
            self.chosen_remote_alias = RemoteAlias(default);
            false
        } else {
            self.chosen_remote_alias = RemoteAlias(entered);
            true
        }
    }

    /// Whether every local remote uses HTTPS.
    pub open spec fn all_local_https(&self) -> bool {
        forall|k: int|
            0 <= k < self.local_remotes@.len() ==> (#[trigger] self.local_remotes@[k]).url.spec_is_https()
    }

    /// The URL to add the chosen candidate under: rewritten to HTTPS where it
    /// uses SSH and every local remote uses HTTPS, else as it is.
    pub fn get_chosen_url(&self) -> (r: Url)
        requires
            self.chosen_fork_index < self.available_forks@.len(),
        ensures
            ({
                let c = self.available_forks@[self.chosen_fork_index as int].1;
                if !c.spec_is_https() && self.all_local_https() {
                    &&& r.host() == c.host()
                    &&& r.spec_is_https()
                    &&& r.text() == c.to_https()
                } else {
                    r == c
                }
            }),
    {
        let mut chosen_url = self.available_forks[self.chosen_fork_index].1.duplicate();
        if !chosen_url.is_https() {
            let mut all_https = true;
            let mut k: usize = 0;
            while k < self.local_remotes.len()
                invariant
                    k <= self.local_remotes@.len(),
                    all_https == forall|j: int|
                        0 <= j < k ==> (#[trigger] self.local_remotes@[j]).url.spec_is_https(),
                decreases self.local_remotes@.len() - k,
            {
                if !self.local_remotes[k].url.is_https() {
                    all_https = false;
                }
                k = k + 1;
            }
            if all_https {
                chosen_url.change_to_https();
            }
        }
        chosen_url
    }

    /// The request for the metadata of the project that the walk to the
    /// canonical upstream has reached.
    pub fn main_fork_request(&self) -> (r: String)
        requires
            self.wf(),
        ensures
            self.host == Host::GitLab ==> r@ == gitlab_api() + self.main_fork_owner.0@ + "%2F"@
                + escape_slashes(self.main_fork_name.0@) + "?private_token="@
                + self.gitlab_token->Some_0@,
            self.host == Host::GitHub ==> r@ == github_api() + self.main_fork_owner.0@ + "/"@
                + self.main_fork_name.0@,
    {
        match (&self.host, &self.gitlab_token) {
            (Host::GitLab, Some(token)) => gitlab_project_request(
                self.main_fork_owner.0.as_str(),
                self.main_fork_name.0.as_str(),
                token.as_str(),
            ),
            _ => github_repo_request(self.main_fork_owner.0.as_str(), self.main_fork_name.0.as_str()),
        }
    }

    /// The request for the first page of forks of the canonical upstream.
    pub fn forks_request(&self) -> (r: String)
        requires
            self.wf(),
        ensures
            self.host == Host::GitLab ==> r@ == gitlab_api() + self.main_fork_owner.0@ + "%2F"@
                + escape_slashes(self.main_fork_name.0@) + "/forks?private_token="@
                + self.gitlab_token->Some_0@,
            self.host == Host::GitHub ==> r@ == github_api() + self.main_fork_owner.0@ + "/"@
                + self.main_fork_name.0@ + "/forks?per_page=100"@,
    {
        match (&self.host, &self.gitlab_token) {
            (Host::GitLab, Some(token)) => gitlab_forks_request(
                self.main_fork_owner.0.as_str(),
                self.main_fork_name.0.as_str(),
                token.as_str(),
            ),
            _ => github_forks_request(self.main_fork_owner.0.as_str(), self.main_fork_name.0.as_str()),
        }
    }

    /// The value of the `Authorization` header to send: `Basic` with GitHub's
    /// encoded credential, where configured; GitLab takes its token in the
    /// request URL instead.
    pub fn authorisation(&self) -> (r: Option<String>)
        ensures
            self.host == Host::GitLab ==> r is None,
            self.host == Host::GitHub ==> match self.github_token {
                Some(t) => r matches Some(a) && a@ == "Basic "@ + t@,
                None => r is None,
            },
    {
        match (&self.host, &self.github_token) {
            (Host::GitHub, Some(token)) => {
                let mut header = to_string("Basic ");
                header.append(token.as_str());
                Some(header)
            },
            _ => None,
        }
    }

    /// Takes the body of the response to `main_fork_request`. `Ok(true)`
    /// where the walk moved to a parent project and `main_fork_request` must
    /// be sent again; `Ok(false)` where the canonical upstream is known.
    pub fn apply_main_fork_response(&mut self, body: &str) -> (r: Result<bool, RepoError>)
        requires
            old(self).wf(),
        ensures
            final(self).wf(),
            final(self).host == old(self).host,
            final(self).local_remotes == old(self).local_remotes,
            final(self).available_forks == old(self).available_forks,
            final(self).gitlab_token == old(self).gitlab_token,
            final(self).github_token == old(self).github_token,
            final(self).chosen_fork_index == old(self).chosen_fork_index,
            final(self).chosen_remote_alias == old(self).chosen_remote_alias,
            old(self).host == Host::GitLab ==> gitlab_step(
                *old(self),
                *final(self),
                gitlab_project_of(json_of(body@)),
                r,
            ),
            old(self).host == Host::GitHub ==> github_step(
                *old(self),
                *final(self),
                github_source_of(json_of(body@)),
                r,
            ),
    {
        match self.host {
            Host::GitLab => {
                let project = decode_gitlab_project(body)?;
                self.follow_gitlab_project(project)
            },
            Host::GitHub => {
                let source = decode_github_source(body)?;
                self.adopt_github_source(source);
                Ok(false)
            },
        }
    }

    /// Takes the body of one page of the fork listing: each fork whose owner
    /// is not a local remote becomes a candidate. Returns, as pairs of URL and
    /// count, the forks whose own forks are ignored.
    pub fn add_fork_page(&mut self, body: &str) -> (r: Result<Vec<(String, u64)>, RepoError>)
        requires
            old(self).wf(),
        ensures
            final(self).wf(),
            final(self).local_remotes == old(self).local_remotes,
            final(self).host == old(self).host,
            final(self).main_fork_owner == old(self).main_fork_owner,
            final(self).main_fork_name == old(self).main_fork_name,
            final(self).main_fork_url == old(self).main_fork_url,
            final(self).gitlab_token == old(self).gitlab_token,
            final(self).github_token == old(self).github_token,
            final(self).visited == old(self).visited,
            final(self).chosen_fork_index == old(self).chosen_fork_index,
            final(self).chosen_remote_alias == old(self).chosen_remote_alias,
            match fork_page_of(json_of(body@), old(self).host) {
                Ok(vs) => r matches Ok(notes) && exists|es: Seq<ForkEntry>|
                    entries_match(es, vs, old(self).host) && final(self).available_forks@ == old(
                        self,
                    ).available_forks@ + old(self).kept_forks(es) && notes@.map_values(
                        |n: (String, u64)| (n.0@, n.1),
                    ) == old(self).ignored_subforks(es),
                Err(f) => (r matches Err(e) && shape_error(e, f)) && *final(self) == *old(self),
            },
    {
        let entries = decode_fork_page(body, self.host)?;
        let notes = self.add_forks(&entries);
        Ok(notes)
    }

    /// Whether every fork is already a local remote.
    pub fn has_no_available_forks(&self) -> (r: bool)
        ensures
            r == (self.available_forks@.len() == 0),
    {
        self.available_forks.len() == 0
    }
}

/// Fork entries taken in page after page give the candidates that all of
/// them, taken in at once, give.
pub proof fn lemma_kept_forks_concat(repo: Repo, a: Seq<ForkEntry>, b: Seq<ForkEntry>)
    ensures
        repo.kept_forks(a + b) == repo.kept_forks(a) + repo.kept_forks(b),
    decreases b.len(),
{
    if b.len() == 0 {
        assert(a + b =~= a);
        assert(repo.kept_forks(a) + repo.kept_forks(b) =~= repo.kept_forks(a));
    } else {
        lemma_kept_forks_concat(repo, a, b.drop_last());
        assert((a + b).drop_last() =~= a + b.drop_last());
        assert((a + b).last() == b.last());
        if !repo.is_local_owner(b.last().owner.0@) {
            assert(repo.kept_forks(a) + repo.kept_forks(b) =~= (repo.kept_forks(a)
                + repo.kept_forks(b.drop_last())).push((b.last().owner, b.last().url)));
        }
    }
}

/// The fork entries `es` add one candidate for each entry whose owner is not
/// a local remote.
proof fn lemma_kept_forks_len(repo: Repo, es: Seq<ForkEntry>)
    ensures
        repo.kept_forks(es).len() + repo.local_entry_count(es) == es.len(),
    decreases es.len(),
{
    if es.len() > 0 {
        lemma_kept_forks_len(repo, es.drop_last());
    }
}

/// Once the fork entries `es` are taken in and the list is finished, the
/// candidates number the entries whose owner is not a local remote, plus one
/// for the canonical upstream unless its owner is a local remote.
pub proof fn lemma_candidate_count(repo: Repo, es: Seq<ForkEntry>)
    requires
        repo.available_forks@.len() == 0,
    ensures
        sort_by_owner(repo.with_main(repo.available_forks@ + repo.kept_forks(es))).len() == es.len()
            - repo.local_entry_count(es) + if repo.is_local_owner(repo.main_fork_owner.0@) {
            0int
        } else {
            1int
        },
{
    lemma_kept_forks_len(repo, es);
    lemma_sort_by_owner_elements(repo.with_main(repo.available_forks@ + repo.kept_forks(es)));
    assert(repo.available_forks@ + repo.kept_forks(es) =~= repo.kept_forks(es));
}

/// No owner of a local remote is ever among the fork candidates.
pub proof fn lemma_local_owners_not_candidates(repo: Repo)
    requires
        repo.wf(),
    ensures
        forall|c: int, k: int|
            0 <= c < repo.available_forks@.len() && 0 <= k < repo.local_remotes@.len()
                ==> #[trigger] repo.available_forks@[c].0.0@ != #[trigger] repo.local_remotes@[k].owner.0@,
{
    assert forall|c: int, k: int|
        0 <= c < repo.available_forks@.len() && 0 <= k < repo.local_remotes@.len() implies #[trigger] repo.available_forks@[c].0.0@
        != #[trigger] repo.local_remotes@[k].owner.0@ by {
        if repo.available_forks@[c].0.0@ == repo.local_remotes@[k].owner.0@ {
            assert(lower_of(repo.local_remotes@[k].owner.0@) == lower_of(repo.available_forks@[c].0.0@));
            assert(repo.is_local_owner(repo.available_forks@[c].0.0@));
        }
    }
}

} // verus!
