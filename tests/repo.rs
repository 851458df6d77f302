use add_remote::error::RepoError;
use add_remote::forks::{sort_by_keys, sort_forks, suggest_index};
use add_remote::local::{new_remote_lines, populate_local_remotes};
use add_remote::repo::{GitLabProject, Repo};
use add_remote::url::{Owner, Url};

fn remotes(pairs: &[(&str, &str)]) -> Vec<(String, String)> {
    pairs.iter().map(|(a, u)| (a.to_string(), u.to_string())).collect()
}

fn github_repo(local: &[(&str, &str)], upstream: &str) -> Repo {
    let mut repo = Repo::new(None, None, &remotes(local)).unwrap();
    let body = format!(
        "{{\"owner\":{{\"login\":\"{upstream}\"}},\"name\":\"proj\",\"ssh_url\":\"git@github.com:{upstream}/proj.git\"}}"
    );
    assert!(!repo.apply_main_fork_response(&body).unwrap());
    repo
}

fn github_page(owners: &[String]) -> String {
    let entries: Vec<String> = owners
        .iter()
        .map(|o| format!("{{\"owner\":{{\"login\":\"{o}\"}},\"ssh_url\":\"git@github.com:{o}/proj.git\"}}"))
        .collect();
    format!("[{}]", entries.join(","))
}

fn owners(repo: &Repo) -> Vec<String> {
    repo.available_forks.iter().map(|(o, _)| o.0.clone()).collect()
}

#[test]
fn populate_available_forks() {
    let mut repo = Repo::new(
        None,
        None,
        &remotes(&[("origin", "git@github.com:Fraser999/cargo.git")]),
    )
    .unwrap();
    let body = "{\"owner\":{\"login\":\"Fraser999\"},\"name\":\"cargo\",\"ssh_url\":\"git@github.com:Fraser999/cargo.git\",\"source\":{\"owner\":{\"login\":\"rust-lang\"},\"name\":\"cargo\",\"ssh_url\":\"git@github.com:rust-lang/cargo.git\"}}";
    assert!(!repo.apply_main_fork_response(body).unwrap());
    assert_eq!(repo.main_fork_owner.0, "rust-lang");
    let first: Vec<String> = (0..100).map(|i| format!("user{i}")).collect();
    let mut second: Vec<String> = (100..199).map(|i| format!("user{i}")).collect();
    second.push("Fraser999".to_string());
    let _ = repo.add_fork_page(&github_page(&first)).unwrap();
    let _ = repo.add_fork_page(&github_page(&second)).unwrap();
    repo.finish_available_forks();
    assert!(repo.available_forks.len() > 101);
}

#[test]
fn local_remote_table() {
    let t = populate_local_remotes(&remotes(&[
        ("origin", "git@github.com:me/proj.git"),
        ("mirror", "https://example.org/me/proj.git"),
        ("again", "https://github.com/me/proj"),
        ("up", "https://github.com/up/proj"),
    ]))
    .unwrap();
    assert_eq!(t.len(), 2);
    let me = t.iter().find(|r| r.owner.0 == "me").unwrap();
    assert_eq!(me.alias.0, "again");
    assert!(me.url.is_https());
}

#[test]
fn local_remote_errors() {
    assert_eq!(
        populate_local_remotes(&remotes(&[("o", "https://example.org/a/b")])).unwrap_err(),
        RepoError::NoSupportedLocalRemotes
    );
    assert_eq!(
        populate_local_remotes(&remotes(&[("o", "git@github.com:a/b.git"), ("p", "git@github.com:ab.git")]))
            .unwrap_err(),
        RepoError::MalformedLocalRemote
    );
    assert_eq!(
        Repo::new(None, None, &remotes(&[("o", "git@gitlab.com:a/b.git")])).err().unwrap(),
        RepoError::MissingCredential
    );
}

#[test]
fn seed_is_smallest_owner() {
    let repo = Repo::new(
        None,
        None,
        &remotes(&[("z", "git@github.com:zed/proj.git"), ("a", "git@github.com:amy/proj.git")]),
    )
    .unwrap();
    assert_eq!(repo.main_fork_owner.0, "amy");
    assert_eq!(repo.main_fork_request(), "https://api.github.com/repos/amy/proj");
    assert_eq!(repo.forks_request(), "https://api.github.com/repos/amy/proj/forks?per_page=100");
}

#[test]
fn three_pages_candidate_count() {
    let mut repo = github_repo(&[("origin", "git@github.com:user5/proj.git"), ("other", "git@github.com:USER150/proj.git")], "upstream-owner");
    let pages = [(0, 100), (100, 200), (200, 237)];
    for (lo, hi) in pages {
        let owners: Vec<String> = (lo..hi).map(|i| format!("user{i}")).collect();
        let _ = repo.add_fork_page(&github_page(&owners)).unwrap();
    }
    repo.finish_available_forks();
    // Two of the 237 owners are local; the upstream is not, so it is added.
    assert_eq!(repo.available_forks.len(), 237 - 2 + 1);
}

#[test]
fn three_pages_with_local_upstream() {
    let mut repo = github_repo(&[("origin", "git@github.com:user5/proj.git")], "user5");
    for (lo, hi) in [(0, 100), (100, 200), (200, 237)] {
        let owners: Vec<String> = (lo..hi).map(|i| format!("user{i}")).collect();
        let _ = repo.add_fork_page(&github_page(&owners)).unwrap();
    }
    repo.finish_available_forks();
    assert_eq!(repo.available_forks.len(), 237 - 1);
}

#[test]
fn local_owners_never_candidates() {
    let mut repo = github_repo(&[("origin", "git@github.com:Bob/proj.git")], "carol");
    let _ = repo
        .add_fork_page(&github_page(&["bob".to_string(), "Bob".to_string(), "dave".to_string()]))
        .unwrap();
    repo.finish_available_forks();
    assert_eq!(owners(&repo), vec!["carol", "dave"]);
}

#[test]
fn candidates_sorted_ignoring_case_and_stable() {
    let mut repo = github_repo(&[("origin", "git@github.com:me/proj.git")], "me");
    let _ = repo
        .add_fork_page(&github_page(&["zeta".to_string(), "Alice".to_string(), "bob".to_string(), "alice".to_string()]))
        .unwrap();
    repo.finish_available_forks();
    assert_eq!(owners(&repo), vec!["Alice", "alice", "bob", "zeta"]);
    let again = sort_forks(&repo.available_forks);
    let resorted: Vec<String> = again.iter().map(|(o, _)| o.0.clone()).collect();
    assert_eq!(resorted, owners(&repo));
}

#[test]
fn suggest_fork_prefers_upstream() {
    let mut repo = github_repo(&[("origin", "git@github.com:me/proj.git")], "bob");
    let _ = repo.add_fork_page(&github_page(&["zeta".to_string(), "alice".to_string()])).unwrap();
    repo.finish_available_forks();
    assert_eq!(owners(&repo), vec!["alice", "bob", "zeta"]);
    assert_eq!(repo.suggest_fork(None), Some(1));
}

#[test]
fn suggest_fork_single_candidate() {
    let mut repo = github_repo(&[("origin", "git@github.com:me/proj.git")], "me");
    let _ = repo.add_fork_page(&github_page(&["zeta".to_string()])).unwrap();
    repo.finish_available_forks();
    assert_eq!(owners(&repo), vec!["zeta"]);
    assert_eq!(repo.suggest_fork(Some("other".to_string())), Some(0));
}

#[test]
fn suggest_fork_preferred_then_none() {
    let mut repo = github_repo(&[("origin", "git@github.com:me/proj.git")], "me");
    let _ = repo.add_fork_page(&github_page(&["zeta".to_string(), "CasperLabs".to_string()])).unwrap();
    repo.finish_available_forks();
    assert_eq!(repo.suggest_fork(Some("casperlabs".to_string())), Some(0));
    assert_eq!(repo.suggest_fork(Some("nobody".to_string())), None);
    assert_eq!(repo.suggest_fork(None), None);
}

#[test]
fn alias_suggestions() {
    let mut repo = github_repo(&[("origin", "git@github.com:me/proj.git")], "up");
    let _ = repo.add_fork_page(&github_page(&["DAVE".to_string(), "erin".to_string(), "dirvine".to_string()])).unwrap();
    repo.finish_available_forks();
    assert_eq!(owners(&repo), vec!["DAVE", "dirvine", "erin", "up"]);
    let known = vec![("dirvine".to_string(), "David".to_string())];

    assert!(repo.choose_fork(3));
    assert_eq!(repo.alias_config_key(), "add-remote.mainForkOwnerAlias");
    assert_eq!(repo.suggest_alias(None, &known), "upstream");
    assert_eq!(repo.suggest_alias(Some("owner".to_string()), &known), "owner");

    assert!(repo.choose_fork(0));
    assert_eq!(repo.alias_config_key(), "add-remote.forkAlias.DAVE");
    assert_eq!(repo.suggest_alias(Some("David".to_string()), &known), "David");

    assert!(repo.choose_fork(1));
    assert_eq!(repo.suggest_alias(None, &known), "David");

    assert!(repo.choose_fork(2));
    assert_eq!(repo.suggest_alias(None, &known), "erin");

    assert!(!repo.choose_fork(4));
    assert_eq!(repo.chosen_fork_index, 2);
}

#[test]
fn alias_entry() {
    let mut repo = github_repo(&[("origin", "git@github.com:me/proj.git")], "up");
    assert!(!repo.choose_local_remote_alias(String::new(), "upstream".to_string()));
    assert_eq!(repo.chosen_remote_alias.0, "upstream");
    assert!(repo.choose_local_remote_alias("mine".to_string(), "upstream".to_string()));
    assert_eq!(repo.chosen_remote_alias.0, "mine");
}

#[test]
fn chosen_url_follows_local_transport() {
    let mut repo = github_repo(&[("origin", "https://github.com/me/proj")], "up");
    repo.finish_available_forks();
    assert!(repo.choose_fork(0));
    let url = repo.get_chosen_url();
    assert!(url.is_https());
    assert_eq!(url.value(), "https://github.com/up/proj");

    let mut repo = github_repo(
        &[("origin", "https://github.com/me/proj"), ("ssh", "git@github.com:you/proj.git")],
        "up",
    );
    repo.finish_available_forks();
    assert!(repo.choose_fork(0));
    let url = repo.get_chosen_url();
    assert!(!url.is_https());
    assert_eq!(url.value(), "git@github.com:up/proj.git");
}

fn gitlab_repo() -> Repo {
    Repo::new(Some("tok".to_string()), None, &remotes(&[("origin", "git@gitlab.com:A/proj.git")])).unwrap()
}

#[test]
fn parent_chain_resolves_in_two_hops() {
    let mut repo = gitlab_repo();
    assert_eq!(repo.main_fork_request(), "https://gitlab.com/api/v4/projects/A%2Fproj?private_token=tok");
    let mut hops = 0;
    let answers = [
        GitLabProject::Fork { parent_path: "B/proj".to_string() },
        GitLabProject::Fork { parent_path: "C/proj".to_string() },
        GitLabProject::Root { ssh_url: "git@gitlab.com:C/proj.git".to_string() },
    ];
    for answer in answers {
        if repo.follow_gitlab_project(answer).unwrap() {
            hops += 1;
        } else {
            break;
        }
    }
    assert_eq!(hops, 2);
    assert_eq!(repo.main_fork_owner.0, "C");
    assert_eq!(repo.main_fork_url.value(), "git@gitlab.com:C/proj.git");
    assert_eq!(repo.forks_request(), "https://gitlab.com/api/v4/projects/C%2Fproj/forks?private_token=tok");
    assert_eq!(repo.authorisation(), None);
}

#[test]
fn parent_chain_cycle_is_an_error() {
    let mut repo = gitlab_repo();
    assert!(repo.follow_gitlab_project(GitLabProject::Fork { parent_path: "B/proj".to_string() }).unwrap());
    assert_eq!(
        repo.follow_gitlab_project(GitLabProject::Fork { parent_path: "A/proj".to_string() }).unwrap_err(),
        RepoError::CyclicForkChain
    );
}

#[test]
fn parent_chain_through_responses() {
    let mut repo = gitlab_repo();
    assert!(repo.apply_main_fork_response("{\"forked_from_project\":{\"path_with_namespace\":\"B/proj\"}}").unwrap());
    assert!(!repo.apply_main_fork_response("{\"forked_from_project\":null,\"ssh_url_to_repo\":\"git@gitlab.com:B/proj.git\"}").unwrap());
    assert_eq!(repo.main_fork_owner.0, "B");
}

#[test]
fn gitlab_subfork_notes() {
    let mut repo = gitlab_repo();
    assert!(!repo.apply_main_fork_response("{\"ssh_url_to_repo\":\"git@gitlab.com:A/proj.git\"}").unwrap());
    let page = "[{\"path_with_namespace\":\"x/proj\",\"ssh_url_to_repo\":\"git@gitlab.com:x/proj.git\",\"forks_count\":3},{\"path_with_namespace\":\"y/proj\",\"ssh_url_to_repo\":\"git@gitlab.com:y/proj.git\",\"forks_count\":0}]";
    let notes = repo.add_fork_page(page).unwrap();
    assert_eq!(notes, vec![("git@gitlab.com:x/proj.git".to_string(), 3)]);
    repo.finish_available_forks();
    assert_eq!(owners(&repo), vec!["x", "y"]);
    assert!(!repo.has_no_available_forks());
}

#[test]
fn github_authorisation_is_encoded() {
    let repo = Repo::new(None, Some("user:token".to_string()), &remotes(&[("o", "git@github.com:a/b.git")])).unwrap();
    assert_eq!(repo.authorisation(), Some("Basic dXNlcjp0b2tlbg==".to_string()));
}

#[test]
fn new_remote_lines_marks_additions() {
    let lines = |v: &[&str]| v.iter().map(|s| s.to_string()).collect::<Vec<String>>();
    let before = lines(&["origin a (fetch)", "origin a (push)"]);
    let after = lines(&["new b (fetch)", "new b (push)", "origin a (fetch)", "origin a (push)"]);
    assert_eq!(new_remote_lines(&before, &after), vec![true, true, false, false]);
    let after = lines(&["origin a (fetch)", "origin a (push)", "zed c (fetch)", "zed c (push)"]);
    assert_eq!(new_remote_lines(&before, &after), vec![false, false, true, true]);
    assert_eq!(new_remote_lines(&Vec::new(), &lines(&["x"])), vec![true]);
}

#[test]
fn sort_by_keys_is_stable() {
    let c = |o: &str| (Owner(o.to_string()), Url::GitHubSsh(format!("git@github.com:{o}/p.git")));
    let keyed = vec![
        ("b".to_string(), c("B")),
        ("a".to_string(), c("a1")),
        ("b".to_string(), c("b")),
        ("a".to_string(), c("a2")),
    ];
    let sorted: Vec<String> = sort_by_keys(&keyed).into_iter().map(|(_, (o, _))| o.0).collect();
    assert_eq!(sorted, vec!["a1", "a2", "B", "b"]);
}

#[test]
fn suggest_index_on_keys() {
    let keys: Vec<String> = vec!["alice".to_string(), "bob".to_string(), "zeta".to_string()];
    assert_eq!(suggest_index(&keys, &"bob".to_string(), &None), Some(1));
    assert_eq!(suggest_index(&vec!["zeta".to_string()], &"bob".to_string(), &None), Some(0));
    assert_eq!(suggest_index(&keys, &"carol".to_string(), &Some("zeta".to_string())), Some(2));
    assert_eq!(suggest_index(&keys, &"carol".to_string(), &Some("yann".to_string())), None);
    assert_eq!(suggest_index(&Vec::new(), &"carol".to_string(), &None), None);
}

#[test]
fn ranking_ignores_case() {
    let mut repo = github_repo(&[("origin", "git@github.com:me/proj.git")], "me");
    let _ = repo.add_fork_page(&github_page(&["Zed".to_string(), "alice".to_string(), "Bob".to_string()])).unwrap();
    repo.finish_available_forks();
    assert_eq!(owners(&repo), vec!["alice", "Bob", "Zed"]);
    assert_eq!(repo.suggest_fork(Some("ZED".to_string())), Some(2));
}

#[test]
fn bad_responses_change_nothing() {
    let mut repo = github_repo(&[("origin", "git@github.com:me/proj.git")], "up");
    let _ = repo.add_fork_page(&github_page(&["a".to_string()])).unwrap();
    assert_eq!(
        repo.add_fork_page("[{\"ssh_url\":\"u\"}]").unwrap_err(),
        RepoError::UnexpectedResponseShape("/owner/login".to_string())
    );
    assert_eq!(owners(&repo), vec!["a"]);
    assert_eq!(
        repo.apply_main_fork_response("{}").unwrap_err(),
        RepoError::UnexpectedResponseShape("/owner/login".to_string())
    );
    assert_eq!(repo.main_fork_owner.0, "up");

    let mut repo = gitlab_repo();
    assert_eq!(
        repo.apply_main_fork_response("{\"forked_from_project\":{\"path_with_namespace\":\"B\"}}").unwrap_err(),
        RepoError::UnexpectedResponseShape("/forked_from_project/path_with_namespace".to_string())
    );
    assert_eq!(repo.main_fork_owner.0, "A");
    assert_eq!(repo.visited.len(), 1);
}
