use add_remote::error::RepoError;
use add_remote::url::Url;

fn parse(url: &str) -> (Url, String, String) {
    let (u, owner, name) = Url::new(url).unwrap().unwrap();
    (u, owner.0, name.0)
}

#[test]
fn four_shapes_give_the_same_owner_and_name() {
    for url in [
        "git@gitlab.com:alice/widget.git",
        "https://gitlab.com/alice/widget",
        "git@github.com:alice/widget.git",
        "https://github.com/alice/widget",
    ] {
        let (_, owner, name) = parse(url);
        assert_eq!(owner, "alice");
        assert_eq!(name, "widget");
    }
}

#[test]
fn shapes_keep_host_and_transport() {
    let (u, _, _) = parse("git@gitlab.com:alice/widget.git");
    assert!(u.is_git_lab() && !u.is_https());
    let (u, _, _) = parse("https://gitlab.com/alice/widget");
    assert!(u.is_git_lab() && u.is_https());
    let (u, _, _) = parse("git@github.com:alice/widget.git");
    assert!(!u.is_git_lab() && !u.is_https());
    let (u, _, _) = parse("https://github.com/alice/widget.git");
    assert!(!u.is_git_lab() && u.is_https());
    assert_eq!(u.value(), "https://github.com/alice/widget.git");
}

#[test]
fn unsupported_host_is_unparsed() {
    assert!(Url::new("https://bitbucket.org/alice/widget.git").unwrap().is_none());
    assert!(Url::new("git@bitbucket.org:alice/widget.git").unwrap().is_none());
    assert!(Url::new("/home/alice/widget").unwrap().is_none());
    assert!(Url::new("").unwrap().is_none());
}

#[test]
fn missing_path_separator_is_malformed() {
    assert_eq!(
        Url::new("git@github.com:alice.git").unwrap_err(),
        RepoError::MalformedLocalRemote
    );
    assert_eq!(
        Url::new("https://gitlab.com/widget").unwrap_err(),
        RepoError::MalformedLocalRemote
    );
}

#[test]
fn name_keeps_inner_slashes() {
    let (_, owner, name) = parse("git@gitlab.com:group/sub/widget.git");
    assert_eq!(owner, "group");
    assert_eq!(name, "sub/widget");
}

#[test]
fn split_owner_and_repo_at_first_slash() {
    let (owner, name) = Url::split_owner_and_repo("a/b/c").unwrap();
    assert_eq!(owner.0, "a");
    assert_eq!(name.0, "b/c");
    assert!(Url::split_owner_and_repo("abc").is_none());
}

#[test]
fn change_to_https_rewrites_ssh_only() {
    let mut u = Url::GitHubSsh("git@github.com:alice/widget.git".to_string());
    u.change_to_https();
    assert!(u.is_https());
    assert_eq!(u.value(), "https://github.com/alice/widget");
    let mut u = Url::GitLabSsh("git@gitlab.com:alice/widget.git".to_string());
    u.change_to_https();
    assert_eq!(u.value(), "https://gitlab.com/alice/widget");
    let (_, owner, name) = parse(u.value());
    assert_eq!((owner.as_str(), name.as_str()), ("alice", "widget"));
    let mut u = Url::GitHubHttps("https://github.com/alice/widget.git".to_string());
    u.change_to_https();
    assert_eq!(u.value(), "https://github.com/alice/widget.git");
}
