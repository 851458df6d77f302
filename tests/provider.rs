use add_remote::error::RepoError;
use add_remote::provider::{
    decode_fork_page, decode_github_source, decode_gitlab_project, encode_slashes,
    get_link_to_next_from_header, github_credential, github_forks_request, github_repo_request,
    gitlab_forks_request, gitlab_project_request,
};
use add_remote::repo::GitLabProject;
use add_remote::url::Host;

#[test]
fn next_link_is_found() {
    let header = "<https://api.github.com/repositories/1/forks?per_page=100&page=2>; rel=\"next\", <https://api.github.com/repositories/1/forks?per_page=100&page=3>; rel=\"last\"";
    assert_eq!(
        get_link_to_next_from_header(header).unwrap(),
        "https://api.github.com/repositories/1/forks?per_page=100&page=2"
    );
}

#[test]
fn next_link_in_a_later_entry() {
    let header = "<https://x/forks?page=1>; rel=\"prev\", <https://x/forks?page=3>; rel=\"next\"";
    assert_eq!(get_link_to_next_from_header(header).unwrap(), "https://x/forks?page=3");
}

#[test]
fn no_next_link_ends_pagination() {
    assert!(get_link_to_next_from_header("<https://x/forks?page=1>; rel=\"prev\"").is_none());
    assert!(get_link_to_next_from_header("").is_none());
}

#[test]
fn request_urls() {
    assert_eq!(
        gitlab_project_request("alice", "sub/widget", "tok"),
        "https://gitlab.com/api/v4/projects/alice%2Fsub%2Fwidget?private_token=tok"
    );
    assert_eq!(
        gitlab_forks_request("alice", "widget", "tok"),
        "https://gitlab.com/api/v4/projects/alice%2Fwidget/forks?private_token=tok"
    );
    assert_eq!(github_repo_request("alice", "widget"), "https://api.github.com/repos/alice/widget");
    assert_eq!(
        github_forks_request("alice", "widget"),
        "https://api.github.com/repos/alice/widget/forks?per_page=100"
    );
    assert_eq!(encode_slashes("a/b/c"), "a%2Fb%2Fc");
}

#[test]
fn github_credential_is_base64() {
    assert_eq!(github_credential("user:token"), "dXNlcjp0b2tlbg==");
}

#[test]
fn gitlab_project_decoding() {
    match decode_gitlab_project("{\"forked_from_project\":null,\"ssh_url_to_repo\":\"git@gitlab.com:c/p.git\"}").unwrap() {
        GitLabProject::Root { ssh_url } => assert_eq!(ssh_url, "git@gitlab.com:c/p.git"),
        GitLabProject::Fork { .. } => panic!("expected a root project"),
    }
    match decode_gitlab_project("{\"forked_from_project\":{\"path_with_namespace\":\"b/p\"}}").unwrap() {
        GitLabProject::Fork { parent_path } => assert_eq!(parent_path, "b/p"),
        GitLabProject::Root { .. } => panic!("expected a fork"),
    }
    assert_eq!(
        decode_gitlab_project("{}").err().unwrap(),
        RepoError::UnexpectedResponseShape("/ssh_url_to_repo".to_string())
    );
    assert_eq!(
        decode_gitlab_project("not json").err().unwrap(),
        RepoError::UnexpectedResponseShape(String::new())
    );
}

#[test]
fn github_source_decoding() {
    let own = decode_github_source("{\"owner\":{\"login\":\"me\"},\"name\":\"p\",\"ssh_url\":\"git@github.com:me/p.git\"}").unwrap();
    assert_eq!((own.owner.as_str(), own.name.as_str()), ("me", "p"));
    let src = decode_github_source("{\"owner\":{\"login\":\"me\"},\"name\":\"p\",\"ssh_url\":\"git@github.com:me/p.git\",\"source\":{\"owner\":{\"login\":\"up\"},\"name\":\"q\",\"ssh_url\":\"git@github.com:up/q.git\"}}").unwrap();
    assert_eq!((src.owner.as_str(), src.name.as_str(), src.ssh_url.as_str()), ("up", "q", "git@github.com:up/q.git"));
    assert_eq!(
        decode_github_source("{\"owner\":{\"login\":7}}").err().unwrap(),
        RepoError::UnexpectedResponseShape("/owner/login".to_string())
    );
}

#[test]
fn fork_page_decoding() {
    let page = "[{\"path_with_namespace\":\"x/p\",\"ssh_url_to_repo\":\"git@gitlab.com:x/p.git\",\"forks_count\":2}]";
    let es = decode_fork_page(page, Host::GitLab).unwrap();
    assert_eq!(es.len(), 1);
    assert_eq!(es[0].owner.0, "x");
    assert_eq!(es[0].subforks, 2);
    assert_eq!(es[0].url.value(), "git@gitlab.com:x/p.git");
    let page = "[{\"owner\":{\"login\":\"y\"},\"ssh_url\":\"git@github.com:y/p.git\"}]";
    let es = decode_fork_page(page, Host::GitHub).unwrap();
    assert_eq!(es[0].owner.0, "y");
    assert_eq!(es[0].subforks, 0);
    assert_eq!(
        decode_fork_page("{}", Host::GitHub).err().unwrap(),
        RepoError::UnexpectedResponseShape(String::new())
    );
    assert_eq!(
        decode_fork_page("[{\"ssh_url_to_repo\":\"u\",\"forks_count\":0}]", Host::GitLab).err().unwrap(),
        RepoError::UnexpectedResponseShape("/path_with_namespace".to_string())
    );
}

#[test]
fn decode_errors_name_the_field() {
    assert_eq!(
        decode_github_source("{\"owner\":{\"login\":\"me\"},\"name\":\"p\",\"ssh_url\":\"u\",\"source\":{\"owner\":{\"login\":\"up\"}}}").err().unwrap(),
        RepoError::UnexpectedResponseShape("/source/name".to_string())
    );
    assert_eq!(
        decode_gitlab_project("{\"forked_from_project\":{}}").err().unwrap(),
        RepoError::UnexpectedResponseShape("/forked_from_project/path_with_namespace".to_string())
    );
    assert_eq!(
        decode_fork_page("not json", Host::GitLab).err().unwrap(),
        RepoError::UnexpectedResponseShape(String::new())
    );
    assert_eq!(
        decode_fork_page("[{\"path_with_namespace\":\"x/p\",\"ssh_url_to_repo\":\"u\"}]", Host::GitLab).err().unwrap(),
        RepoError::UnexpectedResponseShape("/forks_count".to_string())
    );
    assert_eq!(
        decode_fork_page("[{\"path_with_namespace\":\"xp\",\"ssh_url_to_repo\":\"u\",\"forks_count\":1}]", Host::GitLab).err().unwrap(),
        RepoError::UnexpectedResponseShape("/path_with_namespace".to_string())
    );
    assert_eq!(
        decode_fork_page("[{\"owner\":{\"login\":\"y\"},\"ssh_url\":\"u\"},{\"owner\":{}}]", Host::GitHub).err().unwrap(),
        RepoError::UnexpectedResponseShape("/owner/login".to_string())
    );
    assert_eq!(
        decode_fork_page("[{\"path_with_namespace\":\"x/p\",\"ssh_url_to_repo\":\"u\",\"forks_count\":-1}]", Host::GitLab).err().unwrap(),
        RepoError::UnexpectedResponseShape("/forks_count".to_string())
    );
}

#[test]
fn fork_page_keeps_entry_order() {
    let page = "[{\"owner\":{\"login\":\"b\"},\"ssh_url\":\"git@github.com:b/p.git\"},{\"owner\":{\"login\":\"a\"},\"ssh_url\":\"git@github.com:a/p.git\"}]";
    let es = decode_fork_page(page, Host::GitHub).unwrap();
    let owners: Vec<&str> = es.iter().map(|e| e.owner.0.as_str()).collect();
    assert_eq!(owners, vec!["b", "a"]);
    assert!(decode_fork_page("[]", Host::GitHub).unwrap().is_empty());
}
