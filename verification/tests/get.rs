//! Where `get` / `create` put a repository and how `get` clones it.

use gh_yard::get::{clone_command, destination};
use gh_yard::target::{parse, Target};

const ROOT: &str = "/tmp/t/root";

fn dest(spec: &str) -> String {
    destination(ROOT, &parse(spec).unwrap())
}

#[test]
fn get_existing_repo_prints_path_without_cloning() {
    assert_eq!(dest("cli/cli"), "/tmp/t/root/github.com/cli/cli");
}

#[test]
fn get_existing_repo_accepts_url_and_scp_specs() {
    for (spec, rel) in [
        ("https://github.com/cli/cli", "github.com/cli/cli"),
        ("https://github.com/cli/cli.git", "github.com/cli/cli"),
        ("git@github.com:cli/cli.git", "github.com/cli/cli"),
        ("gitlab.com/group/sub/repo", "gitlab.com/group/sub/repo"),
        (
            "ssh://git@gitlab.com/group/sub/repo.git",
            "gitlab.com/group/sub/repo",
        ),
    ] {
        assert_eq!(dest(spec), format!("{ROOT}/{rel}"), "spec: {spec}");
    }
}

#[test]
fn create_inits_repo_and_prints_path() {
    assert_eq!(dest("22mb/newrepo"), "/tmp/t/root/github.com/22mb/newrepo");
}

#[test]
fn destination_with_trailing_slash_root() {
    let t = parse("gitlab.com/g/s/r").unwrap();
    assert_eq!(destination("/srv/", &t), "/srv/gitlab.com/g/s/r");
    assert_eq!(destination("rel", &t), "rel/gitlab.com/g/s/r");
}

#[test]
fn github_is_cloned_with_gh() {
    let t = parse("cli/cli").unwrap();
    assert_eq!(
        clone_command(&t, "/r/github.com/cli/cli"),
        ["gh", "repo", "clone", "cli/cli", "/r/github.com/cli/cli"]
    );
}

#[test]
fn other_hosts_are_cloned_with_git_over_https() {
    let t = Target {
        host: "gitlab.com".to_string(),
        path: vec!["group".to_string(), "sub".to_string(), "repo".to_string()],
    };
    assert_eq!(
        clone_command(&t, "/r/x"),
        ["git", "clone", "https://gitlab.com/group/sub/repo", "/r/x"]
    );
}
