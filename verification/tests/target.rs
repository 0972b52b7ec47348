use gh_yard::target::parse;

fn ok(spec: &str) -> (String, String) {
    let t = parse(spec).expect(spec);
    let path = t.path_str();
    (t.host, path)
}

#[test]
fn owner_repo() {
    assert_eq!(ok("cli/cli"), ("github.com".into(), "cli/cli".into()));
}

#[test]
fn host_owner_repo() {
    assert_eq!(
        ok("gitlab.com/foo/bar"),
        ("gitlab.com".into(), "foo/bar".into())
    );
}

#[test]
fn subgroup_keeps_depth() {
    assert_eq!(
        ok("gitlab.com/group/sub/repo"),
        ("gitlab.com".into(), "group/sub/repo".into())
    );
}

#[test]
fn https_url() {
    assert_eq!(
        ok("https://github.com/cli/cli"),
        ("github.com".into(), "cli/cli".into())
    );
}

#[test]
fn scp_url() {
    assert_eq!(
        ok("git@github.com:cli/cli.git"),
        ("github.com".into(), "cli/cli".into())
    );
}

#[test]
fn ssh_url() {
    assert_eq!(
        ok("ssh://git@gitlab.com/group/sub/repo.git"),
        ("gitlab.com".into(), "group/sub/repo".into())
    );
}

#[test]
fn dotless_three_parts_is_error() {
    assert!(parse("foo/bar/baz").is_err());
}

#[test]
fn single_part_is_error() {
    assert!(parse("cli").is_err());
}

#[test]
fn error_messages_name_the_spec() {
    assert_eq!(parse("   ").err().unwrap(), "empty spec");
    assert_eq!(parse("cli").err().unwrap(), "not in owner/repo form: cli");
    assert_eq!(
        parse("foo/bar/baz").err().unwrap(),
        "first component does not look like a host (no `.`): foo/bar/baz"
    );
    assert_eq!(
        parse("https://github.com/cli").err().unwrap(),
        "not in host/owner/repo form: https://github.com/cli"
    );
    assert_eq!(
        parse("-foo/bar").err().unwrap(),
        "component must not start with '-': -foo"
    );
    assert_eq!(
        parse("git@host:a/-b").err().unwrap(),
        "component must not start with '-': -b"
    );
}

#[test]
fn spec_is_trimmed_and_slashes_collapse() {
    assert_eq!(
        ok("  \u{3000}gitlab.com//group///repo/ \t"),
        ("gitlab.com".into(), "group/repo".into())
    );
}

#[test]
fn other_schemes_and_users() {
    assert_eq!(
        ok("http://example.org/a/b"),
        ("example.org".into(), "a/b".into())
    );
    assert_eq!(
        ok("git://user@example.org/a/b.git"),
        ("example.org".into(), "a/b".into())
    );
    // A `@` after a `/` is not a user part.
    assert_eq!(
        ok("https://example.org/a@b/c"),
        ("example.org".into(), "a@b/c".into())
    );
    assert_eq!(ok("host:owner/repo"), ("host".into(), "owner/repo".into()));
}

#[test]
fn colon_after_slash_is_not_scp() {
    // `a/b:c` has a `/` before the colon, so it is an owner/repo spec.
    assert_eq!(ok("a/b:c"), ("github.com".into(), "a/b:c".into()));
}

#[test]
fn dot_git_only_stripped_once_and_empty_dropped() {
    assert_eq!(ok("o/r.git.git"), ("github.com".into(), "o/r.git".into()));
    assert!(parse("o/.git").is_err());
}

#[test]
fn target_helpers() {
    let t = parse("cli/cli").unwrap();
    assert!(t.is_github());
    assert_eq!(t.https_url(), "https://github.com/cli/cli");
    let t = parse("gitlab.com/group/sub/repo").unwrap();
    assert!(!t.is_github());
    assert_eq!(t.path, vec!["group", "sub", "repo"]);
    assert_eq!(t.https_url(), "https://gitlab.com/group/sub/repo");
}

#[test]
fn surrounding_whitespace_does_not_matter() {
    for spec in ["cli/cli", "git@github.com:cli/cli.git", "foo/bar/baz", "-x/y", ""] {
        let padded = format!(" \t{spec}\u{3000}\n");
        match (parse(spec), parse(&padded)) {
            (Ok(a), Ok(b)) => {
                assert_eq!(a.host, b.host);
                assert_eq!(a.path, b.path);
            }
            (Err(a), Err(b)) => assert_eq!(a, b),
            _ => panic!("spec {spec:?}: results differ"),
        }
    }
}

#[test]
fn https_url_parses_back() {
    for spec in [
        "cli/cli",
        "gitlab.com/group/sub/repo",
        "git@example.org:a/b c/d.git",
        "ssh://git@h.io/x/y",
    ] {
        let t = parse(spec).unwrap();
        let u = parse(&t.https_url()).unwrap();
        assert_eq!((u.host, u.path), (t.host, t.path), "spec: {spec}");
    }
}

#[test]
fn two_components_are_github_even_with_a_dot() {
    assert_eq!(ok("a.b/c"), ("github.com".into(), "a.b/c".into()));
    assert_eq!(
        parse("https://h.io/-x/y").err().unwrap(),
        "component must not start with '-': -x"
    );
    assert!(parse("https://h.io/x").is_err());
}
