//! The walk's decisions, driven over directory listings held in memory (a
//! listing that is missing stands for a directory that cannot be read).

use gh_yard::scan::{relative, sort_by_rel, Entry, Repo, Walk};

type Listing<'a> = (&'a str, &'a [(&'a str, bool)]);

fn walk(root: &str, tree: &[Listing]) -> Vec<Repo> {
    let mut w = Walk::new(root);
    while let Some(dir) = w.next_dir() {
        let Some((_, listing)) = tree.iter().find(|(p, _)| *p == dir) else {
            continue;
        };
        let entries: Vec<Entry> = listing
            .iter()
            .map(|(name, is_dir)| Entry {
                name: name.to_string(),
                is_dir: *is_dir,
            })
            .collect();
        w.visit(&dir, &entries);
    }
    w.finish()
}

fn rels(repos: &[Repo]) -> Vec<String> {
    repos.iter().map(|r| r.rel.clone()).collect()
}

#[test]
fn finds_repos_sorted() {
    let tree: &[Listing] = &[
        ("/t", &[("github.com", true), ("gitlab.com", true)]),
        ("/t/github.com", &[("foo", true)]),
        ("/t/github.com/foo", &[("zebra", true), ("apple", true)]),
        ("/t/github.com/foo/zebra", &[(".git", true)]),
        ("/t/github.com/foo/apple", &[("README", false), (".git", true)]),
        ("/t/gitlab.com", &[("bar", true)]),
        ("/t/gitlab.com/bar", &[("baz", true)]),
        ("/t/gitlab.com/bar/baz", &[(".git", true)]),
    ];
    assert_eq!(
        rels(&walk("/t", tree)),
        [
            "github.com/foo/apple",
            "github.com/foo/zebra",
            "gitlab.com/bar/baz"
        ]
    );
}

#[test]
fn abs_is_root_joined_rel() {
    let tree: &[Listing] = &[
        ("/t", &[("github.com", true)]),
        ("/t/github.com", &[("foo", true)]),
        ("/t/github.com/foo", &[("bar", true)]),
        ("/t/github.com/foo/bar", &[(".git", true)]),
    ];
    let repos = walk("/t", tree);
    assert_eq!(repos[0].abs, "/t/github.com/foo/bar");
}

#[test]
fn detects_deeper_subgroups() {
    let tree: &[Listing] = &[
        ("/t", &[("gitlab.com", true)]),
        ("/t/gitlab.com", &[("group", true)]),
        ("/t/gitlab.com/group", &[("sub", true)]),
        ("/t/gitlab.com/group/sub", &[("repo", true)]),
        ("/t/gitlab.com/group/sub/repo", &[(".git", true)]),
    ];
    assert_eq!(rels(&walk("/t", tree)), ["gitlab.com/group/sub/repo"]);
}

#[test]
fn does_not_descend_into_repos() {
    let tree: &[Listing] = &[
        ("/t", &[("github.com", true)]),
        ("/t/github.com", &[("foo", true)]),
        ("/t/github.com/foo", &[("outer", true)]),
        ("/t/github.com/foo/outer", &[("vendor", true), (".git", true)]),
        ("/t/github.com/foo/outer/vendor", &[("inner", true)]),
        ("/t/github.com/foo/outer/vendor/inner", &[(".git", true)]),
    ];
    assert_eq!(rels(&walk("/t", tree)), ["github.com/foo/outer"]);
}

#[test]
fn ignores_dirs_without_dot_git() {
    let tree: &[Listing] = &[
        ("/t", &[("github.com", true)]),
        ("/t/github.com", &[("foo", true)]),
        ("/t/github.com/foo", &[("not-a-repo", true)]),
        ("/t/github.com/foo/not-a-repo", &[(".gitignore", false)]),
    ];
    assert!(rels(&walk("/t", tree)).is_empty());
}

#[test]
fn does_not_follow_symlinks() {
    // A symlink is listed as what it is, not as a directory.
    let tree: &[Listing] = &[
        ("/t", &[("link", false)]),
        ("/t/link", &[("github.com", true)]),
    ];
    assert!(rels(&walk("/t", tree)).is_empty());
}

#[test]
fn skips_unreadable_dirs() {
    let tree: &[Listing] = &[
        ("/t", &[("github.com", true), ("locked.example", true)]),
        ("/t/github.com", &[("foo", true)]),
        ("/t/github.com/foo", &[("visible", true)]),
        ("/t/github.com/foo/visible", &[(".git", true)]),
    ];
    assert_eq!(rels(&walk("/t", tree)), ["github.com/foo/visible"]);
}

#[test]
fn missing_root_is_empty() {
    assert!(walk("/t/no-such-dir", &[]).is_empty());
}

#[test]
fn root_itself_is_not_listed() {
    let tree: &[Listing] = &[("/t", &[(".git", true), ("x", true)])];
    assert!(walk("/t", tree).is_empty());
}

#[test]
fn a_git_file_is_not_a_repository() {
    let tree: &[Listing] = &[
        ("/t", &[("a", true)]),
        ("/t/a", &[(".git", false), ("b", true)]),
        ("/t/a/b", &[(".git", true)]),
    ];
    assert_eq!(rels(&walk("/t", tree)), ["a/b"]);
}

#[test]
fn relative_paths() {
    assert_eq!(relative("/t", "/t/a/b"), Some("a/b".to_string()));
    assert_eq!(relative("/t/", "/t/a/b"), Some("a/b".to_string()));
    assert_eq!(relative("/t", "/t"), None);
    assert_eq!(relative("/t", "/u/a"), None);
    assert_eq!(relative("/t", "/tx/a"), None);
}

#[test]
fn sorting_is_by_relative_path() {
    let found = vec![
        Repo { abs: "/r/b".into(), rel: "b".into() },
        Repo { abs: "/r/a/z".into(), rel: "a/z".into() },
        Repo { abs: "/r/a".into(), rel: "a".into() },
        Repo { abs: "/r/日".into(), rel: "日".into() },
        Repo { abs: "/r/B".into(), rel: "B".into() },
    ];
    assert_eq!(rels(&sort_by_rel(&found)), ["B", "a", "a/z", "b", "日"]);
}

// `gh yard list` and the selector's empty case, over the walk.

#[test]
fn list_outputs_rel_sorted() {
    let tree: &[Listing] = &[
        ("/t/root", &[("github.com", true), ("gitlab.com", true)]),
        ("/t/root/github.com", &[("foo", true)]),
        ("/t/root/github.com/foo", &[("zebra", true), ("apple", true)]),
        ("/t/root/github.com/foo/zebra", &[(".git", true)]),
        ("/t/root/github.com/foo/apple", &[(".git", true)]),
        ("/t/root/gitlab.com", &[("group", true)]),
        ("/t/root/gitlab.com/group", &[("sub", true)]),
        ("/t/root/gitlab.com/group/sub", &[("repo", true)]),
        ("/t/root/gitlab.com/group/sub/repo", &[(".git", true)]),
    ];
    let lines: String = walk("/t/root", tree)
        .iter()
        .map(|r| format!("{}\n", r.rel))
        .collect();
    assert_eq!(
        lines,
        "github.com/foo/apple\ngithub.com/foo/zebra\ngitlab.com/group/sub/repo\n"
    );
}

#[test]
fn list_full_path_outputs_abs() {
    let tree: &[Listing] = &[
        ("/t/root", &[("github.com", true)]),
        ("/t/root/github.com", &[("foo", true)]),
        ("/t/root/github.com/foo", &[("bar", true)]),
        ("/t/root/github.com/foo/bar", &[(".git", true)]),
    ];
    let repos = walk("/t/root", tree);
    assert_eq!(repos.len(), 1);
    assert_eq!(repos[0].abs, "/t/root/github.com/foo/bar");
    assert!(repos[0].abs.starts_with('/'));
}

#[test]
fn list_empty_root_is_ok_and_silent() {
    assert!(walk("/t/no-such-root", &[]).is_empty());
}

#[test]
fn selector_with_zero_repos_exits_1() {
    let tree: &[Listing] = &[("/t/empty", &[])];
    assert!(walk("/t/empty", tree).is_empty());
}

#[test]
fn equal_paths_keep_their_order() {
    let found = vec![
        Repo { abs: "/r1/b".into(), rel: "b".into() },
        Repo { abs: "/r1/a".into(), rel: "a".into() },
        Repo { abs: "/r2/b".into(), rel: "b".into() },
    ];
    let abs: Vec<String> = sort_by_rel(&found).into_iter().map(|r| r.abs).collect();
    assert_eq!(abs, ["/r1/a", "/r1/b", "/r2/b"]);
}
