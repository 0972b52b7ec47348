use gh_yard::root::{
    clean, config_root, non_empty, normalize, path_join, resolve_from_config, resolve_from_env,
    RootStep,
};

#[test]
fn clean_folds_dot_and_dotdot() {
    assert_eq!(clean("/a/b/../c/./d"), "/a/c/d");
}

#[test]
fn clean_keeps_plain_path() {
    assert_eq!(clean("/a/b/c"), "/a/b/c");
}

#[test]
fn clean_does_not_escape_root() {
    assert_eq!(clean("/../../a"), "/a");
}

#[test]
fn clean_relative_and_trailing() {
    assert_eq!(clean("a/../../b/"), "b");
    assert_eq!(clean("./x//y/."), "x/y");
    assert_eq!(clean("/"), "/");
}

#[test]
fn join_follows_path_rules() {
    assert_eq!(path_join("/home/u", "yard"), "/home/u/yard");
    assert_eq!(path_join("/home/u/", "yard"), "/home/u/yard");
    assert_eq!(path_join("/home/u", "/abs"), "/abs");
    assert_eq!(path_join("", "rel"), "rel");
}

fn home() -> Option<String> {
    Some("/home/u".to_string())
}

fn cwd() -> Result<String, String> {
    Ok("/work/dir".to_string())
}

#[test]
fn normalize_expands_tilde() {
    assert_eq!(normalize("~", &home(), &cwd()), Ok("/home/u".to_string()));
    assert_eq!(
        normalize("~/repos", &home(), &cwd()),
        Ok("/home/u/repos".to_string())
    );
    assert_eq!(
        normalize("~/repos", &None, &cwd()),
        Err("cannot determine home directory".to_string())
    );
    // `~user` is not expanded.
    assert_eq!(
        normalize("~user/x", &home(), &cwd()),
        Ok("/work/dir/~user/x".to_string())
    );
}

#[test]
fn normalize_makes_relative_absolute() {
    assert_eq!(
        normalize("rel-root", &home(), &cwd()),
        Ok("/work/dir/rel-root".to_string())
    );
    assert_eq!(
        normalize("../up/./x", &home(), &cwd()),
        Ok("/work/up/x".to_string())
    );
    assert_eq!(normalize("/abs/../kept", &home(), &cwd()), Ok("/abs/../kept".to_string()));
    assert_eq!(
        normalize("rel", &home(), &Err("boom".to_string())),
        Err("cannot determine current directory: boom".to_string())
    );
}

#[test]
fn yard_root_env_wins() {
    match resolve_from_env(&Some("/from-env".to_string()), &home(), &cwd()) {
        RootStep::Resolved(r) => assert_eq!(r, Ok("/from-env".to_string())),
        RootStep::NeedsGitConfig => panic!("env root ignored"),
    }
    assert!(matches!(
        resolve_from_env(&Some(String::new()), &home(), &cwd()),
        RootStep::NeedsGitConfig
    ));
    assert!(matches!(
        resolve_from_env(&None, &home(), &cwd()),
        RootStep::NeedsGitConfig
    ));
}

#[test]
fn config_then_home_yard() {
    assert_eq!(
        resolve_from_config(&Some("/from-config".to_string()), &home(), &cwd()),
        Ok("/from-config".to_string())
    );
    assert_eq!(
        resolve_from_config(&None, &home(), &cwd()),
        Ok("/home/u/yard".to_string())
    );
    assert_eq!(
        resolve_from_config(&None, &None, &cwd()),
        Err("cannot determine home directory".to_string())
    );
}

#[test]
fn config_output_is_trimmed() {
    assert_eq!(config_root("  /x/y \n", true), Some("/x/y".to_string()));
    assert_eq!(config_root(" \n", true), None);
    assert_eq!(config_root("/x/y\n", false), None);
    assert_eq!(non_empty(Some(String::new())), None);
    assert_eq!(non_empty(Some("a".to_string())), Some("a".to_string()));
}

// The binary's root resolution, step by step as the library decides it.

fn home_t() -> Option<String> {
    Some("/tmp/t".to_string())
}

fn cwd_t() -> Result<String, String> {
    Ok("/tmp/t".to_string())
}

/// The whole resolution for a `YARD_ROOT` value and `git config` output.
fn resolve(env_root: Option<&str>, config: Option<&str>) -> Result<String, String> {
    let env_root = env_root.map(|s| s.to_string());
    match resolve_from_env(&env_root, &home_t(), &cwd_t()) {
        RootStep::Resolved(r) => r,
        RootStep::NeedsGitConfig => {
            let from_config = config.and_then(|out| config_root(out, true));
            resolve_from_config(&from_config, &home_t(), &cwd_t())
        }
    }
}

#[test]
fn root_uses_yard_root_env() {
    assert_eq!(resolve(Some("/tmp/t/custom"), None), Ok("/tmp/t/custom".to_string()));
}

#[test]
fn root_expands_tilde_in_env() {
    assert_eq!(resolve(Some("~/repos"), None), Ok("/tmp/t/repos".to_string()));
}

#[test]
fn root_defaults_to_home_yard() {
    assert_eq!(resolve(None, None), Ok("/tmp/t/yard".to_string()));
}

#[test]
fn root_reads_git_config_yard_root() {
    // git's --type=path has already expanded `~`.
    assert_eq!(
        resolve(None, Some("/tmp/t/from-config\n")),
        Ok("/tmp/t/from-config".to_string())
    );
}

#[test]
fn root_normalizes_relative_config_path() {
    let printed = resolve(None, Some("rel-root\n")).unwrap();
    assert!(printed.starts_with('/'));
    assert_eq!(printed, "/tmp/t/rel-root");
}

#[test]
fn empty_yard_root_falls_back_to_git_config() {
    assert_eq!(
        resolve(Some(""), Some("/tmp/t/from-config\n")),
        Ok("/tmp/t/from-config".to_string())
    );
}

#[test]
fn yard_root_env_wins_over_git_config() {
    assert_eq!(
        resolve(Some("/tmp/t/from-env"), Some("/tmp/t/from-config\n")),
        Ok("/tmp/t/from-env".to_string())
    );
}

#[test]
fn cleaning_twice_is_cleaning_once() {
    for p in ["/a/b/../c/./d", "a/../../b/", "./x//y/.", "/../..", "rel/.."] {
        let once = clean(p);
        assert_eq!(clean(&once), once, "path: {p}");
        assert_eq!(once.starts_with('/'), p.starts_with('/'), "path: {p}");
    }
}

#[test]
fn home_fallback_is_absolute() {
    assert_eq!(
        resolve_from_config(&None, &Some("rel".to_string()), &cwd()),
        Ok("/work/dir/rel/yard".to_string())
    );
    assert_eq!(
        resolve_from_config(&None, &Some("rel".to_string()), &Err("gone".to_string())),
        Err("cannot determine current directory: gone".to_string())
    );
}

#[test]
fn plain_paths_come_back_tidied() {
    assert_eq!(clean("/a//b/"), "/a/b");
    assert_eq!(clean("a/b"), "a/b");
    assert!(!clean("/x/./y/../z").split('/').any(|c| c == "." || c == ".."));
}
