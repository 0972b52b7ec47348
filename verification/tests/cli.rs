use gh_yard::cli::{
    no_match_message, parse_args, usage, Command, EXIT_ERROR, EXIT_NONE, EXIT_OK,
};
use gh_yard::scan::Repo;
use gh_yard::selector::{start, Start};

fn args(a: &[&str]) -> Vec<String> {
    a.iter().map(|s| s.to_string()).collect()
}

#[test]
fn exit_codes() {
    assert_eq!((EXIT_OK, EXIT_NONE, EXIT_ERROR), (0, 1, 2));
}

#[test]
fn no_arguments_open_the_selector() {
    assert!(matches!(parse_args(&args(&[])), Ok(Command::Select)));
}

#[test]
fn list_flags() {
    assert!(matches!(
        parse_args(&args(&["list"])),
        Ok(Command::List { full_path: false })
    ));
    assert!(matches!(
        parse_args(&args(&["list", "-p"])),
        Ok(Command::List { full_path: true })
    ));
    assert!(matches!(
        parse_args(&args(&["list", "--full-path", "-p"])),
        Ok(Command::List { full_path: true })
    ));
    assert_eq!(
        parse_args(&args(&["list", "-p", "--bogus"])).err().unwrap(),
        "unknown flag for list: --bogus"
    );
}

#[test]
fn get_and_create_take_one_spec() {
    match parse_args(&args(&["get", "cli/cli"])) {
        Ok(Command::Get(t)) => assert_eq!(t.path_str(), "cli/cli"),
        _ => panic!("get not parsed"),
    }
    match parse_args(&args(&["create", "gitlab.com/g/s/r"])) {
        Ok(Command::Create(t)) => assert_eq!(t.host, "gitlab.com"),
        _ => panic!("create not parsed"),
    }
    assert_eq!(parse_args(&args(&["get"])).err().unwrap(), "get requires a spec");
    assert_eq!(
        parse_args(&args(&["get", "a/b", "c/d"])).err().unwrap(),
        "get takes exactly one spec"
    );
    assert_eq!(
        parse_args(&args(&["create"])).err().unwrap(),
        "create requires a spec"
    );
    assert!(parse_args(&args(&["get", "foo/bar/baz"])).is_err());
    assert!(parse_args(&args(&["create", "-foo/bar"])).is_err());
}

#[test]
fn other_subcommands() {
    assert!(matches!(parse_args(&args(&["root"])), Ok(Command::Root)));
    for a in ["-h", "--help", "help"] {
        assert!(matches!(parse_args(&args(&[a])), Ok(Command::Help)));
    }
    for a in ["--version", "-V"] {
        assert!(matches!(parse_args(&args(&[a])), Ok(Command::Version)));
    }
    let err = parse_args(&args(&["--bogus"])).err().unwrap();
    assert!(err.starts_with("unknown subcommand: --bogus\n\n"));
    assert!(err.ends_with(&usage()));
}

// The binary's argument errors, as the library decides them (the binary
// exits with EXIT_ERROR on every `Err`).

#[test]
fn list_unknown_flag_is_error() {
    let err = parse_args(&args(&["list", "--bogus"])).err().unwrap();
    assert!(err.contains("--bogus"));
}

#[test]
fn get_dotless_three_parts_is_error() {
    assert!(parse_args(&args(&["get", "foo/bar/baz"])).is_err());
}

#[test]
fn get_without_spec_is_error() {
    assert!(parse_args(&args(&["get"])).is_err());
}

#[test]
fn get_with_two_specs_is_error() {
    assert!(parse_args(&args(&["get", "a/b", "c/d"])).is_err());
}

#[test]
fn get_leading_dash_component_is_error() {
    assert!(parse_args(&args(&["get", "-foo/bar"])).is_err());
}

#[test]
fn create_dotless_three_parts_is_error() {
    assert!(parse_args(&args(&["create", "foo/bar/baz"])).is_err());
}

#[test]
fn create_without_spec_is_error() {
    assert!(parse_args(&args(&["create"])).is_err());
}

#[test]
fn unknown_subcommand_is_error() {
    // With no repository under the root, a word that is no subcommand
    // lists nothing, which the binary reports as an error (exit 2).
    match parse_args(&args(&["bogus"])) {
        Ok(Command::Query(q)) => {
            assert_eq!(q, "bogus");
            assert!(matches!(start(&[], &q), Start::Nothing));
            assert!(no_match_message(&q).contains("bogus"));
        }
        _ => panic!("not read as a query"),
    }
    assert_eq!(EXIT_ERROR, 2);
}

fn repos(names: &[&str]) -> Vec<Repo> {
    names
        .iter()
        .map(|n| Repo {
            abs: format!("/root/{n}"),
            rel: n.to_string(),
        })
        .collect()
}

#[test]
fn query_words_are_joined() {
    match parse_args(&args(&["zod", "ui"])) {
        Ok(Command::Query(q)) => assert_eq!(q, "zod ui"),
        _ => panic!("not read as a query"),
    }
}

#[test]
fn query_with_one_match_prints_it() {
    let rs = repos(&["github.com/colinhacks/zod", "github.com/a/apple"]);
    match start(&rs, "zod") {
        Start::Only(p) => assert_eq!(p, "/root/github.com/colinhacks/zod"),
        _ => panic!("expected the only match"),
    }
}

#[test]
fn query_with_several_matches_opens_filtered() {
    let rs = repos(&["github.com/a/zod", "github.com/b/zod-ui", "github.com/a/apple"]);
    match start(&rs, "zod") {
        Start::Choose(state) => {
            assert_eq!(state.query(), "zod");
            assert_eq!(state.qcursor(), 3);
            assert_eq!(state.hits().len(), 2);
        }
        _ => panic!("expected the selector"),
    }
    assert!(matches!(start(&rs, "qqqq"), Start::Nothing));
}

#[test]
fn help_and_version_exit_0() {
    assert!(matches!(parse_args(&args(&["--help"])), Ok(Command::Help)));
    assert!(matches!(parse_args(&args(&["--version"])), Ok(Command::Version)));
    assert!(!usage().is_empty());
}
