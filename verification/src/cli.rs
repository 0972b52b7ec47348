//! The command line: which subcommand the arguments ask for, and the exit
//! codes.

use vstd::prelude::*;

use crate::target::{join, parse, parse_result, string_views, Target};
use crate::text::push_char;

verus! {

/// Success.
pub const EXIT_OK: u8 = 0;

/// The selector was aborted, or nothing was found.
pub const EXIT_NONE: u8 = 1;

/// An error.
pub const EXIT_ERROR: u8 = 2;

/// What the arguments ask for.
pub enum Command {
    /// Open the selector.
    Select,
    /// Print the only repository listed for the query, or open the selector
    /// filtered by it.
    Query(String),
    /// Print the repositories, as absolute paths when `full_path`.
    List { full_path: bool },
    /// Clone the target (unless it is there) and print its path.
    Get(Target),
    /// Create the target locally and print its path.
    Create(Target),
    /// Print the root directory.
    Root,
    Help,
    Version,
}

/// What a command means, as text.
pub enum CommandView {
    Select,
    Query(Seq<char>),
    List(bool),
    Get((Seq<char>, Seq<Seq<char>>)),
    Create((Seq<char>, Seq<Seq<char>>)),
    Root,
    Help,
    Version,
}

pub open spec fn command_view(c: Command) -> CommandView {
    match c {
        Command::Select => CommandView::Select,
        Command::Query(q) => CommandView::Query(q@),
        Command::List { full_path } => CommandView::List(full_path),
        Command::Get(t) => CommandView::Get(t@),
        Command::Create(t) => CommandView::Create(t@),
        Command::Root => CommandView::Root,
        Command::Help => CommandView::Help,
        Command::Version => CommandView::Version,
    }
}

/// The usage text.
pub open spec fn usage_text() -> Seq<char> {
    "gh yard — pick a repository and print its path

Usage:
  gh yard                        open the selector and print the chosen repository's absolute path
  gh yard <query>                print the only repository matching the query, or open the selector filtered by it
  gh yard list [-p|--full-path]  print repositories, one per line
  gh yard get <spec>             clone and print the path
  gh yard create <spec>          create a local repository (git init) and print the path
  gh yard root                   print the root directory

Examples:
  set -l d (gh yard); and cd $d          # fish
  d=$(gh yard) && cd \"$d\"                # zsh / bash
"@
}

/// The usage text.
pub fn usage() -> (u: String)
    ensures
        u@ == usage_text(),
{
    String::from_str(
        "gh yard — pick a repository and print its path

Usage:
  gh yard                        open the selector and print the chosen repository's absolute path
  gh yard <query>                print the only repository matching the query, or open the selector filtered by it
  gh yard list [-p|--full-path]  print repositories, one per line
  gh yard get <spec>             clone and print the path
  gh yard create <spec>          create a local repository (git init) and print the path
  gh yard root                   print the root directory

Examples:
  set -l d (gh yard); and cd $d          # fish
  d=$(gh yard) && cd \"$d\"                # zsh / bash
",
    )
}

/// The first argument of `list` that is not `-p` / `--full-path`.
pub open spec fn first_unknown_flag(flags: Seq<Seq<char>>) -> Option<int>
    decreases flags.len(),
{
    if flags.len() == 0 {
        None
    } else if flags[0] != "-p"@ && flags[0] != "--full-path"@ {
        Some(0)
    } else {
        match first_unknown_flag(flags.drop_first()) {
            Some(i) => Some(i + 1),
            None => None,
        }
    }
}

/// `get` / `create`: exactly one spec, which must parse.
pub open spec fn spec_command(
    name: Seq<char>,
    rest: Seq<Seq<char>>,
) -> Result<(Seq<char>, Seq<Seq<char>>), Seq<char>> {
    if rest.len() == 0 {
        Err(name + " requires a spec"@)
    } else if rest.len() > 1 {
        Err(name + " takes exactly one spec"@)
    } else {
        parse_result(rest[0])
    }
}

/// The command the arguments (after the program name) ask for, or the
/// error message.
pub open spec fn command_of(args: Seq<Seq<char>>) -> Result<CommandView, Seq<char>> {
    if args.len() == 0 {
        Ok(CommandView::Select)
    } else {
        let first = args[0];
        let rest = args.drop_first();
        if first == "list"@ {
            match first_unknown_flag(rest) {
                Some(i) => Err("unknown flag for list: "@ + rest[i]),
                None => Ok(CommandView::List(rest.len() > 0)),
            }
        } else if first == "get"@ {
            match spec_command(first, rest) {
                Ok(t) => Ok(CommandView::Get(t)),
                Err(e) => Err(e),
            }
        } else if first == "create"@ {
            match spec_command(first, rest) {
                Ok(t) => Ok(CommandView::Create(t)),
                Err(e) => Err(e),
            }
        } else if first == "root"@ {
            Ok(CommandView::Root)
        } else if first == "-h"@ || first == "--help"@ || first == "help"@ {
            Ok(CommandView::Help)
        } else if first == "--version"@ || first == "-V"@ {
            Ok(CommandView::Version)
        } else if first.len() > 0 && first[0] == '-' {
            Err("unknown subcommand: "@ + first + "\n\n"@ + usage_text())
        } else {
            Ok(CommandView::Query(join(args, ' ')))
        }
    }
}

/// The error when a query lists no repository: the word may also be a
/// mistyped subcommand.
pub open spec fn no_match_text(query: Seq<char>) -> Seq<char> {
    "unknown subcommand or no matching repository: "@ + query + "\n\n"@ + usage_text()
}

/// The error when `query` lists no repository.
pub fn no_match_message(query: &str) -> (m: String)
    ensures
        m@ == no_match_text(query@),
{
    let mut m = String::from_str("unknown subcommand or no matching repository: ");
    m.append(query);
    m.append("\n\n");
    let u = usage();
    m.append(u.as_str());
    m
}

/// The arguments joined by single spaces.
fn joined_words(args: &Vec<String>) -> (s: String)
    ensures
        s@ == join(string_views(args@), ' '),
{
    let ghost parts = string_views(args@);
    let mut s = String::new();
    let mut i: usize = 0;
    assert(parts.take(0) =~= Seq::<Seq<char>>::empty());
    while i < args.len()
        invariant
            parts == string_views(args@),
            i <= args@.len(),
            s@ == join(parts.take(i as int), ' '),
        decreases args@.len() - i,
    {
        if i > 0 {
            push_char(&mut s, ' ');
        }
        s.append(args[i].as_str());
        proof {
            let t = parts.take(i + 1);
            assert(t.drop_last() =~= parts.take(i as int));
            assert(t.last() == args@[i as int]@);
            assert(s@ =~= join(t, ' '));
        }
        i = i + 1;
    }
    assert(parts.take(args@.len() as int) =~= parts);
    s
}

/// Whether `s` is exactly `lit`.
fn equals_lit(s: &String, lit: &str) -> (b: bool)
    ensures
        b == (s@ == lit@),
{
    let l = String::from_str(lit);
    *s == l
}

/// The spec argument of `get` / `create`, parsed.
fn spec_argument(name: &str, rest: &[String]) -> (r: Result<Target, String>)
    ensures
        match r {
            Ok(t) => spec_command(name@, string_views(rest@)) == Ok::<_, Seq<char>>(t@),
            Err(e) => spec_command(name@, string_views(rest@)) == Err::<
                (Seq<char>, Seq<Seq<char>>),
                _,
            >(e@),
        },
{
    if rest.len() == 0 {
        let mut msg = String::from_str(name);
        msg.append(" requires a spec");
        return Err(msg);
    }
    if rest.len() > 1 {
        let mut msg = String::from_str(name);
        msg.append(" takes exactly one spec");
        return Err(msg);
    }
    parse(rest[0].as_str())
}

/// Reads the command from the arguments (after the program name).
pub fn parse_args(args: &Vec<String>) -> (r: Result<Command, String>)
    ensures
        match r {
            Ok(c) => command_of(string_views(args@)) == Ok::<_, Seq<char>>(command_view(c)),
            Err(e) => command_of(string_views(args@)) == Err::<CommandView, _>(e@),
        },
{
    let ghost av = string_views(args@);
    if args.len() == 0 {
        return Ok(Command::Select);
    }
    let first = &args[0];
    let rest = vstd::slice::slice_subrange(args.as_slice(), 1, args.len());
    assert(string_views(rest@) =~= av.drop_first());
    if equals_lit(first, "list") {
        let mut i: usize = 0;
        while i < rest.len()
            invariant
                i <= rest@.len(),
                args@.len() > 0,
                args@[0]@ == "list"@,
                string_views(rest@) == string_views(args@).drop_first(),
                forall|j: int|
                    0 <= j < i ==> (#[trigger] rest@[j])@ == "-p"@ || rest@[j]@ == "--full-path"@,
            decreases rest@.len() - i,
        {
            if !equals_lit(&rest[i], "-p") && !equals_lit(&rest[i], "--full-path") {
                proof {
                    lemma_first_unknown_flag(string_views(rest@), i as int);
                }
                let mut msg = String::from_str("unknown flag for list: ");
                msg.append(rest[i].as_str());
                assert(string_views(rest@)[i as int] == rest@[i as int]@);
                return Err(msg);
            }
            i = i + 1;
        }
        proof {
            lemma_first_unknown_flag(string_views(rest@), i as int);
        }
        Ok(Command::List { full_path: rest.len() > 0 })
    } else if equals_lit(first, "get") {
        match spec_argument("get", rest) {
            Ok(t) => Ok(Command::Get(t)),
            Err(e) => Err(e),
        }
    } else if equals_lit(first, "create") {
        match spec_argument("create", rest) {
            Ok(t) => Ok(Command::Create(t)),
            Err(e) => Err(e),
        }
    } else if equals_lit(first, "root") {
        Ok(Command::Root)
    } else if equals_lit(first, "-h") || equals_lit(first, "--help") || equals_lit(first, "help") {
        Ok(Command::Help)
    } else if equals_lit(first, "--version") || equals_lit(first, "-V") {
        Ok(Command::Version)
    } else if first.as_str().unicode_len() == 0 || first.as_str().get_char(0) != '-' {
        Ok(Command::Query(joined_words(args)))
    } else {
        let mut msg = String::from_str("unknown subcommand: ");
        msg.append(first.as_str());
        msg.append("\n\n");
        let u = usage();
        msg.append(u.as_str());
        Err(msg)
    }
}

proof fn lemma_first_unknown_flag(flags: Seq<Seq<char>>, i: int)
    requires
        0 <= i <= flags.len(),
        forall|j: int| 0 <= j < i ==> #[trigger] flags[j] == "-p"@ || flags[j] == "--full-path"@,
        i == flags.len() || (flags[i] != "-p"@ && flags[i] != "--full-path"@),
    ensures
        i == flags.len() ==> first_unknown_flag(flags) is None,
        i < flags.len() ==> first_unknown_flag(flags) == Some(i),
    decreases i,
{
    if i > 0 {
        assert forall|j: int| 0 <= j < i - 1 implies #[trigger] flags.drop_first()[j] == "-p"@
            || flags.drop_first()[j] == "--full-path"@ by {
            assert(flags.drop_first()[j] == flags[j + 1]);
        }
        lemma_first_unknown_flag(flags.drop_first(), i - 1);
    }
}

} // verus!
