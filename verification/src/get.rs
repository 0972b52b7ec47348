//! Where `get` and `create` put a repository (`root/host/owner/repo`), and
//! the command `get` clones it with.

use vstd::prelude::*;

use crate::root::{joined, path_join};
use crate::target::{
    component_ok, dot_git, github_host, join, lemma_https_url_round_trip, lemma_owner_repo_round_trip,
    parse_result, split_path, string_views, target_ok, Target,
};
use crate::text::is_whitespace;

verus! {

/// `base` with each of `parts` pushed on in turn (`PathBuf::push`).
pub open spec fn pushed(base: Seq<char>, parts: Seq<Seq<char>>) -> Seq<char>
    decreases parts.len(),
{
    if parts.len() == 0 {
        base
    } else {
        joined(pushed(base, parts.drop_last()), parts.last())
    }
}

/// The place of a target under `root`: the root, then the host, then the
/// path components.
pub open spec fn destination_of(root: Seq<char>, t: (Seq<char>, Seq<Seq<char>>)) -> Seq<char> {
    pushed(root, seq![t.0] + t.1)
}

/// The place of `target` under `root`.
pub fn destination(root: &str, target: &Target) -> (d: String)
    ensures
        d@ == destination_of(root@, target@),
{
    let ghost parts = seq![target.host@] + string_views(target.path@);
    let mut dest = path_join(root, target.host.as_str());
    assert(parts.take(1).drop_last() =~= Seq::<Seq<char>>::empty());
    assert(parts.take(1).last() == target.host@);
    assert(pushed(root@, parts.take(1).drop_last()) == root@);
    assert(pushed(root@, parts.take(1)) == joined(root@, target.host@));
    let mut i: usize = 0;
    while i < target.path.len()
        invariant
            parts == seq![target.host@] + string_views(target.path@),
            i <= target.path@.len(),
            dest@ == pushed(root@, parts.take(i + 1)),
        decreases target.path@.len() - i,
    {
        let ghost t = parts.take(i + 2);
        assert(t.drop_last() =~= parts.take(i + 1));
        assert(t.last() == target.path@[i as int]@);
        dest = path_join(dest.as_str(), target.path[i].as_str());
        i = i + 1;
    }
    assert(parts.take(target.path@.len() as int + 1) =~= parts);
    dest
}

/// `base` with a `/` after it unless it already ends in one.
pub open spec fn with_separator(base: Seq<char>) -> Seq<char> {
    if base.last() == '/' {
        base
    } else {
        base.push('/')
    }
}

/// A join of non-empty components ends with the last one's last character.
pub(crate) proof fn lemma_join_last(ns: Seq<Seq<char>>)
    requires
        ns.len() > 0,
        ns.last().len() > 0,
    ensures
        join(ns, '/').len() > 0,
        join(ns, '/').last() == ns.last().last(),
{
}

/// Pushing components that are not empty and hold no `/` onto a non-empty
/// base puts each after one separator.
proof fn lemma_pushed_plain(base: Seq<char>, parts: Seq<Seq<char>>)
    requires
        base.len() > 0,
        parts.len() > 0,
        forall|i: int| 0 <= i < parts.len() ==> component_ok(#[trigger] parts[i]),
    ensures
        pushed(base, parts) == with_separator(base) + join(parts, '/'),
    decreases parts.len(),
{
    let x = parts.last();
    assert(component_ok(parts[parts.len() - 1]));
    assert(x[0] != '/') by {
        assert(!x.contains('/'));
        assert(x.contains(x[0]));
    }
    if parts.len() == 1 {
        assert(parts.drop_last() =~= Seq::<Seq<char>>::empty());
        assert(pushed(base, parts.drop_last()) == base);
        assert(join(parts, '/') == x);
        assert(pushed(base, parts) == joined(base, x));
        assert(with_separator(base) + join(parts, '/') =~= joined(base, x));
    } else {
        let front = parts.drop_last();
        assert forall|i: int| 0 <= i < front.len() implies component_ok(#[trigger] front[i]) by {
            assert(front[i] == parts[i]);
        }
        lemma_pushed_plain(base, front);
        let fl = front.last();
        assert(component_ok(parts[parts.len() - 2]));
        assert(fl == parts[parts.len() - 2]);
        lemma_join_last(front);
        assert(fl.last() != '/') by {
            assert(fl.contains(fl.last()));
        }
        let p = pushed(base, front);
        assert(p.last() == fl.last());
        assert(pushed(base, parts) == p.push('/') + x);
        assert(with_separator(base) + join(parts, '/') =~= p.push('/') + x);
    }
}

/// The layout promise: a parsed target goes to `root/host/owner/repo`
/// (deeper paths one level per component), whatever the root ends with.
pub proof fn lemma_destination_layout(root: Seq<char>, t: (Seq<char>, Seq<Seq<char>>))
    requires
        root.len() > 0,
        target_ok(t),
    ensures
        destination_of(root, t) == with_separator(root) + t.0 + seq!['/'] + join(t.1, '/'),
{
    let parts = seq![t.0] + t.1;
    assert forall|i: int| 0 <= i < parts.len() implies component_ok(#[trigger] parts[i]) by {
        if i > 0 {
            assert(parts[i] == t.1[i - 1]);
        }
    }
    lemma_pushed_plain(root, parts);
    lemma_join_cons(t.0, t.1);
}

/// Joining a first component in front of at least one more puts one
/// separator between them.
pub(crate) proof fn lemma_join_cons(first: Seq<char>, rest: Seq<Seq<char>>)
    requires
        rest.len() > 0,
    ensures
        join(seq![first] + rest, '/') == first + seq!['/'] + join(rest, '/'),
    decreases rest.len(),
{
    let all = seq![first] + rest;
    if rest.len() == 1 {
        assert(all.drop_last() =~= seq![first]);
        assert(join(all.drop_last(), '/') == first);
        assert(all.last() == rest[0]);
        assert(join(rest, '/') == rest[0]);
        assert(join(all, '/') == first.push('/') + rest[0]);
        assert(join(all, '/') =~= first + seq!['/'] + join(rest, '/'));
    } else {
        lemma_join_cons(first, rest.drop_last());
        assert(all.drop_last() =~= seq![first] + rest.drop_last());
        assert(all.last() == rest.last());
        assert(join(all, '/') == join(all.drop_last(), '/').push('/') + rest.last());
        assert(join(rest, '/') == join(rest.drop_last(), '/').push('/') + rest.last());
        assert(join(all, '/') =~= first + seq!['/'] + join(rest, '/'));
    }
}

/// The command that clones a target into `dest`: github.com goes through
/// `gh repo clone owner/repo` (gh picks authentication and protocol);
/// other hosts through `git clone` with the HTTPS URL (authentication is
/// left to git's credential helper). The program comes first.
pub open spec fn clone_args(t: (Seq<char>, Seq<Seq<char>>), dest: Seq<char>) -> Seq<Seq<char>> {
    if t.0 == github_host() {
        seq!["gh"@, "repo"@, "clone"@, join(t.1, '/'), dest]
    } else {
        seq!["git"@, "clone"@, "https://"@ + t.0 + seq!['/'] + join(t.1, '/'), dest]
    }
}

/// The clone command names the target it was made for, and clones into
/// `dest`:
/// - for github.com, `gh repo clone` gets the repository as its path
///   components in order, `/`-separated (split back, they are the target's
///   path), and for `owner/repo` that argument parses back to the target;
/// - for other hosts, `git clone` gets a URL that parses back to the target.
/// The conditions on parsing back leave out what parsing would read
/// differently: a `:` in the owner (the scp form), an `@` in the host (a
/// user part), a trailing `.git` (taken off) or trailing whitespace
/// (trimmed).
pub proof fn lemma_clone_command_names_the_target(t: (Seq<char>, Seq<Seq<char>>), dest: Seq<char>)
    requires
        target_ok(t),
    ensures
        t.0 == github_host() ==> {
            &&& clone_args(t, dest).len() == 5
            &&& clone_args(t, dest)[0] == "gh"@
            &&& clone_args(t, dest)[4] == dest
            &&& split_path(clone_args(t, dest)[3]) == t.1
        },
        (t.0 == github_host() && t.1.len() == 2 && !t.1[0].contains(':') && !is_whitespace(
            t.1[0][0],
        ) && !is_whitespace(t.1[1].last()) && !dot_git().is_suffix_of(t.1[1])) ==> parse_result(
            clone_args(t, dest)[3],
        ) == Ok::<_, Seq<char>>(t),
        t.0 != github_host() ==> {
            &&& clone_args(t, dest).len() == 4
            &&& clone_args(t, dest)[0] == "git"@
            &&& clone_args(t, dest)[3] == dest
        },
        (t.0 != github_host() && !t.0.contains('@') && !dot_git().is_suffix_of(t.1.last())
            && !is_whitespace(t.1.last().last())) ==> parse_result(clone_args(t, dest)[2]) == Ok::<
            _,
            Seq<char>,
        >(t),
{
    let ns = t.1;
    assert forall|i: int| 0 <= i < ns.len() implies (#[trigger] ns[i]).len() > 0 && !ns[i].contains(
        '/',
    ) by {
        assert(component_ok(ns[i]));
    }
    crate::root::lemma_split_join(Seq::empty(), ns);
    assert(Seq::<char>::empty() + join(ns, '/') =~= join(ns, '/'));
    assert(ns.drop_last().push(ns.last()) =~= ns);
    assert(ns.last() == ns[ns.len() - 1]);
    assert(split_path(join(ns, '/')) == ns);
    if t.0 == github_host() && t.1.len() == 2 && !t.1[0].contains(':') && !is_whitespace(t.1[0][0])
        && !is_whitespace(t.1[1].last()) && !dot_git().is_suffix_of(t.1[1]) {
        lemma_owner_repo_round_trip(t);
    }
    if t.0 != github_host() && !t.0.contains('@') && !dot_git().is_suffix_of(t.1.last())
        && !is_whitespace(t.1.last().last()) {
        lemma_https_url_round_trip(t);
    }
}

/// The clone command for `target` into `dest`, program first.
pub fn clone_command(target: &Target, dest: &str) -> (c: Vec<String>)
    ensures
        string_views(c@) == clone_args(target@, dest@),
{
    let mut c: Vec<String> = Vec::new();
    if target.is_github() {
        c.push(String::from_str("gh"));
        c.push(String::from_str("repo"));
        c.push(String::from_str("clone"));
        c.push(target.path_str());
    } else {
        c.push(String::from_str("git"));
        c.push(String::from_str("clone"));
        c.push(target.https_url());
    }
    c.push(String::from_str(dest));
    assert(string_views(c@) =~= clone_args(target@, dest@));
    c
}

} // verus!
