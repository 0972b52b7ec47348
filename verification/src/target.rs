//! What a `get` / `create` argument names: a host and the path below it.
//!
//! Accepted forms:
//! - `owner/repo`: the host is github.com
//! - `host/owner/repo`: the first component is a host when it contains `.`;
//!   the rest may be arbitrarily deep
//! - a URL: `https://`, `http://`, `ssh://`, `git://`, or the scp form
//!   `[user@]host:path`

use vstd::prelude::*;
use crate::text::{
    after_last, after_last_char, chars_of, contains_char, find, find_char, has_prefix, has_suffix,
    is_whitespace, lemma_find_char, lemma_find_char_result, lemma_trimmed_twice, push_char,
    slice_of, string_of, trim, trim_end, trim_start, trimmed,
};

verus! {

/// The result of parsing a spec.
pub struct Target {
    pub host: String,
    /// Path components after the host. Depth is unrestricted
    /// (e.g. GitLab subgroups).
    pub path: Vec<String>,
}

/// The character sequences of a list of strings.
pub open spec fn string_views(v: Seq<String>) -> Seq<Seq<char>> {
    v.map_values(|s: String| s@)
}

/// The character sequences of a list of character vectors.
pub open spec fn char_vec_views(v: Seq<Vec<char>>) -> Seq<Seq<char>> {
    v.map_values(|s: Vec<char>| s@)
}

/// `parts` joined with `sep` between neighbours (`[T]::join`).
pub open spec fn join(parts: Seq<Seq<char>>, sep: char) -> Seq<char>
    decreases parts.len(),
{
    if parts.len() == 0 {
        Seq::empty()
    } else if parts.len() == 1 {
        parts[0]
    } else {
        join(parts.drop_last(), sep).push(sep) + parts.last()
    }
}

pub open spec fn github_host() -> Seq<char> {
    "github.com"@
}

impl View for Target {
    type V = (Seq<char>, Seq<Seq<char>>);

    open spec fn view(&self) -> (Seq<char>, Seq<Seq<char>>) {
        (self.host@, string_views(self.path@))
    }
}

impl Target {
    /// Whether the host is github.com.
    pub fn is_github(&self) -> (b: bool)
        ensures
            b == (self.host@ == github_host()),
    {
        let github = String::from_str("github.com");
        self.host == github
    }

    /// `owner/repo` (for github.com) or `group/sub/repo`.
    pub fn path_str(&self) -> (s: String)
        ensures
            s@ == join(self@.1, '/'),
    {
        let ghost parts = self@.1;
        let mut s = String::new();
        let mut i: usize = 0;
        assert(parts.take(0) =~= Seq::<Seq<char>>::empty());
        while i < self.path.len()
            invariant
                parts == string_views(self.path@),
                i <= self.path@.len(),
                s@ == join(parts.take(i as int), '/'),
            decreases self.path@.len() - i,
        {
            if i > 0 {
                push_char(&mut s, '/');
            }
            s.append(self.path[i].as_str());
            proof {
                let t = parts.take(i + 1);
                assert(t.drop_last() =~= parts.take(i as int));
                assert(t.last() == self.path@[i as int]@);
                assert(s@ =~= join(t, '/'));
            }
            i = i + 1;
        }
        assert(parts.take(self.path@.len() as int) =~= parts);
        s
    }

    /// `https://host/path`.
    pub fn https_url(&self) -> (s: String)
        ensures
            s@ == "https://"@ + self.host@ + seq!['/'] + join(self@.1, '/'),
    {
        let mut s = String::from_str("https://");
        s.append(self.host.as_str());
        push_char(&mut s, '/');
        let p = self.path_str();
        s.append(p.as_str());
        assert(s@ =~= "https://"@ + self.host@ + seq!['/'] + join(self@.1, '/'));
        s
    }
}

pub open spec fn https_scheme() -> Seq<char> {
    seq!['h', 't', 't', 'p', 's', ':', '/', '/']
}

pub open spec fn http_scheme() -> Seq<char> {
    seq!['h', 't', 't', 'p', ':', '/', '/']
}

pub open spec fn ssh_scheme() -> Seq<char> {
    seq!['s', 's', 'h', ':', '/', '/']
}

pub open spec fn git_scheme() -> Seq<char> {
    seq!['g', 'i', 't', ':', '/', '/']
}

pub open spec fn dot_git() -> Seq<char> {
    seq!['.', 'g', 'i', 't']
}

/// What follows a URL's scheme, without a `user@` part that holds no `/`.
pub open spec fn without_user(rest: Seq<char>) -> Seq<char> {
    match find_char(rest, '@') {
        Some(i) => if !rest.take(i).contains('/') {
            rest.skip(i + 1)
        } else {
            rest
        },
        None => rest,
    }
}

/// The text after a known scheme, if `s` starts with one.
pub open spec fn scheme_stripped(s: Seq<char>) -> Option<Seq<char>> {
    if https_scheme().is_prefix_of(s) {
        Some(without_user(s.skip(https_scheme().len() as int)))
    } else if http_scheme().is_prefix_of(s) {
        Some(without_user(s.skip(http_scheme().len() as int)))
    } else if ssh_scheme().is_prefix_of(s) {
        Some(without_user(s.skip(ssh_scheme().len() as int)))
    } else if git_scheme().is_prefix_of(s) {
        Some(without_user(s.skip(git_scheme().len() as int)))
    } else {
        None
    }
}

/// Splitting state after reading a prefix: the finished components and the
/// one being read.
pub open spec fn split_scan(s: Seq<char>) -> (Seq<Seq<char>>, Seq<char>)
    decreases s.len(),
{
    if s.len() == 0 {
        (Seq::empty(), Seq::empty())
    } else {
        let (done, cur) = split_scan(s.drop_last());
        if s.last() == '/' {
            if cur.len() > 0 {
                (done.push(cur), Seq::empty())
            } else {
                (done, Seq::empty())
            }
        } else {
            (done, cur.push(s.last()))
        }
    }
}

/// The non-empty `/`-separated components of `s`, in order.
pub open spec fn split_path(s: Seq<char>) -> Seq<Seq<char>> {
    let (done, cur) = split_scan(s);
    if cur.len() > 0 {
        done.push(cur)
    } else {
        done
    }
}

/// `parts` with one trailing `.git` taken off the last component.
pub open spec fn strip_git_suffix(parts: Seq<Seq<char>>) -> Seq<Seq<char>> {
    if parts.len() > 0 && dot_git().is_suffix_of(parts.last()) {
        parts.update(parts.len() - 1, parts.last().take(parts.last().len() - 4))
    } else {
        parts
    }
}

/// `parts` without its empty components.
pub open spec fn drop_empty(parts: Seq<Seq<char>>) -> Seq<Seq<char>>
    decreases parts.len(),
{
    if parts.len() == 0 {
        Seq::empty()
    } else if parts.last().len() > 0 {
        drop_empty(parts.drop_last()).push(parts.last())
    } else {
        drop_empty(parts.drop_last())
    }
}

pub open spec fn starts_with_dash(p: Seq<char>) -> bool {
    p.len() > 0 && p[0] == '-'
}

/// Index of the first component that starts with `-`.
pub open spec fn first_dashed(parts: Seq<Seq<char>>) -> Option<int>
    decreases parts.len(),
{
    if parts.len() == 0 {
        None
    } else if starts_with_dash(parts[0]) {
        Some(0)
    } else {
        match first_dashed(parts.drop_first()) {
            Some(i) => Some(i + 1),
            None => None,
        }
    }
}

/// The host and path that `parts` name, or the message of the error.
/// `spec` is the (trimmed) text the parts came from; `host_is_explicit`
/// says that the first part is the host whatever it looks like.
pub open spec fn from_parts_result(
    parts: Seq<Seq<char>>,
    spec: Seq<char>,
    host_is_explicit: bool,
) -> Result<(Seq<char>, Seq<Seq<char>>), Seq<char>> {
    let ps = drop_empty(strip_git_suffix(parts));
    match first_dashed(ps) {
        Some(i) => Err("component must not start with '-': "@ + ps[i]),
        None => if host_is_explicit {
            if ps.len() < 3 {
                Err("not in host/owner/repo form: "@ + spec)
            } else {
                Ok((ps[0], ps.drop_first()))
            }
        } else if ps.len() < 2 {
            Err("not in owner/repo form: "@ + spec)
        } else if ps.len() == 2 {
            Ok((github_host(), ps))
        } else if ps[0].contains('.') {
            Ok((ps[0], ps.drop_first()))
        } else {
            Err("first component does not look like a host (no `.`): "@ + spec)
        },
    }
}

/// Whether `s` (a trimmed spec) is in the scp form `[user@]host:path`.
pub open spec fn is_scp_form(s: Seq<char>) -> bool {
    match find_char(s, ':') {
        Some(i) => !s.take(i).contains('/') && !(s.len() > i + 1 && s[i + 1] == '/'),
        None => false,
    }
}

/// The host and path that `spec` names, or the message of the error.
pub open spec fn parse_result(spec: Seq<char>) -> Result<(Seq<char>, Seq<Seq<char>>), Seq<char>> {
    let s = trimmed(spec);
    if s.len() == 0 {
        Err("empty spec"@)
    } else {
        match scheme_stripped(s) {
            Some(rest) => from_parts_result(split_path(rest), s, true),
            None => if is_scp_form(s) {
                let i = find_char(s, ':')->0;
                from_parts_result(
                    seq![after_last(s.take(i), '@')] + split_path(s.skip(i + 1)),
                    s,
                    true,
                )
            } else {
                from_parts_result(split_path(s), s, false)
            },
        }
    }
}

/// Dropping empty components from components that are all non-empty
/// changes nothing.
proof fn lemma_drop_empty_plain(parts: Seq<Seq<char>>)
    requires
        forall|i: int| 0 <= i < parts.len() ==> (#[trigger] parts[i]).len() > 0,
    ensures
        drop_empty(parts) == parts,
    decreases parts.len(),
{
    if parts.len() > 0 {
        assert forall|i: int| 0 <= i < parts.drop_last().len() implies (
        #[trigger] parts.drop_last()[i]).len() > 0 by {
            assert(parts.drop_last()[i] == parts[i]);
        }
        lemma_drop_empty_plain(parts.drop_last());
        assert(parts[parts.len() - 1].len() > 0);
        assert(parts.drop_last().push(parts.last()) =~= parts);
    }
}

/// The HTTPS URL of a target parses back to the target. This needs a host
/// without `@` (which would read as a user part), components that are
/// usable and at least `owner/repo`, a last component that does not end in
/// `.git` (which would be taken off) or in whitespace (which would be
/// trimmed).
pub proof fn lemma_https_url_round_trip(t: (Seq<char>, Seq<Seq<char>>))
    requires
        target_ok(t),
        !t.0.contains('@'),
        !dot_git().is_suffix_of(t.1.last()),
        !is_whitespace(t.1.last().last()),
    ensures
        parse_result("https://"@ + t.0 + seq!['/'] + join(t.1, '/')) == Ok::<_, Seq<char>>(t),
{
    reveal_strlit("https://");
    let ns = seq![t.0] + t.1;
    let rest = t.0 + seq!['/'] + join(t.1, '/');
    let url = "https://"@ + rest;
    assert(url =~= "https://"@ + t.0 + seq!['/'] + join(t.1, '/'));
    crate::get::lemma_join_cons(t.0, t.1);
    assert(join(ns, '/') == rest);
    // The URL needs no trimming.
    assert(trim_start(url) == url);
    assert(t.1.last() == t.1[t.1.len() - 1]);
    assert(component_ok(t.1[t.1.len() - 1]));
    assert(join(t.1, '/').last() == t.1.last().last()) by {
        if t.1.len() > 1 {
            assert(join(t.1, '/') == join(t.1.drop_last(), '/').push('/') + t.1.last());
        }
    }
    assert(url.last() == t.1.last().last());
    assert(trim_end(url) == url);
    // The scheme comes off, and no user part does.
    assert(https_scheme() == "https://"@);
    assert(https_scheme().is_prefix_of(url));
    assert(url.skip(8) =~= rest);
    assert(rest[t.0.len() as int] == '/');
    lemma_find_char_result(rest, '@');
    match find_char(rest, '@') {
        Some(i) => {
            assert forall|j: int| 0 <= j < t.0.len() implies rest[j] != '@' by {
                assert(rest[j] == t.0[j]);
                assert(t.0.contains(t.0[j]));
            }
            assert(i > t.0.len());
            assert(rest.take(i)[t.0.len() as int] == '/');
        },
        None => {},
    }
    assert(without_user(rest) == rest);
    // The components are the host and the path.
    assert forall|i: int| 0 <= i < ns.len() implies (#[trigger] ns[i]).len() > 0 && !ns[i].contains(
        '/',
    ) && !starts_with_dash(ns[i]) by {
        if i > 0 {
            assert(ns[i] == t.1[i - 1]);
            assert(component_ok(t.1[i - 1]));
        }
    }
    crate::root::lemma_split_join(Seq::empty(), ns);
    assert(Seq::<char>::empty() + join(ns, '/') =~= join(ns, '/'));
    assert(ns.drop_last().push(ns.last()) =~= ns);
    assert(split_path(rest) == ns);
    assert(ns.last() == t.1.last());
    assert(strip_git_suffix(ns) == ns);
    lemma_drop_empty_plain(ns);
    lemma_first_dashed(ns, ns.len() as int);
    assert(ns.drop_first() =~= t.1);
}

/// A scheme (letters, `:`, `//`) cannot begin a text whose first `/`
/// comes before any `:`.
proof fn lemma_not_scheme_prefix(p: Seq<char>, s: Seq<char>, m: int)
    requires
        p.len() >= 3,
        p[p.len() - 3] == ':',
        p[p.len() - 2] == '/',
        forall|j: int| 0 <= j < p.len() - 3 ==> p[j] != '/',
        0 <= m < s.len(),
        s[m] == '/',
        forall|j: int| 0 <= j < m ==> s[j] != ':',
    ensures
        !p.is_prefix_of(s),
{
    if p.is_prefix_of(s) {
        let c = p.len() - 3;
        if m < c {
            assert(p[m] == s[m]);
        } else if m == c {
            assert(p[c] == s[c]);
        } else {
            assert(p[c] == s[c]);
        }
    }
}

/// `owner/repo` parses back to the github.com target it names, when the
/// owner holds no `:` (which would read as the scp form), the text needs no
/// trimming, and the repository does not end in `.git`.
pub proof fn lemma_owner_repo_round_trip(t: (Seq<char>, Seq<Seq<char>>))
    requires
        target_ok(t),
        t.0 == github_host(),
        t.1.len() == 2,
        !t.1[0].contains(':'),
        !is_whitespace(t.1[0][0]),
        !is_whitespace(t.1[1].last()),
        !dot_git().is_suffix_of(t.1[1]),
    ensures
        parse_result(join(t.1, '/')) == Ok::<_, Seq<char>>(t),
{
    let a = t.1[0];
    let b = t.1[1];
    let ns = t.1;
    assert(component_ok(ns[0]));
    assert(component_ok(ns[1]));
    assert(ns.drop_last() =~= seq![a]);
    assert(join(ns.drop_last(), '/') == a);
    let s = join(ns, '/');
    assert(s == a.push('/') + b);
    let m = a.len() as int;
    assert(s[m] == '/');
    assert forall|j: int| 0 <= j < m implies s[j] != ':' && s[j] != '/' by {
        assert(s[j] == a[j]);
        assert(a.contains(a[j]));
    }
    // No trimming.
    assert(s[0] == a[0]);
    assert(trim_start(s) == s);
    assert(s.last() == b.last());
    assert(trim_end(s) == s);
    // Not a URL.
    lemma_not_scheme_prefix(https_scheme(), s, m);
    lemma_not_scheme_prefix(http_scheme(), s, m);
    lemma_not_scheme_prefix(ssh_scheme(), s, m);
    lemma_not_scheme_prefix(git_scheme(), s, m);
    assert(scheme_stripped(s) is None);
    // Not the scp form: any `:` comes after the `/`.
    lemma_find_char_result(s, ':');
    match find_char(s, ':') {
        Some(i) => {
            assert(i > m);
            assert(s.take(i)[m] == '/');
        },
        None => {},
    }
    assert(!is_scp_form(s));
    // The components are the owner and the repository.
    crate::root::lemma_split_join(Seq::empty(), ns);
    assert(Seq::<char>::empty() + s =~= s);
    assert(ns.drop_last().push(ns.last()) =~= ns);
    assert(split_path(s) == ns);
    assert(strip_git_suffix(ns) == ns);
    lemma_drop_empty_plain(ns);
    lemma_first_dashed(ns, 2);
}

/// The scheme rule: a spec is a URL exactly when it starts with `https://`,
/// `http://`, `ssh://` or `git://`; what follows the scheme loses the part
/// up to its first `@` when that part holds no `/`, and is kept whole
/// otherwise (no `@`, or a `/` before it).
pub proof fn lemma_scheme_rule(s: Seq<char>, rest: Seq<char>)
    ensures
        scheme_stripped(s) is Some <==> (https_scheme().is_prefix_of(s) || http_scheme().is_prefix_of(s)
            || ssh_scheme().is_prefix_of(s) || git_scheme().is_prefix_of(s)),
        forall|i: int|
            0 <= i < rest.len() && #[trigger] rest[i] == '@' && (forall|j: int|
                0 <= j < i ==> rest[j] != '@') ==> without_user(rest) == if rest.take(i).contains(
                '/',
            ) {
                rest
            } else {
                rest.skip(i + 1)
            },
        (forall|j: int| 0 <= j < rest.len() ==> rest[j] != '@') ==> without_user(rest) == rest,
{
    assert forall|i: int|
        0 <= i < rest.len() && #[trigger] rest[i] == '@' && (forall|j: int|
            0 <= j < i ==> rest[j] != '@') implies without_user(rest) == if rest.take(i).contains(
        '/',
    ) {
        rest
    } else {
        rest.skip(i + 1)
    } by {
        lemma_find_char(rest, '@', i);
    }
    if forall|j: int| 0 <= j < rest.len() ==> rest[j] != '@' {
        lemma_find_char(rest, '@', rest.len() as int);
    }
}

/// The rule for turning components into a target. Of the components with
/// one trailing `.git` taken off the last and the empty ones dropped (`ps`):
/// the first that starts with `-` is refused; otherwise an explicit host
/// needs at least three, taking the first as the host; without one, two
/// components are `owner/repo` on github.com (whatever the first holds),
/// and three or more need a `.` in the first, which is the host.
pub proof fn lemma_from_parts_rule(parts: Seq<Seq<char>>, spec: Seq<char>, host_is_explicit: bool)
    ensures
        ({
            let ps = drop_empty(strip_git_suffix(parts));
            let r = from_parts_result(parts, spec, host_is_explicit);
            &&& forall|k: int|
                0 <= k < ps.len() && starts_with_dash(#[trigger] ps[k]) && (forall|j: int|
                    0 <= j < k ==> !starts_with_dash(ps[j])) ==> r == Err::<
                    (Seq<char>, Seq<Seq<char>>),
                    Seq<char>,
                >("component must not start with '-': "@ + ps[k])
            &&& (forall|j: int| 0 <= j < ps.len() ==> !starts_with_dash(#[trigger] ps[j])) ==> {
                &&& (r is Ok <==> if host_is_explicit {
                    ps.len() >= 3
                } else {
                    ps.len() == 2 || (ps.len() >= 3 && ps[0].contains('.'))
                })
                &&& (r is Ok && (host_is_explicit || ps.len() >= 3)) ==> r == Ok::<_, Seq<char>>(
                    (ps[0], ps.drop_first()),
                )
                &&& (r is Ok && !host_is_explicit && ps.len() == 2) ==> r == Ok::<_, Seq<char>>(
                    (github_host(), ps),
                )
            }
        }),
{
    let ps = drop_empty(strip_git_suffix(parts));
    assert forall|k: int|
        0 <= k < ps.len() && starts_with_dash(#[trigger] ps[k]) && (forall|j: int|
            0 <= j < k ==> !starts_with_dash(ps[j])) implies from_parts_result(
        parts,
        spec,
        host_is_explicit,
    ) == Err::<(Seq<char>, Seq<Seq<char>>), Seq<char>>(
        "component must not start with '-': "@ + ps[k],
    ) by {
        lemma_first_dashed(ps, k);
    }
    if forall|j: int| 0 <= j < ps.len() ==> !starts_with_dash(#[trigger] ps[j]) {
        lemma_first_dashed(ps, ps.len() as int);
    }
}

/// Whitespace around a spec does not matter: the spec and its trimmed
/// text parse to the same target, or fail with the same message.
pub proof fn lemma_parse_ignores_surrounding_whitespace(spec: Seq<char>)
    ensures
        parse_result(trimmed(spec)) == parse_result(spec),
{
    lemma_trimmed_twice(spec);
}

/// Parses a spec in one of the accepted forms.
pub fn parse(spec: &str) -> (r: Result<Target, String>)
    ensures
        match r {
            Ok(t) => parse_result(spec@) == Ok::<_, Seq<char>>(t@),
            Err(e) => parse_result(spec@) == Err::<(Seq<char>, Seq<Seq<char>>), _>(e@),
        },
        r matches Ok(t) ==> target_ok(t@),
{
    proof {
        lemma_parsed_target_ok(spec@);
    }
    let all = chars_of(spec);
    let s = trim(&all);
    if s.len() == 0 {
        return Err(String::from_str("empty spec"));
    }
    match strip_scheme(&s) {
        Some(rest) => {
            return from_parts(split(&rest), &s, true);
        },
        None => {},
    }
    // scp form: [user@]host:path
    match find(&s, ':') {
        Some(i) => {
            let before = slice_of(&s, 0, i);
            let after = slice_of(&s, i + 1, s.len());
            assert(before@ == s@.take(i as int));
            assert(after@ =~= s@.skip(i + 1));
            if !contains_char(&before, '/') && !(after.len() > 0 && after[0] == '/') {
                let host = after_last_char(&before, '@');
                let mut parts: Vec<Vec<char>> = Vec::new();
                parts.push(host);
                let mut rest = split(&after);
                parts.append(&mut rest);
                assert(char_vec_views(parts@) =~= seq![after_last(s@.take(i as int), '@')]
                    + split_path(s@.skip(i + 1)));
                return from_parts(parts, &s, true);
            }
        },
        None => {},
    }
    from_parts(split(&s), &s, false)
}

/// Drops the user part of `ssh://git@host/...`.
fn drop_user(rest: &[char]) -> (r: Vec<char>)
    ensures
        r@ == without_user(rest@),
{
    let n = rest.len();
    match find(rest, '@') {
        Some(i) => {
            let user = slice_of(rest, 0, i);
            if !contains_char(&user, '/') {
                let after = slice_of(rest, i + 1, rest.len());
                assert(after@ =~= rest@.skip(i + 1));
                after
            } else {
                let all = slice_of(rest, 0, n);
                assert(all@ =~= rest@);
                all
            }
        },
        None => {
            let all = slice_of(rest, 0, n);
            assert(all@ =~= rest@);
            all
        },
    }
}

fn strip_scheme(s: &[char]) -> (r: Option<Vec<char>>)
    ensures
        match scheme_stripped(s@) {
            Some(x) => r is Some && r->0@ == x,
            None => r is None,
        },
{
    let https = vec!['h', 't', 't', 'p', 's', ':', '/', '/'];
    let http = vec!['h', 't', 't', 'p', ':', '/', '/'];
    let ssh = vec!['s', 's', 'h', ':', '/', '/'];
    let git = vec!['g', 'i', 't', ':', '/', '/'];
    assert(https@ =~= https_scheme());
    assert(http@ =~= http_scheme());
    assert(ssh@ =~= ssh_scheme());
    assert(git@ =~= git_scheme());
    let candidates = [https, http, ssh, git];
    let mut k: usize = 0;
    while k < 4
        invariant
            candidates@ =~= seq![https, http, ssh, git],
            candidates@[0]@ == https_scheme(),
            candidates@[1]@ == http_scheme(),
            candidates@[2]@ == ssh_scheme(),
            candidates@[3]@ == git_scheme(),
            0 <= k <= 4,
            forall|j: int| 0 <= j < k ==> !(#[trigger] candidates@[j])@.is_prefix_of(s@),
        decreases 4 - k,
    {
        if has_prefix(s, candidates[k].as_slice()) {
            let rest = slice_of(s, candidates[k].len(), s.len());
            assert(rest@ =~= s@.skip(candidates@[k as int]@.len() as int));
            return Some(drop_user(&rest));
        }
        k = k + 1;
    }
    None
}


/// Proof that `first_dashed` finds the first component starting with `-`.
proof fn lemma_first_dashed(parts: Seq<Seq<char>>, i: int)
    requires
        0 <= i <= parts.len(),
        forall|j: int| 0 <= j < i ==> !starts_with_dash(#[trigger] parts[j]),
        i == parts.len() || starts_with_dash(parts[i]),
    ensures
        i == parts.len() ==> first_dashed(parts) is None,
        i < parts.len() ==> first_dashed(parts) == Some(i),
    decreases i,
{
    if i > 0 {
        assert forall|j: int| 0 <= j < i - 1 implies !starts_with_dash(
            #[trigger] parts.drop_first()[j],
        ) by {
            assert(parts.drop_first()[j] == parts[j + 1]);
        }
        lemma_first_dashed(parts.drop_first(), i - 1);
    }
}

/// Builds the target from its components (see `from_parts_result`).
fn from_parts(parts: Vec<Vec<char>>, spec: &[char], host_is_explicit: bool) -> (r: Result<
    Target,
    String,
>)
    ensures
        match r {
            Ok(t) => from_parts_result(char_vec_views(parts@), spec@, host_is_explicit) == Ok::<
                _,
                Seq<char>,
            >(t@),
            Err(e) => from_parts_result(char_vec_views(parts@), spec@, host_is_explicit) == Err::<
                (Seq<char>, Seq<Seq<char>>),
                _,
            >(e@),
        },
{
    let ghost given = char_vec_views(parts@);
    let mut work = parts;
    let n = work.len();
    if n > 0 {
        let suffix = vec!['.', 'g', 'i', 't'];
        assert(suffix@ =~= dot_git());
        if has_suffix(work[n - 1].as_slice(), suffix.as_slice()) {
            let last_len = work[n - 1].len();
            let stripped = slice_of(work[n - 1].as_slice(), 0, last_len - 4);
            work.set(n - 1, stripped);
            assert(char_vec_views(work@) =~= strip_git_suffix(given));
        } else {
            assert(char_vec_views(work@) =~= strip_git_suffix(given));
        }
    } else {
        assert(char_vec_views(work@) =~= strip_git_suffix(given));
    }
    let ghost stripped_all = char_vec_views(work@);
    let mut ps: Vec<Vec<char>> = Vec::new();
    let mut i: usize = 0;
    assert(stripped_all.take(0) =~= Seq::<Seq<char>>::empty());
    while i < work.len()
        invariant
            stripped_all == char_vec_views(work@),
            i <= work@.len(),
            char_vec_views(ps@) == drop_empty(stripped_all.take(i as int)),
        decreases work@.len() - i,
    {
        let ghost t = stripped_all.take(i + 1);
        assert(t.drop_last() =~= stripped_all.take(i as int));
        assert(t.last() == work@[i as int]@);
        if work[i].len() > 0 {
            let copy = slice_of(work[i].as_slice(), 0, work[i].len());
            assert(copy@ =~= work@[i as int]@);
            let ghost old_ps = ps@;
            ps.push(copy);
            assert(char_vec_views(ps@) =~= char_vec_views(old_ps).push(copy@));
        }
        i = i + 1;
    }
    assert(stripped_all.take(work@.len() as int) =~= stripped_all);
    let ghost views = char_vec_views(ps@);
    assert(views == drop_empty(strip_git_suffix(given)));
    let mut j: usize = 0;
    while j < ps.len()
        invariant
            views == char_vec_views(ps@),
            views == drop_empty(strip_git_suffix(given)),
            given == char_vec_views(parts@),
            j <= ps@.len(),
            forall|k: int| 0 <= k < j ==> !starts_with_dash(#[trigger] views[k]),
        decreases ps@.len() - j,
    {
        if ps[j].len() > 0 && ps[j][0] == '-' {
            proof {
                lemma_first_dashed(views, j as int);
            }
            let mut msg = String::from_str("component must not start with '-': ");
            let bad = string_of(ps[j].as_slice());
            msg.append(bad.as_str());
            assert(views[j as int] == ps@[j as int]@);
            return Err(msg);
        }
        j = j + 1;
    }
    proof {
        lemma_first_dashed(views, j as int);
    }
    let whole = string_of(spec);
    if host_is_explicit {
        if ps.len() < 3 {
            let mut msg = String::from_str("not in host/owner/repo form: ");
            msg.append(whole.as_str());
            return Err(msg);
        }
        let t = target_of(&ps, 1);
        assert(views[0] == ps@[0]@);
        assert(views.drop_first() =~= views.skip(1));
        return Ok(t);
    }
    if ps.len() < 2 {
        let mut msg = String::from_str("not in owner/repo form: ");
        msg.append(whole.as_str());
        Err(msg)
    } else if ps.len() == 2 {
        let t = target_of(&ps, 0);
        assert(views.skip(0) =~= views);
        Ok(t)
    } else if contains_char(ps[0].as_slice(), '.') {
        let t = target_of(&ps, 1);
        assert(views[0] == ps@[0]@);
        assert(views.drop_first() =~= views.skip(1));
        Ok(t)
    } else {
        assert(views[0] == ps@[0]@);
        // With three or more components, the first is a host only when it
        // contains `.`.
        let mut msg = String::from_str("first component does not look like a host (no `.`): ");
        msg.append(whole.as_str());
        Err(msg)
    }
}

/// The target whose path is `ps[from..]`; its host is `ps[0]` when
/// `from == 1` and github.com when `from == 0`.
fn target_of(ps: &Vec<Vec<char>>, from: usize) -> (t: Target)
    requires
        from <= 1,
        from < ps@.len(),
    ensures
        t@.1 == char_vec_views(ps@).skip(from as int),
        from == 1 ==> t@.0 == ps@[0]@,
        from == 0 ==> t@.0 == github_host(),
{
    let host = if from == 1 {
        string_of(ps[0].as_slice())
    } else {
        String::from_str("github.com")
    };
    let mut path: Vec<String> = Vec::new();
    let mut i = from;
    while i < ps.len()
        invariant
            from <= i <= ps@.len(),
            string_views(path@) == char_vec_views(ps@).subrange(from as int, i as int),
        decreases ps@.len() - i,
    {
        let ghost old_path = path@;
        let part = string_of(ps[i].as_slice());
        path.push(part);
        assert(string_views(path@) =~= string_views(old_path).push(ps@[i as int]@));
        assert(char_vec_views(ps@).subrange(from as int, i + 1) =~= char_vec_views(ps@).subrange(
            from as int,
            i as int,
        ).push(ps@[i as int]@));
        i = i + 1;
    }
    Target { host, path }
}

/// The non-empty `/`-separated components of `s`.
pub(crate) fn split(s: &[char]) -> (r: Vec<Vec<char>>)
    ensures
        char_vec_views(r@) == split_path(s@),
{
    let mut done: Vec<Vec<char>> = Vec::new();
    let mut cur: Vec<char> = Vec::new();
    let mut i: usize = 0;
    while i < s.len()
        invariant
            i <= s@.len(),
            (char_vec_views(done@), cur@) == split_scan(s@.take(i as int)),
        decreases s@.len() - i,
    {
        let c = s[i];
        let ghost t = s@.take(i + 1);
        assert(t.drop_last() =~= s@.take(i as int));
        assert(t.last() == c);
        if c == '/' {
            if cur.len() > 0 {
                let ghost old_done = done@;
                done.push(cur);
                assert(char_vec_views(done@) =~= char_vec_views(old_done).push(cur@));
                cur = Vec::new();
            } else {
                cur = Vec::new();
            }
        } else {
            cur.push(c);
        }
        i = i + 1;
    }
    assert(s@.take(s@.len() as int) =~= s@);
    if cur.len() > 0 {
        let ghost old_done = done@;
        done.push(cur);
        assert(char_vec_views(done@) =~= char_vec_views(old_done).push(cur@));
    }
    done
}

/// A component a target may hold: not empty, no `/`, and no leading `-`
/// (which `gh` or `git` would take as a flag when passed through).
pub open spec fn component_ok(x: Seq<char>) -> bool {
    x.len() > 0 && !x.contains('/') && !starts_with_dash(x)
}

/// A parsed target: a usable host and at least `owner/repo` below it.
pub open spec fn target_ok(t: (Seq<char>, Seq<Seq<char>>)) -> bool {
    &&& component_ok(t.0)
    &&& t.1.len() >= 2
    &&& forall|i: int| 0 <= i < t.1.len() ==> component_ok(#[trigger] t.1[i])
}

pub open spec fn no_slash_parts(parts: Seq<Seq<char>>) -> bool {
    forall|i: int| 0 <= i < parts.len() ==> !(#[trigger] parts[i]).contains('/')
}

proof fn lemma_split_scan_no_slash(s: Seq<char>)
    ensures
        no_slash_parts(split_scan(s).0),
        !split_scan(s).1.contains('/'),
    decreases s.len(),
{
    if s.len() > 0 {
        lemma_split_scan_no_slash(s.drop_last());
        let (done, cur) = split_scan(s.drop_last());
        if s.last() == '/' {
            if cur.len() > 0 {
                assert forall|i: int| 0 <= i < done.push(cur).len() implies !(
                #[trigger] done.push(cur)[i]).contains('/') by {
                    if i < done.len() {
                        assert(done.push(cur)[i] == done[i]);
                    }
                }
            }
            assert(!Seq::<char>::empty().contains('/'));
        } else {
            assert forall|j: int| 0 <= j < cur.push(s.last()).len() implies cur.push(s.last())[j]
                != '/' by {
                if j < cur.len() {
                    assert(cur.push(s.last())[j] == cur[j]);
                }
            }
        }
    }
}

/// The components of a path hold no `/`.
pub(crate) proof fn lemma_split_path_no_slash(s: Seq<char>)
    ensures
        no_slash_parts(split_path(s)),
{
    lemma_split_scan_no_slash(s);
    let (done, cur) = split_scan(s);
    if cur.len() > 0 {
        assert forall|i: int| 0 <= i < done.push(cur).len() implies !(
        #[trigger] done.push(cur)[i]).contains('/') by {
            if i < done.len() {
                assert(done.push(cur)[i] == done[i]);
            }
        }
    }
}

proof fn lemma_after_last_no_slash(s: Seq<char>, c: char)
    requires
        !s.contains('/'),
    ensures
        !after_last(s, c).contains('/'),
    decreases s.len(),
{
    if s.len() > 0 && s.last() != c {
        assert(!s.drop_last().contains('/')) by {
            if s.drop_last().contains('/') {
                let j = choose|j: int| 0 <= j < s.drop_last().len() && s.drop_last()[j] == '/';
                assert(s[j] == '/');
            }
        }
        lemma_after_last_no_slash(s.drop_last(), c);
        let a = after_last(s.drop_last(), c);
        assert forall|j: int| 0 <= j < a.push(s.last()).len() implies a.push(s.last())[j]
            != '/' by {
            if j < a.len() {
                assert(a.push(s.last())[j] == a[j]);
            }
        }
    }
}

proof fn lemma_strip_git_no_slash(parts: Seq<Seq<char>>)
    requires
        no_slash_parts(parts),
    ensures
        no_slash_parts(strip_git_suffix(parts)),
{
    if parts.len() > 0 && dot_git().is_suffix_of(parts.last()) {
        let last = parts.last();
        let short = last.take(last.len() - 4);
        assert(!short.contains('/')) by {
            if short.contains('/') {
                let j = choose|j: int| 0 <= j < short.len() && short[j] == '/';
                assert(last[j] == '/');
                assert(last.contains('/'));
            }
        }
        assert forall|i: int| 0 <= i < strip_git_suffix(parts).len() implies !(
        #[trigger] strip_git_suffix(parts)[i]).contains('/') by {
            if i < parts.len() - 1 {
                assert(strip_git_suffix(parts)[i] == parts[i]);
            }
        }
    }
}

proof fn lemma_drop_empty(parts: Seq<Seq<char>>)
    requires
        no_slash_parts(parts),
    ensures
        no_slash_parts(drop_empty(parts)),
        forall|i: int| 0 <= i < drop_empty(parts).len() ==> (#[trigger] drop_empty(parts)[i]).len()
            > 0,
    decreases parts.len(),
{
    if parts.len() > 0 {
        assert(no_slash_parts(parts.drop_last())) by {
            assert forall|i: int| 0 <= i < parts.drop_last().len() implies !(
            #[trigger] parts.drop_last()[i]).contains('/') by {
                assert(parts.drop_last()[i] == parts[i]);
            }
        }
        lemma_drop_empty(parts.drop_last());
        let r = drop_empty(parts.drop_last());
        if parts.last().len() > 0 {
            assert forall|i: int| 0 <= i < r.push(parts.last()).len() implies !(
            #[trigger] r.push(parts.last())[i]).contains('/') && r.push(parts.last())[i].len()
                > 0 by {
                if i < r.len() {
                    assert(r.push(parts.last())[i] == r[i]);
                }
            }
        }
    }
}

proof fn lemma_no_dash(parts: Seq<Seq<char>>)
    requires
        first_dashed(parts) is None,
    ensures
        forall|i: int| 0 <= i < parts.len() ==> !starts_with_dash(#[trigger] parts[i]),
    decreases parts.len(),
{
    if parts.len() > 0 {
        lemma_no_dash(parts.drop_first());
        assert forall|i: int| 0 <= i < parts.len() implies !starts_with_dash(#[trigger] parts[i]) by {
            if i > 0 {
                assert(parts[i] == parts.drop_first()[i - 1]);
            }
        }
    }
}

proof fn lemma_from_parts_ok(parts: Seq<Seq<char>>, spec: Seq<char>, host_is_explicit: bool)
    requires
        no_slash_parts(parts),
    ensures
        from_parts_result(parts, spec, host_is_explicit) matches Ok(t) ==> target_ok(t),
{
    let ps = drop_empty(strip_git_suffix(parts));
    lemma_strip_git_no_slash(parts);
    lemma_drop_empty(strip_git_suffix(parts));
    if first_dashed(ps) is None {
        lemma_no_dash(ps);
        if ps.len() >= 2 {
            assert forall|i: int| 0 <= i < ps.len() implies component_ok(#[trigger] ps[i]) by {}
            assert forall|i: int| 0 <= i < ps.drop_first().len() implies component_ok(
                #[trigger] ps.drop_first()[i],
            ) by {
                assert(ps.drop_first()[i] == ps[i + 1]);
            }
            reveal_strlit("github.com");
            assert(!github_host().contains('/')) by {
                if github_host().contains('/') {
                    let j = choose|j: int| 0 <= j < github_host().len() && github_host()[j] == '/';
                }
            }
        }
    }
}

/// Every target that `parse` accepts has a non-empty host and at least two
/// path components, none of them empty, holding `/`, or starting with `-`.
pub proof fn lemma_parsed_target_ok(spec: Seq<char>)
    ensures
        parse_result(spec) matches Ok(t) ==> target_ok(t),
{
    let s = trimmed(spec);
    if s.len() > 0 {
        match scheme_stripped(s) {
            Some(rest) => {
                lemma_split_path_no_slash(rest);
                lemma_from_parts_ok(split_path(rest), s, true);
            },
            None => if is_scp_form(s) {
                let i = find_char(s, ':')->0;
                crate::text::lemma_find_char_result(s, ':');
                let host = after_last(s.take(i), '@');
                lemma_after_last_no_slash(s.take(i), '@');
                lemma_split_path_no_slash(s.skip(i + 1));
                let parts = seq![host] + split_path(s.skip(i + 1));
                assert forall|k: int| 0 <= k < parts.len() implies !(#[trigger] parts[k]).contains(
                    '/',
                ) by {
                    if k > 0 {
                        assert(parts[k] == split_path(s.skip(i + 1))[k - 1]);
                    }
                }
                lemma_from_parts_ok(parts, s, true);
            } else {
                lemma_split_path_no_slash(s);
                lemma_from_parts_ok(split_path(s), s, false);
            },
        }
    }
}

} // verus!
