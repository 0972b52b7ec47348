//! The root directory: `YARD_ROOT`, then `git config yard.root`, then
//! `~/yard`; `~` expanded, relative paths made absolute with `.` and `..`
//! folded textually. A path that does not exist is still returned.
//!
//! Paths are Unix paths held as text.

use vstd::prelude::*;

use crate::target::{
    char_vec_views, join, lemma_split_path_no_slash, no_slash_parts, split, split_path, split_scan,
};
use crate::text::{chars_of, has_prefix, push_char, slice_of, string_of, trim, trimmed};

verus! {

pub open spec fn is_absolute(p: Seq<char>) -> bool {
    p.len() > 0 && p[0] == '/'
}

pub open spec fn is_dot(name: Seq<char>) -> bool {
    name == seq!['.']
}

pub open spec fn is_dot_dot(name: Seq<char>) -> bool {
    name == seq!['.', '.']
}

/// The names left after walking `names` with `.` skipped and `..` taking
/// off the name before it (if any).
pub open spec fn folded(names: Seq<Seq<char>>) -> Seq<Seq<char>>
    decreases names.len(),
{
    if names.len() == 0 {
        Seq::empty()
    } else {
        let r = folded(names.drop_last());
        let x = names.last();
        if is_dot(x) {
            r
        } else if is_dot_dot(x) {
            if r.len() > 0 {
                r.drop_last()
            } else {
                r
            }
        } else {
            r.push(x)
        }
    }
}

/// A path written from its root flag and names.
pub open spec fn rendered(absolute: bool, names: Seq<Seq<char>>) -> Seq<char> {
    if absolute {
        seq!['/'] + join(names, '/')
    } else {
        join(names, '/')
    }
}

/// `p` with `.` and `..` folded textually.
pub open spec fn cleaned(p: Seq<char>) -> Seq<char> {
    rendered(is_absolute(p), folded(split_path(p)))
}

/// `base.join(rel)` for Unix paths: an absolute `rel` replaces `base`;
/// otherwise a `/` separates them unless `base` is empty or ends in one.
pub open spec fn joined(base: Seq<char>, rel: Seq<char>) -> Seq<char> {
    if is_absolute(rel) || base.len() == 0 {
        rel
    } else if base.last() == '/' {
        base + rel
    } else {
        base.push('/') + rel
    }
}

pub open spec fn no_home_message() -> Seq<char> {
    "cannot determine home directory"@
}

/// `s` with `~` expanded and, when relative, made absolute against `cwd`
/// and cleaned; the error when `home` or `cwd` is needed and missing.
pub open spec fn normalized(
    s: Seq<char>,
    home: Option<Seq<char>>,
    cwd: Result<Seq<char>, Seq<char>>,
) -> Result<Seq<char>, Seq<char>> {
    let expanded: Result<Seq<char>, Seq<char>> = if s == seq!['~'] {
        match home {
            Some(h) => Ok(h),
            None => Err(no_home_message()),
        }
    } else if seq!['~', '/'].is_prefix_of(s) {
        match home {
            Some(h) => Ok(joined(h, s.skip(2))),
            None => Err(no_home_message()),
        }
    } else {
        Ok(s)
    };
    match expanded {
        Err(e) => Err(e),
        Ok(x) => absolutized(x, cwd),
    }
}

/// `x` unchanged when absolute; otherwise joined onto `cwd` and cleaned, or
/// the error when the current directory is unknown.
pub open spec fn absolutized(x: Seq<char>, cwd: Result<Seq<char>, Seq<char>>) -> Result<
    Seq<char>,
    Seq<char>,
> {
    if is_absolute(x) {
        Ok(x)
    } else {
        match cwd {
            Ok(c) => Ok(cleaned(joined(c, x))),
            Err(e) => Err("cannot determine current directory: "@ + e),
        }
    }
}

/// Folding never leaves a `.` or `..` behind.
proof fn lemma_folded_plain(names: Seq<Seq<char>>)
    ensures
        forall|i: int|
            0 <= i < folded(names).len() ==> !is_dot(#[trigger] folded(names)[i]) && !is_dot_dot(
                folded(names)[i],
            ),
    decreases names.len(),
{
    if names.len() > 0 {
        let r = folded(names.drop_last());
        lemma_folded_plain(names.drop_last());
        assert forall|i: int| 0 <= i < folded(names).len() implies !is_dot(
            #[trigger] folded(names)[i],
        ) && !is_dot_dot(folded(names)[i]) by {
            if i < r.len() {
                assert(folded(names)[i] == r[i]);
            }
        }
    }
}

/// Folds `.` and `..` textually so that the path is usable even when it
/// does not exist. `..` at the root (or at the start of a relative path)
/// stays there.
pub fn clean(p: &str) -> (r: String)
    ensures
        r@ == cleaned(p@),
        is_absolute(p@) ==> is_absolute(r@),
        forall|i: int|
            0 <= i < folded(split_path(p@)).len() ==> !is_dot(
                #[trigger] folded(split_path(p@))[i],
            ) && !is_dot_dot(folded(split_path(p@))[i]),
{
    let cs = chars_of(p);
    let parts = split(cs.as_slice());
    let ghost pv = char_vec_views(parts@);
    let mut names: Vec<Vec<char>> = Vec::new();
    let mut i: usize = 0;
    assert(pv.take(0) =~= Seq::<Seq<char>>::empty());
    while i < parts.len()
        invariant
            pv == char_vec_views(parts@),
            i <= parts@.len(),
            char_vec_views(names@) == folded(pv.take(i as int)),
        decreases parts@.len() - i,
    {
        let ghost t = pv.take(i + 1);
        assert(t.drop_last() =~= pv.take(i as int));
        assert(t.last() == parts@[i as int]@);
        let part = &parts[i];
        let dot = part.len() == 1 && part[0] == '.';
        let dot_dot = part.len() == 2 && part[0] == '.' && part[1] == '.';
        assert(dot == is_dot(part@)) by {
            if part@.len() == 1 && part@[0] == '.' {
                assert(part@ =~= seq!['.']);
            }
        }
        assert(dot_dot == is_dot_dot(part@)) by {
            if part@.len() == 2 && part@[0] == '.' && part@[1] == '.' {
                assert(part@ =~= seq!['.', '.']);
            }
        }
        if dot {
        } else if dot_dot {
            if names.len() > 0 {
                let ghost before = names@;
                names.pop();
                assert(char_vec_views(names@) =~= char_vec_views(before).drop_last());
            }
        } else {
            let ghost before = names@;
            let copy = slice_of(part.as_slice(), 0, part.len());
            assert(copy@ =~= part@);
            names.push(copy);
            assert(char_vec_views(names@) =~= char_vec_views(before).push(part@));
        }
        i = i + 1;
    }
    assert(pv.take(parts@.len() as int) =~= pv);
    proof {
        lemma_folded_plain(pv);
    }
    let absolute = cs.len() > 0 && cs[0] == '/';
    let mut out = String::new();
    if absolute {
        push_char(&mut out, '/');
    }
    let ghost prefix = out@;
    let mut k: usize = 0;
    let ghost nv = char_vec_views(names@);
    assert(nv.take(0) =~= Seq::<Seq<char>>::empty());
    assert(prefix + Seq::<char>::empty() =~= prefix);
    while k < names.len()
        invariant
            nv == char_vec_views(names@),
            k <= names@.len(),
            out@ == prefix + join(nv.take(k as int), '/'),
        decreases names@.len() - k,
    {
        let ghost t = nv.take(k + 1);
        assert(t.drop_last() =~= nv.take(k as int));
        assert(t.last() == names@[k as int]@);
        if k > 0 {
            push_char(&mut out, '/');
        }
        let piece = string_of(names[k].as_slice());
        out.append(piece.as_str());
        assert(out@ =~= prefix + join(t, '/'));
        k = k + 1;
    }
    assert(nv.take(names@.len() as int) =~= nv);
    assert(out@ =~= rendered(absolute, nv));
    out
}

/// `base.join(rel)` (Unix paths).
pub fn path_join(base: &str, rel: &str) -> (r: String)
    ensures
        r@ == joined(base@, rel@),
{
    let b = chars_of(base);
    let rc = chars_of(rel);
    let rel_absolute = rc.len() > 0 && rc[0] == '/';
    if rel_absolute || b.len() == 0 {
        return string_of(rc.as_slice());
    }
    let mut out = string_of(b.as_slice());
    if b[b.len() - 1] != '/' {
        push_char(&mut out, '/');
    }
    out.append(rel);
    out
}

/// Expands `~` and turns a relative path into an absolute one against
/// `cwd` (the current directory, or the reason it is unknown).
pub fn normalize(s: &str, home: &Option<String>, cwd: &Result<String, String>) -> (r: Result<
    String,
    String,
>)
    ensures
        match r {
            Ok(p) => normalized(s@, opt_view(*home), res_view(*cwd)) == Ok::<_, Seq<char>>(p@),
            Err(e) => normalized(s@, opt_view(*home), res_view(*cwd)) == Err::<Seq<char>, _>(e@),
        },
{
    let cs = chars_of(s);
    let tilde_slash = vec!['~', '/'];
    assert(tilde_slash@ =~= seq!['~', '/']);
    let is_tilde = cs.len() == 1 && cs[0] == '~';
    assert(is_tilde == (s@ == seq!['~'])) by {
        if cs@.len() == 1 && cs@[0] == '~' {
            assert(cs@ =~= seq!['~']);
        }
    }
    let expanded: String = if is_tilde {
        match home {
            Some(h) => h.clone(),
            None => {
                return Err(String::from_str("cannot determine home directory"));
            },
        }
    } else if has_prefix(cs.as_slice(), tilde_slash.as_slice()) {
        match home {
            Some(h) => {
                let rest = string_of(slice_of(cs.as_slice(), 2, cs.len()).as_slice());
                assert(rest@ =~= s@.skip(2));
                path_join(h.as_str(), rest.as_str())
            },
            None => {
                return Err(String::from_str("cannot determine home directory"));
            },
        }
    } else {
        string_of(cs.as_slice())
    };
    absolutize(expanded, cwd)
}

/// `x` made absolute against `cwd` (see `absolutized`).
pub fn absolutize(x: String, cwd: &Result<String, String>) -> (r: Result<String, String>)
    ensures
        res_view(r) == absolutized(x@, res_view(*cwd)),
{
    let ex = chars_of(x.as_str());
    if ex.len() > 0 && ex[0] == '/' {
        return Ok(x);
    }
    match cwd {
        Ok(c) => {
            let full = path_join(c.as_str(), x.as_str());
            Ok(clean(full.as_str()))
        },
        Err(e) => {
            let mut msg = String::from_str("cannot determine current directory: ");
            msg.append(e.as_str());
            Err(msg)
        },
    }
}

pub open spec fn opt_view(o: Option<String>) -> Option<Seq<char>> {
    match o {
        Some(s) => Some(s@),
        None => None,
    }
}

pub open spec fn res_view(r: Result<String, String>) -> Result<Seq<char>, Seq<char>> {
    match r {
        Ok(s) => Ok(s@),
        Err(e) => Err(e@),
    }
}

/// What resolving the root has come to after looking at `YARD_ROOT`.
pub enum RootStep {
    /// `YARD_ROOT` was set and not empty: the root, or the error.
    Resolved(Result<String, String>),
    /// `YARD_ROOT` was unset or empty: ask `git config yard.root` next.
    NeedsGitConfig,
}

/// First step of resolving the root: a non-empty `YARD_ROOT` decides.
pub fn resolve_from_env(env_root: &Option<String>, home: &Option<String>, cwd: &Result<
    String,
    String,
>) -> (r: RootStep)
    ensures
        match env_root {
            Some(v) => if v@.len() > 0 {
                r matches RootStep::Resolved(res) && res_view(res) == normalized(
                    v@,
                    opt_view(*home),
                    res_view(*cwd),
                )
            } else {
                r is NeedsGitConfig
            },
            None => r is NeedsGitConfig,
        },
        r matches RootStep::Resolved(res) ==> forall|c: Option<Seq<char>>|
            #[trigger] resolved_root(opt_view(*env_root), c, opt_view(*home), res_view(*cwd))
                == res_view(res),
        r is NeedsGitConfig ==> forall|c: Option<Seq<char>>|
            #[trigger] resolved_root(opt_view(*env_root), c, opt_view(*home), res_view(*cwd))
                == resolved_root(None, c, opt_view(*home), res_view(*cwd)),
{
    match env_root {
        Some(v) => {
            let n = v.as_str().unicode_len();
            if n > 0 {
                RootStep::Resolved(normalize(v.as_str(), home, cwd))
            } else {
                RootStep::NeedsGitConfig
            }
        },
        None => RootStep::NeedsGitConfig,
    }
}

/// Second step: `git config yard.root` when it gave a value, else
/// `~/yard`.
pub fn resolve_from_config(config_root: &Option<String>, home: &Option<String>, cwd: &Result<
    String,
    String,
>) -> (r: Result<String, String>)
    ensures
        res_view(r) == match config_root {
            Some(v) => normalized(v@, opt_view(*home), res_view(*cwd)),
            None => match home {
                Some(h) => absolutized(joined(h@, "yard"@), res_view(*cwd)),
                None => Err(no_home_message()),
            },
        },
        res_view(r) == resolved_root(None, opt_view(*config_root), opt_view(*home), res_view(*cwd)),
{
    match config_root {
        Some(v) => normalize(v.as_str(), home, cwd),
        None => match home {
            Some(h) => absolutize(path_join(h.as_str(), "yard"), cwd),
            None => Err(String::from_str("cannot determine home directory")),
        },
    }
}

/// The value of `git config yard.root` from its output: none when git
/// failed or printed nothing but whitespace, else the trimmed output.
pub fn config_root(stdout: &str, success: bool) -> (r: Option<String>)
    ensures
        !success ==> r is None,
        success && trimmed(stdout@).len() == 0 ==> r is None,
        success && trimmed(stdout@).len() > 0 ==> (r matches Some(v) && v@ == trimmed(stdout@)),
{
    if !success {
        return None;
    }
    let cs = chars_of(stdout);
    let t = trim(cs.as_slice());
    if t.len() == 0 {
        None
    } else {
        Some(string_of(t.as_slice()))
    }
}

/// An environment value that counts as set: present and not empty.
pub fn non_empty(v: Option<String>) -> (r: Option<String>)
    ensures
        match v {
            Some(s) => if s@.len() > 0 {
                r == Some(s)
            } else {
                r is None
            },
            None => r is None,
        },
{
    match v {
        Some(s) => {
            let n = s.as_str().unicode_len();
            if n > 0 {
                Some(s)
            } else {
                None
            }
        },
        None => None,
    }
}

/// Names a cleaned path is made of: not empty, no `/`, not `.` or `..`.
pub open spec fn plain_names(ns: Seq<Seq<char>>) -> bool {
    forall|i: int|
        0 <= i < ns.len() ==> (#[trigger] ns[i]).len() > 0 && !ns[i].contains('/') && !is_dot(ns[i])
            && !is_dot_dot(ns[i])
}

proof fn lemma_split_scan_nonempty(s: Seq<char>)
    ensures
        forall|i: int| 0 <= i < split_scan(s).0.len() ==> (#[trigger] split_scan(s).0[i]).len() > 0,
    decreases s.len(),
{
    if s.len() > 0 {
        lemma_split_scan_nonempty(s.drop_last());
        let (done, cur) = split_scan(s.drop_last());
        if s.last() == '/' && cur.len() > 0 {
            assert forall|i: int| 0 <= i < done.push(cur).len() implies (
            #[trigger] done.push(cur)[i]).len() > 0 by {
                if i < done.len() {
                    assert(done.push(cur)[i] == done[i]);
                }
            }
        }
    }
}

proof fn lemma_split_path_nonempty(s: Seq<char>)
    ensures
        forall|i: int| 0 <= i < split_path(s).len() ==> (#[trigger] split_path(s)[i]).len() > 0,
{
    lemma_split_scan_nonempty(s);
    let (done, cur) = split_scan(s);
    if cur.len() > 0 {
        assert forall|i: int| 0 <= i < done.push(cur).len() implies (
        #[trigger] done.push(cur)[i]).len() > 0 by {
            if i < done.len() {
                assert(done.push(cur)[i] == done[i]);
            }
        }
    }
}

/// Folding keeps only names it was given.
proof fn lemma_folded_from(names: Seq<Seq<char>>)
    ensures
        forall|i: int|
            0 <= i < folded(names).len() ==> exists|j: int|
                0 <= j < names.len() && names[j] == #[trigger] folded(names)[i],
    decreases names.len(),
{
    if names.len() > 0 {
        let r = folded(names.drop_last());
        lemma_folded_from(names.drop_last());
        assert forall|i: int| 0 <= i < folded(names).len() implies exists|j: int|
            0 <= j < names.len() && names[j] == #[trigger] folded(names)[i] by {
            if i < r.len() && folded(names)[i] == r[i] {
                let j = choose|j: int|
                    0 <= j < names.drop_last().len() && names.drop_last()[j] == #[trigger] r[i];
                assert(names[j] == names.drop_last()[j]);
            } else {
                assert(folded(names)[i] == names.last());
                assert(names[names.len() - 1] == names.last());
            }
        }
    }
}

/// The names of a cleaned path are plain.
proof fn lemma_cleaned_names_plain(p: Seq<char>)
    ensures
        plain_names(folded(split_path(p))),
{
    let ns = split_path(p);
    lemma_split_path_no_slash(p);
    lemma_split_path_nonempty(p);
    lemma_folded_plain(ns);
    lemma_folded_from(ns);
    assert forall|i: int| 0 <= i < folded(ns).len() implies (#[trigger] folded(ns)[i]).len() > 0
        && !folded(ns)[i].contains('/') && !is_dot(folded(ns)[i]) && !is_dot_dot(folded(ns)[i]) by {
        let j = choose|j: int| 0 <= j < ns.len() && ns[j] == #[trigger] folded(ns)[i];
        assert(ns[j].len() > 0);
        assert(!ns[j].contains('/'));
    }
}

/// Splitting reads a run without `/` into the current component.
pub(crate) proof fn lemma_split_scan_append(a: Seq<char>, b: Seq<char>)
    requires
        !b.contains('/'),
    ensures
        split_scan(a + b) == (split_scan(a).0, split_scan(a).1 + b),
    decreases b.len(),
{
    if b.len() == 0 {
        assert(a + b =~= a);
        assert(split_scan(a).1 + b =~= split_scan(a).1);
    } else {
        assert(!b.drop_last().contains('/')) by {
            if b.drop_last().contains('/') {
                let j = choose|j: int| 0 <= j < b.drop_last().len() && b.drop_last()[j] == '/';
                assert(b[j] == '/');
            }
        }
        lemma_split_scan_append(a, b.drop_last());
        assert((a + b).drop_last() =~= a + b.drop_last());
        assert((a + b).last() == b.last());
        assert(b[b.len() - 1] != '/');
        assert(split_scan(a).1 + b.drop_last() + seq![b.last()] =~= split_scan(a).1 + b);
        assert((split_scan(a).1 + b.drop_last()).push(b.last()) =~= split_scan(a).1 + b);
    }
}

/// Splitting `p` followed by joined plain names gives the names back.
pub(crate) proof fn lemma_split_join(p: Seq<char>, ns: Seq<Seq<char>>)
    requires
        split_scan(p) == (Seq::<Seq<char>>::empty(), Seq::<char>::empty()),
        ns.len() > 0,
        forall|i: int| 0 <= i < ns.len() ==> (#[trigger] ns[i]).len() > 0 && !ns[i].contains('/'),
    ensures
        split_scan(p + join(ns, '/')) == (ns.drop_last(), ns.last()),
    decreases ns.len(),
{
    if ns.len() == 1 {
        lemma_split_scan_append(p, ns[0]);
        assert(ns.drop_last() =~= Seq::<Seq<char>>::empty());
        assert(Seq::<char>::empty() + ns[0] =~= ns[0]);
    } else {
        let init = ns.drop_last();
        assert forall|i: int| 0 <= i < init.len() implies (#[trigger] init[i]).len() > 0
            && !init[i].contains('/') by {
            assert(init[i] == ns[i]);
        }
        lemma_split_join(p, init);
        let x = p + join(init, '/');
        assert(x.push('/').drop_last() =~= x);
        assert(init.last().len() > 0) by {
            assert(init.last() == ns[ns.len() - 2]);
        }
        assert(init.drop_last().push(init.last()) =~= init);
        assert(split_scan(x.push('/')) == (init, Seq::<char>::empty()));
        assert(ns.last() == ns[ns.len() - 1]);
        lemma_split_scan_append(x.push('/'), ns.last());
        assert(p + join(ns, '/') =~= x.push('/') + ns.last());
        assert(Seq::<char>::empty() + ns.last() =~= ns.last());
    }
}

/// The names of a rendered path, split again, are the names.
proof fn lemma_split_rendered(absolute: bool, ns: Seq<Seq<char>>)
    requires
        plain_names(ns),
    ensures
        split_path(rendered(absolute, ns)) == ns,
        is_absolute(rendered(absolute, ns)) == absolute,
{
    let p: Seq<char> = if absolute {
        seq!['/']
    } else {
        Seq::empty()
    };
    assert(split_scan(p) == (Seq::<Seq<char>>::empty(), Seq::<char>::empty())) by {
        if absolute {
            let e = Seq::<char>::empty();
            assert(p.drop_last() =~= e);
            assert(split_scan(e) == (Seq::<Seq<char>>::empty(), e));
            assert(p.last() == '/');
        }
    }
    if ns.len() == 0 {
        assert(join(ns, '/') =~= Seq::<char>::empty());
        assert(p + join(ns, '/') =~= p);
        assert(rendered(absolute, ns) =~= p);
    } else {
        lemma_split_join(p, ns);
        assert(p + join(ns, '/') =~= rendered(absolute, ns));
        assert(ns.last() == ns[ns.len() - 1]);
        assert(ns.drop_last().push(ns.last()) =~= ns);
        if !absolute {
            lemma_join_starts_with_first(ns);
            assert(ns[0].len() > 0 && !ns[0].contains('/'));
            assert(ns[0][0] != '/');
        }
    }
}

/// A join of names starts with the first name's first character.
pub(crate) proof fn lemma_join_starts_with_first(ns: Seq<Seq<char>>)
    requires
        ns.len() > 0,
        ns[0].len() > 0,
    ensures
        join(ns, '/').len() > 0,
        join(ns, '/')[0] == ns[0][0],
    decreases ns.len(),
{
    if ns.len() > 1 {
        lemma_join_starts_with_first(ns.drop_last());
    }
}

/// Folding plain names changes nothing.
proof fn lemma_folded_plain_names(ns: Seq<Seq<char>>)
    requires
        plain_names(ns),
    ensures
        folded(ns) == ns,
    decreases ns.len(),
{
    if ns.len() > 0 {
        assert(plain_names(ns.drop_last())) by {
            assert forall|i: int| 0 <= i < ns.drop_last().len() implies (
            #[trigger] ns.drop_last()[i]).len() > 0 && !ns.drop_last()[i].contains('/') && !is_dot(
                ns.drop_last()[i],
            ) && !is_dot_dot(ns.drop_last()[i]) by {
                assert(ns.drop_last()[i] == ns[i]);
            }
        }
        lemma_folded_plain_names(ns.drop_last());
        assert(ns.last() == ns[ns.len() - 1]);
        assert(ns.drop_last().push(ns.last()) =~= ns);
    }
}

/// Making a path absolute against an absolute current directory gives an
/// absolute path.
proof fn lemma_absolutized_absolute(x: Seq<char>, cwd: Seq<char>)
    requires
        is_absolute(cwd),
    ensures
        absolutized(x, Ok(cwd)) matches Ok(p) ==> is_absolute(p),
{
    if !is_absolute(x) {
        let j = joined(cwd, x);
        assert(j[0] == '/');
        lemma_clean_idempotent(j);
    }
}

/// Normalising gives an absolute path whenever the current directory it
/// is resolved against is absolute.
pub proof fn lemma_normalized_absolute(s: Seq<char>, home: Option<Seq<char>>, cwd: Seq<char>)
    requires
        is_absolute(cwd),
    ensures
        normalized(s, home, Ok(cwd)) matches Ok(p) ==> is_absolute(p),
{
    let expanded: Seq<char> = if s == seq!['~'] {
        home->0
    } else if seq!['~', '/'].is_prefix_of(s) {
        joined(home->0, s.skip(2))
    } else {
        s
    };
    lemma_absolutized_absolute(expanded, cwd);
}

/// The root that resolution gives for the value of `YARD_ROOT`, the value
/// `git config yard.root` gave (trimmed, if any), `$HOME` and the current
/// directory.
pub open spec fn resolved_root(
    env_root: Option<Seq<char>>,
    config_root: Option<Seq<char>>,
    home: Option<Seq<char>>,
    cwd: Result<Seq<char>, Seq<char>>,
) -> Result<Seq<char>, Seq<char>> {
    match env_root {
        Some(v) if v.len() > 0 => normalized(v, home, cwd),
        _ => match config_root {
            Some(v) => normalized(v, home, cwd),
            None => match home {
                Some(h) => absolutized(joined(h, "yard"@), cwd),
                None => Err(no_home_message()),
            },
        },
    }
}

/// The root is always absolute when the current directory is: from
/// `YARD_ROOT`, from `git config yard.root`, and the `~/yard` fallback alike
/// (a relative `$HOME` included).
pub proof fn lemma_root_absolute(
    env_root: Option<Seq<char>>,
    config_root: Option<Seq<char>>,
    home: Option<Seq<char>>,
    cwd: Seq<char>,
)
    requires
        is_absolute(cwd),
    ensures
        resolved_root(env_root, config_root, home, Ok(cwd)) matches Ok(p) ==> is_absolute(p),
{
    match env_root {
        Some(v) => {
            lemma_normalized_absolute(v, home, cwd);
        },
        None => {},
    }
    match config_root {
        Some(v) => {
            lemma_normalized_absolute(v, home, cwd);
        },
        None => {},
    }
    match home {
        Some(h) => {
            lemma_absolutized_absolute(joined(h, "yard"@), cwd);
        },
        None => {},
    }
}

/// A cleaned path is made of plain names: no `.` or `..` part is left.
pub proof fn lemma_cleaned_has_no_dots(p: Seq<char>)
    ensures
        forall|i: int|
            0 <= i < split_path(cleaned(p)).len() ==> !is_dot(#[trigger] split_path(cleaned(p))[i])
                && !is_dot_dot(split_path(cleaned(p))[i]),
{
    lemma_cleaned_names_plain(p);
    lemma_split_rendered(is_absolute(p), folded(split_path(p)));
}

/// A path with no `.` or `..` part comes back from cleaning as it was,
/// with only its separators tidied (repeated and trailing `/` dropped).
pub proof fn lemma_clean_keeps_plain(p: Seq<char>)
    requires
        forall|i: int|
            0 <= i < split_path(p).len() ==> !is_dot(#[trigger] split_path(p)[i]) && !is_dot_dot(
                split_path(p)[i],
            ),
    ensures
        cleaned(p) == rendered(is_absolute(p), split_path(p)),
{
    lemma_split_path_no_slash(p);
    lemma_split_path_nonempty(p);
    assert(plain_names(split_path(p)));
    lemma_folded_plain_names(split_path(p));
}

/// Cleaning a cleaned path changes nothing, and keeps it absolute or
/// relative as it was.
pub proof fn lemma_clean_idempotent(p: Seq<char>)
    ensures
        cleaned(cleaned(p)) == cleaned(p),
        is_absolute(cleaned(p)) == is_absolute(p),
{
    let ns = folded(split_path(p));
    lemma_cleaned_names_plain(p);
    lemma_split_rendered(is_absolute(p), ns);
    lemma_folded_plain_names(ns);
}

} // verus!
