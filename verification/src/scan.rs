//! The repository walk's decisions. The caller lists directories; the walk
//! says which directory to list next, which directories are repositories,
//! and where to descend:
//!
//! - only directory entries count, so symlinks (which the caller reports as
//!   what they are, not what they point to) are not followed
//! - a directory holding a `.git` directory is a repository, and the walk
//!   does not descend into it
//! - a directory that cannot be read is skipped (the caller visits it with
//!   no entries)
//! - the repositories come out sorted by their path relative to the root
//!
//! Over a whole run (`new`, then `next_dir` and `visit` on the directory it
//! gave, with listings as `read_dir` gives them: distinct names that are not
//! empty, `.` or `..`, and hold no `/`), the walk stays `consistent` and
//! `separate`, so `finish` gives each repository once, strictly ascending
//! by relative path, each with a non-empty relative path and its absolute
//! path the root joined with it.

use vstd::prelude::*;

use crate::get::pushed;
use crate::root::{is_absolute, is_dot, joined, path_join};
use crate::target::{char_vec_views, dot_git, join, split, split_path, split_scan};
use crate::text::{chars_of, push_char, slice_of, string_of};

verus! {

/// A repository found under the root.
pub struct Repo {
    /// Absolute path.
    pub abs: String,
    /// Path relative to the root (`host/owner/repo`).
    pub rel: String,
}

/// One entry of a listed directory.
pub struct Entry {
    pub name: String,
    /// A directory itself (not a symlink to one).
    pub is_dir: bool,
}

/// `names` without `.` entries.
pub open spec fn without_dots(names: Seq<Seq<char>>) -> Seq<Seq<char>>
    decreases names.len(),
{
    if names.len() == 0 {
        Seq::empty()
    } else if is_dot(names.last()) {
        without_dots(names.drop_last())
    } else {
        without_dots(names.drop_last()).push(names.last())
    }
}

/// The components of a Unix path (`Path::components`): `/` for the root,
/// `.` only at the start of a relative path, then the names (with `..`).
pub open spec fn path_components(p: Seq<char>) -> Seq<Seq<char>> {
    if is_absolute(p) {
        seq![seq!['/']] + without_dots(split_path(p))
    } else if p == seq!['.'] || seq!['.', '/'].is_prefix_of(p) {
        seq![seq!['.']] + without_dots(split_path(p))
    } else {
        without_dots(split_path(p))
    }
}

/// A path written from its components.
pub open spec fn components_text(cs: Seq<Seq<char>>) -> Seq<char> {
    if cs.len() > 0 && cs[0] == seq!['/'] {
        seq!['/'] + join(cs.drop_first(), '/')
    } else {
        join(cs, '/')
    }
}

/// `dir` relative to `root` (`dir.strip_prefix(root)`), or none when `dir`
/// is not below `root` or is `root` itself.
pub open spec fn relative_to(root: Seq<char>, dir: Seq<char>) -> Option<Seq<char>> {
    let rc = path_components(root);
    let dc = path_components(dir);
    if rc.is_prefix_of(dc) && components_text(dc.skip(rc.len() as int)).len() > 0 {
        Some(components_text(dc.skip(rc.len() as int)))
    } else {
        None
    }
}

/// Whether two character sequences are equal.
fn same_chars(a: &[char], b: &[char]) -> (r: bool)
    ensures
        r == (a@ == b@),
{
    if a.len() != b.len() {
        return false;
    }
    let mut i: usize = 0;
    while i < a.len()
        invariant
            a@.len() == b@.len(),
            i <= a@.len(),
            forall|j: int| 0 <= j < i ==> a@[j] == b@[j],
        decreases a@.len() - i,
    {
        if a[i] != b[i] {
            return false;
        }
        i = i + 1;
    }
    assert(a@ =~= b@);
    true
}

/// The components of `p`.
fn components(p: &str) -> (r: Vec<Vec<char>>)
    ensures
        char_vec_views(r@) == path_components(p@),
{
    let cs = chars_of(p);
    let names = split(cs.as_slice());
    let ghost nv = char_vec_views(names@);
    let mut out: Vec<Vec<char>> = Vec::new();
    let absolute = cs.len() > 0 && cs[0] == '/';
    let cur_dir = !absolute && ((cs.len() == 1 && cs[0] == '.') || (cs.len() >= 2 && cs[0]
        == '.' && cs[1] == '/'));
    assert(cur_dir == (!is_absolute(p@) && (p@ == seq!['.'] || seq!['.', '/'].is_prefix_of(p@))))
        by {
        if cs@.len() == 1 && cs@[0] == '.' {
            assert(cs@ =~= seq!['.']);
        }
    }
    assert(absolute == is_absolute(p@));
    if absolute {
        let slash = vec!['/'];
        assert(slash@ =~= seq!['/']);
        out.push(slash);
        assert(char_vec_views(out@) =~= seq![seq!['/']]);
    } else if cur_dir {
        let dot = vec!['.'];
        assert(dot@ =~= seq!['.']);
        out.push(dot);
        assert(char_vec_views(out@) =~= seq![seq!['.']]);
    } else {
        assert(char_vec_views(out@) =~= Seq::<Seq<char>>::empty());
    }
    let ghost head = char_vec_views(out@);
    let mut i: usize = 0;
    assert(nv.take(0) =~= Seq::<Seq<char>>::empty());
    assert(head + Seq::<Seq<char>>::empty() =~= head);
    while i < names.len()
        invariant
            nv == char_vec_views(names@),
            i <= names@.len(),
            char_vec_views(out@) == head + without_dots(nv.take(i as int)),
        decreases names@.len() - i,
    {
        let ghost t = nv.take(i + 1);
        assert(t.drop_last() =~= nv.take(i as int));
        assert(t.last() == names@[i as int]@);
        let name = &names[i];
        let dot = name.len() == 1 && name[0] == '.';
        assert(dot == is_dot(name@)) by {
            if name@.len() == 1 && name@[0] == '.' {
                assert(name@ =~= seq!['.']);
            }
        }
        if !dot {
            let ghost before = out@;
            let copy = slice_of(name.as_slice(), 0, name.len());
            assert(copy@ =~= name@);
            out.push(copy);
            assert(char_vec_views(out@) =~= char_vec_views(before).push(name@));
        }
        i = i + 1;
    }
    assert(nv.take(names@.len() as int) =~= nv);
    out
}

/// `dir` relative to `root`, as text.
pub fn relative(root: &str, dir: &str) -> (r: Option<String>)
    ensures
        match relative_to(root@, dir@) {
            Some(rel) => r matches Some(s) && s@ == rel,
            None => r is None,
        },
{
    let rc = components(root);
    let dc = components(dir);
    let ghost rv = char_vec_views(rc@);
    let ghost dv = char_vec_views(dc@);
    if rc.len() > dc.len() {
        assert(rv.len() > dv.len());
        return None;
    }
    let mut i: usize = 0;
    while i < rc.len()
        invariant
            rv == char_vec_views(rc@),
            dv == char_vec_views(dc@),
            rv == path_components(root@),
            dv == path_components(dir@),
            rc@.len() <= dc@.len(),
            i <= rc@.len(),
            forall|j: int| 0 <= j < i ==> rv[j] == dv[j],
        decreases rc@.len() - i,
    {
        if !same_chars(rc[i].as_slice(), dc[i].as_slice()) {
            assert(rv[i as int] != dv[i as int]);
            assert(!rv.is_prefix_of(dv)) by {
                if rv.is_prefix_of(dv) {
                    assert(dv.subrange(0, rv.len() as int)[i as int] == dv[i as int]);
                }
            }
            return None;
        }
        i = i + 1;
    }
    assert(rv.is_prefix_of(dv));
    let ghost rest = dv.skip(rv.len() as int);
    let mut out = String::new();
    let mut k = rc.len();
    let start = k;
    if k < dc.len() && dc[k].len() == 1 && dc[k][0] == '/' {
        push_char(&mut out, '/');
        k = k + 1;
    }
    let ghost prefix = out@;
    let ghost names = dv.subrange(k as int, dv.len() as int);
    assert(rest.len() > 0 && rest[0] == seq!['/'] ==> names =~= rest.drop_first());
    assert(!(rest.len() > 0 && rest[0] == seq!['/']) ==> names =~= rest) by {
        if rest.len() > 0 && dc@[start as int]@.len() == 1 && dc@[start as int]@[0] == '/' {
            assert(rest[0] =~= seq!['/']);
        }
    }
    let first = k;
    assert(names.take(0) =~= Seq::<Seq<char>>::empty());
    assert(prefix + Seq::<char>::empty() =~= prefix);
    while k < dc.len()
        invariant
            dv == char_vec_views(dc@),
            first <= k <= dc@.len(),
            names == dv.subrange(first as int, dv.len() as int),
            out@ == prefix + join(names.take(k - first), '/'),
        decreases dc@.len() - k,
    {
        let ghost t = names.take(k - first + 1);
        assert(t.drop_last() =~= names.take(k - first));
        assert(t.last() == dc@[k as int]@);
        if k > first {
            push_char(&mut out, '/');
        }
        let piece = string_of(dc[k].as_slice());
        out.append(piece.as_str());
        assert(out@ =~= prefix + join(t, '/'));
        k = k + 1;
    }
    assert(names.take(dc@.len() - first) =~= names);
    assert(out@ =~= components_text(rest));
    let n = out.as_str().unicode_len();
    if n == 0 {
        None
    } else {
        Some(out)
    }
}

/// Lexicographic order of character sequences (the order of `String`s:
/// UTF-8 keeps code point order).
pub open spec fn chars_lt(a: Seq<char>, b: Seq<char>) -> bool
    decreases a.len(),
{
    if a.len() == 0 {
        b.len() > 0
    } else if b.len() == 0 {
        false
    } else if a[0] != b[0] {
        a[0] < b[0]
    } else {
        chars_lt(a.drop_first(), b.drop_first())
    }
}

proof fn lemma_chars_lt_irreflexive(a: Seq<char>)
    ensures
        !chars_lt(a, a),
    decreases a.len(),
{
    if a.len() > 0 {
        lemma_chars_lt_irreflexive(a.drop_first());
    }
}

proof fn lemma_chars_lt_total(a: Seq<char>, b: Seq<char>)
    ensures
        chars_lt(a, b) || chars_lt(b, a) || a == b,
    decreases a.len(),
{
    if a.len() > 0 && b.len() > 0 && a[0] == b[0] {
        lemma_chars_lt_total(a.drop_first(), b.drop_first());
        if a.drop_first() == b.drop_first() {
            assert(a =~= seq![a[0]] + a.drop_first());
            assert(b =~= seq![b[0]] + b.drop_first());
        }
    } else if a.len() == 0 && b.len() == 0 {
        assert(a =~= b);
    }
}

proof fn lemma_chars_lt_transitive(a: Seq<char>, b: Seq<char>, c: Seq<char>)
    requires
        chars_lt(a, b),
        chars_lt(b, c),
    ensures
        chars_lt(a, c),
    decreases a.len(),
{
    if a.len() > 0 && b.len() > 0 && c.len() > 0 && a[0] == b[0] && b[0] == c[0] {
        lemma_chars_lt_transitive(a.drop_first(), b.drop_first(), c.drop_first());
    }
}

/// `a` comes strictly before `b`.
fn chars_less(a: &[char], b: &[char]) -> (r: bool)
    ensures
        r == chars_lt(a@, b@),
{
    let mut i: usize = 0;
    assert(a@.skip(0) =~= a@);
    assert(b@.skip(0) =~= b@);
    while i < a.len() && i < b.len() && a[i] == b[i]
        invariant
            i <= a@.len(),
            i <= b@.len(),
            chars_lt(a@, b@) == chars_lt(a@.skip(i as int), b@.skip(i as int)),
        decreases a@.len() - i,
    {
        assert(a@.skip(i as int).drop_first() =~= a@.skip(i + 1));
        assert(b@.skip(i as int).drop_first() =~= b@.skip(i + 1));
        i = i + 1;
    }
    if i == a.len() {
        i < b.len()
    } else if i == b.len() {
        false
    } else {
        a[i] < b[i]
    }
}

/// A repository as text: its absolute and relative paths.
pub open spec fn repo_views(v: Seq<Repo>) -> Seq<(Seq<char>, Seq<char>)> {
    v.map_values(|r: Repo| (r.abs@, r.rel@))
}

/// Sorted by relative path.
pub open spec fn sorted_by_rel(v: Seq<(Seq<char>, Seq<char>)>) -> bool {
    forall|i: int, k: int| 0 <= i < k < v.len() ==> !chars_lt(v[k].1, v[i].1)
}

/// Strictly ascending by relative path: sorted, and no relative path twice.
pub open spec fn strictly_sorted_by_rel(v: Seq<(Seq<char>, Seq<char>)>) -> bool {
    forall|i: int, k: int| 0 <= i < k < v.len() ==> chars_lt(v[i].1, v[k].1)
}

/// A copy of a repository.
fn copy_repo(r: &Repo) -> (c: Repo)
    ensures
        c.abs@ == r.abs@,
        c.rel@ == r.rel@,
{
    Repo { abs: r.abs.clone(), rel: r.rel.clone() }
}

/// `v` is `from` rearranged: `v[i]` is `from[perm[i]]`, each position of
/// `from` taken once, and entries with equal relative paths keep the order
/// they had in `from`.
pub open spec fn stable_arrangement(
    from: Seq<(Seq<char>, Seq<char>)>,
    v: Seq<(Seq<char>, Seq<char>)>,
    perm: Seq<int>,
) -> bool {
    &&& v.len() == from.len()
    &&& perm.len() == v.len()
    &&& forall|i: int| 0 <= i < v.len() ==> 0 <= #[trigger] perm[i] < from.len() && v[i] == from[perm[i]]
    &&& forall|i: int, k: int| #![trigger perm[i], perm[k]] 0 <= i < k < v.len() ==> perm[i] != perm[k]
    &&& forall|i: int, k: int|
        #![trigger perm[i], perm[k]]
        0 <= i < k < v.len() && v[i].1 == v[k].1 ==> perm[i] < perm[k]
}

/// `found` sorted by relative path; repositories with equal relative paths
/// keep their order.
pub fn sort_by_rel(found: &Vec<Repo>) -> (v: Vec<Repo>)
    ensures
        sorted_by_rel(repo_views(v@)),
        repo_views(v@).to_multiset() == repo_views(found@).to_multiset(),
        exists|perm: Seq<int>| stable_arrangement(repo_views(found@), repo_views(v@), perm),
{
    let mut v: Vec<Repo> = Vec::new();
    let mut t: usize = 0;
    let ghost fv = repo_views(found@);
    let ghost mut perm: Seq<int> = Seq::empty();
    assert(fv.take(0) =~= Seq::<(Seq<char>, Seq<char>)>::empty());
    assert(repo_views(v@) =~= fv.take(0));
    while t < found.len()
        invariant
            fv == repo_views(found@),
            t <= found@.len(),
            sorted_by_rel(repo_views(v@)),
            repo_views(v@).to_multiset() == fv.take(t as int).to_multiset(),
            perm.len() == v@.len(),
            v@.len() == t,
            forall|i: int|
                0 <= i < v@.len() ==> 0 <= #[trigger] perm[i] < t && repo_views(v@)[i] == fv[perm[i]],
            forall|i: int, k: int| #![trigger perm[i], perm[k]] 0 <= i < k < v@.len() ==> perm[i] != perm[k],
            forall|i: int, k: int|
                #![trigger perm[i], perm[k]]
                0 <= i < k < v@.len() && repo_views(v@)[i].1 == repo_views(v@)[k].1 ==> perm[i] < perm[k],
        decreases found@.len() - t,
    {
        let x = copy_repo(&found[t]);
        let xc = chars_of(x.rel.as_str());
        let mut p: usize = 0;
        while p < v.len() && !chars_less(xc.as_slice(), chars_of(v[p].rel.as_str()).as_slice())
            invariant
                p <= v@.len(),
                xc@ == x.rel@,
                forall|i: int| 0 <= i < p ==> !chars_lt(x.rel@, (#[trigger] v@[i]).rel@),
            decreases v@.len() - p,
        {
            p = p + 1;
        }
        let ghost old_v = repo_views(v@);
        let ghost xv = (x.abs@, x.rel@);
        proof {
            assert(fv[t as int] == xv);
            assert(fv.take(t + 1) =~= fv.take(t as int).push(xv));
            vstd::seq_lib::to_multiset_insert(old_v, p as int, xv);
            fv.take(t as int).to_multiset_ensures();
            old_v.insert_ensures(p as int, xv);
        }
        v.insert(p, x);
        assert(repo_views(v@) =~= old_v.insert(p as int, xv));
        proof {
            let nv = repo_views(v@);
            assert forall|i: int, k: int| 0 <= i < k < nv.len() implies !chars_lt(nv[k].1, nv[i].1) by {
                if k < p {
                } else if k == p {
                    assert(!chars_lt(xv.1, old_v[i].1));
                    lemma_chars_lt_total(xv.1, old_v[i].1);
                    if chars_lt(xv.1, old_v[i].1) {
                    } else if xv.1 == old_v[i].1 {
                        lemma_chars_lt_irreflexive(xv.1);
                    } else {
                        if chars_lt(nv[k].1, nv[i].1) {
                            lemma_chars_lt_transitive(old_v[i].1, xv.1, old_v[i].1);
                            lemma_chars_lt_irreflexive(old_v[i].1);
                        }
                    }
                } else if i < p {
                    assert(nv[k] == old_v[k - 1]);
                    assert(!chars_lt(xv.1, old_v[i].1));
                    assert(chars_lt(xv.1, old_v[p as int].1));
                    if chars_lt(nv[k].1, nv[i].1) {
                        // old_v[i] <= x < old_v[p] <= old_v[k - 1] < old_v[i]
                        lemma_chars_lt_total(xv.1, old_v[i].1);
                        if k - 1 > p {
                            lemma_chars_lt_total(old_v[k - 1].1, old_v[p as int].1);
                            if chars_lt(old_v[k - 1].1, old_v[p as int].1) {
                            } else if old_v[k - 1].1 == old_v[p as int].1 {
                            } else {
                                lemma_chars_lt_transitive(xv.1, old_v[p as int].1, old_v[k - 1].1);
                            }
                        }
                        if old_v[i].1 == xv.1 {
                            lemma_chars_lt_transitive(old_v[k - 1].1, old_v[i].1, old_v[k - 1].1);
                            lemma_chars_lt_irreflexive(old_v[k - 1].1);
                        } else {
                            lemma_chars_lt_transitive(old_v[i].1, xv.1, old_v[k - 1].1);
                            lemma_chars_lt_transitive(old_v[k - 1].1, old_v[i].1, old_v[k - 1].1);
                            lemma_chars_lt_irreflexive(old_v[k - 1].1);
                        }
                    }
                } else if i == p {
                    assert(nv[k] == old_v[k - 1]);
                    assert(chars_lt(xv.1, old_v[p as int].1));
                    if chars_lt(nv[k].1, nv[i].1) {
                        if k - 1 > p {
                            lemma_chars_lt_total(old_v[k - 1].1, old_v[p as int].1);
                            if old_v[k - 1].1 == old_v[p as int].1 {
                                lemma_chars_lt_transitive(xv.1, old_v[p as int].1, xv.1);
                                lemma_chars_lt_irreflexive(xv.1);
                            } else if !chars_lt(old_v[k - 1].1, old_v[p as int].1) {
                                lemma_chars_lt_transitive(xv.1, old_v[p as int].1, old_v[k - 1].1);
                                lemma_chars_lt_transitive(xv.1, old_v[k - 1].1, xv.1);
                                lemma_chars_lt_irreflexive(xv.1);
                            }
                        } else {
                            lemma_chars_lt_transitive(xv.1, old_v[p as int].1, xv.1);
                            lemma_chars_lt_irreflexive(xv.1);
                        }
                    }
                } else {
                    assert(nv[k] == old_v[k - 1]);
                    assert(nv[i] == old_v[i - 1]);
                }
            }
        }
        proof {
            let nv = repo_views(v@);
            let old_perm = perm;
            perm = old_perm.insert(p as int, t as int);
            old_perm.insert_ensures(p as int, t as int);
            assert forall|i: int| 0 <= i < nv.len() implies 0 <= #[trigger] perm[i] < t + 1
                && nv[i] == fv[perm[i]] by {
                if i < p {
                    assert(perm[i] == old_perm[i]);
                } else if i > p {
                    assert(perm[i] == old_perm[i - 1]);
                    assert(nv[i] == old_v[i - 1]);
                }
            }
            assert forall|i: int, k: int| #![trigger perm[i], perm[k]] 0 <= i < k < nv.len()
                implies perm[i] != perm[k] by {
                if i != p && k != p {
                    let oi = if i < p { i } else { i - 1 };
                    let ok = if k < p { k } else { k - 1 };
                    assert(perm[i] == old_perm[oi]);
                    assert(perm[k] == old_perm[ok]);
                    assert(old_perm[oi] != old_perm[ok]);
                } else if i == p {
                    assert(perm[k] == old_perm[k - 1]);
                } else {
                    assert(perm[i] == old_perm[i]);
                }
            }
            assert forall|i: int, k: int| #![trigger perm[i], perm[k]] 0 <= i < k < nv.len() && nv[i].1
                == nv[k].1 implies perm[i] < perm[k] by {
                if i != p && k != p {
                    let oi = if i < p { i } else { i - 1 };
                    let ok = if k < p { k } else { k - 1 };
                    assert(perm[i] == old_perm[oi]);
                    assert(perm[k] == old_perm[ok]);
                    assert(nv[i] == old_v[oi]);
                    assert(nv[k] == old_v[ok]);
                    assert(old_perm[oi] < old_perm[ok]);
                } else if k == p {
                    assert(perm[i] == old_perm[i]);
                } else {
                    // An entry after the inserted one has a strictly greater path.
                    assert(nv[k] == old_v[k - 1]);
                    assert(chars_lt(xv.1, old_v[p as int].1));
                    lemma_chars_lt_total(old_v[k - 1].1, old_v[p as int].1);
                    if old_v[k - 1].1 != old_v[p as int].1 {
                        if chars_lt(old_v[p as int].1, old_v[k - 1].1) {
                            lemma_chars_lt_transitive(xv.1, old_v[p as int].1, old_v[k - 1].1);
                        }
                    }
                    lemma_chars_lt_irreflexive(xv.1);
                }
            }
        }
        t = t + 1;
    }
    assert(fv.take(found@.len() as int) =~= fv);
    assert(stable_arrangement(fv, repo_views(v@), perm));
    v
}

/// A name a directory entry can have: not empty, no `/`, not `.`.
pub open spec fn plain_name(x: Seq<char>) -> bool {
    x.len() > 0 && !x.contains('/') && !is_dot(x)
}

pub open spec fn plain_names(ns: Seq<Seq<char>>) -> bool {
    forall|i: int| 0 <= i < ns.len() ==> plain_name(#[trigger] ns[i])
}

/// Splitting a path that ends in `/` leaves nothing being read.
proof fn lemma_split_scan_slash_end(s: Seq<char>)
    requires
        s.len() > 0,
        s.last() == '/',
    ensures
        split_scan(s) == (split_path(s.drop_last()), Seq::<char>::empty()),
{
}

/// Joining a plain name onto a path adds it as the last component.
proof fn lemma_components_joined(base: Seq<char>, x: Seq<char>)
    requires
        plain_name(x),
    ensures
        path_components(joined(base, x)) == path_components(base).push(x),
{
    assert(x[0] != '/') by {
        assert(x.contains(x[0]));
    }
    let e = Seq::<char>::empty();
    if base.len() == 0 {
        crate::root::lemma_split_scan_append(e, x);
        assert(e + x =~= x);
        assert(split_scan(e) == (Seq::<Seq<char>>::empty(), e));
        assert(split_path(x) =~= seq![x]);
        assert(without_dots(seq![x]) =~= seq![x]) by {
            assert(seq![x].drop_last() =~= Seq::<Seq<char>>::empty());
            assert(without_dots(Seq::<Seq<char>>::empty()) == Seq::<Seq<char>>::empty());
            assert(!is_dot(seq![x].last()));
        }
        assert(!seq!['.', '/'].is_prefix_of(x)) by {
            if seq!['.', '/'].is_prefix_of(x) {
                assert(x[1] == '/');
                assert(x.contains(x[1]));
            }
        }
        assert(x != seq!['.']);
        assert(split_path(e) =~= Seq::<Seq<char>>::empty());
        assert(path_components(base) =~= Seq::<Seq<char>>::empty());
        assert(path_components(joined(base, x)) =~= path_components(base).push(x));
    } else {
        let b2 = if base.last() == '/' {
            base
        } else {
            base.push('/')
        };
        assert(joined(base, x) == b2 + x);
        if base.last() == '/' {
            lemma_split_scan_slash_end(base);
            lemma_split_scan_slash_end(base);
            assert(split_path(base) == split_path(base.drop_last()));
        } else {
            assert(base.push('/').drop_last() =~= base);
            lemma_split_scan_slash_end(base.push('/'));
        }
        assert(split_scan(b2) == (split_path(base), e));
        crate::root::lemma_split_scan_append(b2, x);
        assert(e + x =~= x);
        let j = b2 + x;
        assert(split_path(j) == split_path(base).push(x));
        assert(without_dots(split_path(base).push(x)) == without_dots(split_path(base)).push(x)) by {
            assert(split_path(base).push(x).drop_last() =~= split_path(base));
        }
        assert(j[0] == base[0]);
        assert(is_absolute(j) == is_absolute(base));
        let cur_j = j == seq!['.'] || seq!['.', '/'].is_prefix_of(j);
        let cur_b = base == seq!['.'] || seq!['.', '/'].is_prefix_of(base);
        assert(cur_j == cur_b) by {
            assert(j.len() >= 2);
            if base.len() >= 2 {
                assert(j[1] == base[1]);
                if base == seq!['.'] {
                }
            } else if base[0] != '/' {
                assert(base.last() == base[0]);
                assert(j[1] == '/');
                if base[0] == '.' {
                    assert(base =~= seq!['.']);
                }
            }
        }
        assert(path_components(j) =~= path_components(base).push(x));
    }
}

/// Pushing plain names onto a path adds them as its last components.
proof fn lemma_components_pushed(base: Seq<char>, names: Seq<Seq<char>>)
    requires
        plain_names(names),
    ensures
        path_components(pushed(base, names)) == path_components(base) + names,
    decreases names.len(),
{
    if names.len() == 0 {
        assert(path_components(base) + names =~= path_components(base));
    } else {
        let init = names.drop_last();
        assert(plain_names(init)) by {
            assert forall|i: int| 0 <= i < init.len() implies plain_name(#[trigger] init[i]) by {
                assert(init[i] == names[i]);
            }
        }
        lemma_components_pushed(base, init);
        assert(plain_name(names[names.len() - 1]));
        lemma_components_joined(pushed(base, init), names.last());
        assert((path_components(base) + init).push(names.last()) =~= path_components(base)
            + names);
    }
}

/// Pushing plain names one by one is joining them, `/`-separated, at once.
proof fn lemma_pushed_is_joined(base: Seq<char>, names: Seq<Seq<char>>)
    requires
        plain_names(names),
        names.len() > 0,
    ensures
        pushed(base, names) == joined(base, join(names, '/')),
    decreases names.len(),
{
    let x = names.last();
    assert(plain_name(names[names.len() - 1]));
    assert(x[0] != '/') by {
        assert(x.contains(x[0]));
    }
    if names.len() == 1 {
        assert(names.drop_last() =~= Seq::<Seq<char>>::empty());
        assert(pushed(base, names.drop_last()) == base);
    } else {
        let init = names.drop_last();
        assert(plain_names(init)) by {
            assert forall|i: int| 0 <= i < init.len() implies plain_name(#[trigger] init[i]) by {
                assert(init[i] == names[i]);
            }
        }
        lemma_pushed_is_joined(base, init);
        assert(plain_name(init[0]));
        assert(plain_name(init[init.len() - 1]));
        crate::root::lemma_join_starts_with_first(init);
        crate::get::lemma_join_last(init);
        let ji = join(init, '/');
        assert(ji[0] != '/') by {
            assert(init[0].contains(init[0][0]));
        }
        assert(ji.last() != '/') by {
            assert(init.last().contains(init.last().last()));
        }
        let p = joined(base, ji);
        assert(p.len() > 0);
        assert(p.last() == ji.last());
        assert(pushed(base, names) == p.push('/') + x);
        assert(join(names, '/') == ji.push('/') + x);
        assert(joined(base, join(names, '/')) =~= p.push('/') + x);
    }
}

/// A directory reached from `root` through plain names is recorded with
/// those names, `/`-separated, as its path relative to the root.
proof fn lemma_relative_of_pushed(root: Seq<char>, names: Seq<Seq<char>>)
    requires
        plain_names(names),
        names.len() > 0,
    ensures
        relative_to(root, pushed(root, names)) == Some(join(names, '/')),
{
    lemma_components_pushed(root, names);
    let rc = path_components(root);
    let dc = rc + names;
    assert(rc.is_prefix_of(dc));
    assert(dc.skip(rc.len() as int) =~= names);
    assert(plain_name(names[0]));
    assert(names[0] != seq!['/']) by {
        if names[0] == seq!['/'] {
            assert(names[0][0] == '/');
            assert(names[0].contains(names[0][0]));
        }
    }
    crate::root::lemma_join_starts_with_first(names);
}

/// The root itself has no relative path.
proof fn lemma_relative_of_root(root: Seq<char>)
    ensures
        relative_to(root, root) is None,
{
    let rc = path_components(root);
    assert(rc.skip(rc.len() as int) =~= Seq::<Seq<char>>::empty());
}

/// A repository: a directory entry named `.git`.
pub open spec fn is_git_dir(e: Entry) -> bool {
    e.is_dir && e.name@ == dot_git()
}

/// Whether the listing holds a `.git` directory.
pub open spec fn has_git_dir(entries: Seq<Entry>) -> bool {
    exists|i: int| 0 <= i < entries.len() && is_git_dir(#[trigger] entries[i])
}

/// The paths of the directories in a listing of `dir`, in order.
pub open spec fn subdir_paths(dir: Seq<char>, entries: Seq<Entry>) -> Seq<Seq<char>>
    decreases entries.len(),
{
    if entries.len() == 0 {
        Seq::empty()
    } else if entries.last().is_dir {
        subdir_paths(dir, entries.drop_last()).push(joined(dir, entries.last().name@))
    } else {
        subdir_paths(dir, entries.drop_last())
    }
}

/// The walk's state: the root, the directories still to list, and the
/// repositories found.
pub struct Walk {
    root: String,
    stack: Vec<String>,
    found: Vec<Repo>,
}

pub struct WalkView {
    pub root: Seq<char>,
    pub stack: Seq<Seq<char>>,
    pub found: Seq<(Seq<char>, Seq<char>)>,
}

/// `d` is reached from `root` through directory names.
pub open spec fn reached(root: Seq<char>, d: Seq<char>) -> bool {
    exists|names: Seq<Seq<char>>| plain_names(names) && d == pushed(root, names)
}

/// The directories of a listing have names a directory can have (as
/// `read_dir` gives them: never empty, `.` or `..`, never holding `/`).
pub open spec fn plain_listing(entries: Seq<Entry>) -> bool {
    forall|i: int| 0 <= i < entries.len() && (#[trigger] entries[i]).is_dir ==> plain_name(entries[i].name@)
}

/// Each repository has a non-empty path relative to the root, and its
/// absolute path is the root joined with it.
pub open spec fn repo_paths_ok(root: Seq<char>, found: Seq<(Seq<char>, Seq<char>)>) -> bool {
    forall|i: int|
        0 <= i < found.len() ==> (#[trigger] found[i]).1.len() > 0 && found[i].0 == joined(
            root,
            found[i].1,
        )
}

impl WalkView {
    /// What a walk keeps: every directory still to list is reached from the
    /// root, and the repositories found so far have sound paths.
    pub open spec fn consistent(self) -> bool {
        &&& forall|i: int| 0 <= i < self.stack.len() ==> reached(self.root, #[trigger] self.stack[i])
        &&& repo_paths_ok(self.root, self.found)
    }
}

/// `b` is `a` or lies inside it: `a`'s components begin `b`'s.
pub open spec fn within(a: Seq<char>, b: Seq<char>) -> bool {
    path_components(a).is_prefix_of(path_components(b))
}

/// Neither of two directories lies inside the other (nor are they one).
pub open spec fn apart(a: Seq<char>, b: Seq<char>) -> bool {
    !within(a, b) && !within(b, a)
}

/// The names of the directories in a listing, in order.
pub open spec fn subdir_names(entries: Seq<Entry>) -> Seq<Seq<char>>
    decreases entries.len(),
{
    if entries.len() == 0 {
        Seq::empty()
    } else if entries.last().is_dir {
        subdir_names(entries.drop_last()).push(entries.last().name@)
    } else {
        subdir_names(entries.drop_last())
    }
}

/// The directories of a listing have distinct names (as `read_dir` gives
/// each entry once).
pub open spec fn distinct_dirs(entries: Seq<Entry>) -> bool {
    forall|i: int, j: int|
        #![trigger subdir_names(entries)[i], subdir_names(entries)[j]]
        0 <= i < j < subdir_names(entries).len() ==> subdir_names(entries)[i] != subdir_names(
            entries,
        )[j]
}

impl WalkView {
    /// The directories the walk holds: those still to list, then the
    /// repositories found.
    pub open spec fn dirs(self) -> Seq<Seq<char>> {
        self.stack + self.found.map_values(|f: (Seq<char>, Seq<char>)| f.0)
    }

    /// No directory the walk holds lies inside another it holds, so no
    /// directory is listed twice and no repository is found twice.
    pub open spec fn separate(self) -> bool {
        forall|i: int, j: int|
            #![trigger self.dirs()[i], self.dirs()[j]]
            0 <= i < j < self.dirs().len() ==> apart(self.dirs()[i], self.dirs()[j])
    }

    /// `d` lies apart from every directory the walk holds.
    pub open spec fn fresh(self, d: Seq<char>) -> bool {
        forall|i: int| 0 <= i < self.dirs().len() ==> apart(#[trigger] self.dirs()[i], d)
    }
}

/// The paths a listing queues are `dir` joined with its directories' names.
proof fn lemma_subdir_paths_names(dir: Seq<char>, entries: Seq<Entry>)
    ensures
        subdir_paths(dir, entries).len() == subdir_names(entries).len(),
        forall|k: int|
            0 <= k < subdir_paths(dir, entries).len() ==> #[trigger] subdir_paths(dir, entries)[k]
                == joined(dir, subdir_names(entries)[k]),
        plain_listing(entries) ==> plain_names(subdir_names(entries)),
    decreases entries.len(),
{
    if entries.len() > 0 {
        let init = entries.drop_last();
        let last = entries.len() - 1;
        assert(entries[last] == entries.last());
        if plain_listing(entries) {
            assert(plain_listing(init)) by {
                assert forall|i: int| 0 <= i < init.len() && (#[trigger] init[i]).is_dir implies plain_name(
                    init[i].name@,
                ) by {
                    assert(init[i] == entries[i]);
                }
            }
        }
        lemma_subdir_paths_names(dir, init);
        let sp = subdir_paths(dir, entries);
        let sn = subdir_names(entries);
        let si = subdir_paths(dir, init);
        let ni = subdir_names(init);
        if entries.last().is_dir {
            assert(sp == si.push(joined(dir, entries.last().name@)));
            assert(sn == ni.push(entries.last().name@));
            assert forall|k: int| 0 <= k < sp.len() implies #[trigger] sp[k] == joined(dir, sn[k]) by {
                if k < si.len() {
                    assert(sp[k] == si[k]);
                    assert(sn[k] == ni[k]);
                }
            }
            if plain_listing(entries) {
                assert forall|k: int| 0 <= k < sn.len() implies plain_name(#[trigger] sn[k]) by {
                    if k < ni.len() {
                        assert(sn[k] == ni[k]);
                    }
                }
            }
        } else {
            assert(sp == si);
            assert(sn == ni);
        }
    }
}

/// A prefix as long as the sequence is the sequence.
proof fn lemma_prefix_same_len(a: Seq<Seq<char>>, b: Seq<Seq<char>>)
    requires
        a.is_prefix_of(b),
        a.len() == b.len(),
    ensures
        a == b,
{
    assert(a =~= b);
}

/// The directories a listing queues lie apart from each other, and apart
/// from anything the listed directory lies apart from.
proof fn lemma_children_apart(dir: Seq<char>, entries: Seq<Entry>, x: Seq<char>)
    requires
        plain_listing(entries),
        distinct_dirs(entries),
    ensures
        forall|k1: int, k2: int|
            #![trigger subdir_paths(dir, entries)[k1], subdir_paths(dir, entries)[k2]]
            0 <= k1 < k2 < subdir_paths(dir, entries).len() ==> apart(
                subdir_paths(dir, entries)[k1],
                subdir_paths(dir, entries)[k2],
            ),
        apart(x, dir) ==> forall|k: int|
            0 <= k < subdir_paths(dir, entries).len() ==> apart(
                x,
                #[trigger] subdir_paths(dir, entries)[k],
            ),
{
    lemma_subdir_paths_names(dir, entries);
    let sp = subdir_paths(dir, entries);
    let sn = subdir_names(entries);
    let cd = path_components(dir);
    assert forall|k: int| 0 <= k < sp.len() implies path_components(#[trigger] sp[k]) == cd.push(
        sn[k],
    ) by {
        assert(plain_name(sn[k]));
        lemma_components_joined(dir, sn[k]);
    }
    assert forall|k1: int, k2: int|
        #![trigger sp[k1], sp[k2]]
        0 <= k1 < k2 < sp.len() implies apart(sp[k1], sp[k2]) by {
        let c1 = path_components(sp[k1]);
        let c2 = path_components(sp[k2]);
        assert(c1 == cd.push(sn[k1]));
        assert(c2 == cd.push(sn[k2]));
        assert(sn[k1] != sn[k2]);
        if c1.is_prefix_of(c2) {
            lemma_prefix_same_len(c1, c2);
            assert(c1.last() == c2.last());
        }
        if c2.is_prefix_of(c1) {
            lemma_prefix_same_len(c2, c1);
            assert(c1.last() == c2.last());
        }
    }
    if apart(x, dir) {
        let cx = path_components(x);
        assert forall|k: int| 0 <= k < sp.len() implies apart(x, #[trigger] sp[k]) by {
            let cc = path_components(sp[k]);
            assert(cc == cd.push(sn[k]));
            if cc.is_prefix_of(cx) {
                assert(cd.is_prefix_of(cx)) by {
                    assert forall|i: int| 0 <= i < cd.len() implies cd[i] == cx[i] by {
                        assert(cc[i] == cd[i]);
                    }
                }
            }
            if cx.is_prefix_of(cc) {
                if cx.len() == cc.len() {
                    lemma_prefix_same_len(cx, cc);
                    assert(cd.is_prefix_of(cx)) by {
                        assert forall|i: int| 0 <= i < cd.len() implies cd[i] == cx[i] by {
                            assert(cc[i] == cd[i]);
                        }
                    }
                } else {
                    assert(cx.is_prefix_of(cd)) by {
                        assert forall|i: int| 0 <= i < cx.len() implies cx[i] == cd[i] by {
                            assert(cc[i] == cd[i]);
                        }
                    }
                }
            }
        }
    }
}

/// Taking the last directory off the stack keeps the walk separate, and
/// leaves that directory apart from everything the walk still holds.
proof fn lemma_pop_separate(before: WalkView, after: WalkView)
    requires
        before.separate(),
        before.stack.len() > 0,
        after == (WalkView { stack: before.stack.drop_last(), ..before }),
    ensures
        after.separate(),
        after.fresh(before.stack.last()),
{
    let n = before.stack.len();
    let db = before.dirs();
    let da = after.dirs();
    let fd = before.found.map_values(|f: (Seq<char>, Seq<char>)| f.0);
    assert(db == before.stack + fd);
    assert(da == before.stack.drop_last() + fd);
    assert(da.len() + 1 == db.len());
    assert forall|i: int| 0 <= i < da.len() implies #[trigger] da[i] == if i < n - 1 {
        db[i]
    } else {
        db[i + 1]
    } by {}
    assert(db[n - 1] == before.stack.last());
    assert forall|i: int, j: int| #![trigger da[i], da[j]] 0 <= i < j < da.len() implies apart(
        da[i],
        da[j],
    ) by {
        let oi = if i < n - 1 {
            i
        } else {
            i + 1
        };
        let oj = if j < n - 1 {
            j
        } else {
            j + 1
        };
        assert(da[i] == db[oi]);
        assert(da[j] == db[oj]);
        assert(apart(db[oi], db[oj]));
    }
    assert forall|i: int| 0 <= i < da.len() implies apart(#[trigger] da[i], before.stack.last()) by {
        if i < n - 1 {
            assert(da[i] == db[i]);
            assert(apart(db[i], db[n - 1]));
        } else {
            assert(da[i] == db[i + 1]);
            assert(apart(db[n - 1], db[i + 1]));
        }
    }
}

/// Visiting a directory that lies apart from everything the walk holds,
/// with a listing of distinct plain names, keeps the walk separate.
proof fn lemma_visit_separate(before: WalkView, after: WalkView, dir: Seq<char>, entries: Seq<Entry>)
    requires
        before.separate(),
        before.fresh(dir),
        plain_listing(entries),
        distinct_dirs(entries),
        after.root == before.root,
        has_git_dir(entries) ==> after.stack == before.stack && after.found == match relative_to(
            before.root,
            dir,
        ) {
            Some(rel) => before.found.push((dir, rel)),
            None => before.found,
        },
        !has_git_dir(entries) ==> after.found == before.found && after.stack == before.stack
            + subdir_paths(dir, entries),
    ensures
        after.separate(),
{
    let db = before.dirs();
    let da = after.dirs();
    let fd = before.found.map_values(|f: (Seq<char>, Seq<char>)| f.0);
    assert(db == before.stack + fd);
    if has_git_dir(entries) {
        match relative_to(before.root, dir) {
            Some(rel) => {
                let fa = after.found.map_values(|f: (Seq<char>, Seq<char>)| f.0);
                assert(fa =~= fd.push(dir));
                assert(da =~= db.push(dir));
                assert forall|i: int, j: int| #![trigger da[i], da[j]] 0 <= i < j < da.len() implies apart(
                    da[i],
                    da[j],
                ) by {
                    assert(da[i] == db[i]);
                    if j < db.len() {
                        assert(da[j] == db[j]);
                    } else {
                        assert(da[j] == dir);
                        assert(apart(db[i], dir));
                    }
                }
            },
            None => {
                assert(da =~= db);
            },
        }
    } else {
        let sp = subdir_paths(dir, entries);
        let s = before.stack.len();
        let m = sp.len();
        assert(da =~= before.stack + sp + fd);
        assert forall|i: int| 0 <= i < da.len() implies #[trigger] da[i] == if i < s {
            db[i]
        } else if i < s + m {
            sp[i - s]
        } else {
            db[i - m]
        } by {}
        lemma_children_apart(dir, entries, dir);
        assert forall|i: int, j: int| #![trigger da[i], da[j]] 0 <= i < j < da.len() implies apart(
            da[i],
            da[j],
        ) by {
            let i_new = s <= i < s + m;
            let j_new = s <= j < s + m;
            if i_new && j_new {
                assert(apart(sp[i - s], sp[j - s]));
            } else if !i_new && !j_new {
                let oi = if i < s {
                    i
                } else {
                    i - m
                };
                let oj = if j < s {
                    j
                } else {
                    j - m
                };
                assert(da[i] == db[oi]);
                assert(da[j] == db[oj]);
                assert(apart(db[oi], db[oj]));
            } else if i_new {
                let oj = j - m;
                assert(da[j] == db[oj]);
                assert(apart(db[oj], dir));
                lemma_children_apart(dir, entries, db[oj]);
                assert(apart(db[oj], sp[i - s]));
            } else {
                assert(da[i] == db[i]);
                assert(apart(db[i], dir));
                lemma_children_apart(dir, entries, db[i]);
                assert(apart(db[i], sp[j - s]));
            }
        }
    }
}

/// A reached directory stays reached one name further down.
proof fn lemma_reached_child(root: Seq<char>, d: Seq<char>, x: Seq<char>)
    requires
        reached(root, d),
        plain_name(x),
    ensures
        reached(root, joined(d, x)),
{
    let names = choose|names: Seq<Seq<char>>| plain_names(names) && d == pushed(root, names);
    let more = names.push(x);
    assert(more.drop_last() =~= names);
    assert(plain_names(more)) by {
        assert forall|i: int| 0 <= i < more.len() implies plain_name(#[trigger] more[i]) by {
            if i < names.len() {
                assert(more[i] == names[i]);
            }
        }
    }
    assert(joined(d, x) == pushed(root, more));
}

/// The directories a listing of a reached directory queues are reached.
proof fn lemma_subdirs_reached(root: Seq<char>, dir: Seq<char>, entries: Seq<Entry>)
    requires
        reached(root, dir),
        plain_listing(entries),
    ensures
        forall|k: int|
            0 <= k < subdir_paths(dir, entries).len() ==> reached(
                root,
                #[trigger] subdir_paths(dir, entries)[k],
            ),
    decreases entries.len(),
{
    if entries.len() > 0 {
        let init = entries.drop_last();
        let last = entries.len() - 1;
        assert(plain_listing(init)) by {
            assert forall|i: int| 0 <= i < init.len() && (#[trigger] init[i]).is_dir implies plain_name(
                init[i].name@,
            ) by {
                assert(init[i] == entries[i]);
            }
        }
        lemma_subdirs_reached(root, dir, init);
        let sp = subdir_paths(dir, entries);
        let si = subdir_paths(dir, init);
        assert(entries[last] == entries.last());
        if entries.last().is_dir {
            assert(sp == si.push(joined(dir, entries.last().name@)));
            assert(plain_name(entries[last].name@));
            lemma_reached_child(root, dir, entries.last().name@);
            assert forall|k: int| 0 <= k < sp.len() implies reached(root, #[trigger] sp[k]) by {
                if k < si.len() {
                    assert(sp[k] == si[k]);
                }
            }
        } else {
            assert(sp == si);
        }
    }
}

/// What a repository found at a reached directory is recorded with.
proof fn lemma_found_paths(root: Seq<char>, dir: Seq<char>)
    requires
        reached(root, dir),
    ensures
        relative_to(root, dir) matches Some(rel) ==> rel.len() > 0 && dir == joined(root, rel),
{
    let names = choose|names: Seq<Seq<char>>| plain_names(names) && dir == pushed(root, names);
    if names.len() == 0 {
        lemma_relative_of_root(root);
    } else {
        lemma_relative_of_pushed(root, names);
        lemma_pushed_is_joined(root, names);
        assert(plain_name(names[0]));
        crate::root::lemma_join_starts_with_first(names);
    }
}

/// Visiting a reached directory with a listing of plain names keeps a walk
/// consistent.
proof fn lemma_visit_consistent(
    before: WalkView,
    after: WalkView,
    dir: Seq<char>,
    entries: Seq<Entry>,
)
    requires
        before.consistent(),
        reached(before.root, dir),
        plain_listing(entries),
        after.root == before.root,
        has_git_dir(entries) ==> after.stack == before.stack && after.found == match relative_to(
            before.root,
            dir,
        ) {
            Some(rel) => before.found.push((dir, rel)),
            None => before.found,
        },
        !has_git_dir(entries) ==> after.found == before.found && after.stack == before.stack
            + subdir_paths(dir, entries),
    ensures
        after.consistent(),
{
    let root = before.root;
    if has_git_dir(entries) {
        lemma_found_paths(root, dir);
        assert forall|i: int| 0 <= i < after.found.len() implies (#[trigger] after.found[i]).1.len()
            > 0 && after.found[i].0 == joined(root, after.found[i].1) by {
            if i < before.found.len() {
                assert(after.found[i] == before.found[i]);
            }
        }
    } else {
        lemma_subdirs_reached(root, dir, entries);
        let sp = subdir_paths(dir, entries);
        assert forall|i: int| 0 <= i < after.stack.len() implies reached(root, #[trigger] after.stack[i]) by {
            if i < before.stack.len() {
                assert(after.stack[i] == before.stack[i]);
            } else {
                let k = i - before.stack.len();
                assert(after.stack[i] == sp[k]);
            }
        }
    }
}

impl View for Walk {
    type V = WalkView;

    closed spec fn view(&self) -> WalkView {
        WalkView {
            root: self.root@,
            stack: crate::target::string_views(self.stack@),
            found: repo_views(self.found@),
        }
    }
}

impl Walk {
    /// A walk that starts at `root`.
    pub fn new(root: &str) -> (w: Walk)
        ensures
            w@.root == root@,
            w@.stack == seq![root@],
            w@.found.len() == 0,
            w@.consistent(),
            w@.separate(),
    {
        let mut stack: Vec<String> = Vec::new();
        stack.push(String::from_str(root));
        let w = Walk { root: String::from_str(root), stack, found: Vec::new() };
        assert(w@.stack =~= seq![root@]);
        proof {
            let none = Seq::<Seq<char>>::empty();
            assert(pushed(root@, none) == root@);
            assert(plain_names(none));
            assert(reached(root@, w@.stack[0]));
            assert(w@.dirs().len() == 1);
        }
        w
    }

    /// The next directory to list, taken off the stack; none when the walk
    /// is over.
    pub fn next_dir(&mut self) -> (d: Option<String>)
        ensures
            old(self)@.stack.len() == 0 ==> d is None && final(self)@ == old(self)@,
            old(self)@.stack.len() > 0 ==> (d matches Some(s) && s@ == old(self)@.stack.last())
                && final(self)@ == (WalkView {
                stack: old(self)@.stack.drop_last(),
                ..old(self)@
            }),
            old(self)@.consistent() ==> final(self)@.consistent() && (d matches Some(s) ==> reached(
                old(self)@.root,
                s@,
            )),
            old(self)@.separate() ==> final(self)@.separate() && (d matches Some(s)
                ==> final(self)@.fresh(s@)),
    {
        let ghost before = self.stack@;
        let d = self.stack.pop();
        proof {
            if before.len() > 0 {
                assert(crate::target::string_views(self.stack@) =~= crate::target::string_views(
                    before,
                ).drop_last());
                let sv = crate::target::string_views(before);
                assert(sv.last() == sv[sv.len() - 1]);
                assert forall|i: int| 0 <= i < sv.drop_last().len() implies #[trigger] sv.drop_last()[i]
                    == sv[i] by {}
            }
        }
        proof {
            let ghost_before = WalkView {
                root: self@.root,
                stack: crate::target::string_views(before),
                found: self@.found,
            };
            if before.len() > 0 && ghost_before.separate() {
                lemma_pop_separate(ghost_before, self@);
            }
        }
        d
    }

    fn visit_listing(&mut self, dir: &str, entries: &Vec<Entry>)
        ensures
            final(self)@.root == old(self)@.root,
            has_git_dir(entries@) ==> final(self)@.stack == old(self)@.stack && final(self)@.found
                == match relative_to(old(self)@.root, dir@) {
                Some(rel) => old(self)@.found.push((dir@, rel)),
                None => old(self)@.found,
            },
            !has_git_dir(entries@) ==> final(self)@.found == old(self)@.found
                && final(self)@.stack == old(self)@.stack + subdir_paths(dir@, entries@),
    {
        let git = vec!['.', 'g', 'i', 't'];
        assert(git@ =~= dot_git());
        let mut subdirs: Vec<String> = Vec::new();
        let mut is_repo = false;
        let mut i: usize = 0;
        assert(entries@.take(0) =~= Seq::<Entry>::empty());
        while i < entries.len() && !is_repo
            invariant
                git@ == dot_git(),
                i <= entries@.len(),
                is_repo ==> has_git_dir(entries@),
                !is_repo ==> forall|j: int| 0 <= j < i ==> !is_git_dir(#[trigger] entries@[j]),
                !is_repo ==> crate::target::string_views(subdirs@) == subdir_paths(
                    dir@,
                    entries@.take(i as int),
                ),
            decreases entries@.len() - i,
        {
            let e = &entries[i];
            let ghost t = entries@.take(i + 1);
            assert(t.drop_last() =~= entries@.take(i as int));
            assert(t.last() == entries@[i as int]);
            // The caller's entry kinds do not follow links, so symlinks
            // drop out here.
            if e.is_dir {
                let name = chars_of(e.name.as_str());
                if same_chars(name.as_slice(), git.as_slice()) {
                    assert(is_git_dir(entries@[i as int]));
                    is_repo = true;
                } else {
                    let ghost before = subdirs@;
                    let path = path_join(dir, e.name.as_str());
                    subdirs.push(path);
                    assert(crate::target::string_views(subdirs@) =~= crate::target::string_views(
                        before,
                    ).push(joined(dir@, e.name@)));
                }
            }
            i = i + 1;
        }
        if is_repo {
            // Do not look inside the repository.
            match relative(self.root.as_str(), dir) {
                Some(rel) => {
                    let ghost before = self.found@;
                    self.found.push(Repo { abs: String::from_str(dir), rel });
                    assert(repo_views(self.found@) =~= repo_views(before).push(
                        (dir@, relative_to(self.root@, dir@)->0),
                    ));
                },
                None => {},
            }
        } else {
            assert(entries@.take(entries@.len() as int) =~= entries@);
            assert(!has_git_dir(entries@));
            let ghost before = self.stack@;
            let ghost root0 = self.root@;
            let ghost found0 = self.found@;
            let mut k: usize = 0;
            assert(crate::target::string_views(subdirs@).take(0) =~= Seq::<Seq<char>>::empty());
            assert(crate::target::string_views(before) + Seq::<Seq<char>>::empty()
                =~= crate::target::string_views(before));
            while k < subdirs.len()
                invariant
                    self.root@ == root0,
                    self.found@ == found0,
                    k <= subdirs@.len(),
                    crate::target::string_views(self.stack@) == crate::target::string_views(
                        before,
                    ) + crate::target::string_views(subdirs@).take(k as int),
                decreases subdirs@.len() - k,
            {
                let ghost prev = self.stack@;
                let p = subdirs[k].clone();
                self.stack.push(p);
                assert(crate::target::string_views(self.stack@) =~= crate::target::string_views(
                    prev,
                ).push(subdirs@[k as int]@));
                assert(crate::target::string_views(subdirs@).take(k + 1) =~= crate::target::string_views(
                    subdirs@,
                ).take(k as int).push(subdirs@[k as int]@));
                assert(crate::target::string_views(self.stack@) =~= crate::target::string_views(
                    before,
                ) + crate::target::string_views(subdirs@).take(k + 1));
                k = k + 1;
            }
            assert(crate::target::string_views(subdirs@).take(subdirs@.len() as int)
                =~= crate::target::string_views(subdirs@));
        }
    }

    /// Takes in the listing of `dir`: a directory holding a `.git`
    /// directory is recorded as a repository (unless it is the root) and
    /// not descended into; otherwise its subdirectories are queued.
    pub fn visit(&mut self, dir: &str, entries: &Vec<Entry>)
        ensures
            final(self)@.root == old(self)@.root,
            has_git_dir(entries@) ==> final(self)@.stack == old(self)@.stack && final(self)@.found
                == match relative_to(old(self)@.root, dir@) {
                Some(rel) => old(self)@.found.push((dir@, rel)),
                None => old(self)@.found,
            },
            !has_git_dir(entries@) ==> final(self)@.found == old(self)@.found
                && final(self)@.stack == old(self)@.stack + subdir_paths(dir@, entries@),
            old(self)@.consistent() && reached(old(self)@.root, dir@) && plain_listing(entries@)
                ==> final(self)@.consistent(),
            old(self)@.separate() && old(self)@.fresh(dir@) && plain_listing(entries@)
                && distinct_dirs(entries@) ==> final(self)@.separate(),
    {
        let ghost before = self@;
        self.visit_listing(dir, entries);
        proof {
            if before.consistent() && reached(before.root, dir@) && plain_listing(entries@) {
                lemma_visit_consistent(before, self@, dir@, entries@);
            }
            if before.separate() && before.fresh(dir@) && plain_listing(entries@) && distinct_dirs(
                entries@,
            ) {
                lemma_visit_separate(before, self@, dir@, entries@);
            }
        }
    }

    /// The repositories found, sorted by relative path (equal paths in the
    /// order they were found).
    pub fn finish(self) -> (v: Vec<Repo>)
        ensures
            sorted_by_rel(repo_views(v@)),
            repo_views(v@).to_multiset() == self@.found.to_multiset(),
            exists|perm: Seq<int>| stable_arrangement(self@.found, repo_views(v@), perm),
            self@.consistent() ==> repo_paths_ok(self@.root, repo_views(v@)),
            self@.consistent() && self@.separate() ==> strictly_sorted_by_rel(repo_views(v@)),
    {
        let v = sort_by_rel(&self.found);
        proof {
            let perm = choose|perm: Seq<int>|
                stable_arrangement(repo_views(self.found@), repo_views(v@), perm);
            assert(stable_arrangement(self@.found, repo_views(v@), perm));
            if self@.consistent() && self@.separate() {
                let fv = self@.found;
                let dd = self@.dirs();
                let n = self@.stack.len();
                assert forall|a: int, b: int| 0 <= a < fv.len() && 0 <= b < fv.len() && a != b implies (
                #[trigger] fv[a]).1 != (#[trigger] fv[b]).1 by {
                    assert(dd[n + a] == fv[a].0);
                    assert(dd[n + b] == fv[b].0);
                    if a < b {
                        assert(apart(dd[n + a], dd[n + b]));
                    } else {
                        assert(apart(dd[n + b], dd[n + a]));
                    }
                    assert(within(fv[a].0, fv[a].0));
                }
                let rv = repo_views(v@);
                assert forall|i: int, k: int| 0 <= i < k < rv.len() implies chars_lt(
                    rv[i].1,
                    rv[k].1,
                ) by {
                    assert(rv[i] == fv[perm[i]]);
                    assert(rv[k] == fv[perm[k]]);
                    assert(perm[i] != perm[k]);
                    lemma_chars_lt_total(rv[i].1, rv[k].1);
                }
            }
            if self@.consistent() {
                let rv = repo_views(v@);
                assert forall|i: int| 0 <= i < rv.len() implies (#[trigger] rv[i]).1.len() > 0
                    && rv[i].0 == joined(self@.root, rv[i].1) by {
                    assert(rv[i] == self@.found[perm[i]]);
                }
            }
        }
        v
    }
}

} // verus!
