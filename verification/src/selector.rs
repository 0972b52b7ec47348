//! The interactive selector's state machine: query editing, filtering and
//! ranking, cursor movement, and what each row shows.

use nucleo_matcher::pattern::{CaseMatching, Normalization, Pattern};
use nucleo_matcher::{Config, Matcher, Utf32Str};
use unicode_segmentation::UnicodeSegmentation;
use unicode_width::UnicodeWidthChar;
use vstd::prelude::*;

use crate::scan::Repo;
use crate::target::string_views;
use crate::text::string_of;

verus! {

#[verifier::external_type_specification]
#[verifier::external_body]
pub struct ExMatcher(Matcher);

/// Score and match positions that nucleo's pattern matching gives `query`
/// against `haystack` (pattern parsed with smart case and smart
/// normalisation, matcher configured for paths).
pub uninterp spec fn path_match(query: Seq<char>, haystack: Seq<char>) -> Option<(u32, Seq<u32>)>;

/// Display width of a character in columns (`UnicodeWidthChar::width`).
pub uninterp spec fn display_width(c: char) -> Option<usize>;

/// The extended grapheme clusters of a text, in order
/// (`UnicodeSegmentation::grapheme_indices(s, true)`, offsets dropped).
pub uninterp spec fn extended_graphemes(s: Seq<char>) -> Seq<Seq<char>>;

/// A matcher configured for paths (`Matcher::new` with
/// `Config::DEFAULT.match_paths()`).
#[verifier::external_body]
fn new_path_matcher() -> Matcher {
    Matcher::new(Config::DEFAULT.match_paths())
}

/// `Pattern::indices` of `query` (parsed by `Pattern::parse` with smart case
/// and smart normalisation) against `haystack` (as `Utf32Str::new` holds it),
/// with a fresh indices vector. The matcher's configuration is reset to the
/// path configuration first, so that nothing but the two texts decides the
/// result; its scratch memory does not. Claims that the score and the
/// positions are `path_match` of the two texts.
#[verifier::external_body]
fn match_indices(query: &str, haystack: &str, matcher: &mut Matcher) -> (r: Option<(u32, Vec<u32>)>)
    ensures
        match r {
            Some((score, positions)) => path_match(query@, haystack@) == Some((score, positions@)),
            None => path_match(query@, haystack@) is None,
        },
{
    matcher.config = Config::DEFAULT.match_paths();
    let pattern = Pattern::parse(query, CaseMatching::Smart, Normalization::Smart);
    let mut buf = Vec::new();
    let mut positions = Vec::new();
    match pattern.indices(Utf32Str::new(haystack, &mut buf), matcher, &mut positions) {
        Some(score) => Some((score, positions)),
        None => None,
    }
}

/// `UnicodeWidthChar::width`. Claims only that the result is
/// `display_width` of the character (a function of it alone: the crate's
/// lookup tables); what the tables hold is not stated.
#[verifier::external_body]
fn char_width(c: char) -> (w: Option<usize>)
    ensures
        w == display_width(c),
{
    UnicodeWidthChar::width(c)
}

/// The concatenation of `parts`.
pub open spec fn concat(parts: Seq<Seq<char>>) -> Seq<char>
    decreases parts.len(),
{
    if parts.len() == 0 {
        Seq::empty()
    } else {
        concat(parts.drop_last()) + parts.last()
    }
}

/// `UnicodeSegmentation::grapheme_indices(s, true)`, each cluster copied out.
/// Claims that the clusters are `extended_graphemes(s)`, that none is empty
/// and that together, in order, they are `s` (the iterator walks `s` from
/// start to end).
#[verifier::external_body]
fn graphemes(s: &str) -> (g: Vec<String>)
    ensures
        string_views(g@) == extended_graphemes(s@),
        concat(string_views(g@)) == s@,
        forall|i: int| 0 <= i < g@.len() ==> (#[trigger] g@[i])@.len() > 0,
{
    s.grapheme_indices(true).map(|(_, g)| String::from(g)).collect()
}

/// `v` is strictly increasing and holds the same values as `raw`.
pub open spec fn sorted_set_of(v: Seq<u32>, raw: Seq<u32>) -> bool {
    &&& forall|i: int, k: int| 0 <= i < k < v.len() ==> v[i] < v[k]
    &&& forall|x: u32| v.contains(x) <==> raw.contains(x)
}

/// `raw` sorted with duplicates removed.
fn sort_dedup(raw: &Vec<u32>) -> (v: Vec<u32>)
    ensures
        sorted_set_of(v@, raw@),
{
    let mut v: Vec<u32> = Vec::new();
    let mut t: usize = 0;
    while t < raw.len()
        invariant
            t <= raw@.len(),
            forall|i: int, k: int| 0 <= i < k < v@.len() ==> v@[i] < v@[k],
            forall|x: u32| v@.contains(x) <==> raw@.take(t as int).contains(x),
        decreases raw@.len() - t,
    {
        let x = raw[t];
        let mut p: usize = 0;
        while p < v.len() && v[p] < x
            invariant
                p <= v@.len(),
                forall|i: int| 0 <= i < p ==> v@[i] < x,
            decreases v@.len() - p,
        {
            p = p + 1;
        }
        let ghost old_v = v@;
        assert(raw@.take(t + 1) =~= raw@.take(t as int).push(x));
        if p < v.len() && v[p] == x {
            assert forall|y: u32| v@.contains(y) <==> raw@.take(t + 1).contains(y) by {
                if raw@.take(t + 1).contains(y) && y != x {
                    let k = choose|k: int| 0 <= k < t + 1 && #[trigger] raw@.take(t + 1)[k] == y;
                    assert(raw@.take(t as int)[k] == y);
                }
                if y == x {
                    assert(raw@.take(t + 1)[t as int] == x);
                }
                if v@.contains(y) {
                    assert(raw@.take(t as int).contains(y));
                    let k = choose|k: int| 0 <= k < t && #[trigger] raw@.take(t as int)[k] == y;
                    assert(raw@.take(t + 1)[k] == y);
                }
            }
        } else {
            v.insert(p, x);
            proof {
                old_v.insert_ensures(p as int, x);
                assert forall|i: int, k: int| 0 <= i < k < v@.len() implies v@[i] < v@[k] by {
                    if k < p {
                    } else if k == p {
                    } else if i < p {
                        assert(v@[k] == old_v[k - 1]);
                        if p < old_v.len() {
                            assert(old_v[p as int] > x);
                        }
                    } else if i == p {
                        assert(v@[k] == old_v[k - 1]);
                        assert(old_v[p as int] > x);
                        if k - 1 > p {
                            assert(old_v[p as int] < old_v[k - 1]);
                        }
                    } else {
                        assert(v@[k] == old_v[k - 1]);
                        assert(v@[i] == old_v[i - 1]);
                    }
                }
                assert forall|y: u32| v@.contains(y) <==> raw@.take(t + 1).contains(y) by {
                    if v@.contains(y) {
                        let k = choose|k: int| 0 <= k < v@.len() && #[trigger] v@[k] == y;
                        if k < p {
                            assert(old_v[k] == y);
                        } else if k > p {
                            assert(old_v[k - 1] == y);
                        }
                        if y != x {
                            assert(old_v.contains(y));
                            let m = choose|m: int| 0 <= m < t && #[trigger] raw@.take(t as int)[m] == y;
                            assert(raw@.take(t + 1)[m] == y);
                        } else {
                            assert(raw@.take(t + 1)[t as int] == x);
                        }
                    }
                    if raw@.take(t + 1).contains(y) {
                        if y == x {
                            assert(v@[p as int] == x);
                        } else {
                            let m = choose|m: int| 0 <= m < t + 1 && #[trigger] raw@.take(t + 1)[m] == y;
                            assert(raw@.take(t as int)[m] == y);
                            assert(old_v.contains(y));
                            let k = choose|k: int| 0 <= k < old_v.len() && #[trigger] old_v[k] == y;
                            if k < p {
                                assert(v@[k] == y);
                            } else {
                                assert(v@[k + 1] == y);
                            }
                        }
                    }
                }
            }
        }
        t = t + 1;
    }
    assert(raw@.take(raw@.len() as int) =~= raw@);
    v
}

/// One filtered entry: which repository, and the positions of the query's
/// matched characters (grapheme positions) in its relative path.
pub struct Hit {
    pub index: usize,
    pub indices: Vec<u32>,
}

/// The relative paths of the repositories.
pub open spec fn rels(repos: Seq<Repo>) -> Seq<Seq<char>> {
    repos.map_values(|r: Repo| r.rel@)
}

/// Match results as plain values: per repository, the score and the raw
/// match positions, or nothing when the query does not match it.
pub open spec fn match_views(ms: Seq<Option<(u32, Vec<u32>)>>) -> Seq<Option<(u32, Seq<u32>)>> {
    ms.map_values(
        |m: Option<(u32, Vec<u32>)>|
            match m {
                Some((score, positions)) => Some((score, positions@)),
                None => None,
            },
    )
}

/// What matching `query` gives for each of the repositories.
pub open spec fn matches_for(query: Seq<char>, rels: Seq<Seq<char>>) -> Seq<
    Option<(u32, Seq<u32>)>,
> {
    Seq::new(rels.len(), |j: int| path_match(query, rels[j]))
}

/// Score of a matched repository.
pub open spec fn score_of(ms: Seq<Option<(u32, Seq<u32>)>>, index: int) -> u32 {
    (ms[index]->0).0
}

/// Ranking: higher scores first; equal scores keep the repositories' order.
pub open spec fn ranks_before(score_a: u32, index_a: int, score_b: u32, index_b: int) -> bool {
    score_a > score_b || (score_a == score_b && index_a < index_b)
}

/// `hit` names a matched repository, with that match's positions sorted
/// and without duplicates.
pub open spec fn is_match_hit(ms: Seq<Option<(u32, Seq<u32>)>>, hit: Hit) -> bool {
    &&& hit.index < ms.len()
    &&& ms[hit.index as int] is Some
    &&& sorted_set_of(hit.indices@, (ms[hit.index as int]->0).1)
}

/// The list for match results `ms`: exactly the matched repositories,
/// highest score first and ties in the repositories' order.
pub open spec fn ranked(ms: Seq<Option<(u32, Seq<u32>)>>, hits: Seq<Hit>) -> bool {
    &&& forall|i: int| 0 <= i < hits.len() ==> is_match_hit(ms, #[trigger] hits[i])
    &&& forall|j: int|
        0 <= j < ms.len() && (#[trigger] ms[j]) is Some ==> exists|i: int|
            0 <= i < hits.len() && (#[trigger] hits[i]).index == j
    &&& forall|i: int, k: int|
        0 <= i < k < hits.len() ==> ranks_before(
            score_of(ms, hits[i].index as int),
            hits[i].index as int,
            score_of(ms, hits[k].index as int),
            hits[k].index as int,
        )
}

/// The entries the selector lists for `query`: every repository, in order,
/// while the query is empty; otherwise the repositories ranked by what
/// matching the query gives for them.
pub open spec fn hits_for(query: Seq<char>, rels: Seq<Seq<char>>, hits: Seq<Hit>) -> bool {
    if query.len() == 0 {
        &&& hits.len() == rels.len()
        &&& forall|i: int| 0 <= i < hits.len() ==> (#[trigger] hits[i]).index == i
            && hits[i].indices@.len() == 0
    } else {
        ranked(matches_for(query, rels), hits)
    }
}

/// Ranks repositories by their match results (see `ranked`): score
/// descending, ties in the repositories' order, match positions sorted and
/// deduplicated.
pub fn rank_matches(ms: &Vec<Option<(u32, Vec<u32>)>>) -> (hits: Vec<Hit>)
    ensures
        ranked(match_views(ms@), hits@),
{
    let ghost mv = match_views(ms@);
    let n = ms.len();
    let mut hits: Vec<Hit> = Vec::new();
    let mut scores: Vec<u32> = Vec::new();
    let mut j: usize = 0;
    while j < n
        invariant
            n == ms@.len(),
            mv == match_views(ms@),
            j <= n,
            scores@.len() == hits@.len(),
            forall|i: int|
                0 <= i < hits@.len() ==> is_match_hit(mv, #[trigger] hits@[i]) && hits@[i].index < j
                    && scores@[i] == score_of(mv, hits@[i].index as int),
            forall|jj: int|
                0 <= jj < j && (#[trigger] mv[jj]) is Some ==> exists|i: int|
                    0 <= i < hits@.len() && (#[trigger] hits@[i]).index == jj,
            forall|i: int, k: int|
                0 <= i < k < hits@.len() ==> ranks_before(
                    scores@[i],
                    hits@[i].index as int,
                    scores@[k],
                    hits@[k].index as int,
                ),
        decreases n - j,
    {
        match &ms[j] {
            Some((score, raw)) => {
                let score = *score;
                assert(mv[j as int] == Some((score, raw@)));
                let indices = sort_dedup(raw);
                let mut p: usize = 0;
                while p < scores.len() && scores[p] >= score
                    invariant
                        p <= scores@.len(),
                        forall|i: int| 0 <= i < p ==> scores@[i] >= score,
                    decreases scores@.len() - p,
                {
                    p = p + 1;
                }
                let ghost old_scores = scores@;
                let ghost old_hits = hits@;
                let hit = Hit { index: j, indices };
                assert(is_match_hit(mv, hit));
                scores.insert(p, score);
                hits.insert(p, hit);
                proof {
                    old_scores.insert_ensures(p as int, score);
                    old_hits.insert_ensures(p as int, hit);
                    assert forall|i: int| 0 <= i < hits@.len() implies is_match_hit(
                        mv,
                        #[trigger] hits@[i],
                    ) && hits@[i].index < j + 1 && scores@[i] == score_of(
                        mv,
                        hits@[i].index as int,
                    ) by {
                        if i > p {
                            assert(hits@[i] == old_hits[i - 1]);
                            assert(scores@[i] == old_scores[i - 1]);
                        }
                    }
                    assert forall|jj: int| 0 <= jj < j + 1 && (#[trigger] mv[jj]) is Some implies exists|
                        i: int,
                    | 0 <= i < hits@.len() && (#[trigger] hits@[i]).index == jj by {
                        if jj == j {
                            assert(hits@[p as int].index == jj);
                        } else {
                            let i = choose|i: int|
                                0 <= i < old_hits.len() && (#[trigger] old_hits[i]).index == jj;
                            if i < p {
                                assert(hits@[i].index == jj);
                            } else {
                                assert(hits@[i + 1].index == jj);
                            }
                        }
                    }
                    assert forall|i: int, k: int| 0 <= i < k < hits@.len() implies ranks_before(
                        scores@[i],
                        hits@[i].index as int,
                        scores@[k],
                        hits@[k].index as int,
                    ) by {
                        if k < p {
                        } else if k == p {
                            assert(scores@[i] == old_scores[i]);
                        } else if i < p {
                            assert(scores@[k] == old_scores[k - 1]);
                            assert(hits@[k] == old_hits[k - 1]);
                            if p < old_scores.len() {
                                assert(old_scores[p as int] < score);
                                if k - 1 > p {
                                    assert(ranks_before(
                                        old_scores[p as int],
                                        old_hits[p as int].index as int,
                                        old_scores[k - 1],
                                        old_hits[k - 1].index as int,
                                    ));
                                }
                            }
                        } else if i == p {
                            assert(scores@[k] == old_scores[k - 1]);
                            assert(old_scores[p as int] < score);
                            if k - 1 > p {
                                assert(ranks_before(
                                    old_scores[p as int],
                                    old_hits[p as int].index as int,
                                    old_scores[k - 1],
                                    old_hits[k - 1].index as int,
                                ));
                            }
                        } else {
                            assert(scores@[k] == old_scores[k - 1]);
                            assert(scores@[i] == old_scores[i - 1]);
                            assert(hits@[k] == old_hits[k - 1]);
                            assert(hits@[i] == old_hits[i - 1]);
                        }
                    }
                }
            },
            None => {
                assert(mv[j as int] is None);
            },
        }
        j = j + 1;
    }
    hits
}

/// The entries listed for `query` (see `hits_for`).
fn compute_hits(query: &Vec<char>, repos: &[Repo], matcher: &mut Matcher) -> (hits: Vec<Hit>)
    ensures
        hits_for(query@, rels(repos@), hits@),
{
    let ghost rs = rels(repos@);
    let n = repos.len();
    if query.len() == 0 {
        let mut hits: Vec<Hit> = Vec::new();
        let mut j: usize = 0;
        while j < n
            invariant
                n == repos@.len(),
                j <= n,
                hits@.len() == j,
                forall|i: int| 0 <= i < j ==> (#[trigger] hits@[i]).index == i
                    && hits@[i].indices@.len() == 0,
            decreases n - j,
        {
            hits.push(Hit { index: j, indices: Vec::new() });
            j = j + 1;
        }
        return hits;
    }
    let q = string_of(query.as_slice());
    let ghost all = matches_for(query@, rs);
    let mut ms: Vec<Option<(u32, Vec<u32>)>> = Vec::new();
    let mut j: usize = 0;
    while j < n
        invariant
            n == repos@.len(),
            rs == rels(repos@),
            all == matches_for(query@, rs),
            q@ == query@,
            j <= n,
            match_views(ms@) == all.take(j as int),
        decreases n - j,
    {
        assert(rs[j as int] == repos@[j as int].rel@);
        let m = match_indices(q.as_str(), repos[j].rel.as_str(), matcher);
        let ghost before = ms@;
        ms.push(m);
        assert(match_views(ms@) =~= match_views(before).push(all[j as int]));
        assert(all.take(j + 1) =~= all.take(j as int).push(all[j as int]));
        j = j + 1;
    }
    assert(all.take(n as int) =~= all);
    rank_matches(&ms)
}

/// A key as the selector sees it.
pub enum KeyCode {
    Enter,
    Esc,
    Up,
    Down,
    Left,
    Right,
    Home,
    End,
    Backspace,
    Delete,
    Char(char),
    /// Any other key; it does nothing.
    Other,
}

/// A key press: the key and whether Control was held.
pub struct Key {
    pub code: KeyCode,
    pub ctrl: bool,
}

impl Key {
    /// The key without modifiers.
    pub fn plain(code: KeyCode) -> (k: Key)
        ensures
            k.code == code,
            !k.ctrl,
    {
        Key { code, ctrl: false }
    }

    /// Control and a character.
    pub fn ctrl(c: char) -> (k: Key)
        ensures
            k.code == KeyCode::Char(c),
            k.ctrl,
    {
        Key { code: KeyCode::Char(c), ctrl: true }
    }
}

/// What the event loop does after a key.
#[derive(PartialEq, Eq, Structural)]
pub enum Action {
    Continue,
    Abort,
    Accept,
}

/// How the selector ended.
pub enum Outcome {
    /// The absolute path of the chosen repository.
    Selected(String),
    Aborted,
}

/// How `gh yard <query>` starts.
pub enum Start<'a> {
    /// Exactly one repository is listed for the query: its absolute path.
    Only(String),
    /// No repository is listed for the query.
    Nothing,
    /// Several are: the selector, started with the query typed in.
    Choose(State<'a>),
}

/// Starts the selector on `query`: when the list for it holds exactly one
/// repository that one is the answer, when it holds none there is nothing
/// to choose, otherwise the selector opens filtered.
pub fn start<'a>(repos: &'a [Repo], query: &str) -> (r: Start<'a>)
    ensures
        forall|hits: Seq<Hit>|
            #[trigger] hits_for(query@, rels(repos@), hits) ==> match r {
                Start::Only(p) => hits.len() == 1 && p@ == repos@[hits[0].index as int].abs@,
                Start::Nothing => hits.len() == 0,
                Start::Choose(st) => hits.len() > 1 && hit_views(st@.hits) == hit_views(hits),
            },
        r matches Start::Choose(st) ==> st@.wf() && st@.query == query@ && st@.qcursor
            == query@.len() && st@.cursor == 0 && st@.offset == 0 && st@.repos == repos@,
{
    let state = State::with_query(repos, query);
    let n = state.hits.len();
    proof {
        assert forall|hits: Seq<Hit>| #[trigger] hits_for(query@, rels(repos@), hits) implies hit_views(
            state@.hits,
        ) == hit_views(hits) by {
            lemma_list_determined_by_query(query@, rels(repos@), state@.hits, hits);
        }
    }
    if n == 1 {
        let index = state.hits[0].index;
        let ghost h0 = state@.hits;
        proof {
            assert forall|hits: Seq<Hit>| #[trigger] hits_for(query@, rels(repos@), hits) implies hits.len()
                == 1 && hits[0].index == index by {
                assert(hit_views(h0) == hit_views(hits));
                assert(hit_views(h0).len() == hits.len());
                assert(hit_views(h0)[0] == hit_views(hits)[0]);
            }
        }
        Start::Only(repos[index].abs.clone())
    } else if n == 0 {
        proof {
            assert forall|hits: Seq<Hit>| #[trigger] hits_for(query@, rels(repos@), hits) implies hits.len()
                == 0 by {
                assert(hit_views(state@.hits).len() == hits.len());
            }
        }
        Start::Nothing
    } else {
        proof {
            assert forall|hits: Seq<Hit>| #[trigger] hits_for(query@, rels(repos@), hits) implies hits.len()
                > 1 by {
                assert(hit_views(state@.hits).len() == hits.len());
            }
        }
        Start::Choose(state)
    }
}

/// What a key does to the selector, by the query and its editing cursor.
pub enum Effect {
    Accept,
    Abort,
    /// Move the list cursor one entry up.
    Up,
    /// Move the list cursor one entry down.
    Down,
    /// Move the editing cursor to this position.
    Cursor(nat),
    /// Replace the query and the editing cursor; the list is refiltered and
    /// its cursor and scroll offset go back to the top.
    Edit(Seq<char>, nat),
    Nothing,
}

/// Word separators for Ctrl-W.
pub open spec fn is_separator(c: char) -> bool {
    crate::text::is_whitespace(c) || c == '/'
}

/// `s` without its trailing separators.
pub open spec fn trim_end_separators(s: Seq<char>) -> Seq<char>
    decreases s.len(),
{
    if s.len() > 0 && is_separator(s.last()) {
        trim_end_separators(s.drop_last())
    } else {
        s
    }
}

/// Where the last word of `s` starts: just after its last separator, or 0.
pub open spec fn word_start(s: Seq<char>) -> nat
    decreases s.len(),
{
    if s.len() == 0 {
        0
    } else if is_separator(s.last()) {
        s.len()
    } else {
        word_start(s.drop_last())
    }
}

/// Position after Ctrl-W: the start of the word before the cursor, skipping
/// the separators directly before the cursor first.
pub open spec fn delete_word_start(query: Seq<char>, qcursor: nat) -> nat {
    word_start(trim_end_separators(query.take(qcursor as int)))
}

/// Delete (or Ctrl-D): remove the character at the cursor, if any.
pub open spec fn delete_effect(query: Seq<char>, qcursor: nat) -> Effect {
    if qcursor < query.len() {
        Effect::Edit(query.remove(qcursor as int), qcursor)
    } else {
        Effect::Nothing
    }
}

/// One position left, stopping at the start.
pub open spec fn left_of(qcursor: nat) -> nat {
    if qcursor > 0 {
        (qcursor - 1) as nat
    } else {
        0
    }
}

/// One position right, stopping at the end.
pub open spec fn right_of(query: Seq<char>, qcursor: nat) -> nat {
    if qcursor + 1 <= query.len() {
        qcursor + 1
    } else {
        query.len()
    }
}

/// The key bindings.
pub open spec fn key_effect(key: Key, query: Seq<char>, qcursor: nat) -> Effect {
    match key.code {
        KeyCode::Enter => Effect::Accept,
        KeyCode::Esc => Effect::Abort,
        KeyCode::Up => Effect::Up,
        KeyCode::Down => Effect::Down,
        KeyCode::Left => Effect::Cursor(left_of(qcursor)),
        KeyCode::Right => Effect::Cursor(right_of(query, qcursor)),
        KeyCode::Home => Effect::Cursor(0),
        KeyCode::End => Effect::Cursor(query.len()),
        KeyCode::Backspace => if qcursor > 0 {
            Effect::Edit(query.remove(qcursor - 1), (qcursor - 1) as nat)
        } else {
            Effect::Nothing
        },
        KeyCode::Delete => delete_effect(query, qcursor),
        KeyCode::Char(c) => if key.ctrl {
            if c == 'c' {
                Effect::Abort
            } else if c == 'p' || c == 'k' {
                Effect::Up
            } else if c == 'n' || c == 'j' {
                Effect::Down
            } else if c == 'b' {
                Effect::Cursor(left_of(qcursor))
            } else if c == 'f' {
                Effect::Cursor(right_of(query, qcursor))
            } else if c == 'a' {
                Effect::Cursor(0)
            } else if c == 'e' {
                Effect::Cursor(query.len())
            } else if c == 'u' {
                Effect::Edit(query.skip(qcursor as int), 0)
            } else if c == 'w' {
                let start = delete_word_start(query, qcursor);
                Effect::Edit(query.take(start as int) + query.skip(qcursor as int), start)
            } else if c == 'd' {
                delete_effect(query, qcursor)
            } else {
                Effect::Nothing
            }
        } else {
            Effect::Edit(query.insert(qcursor as int, c), qcursor + 1)
        },
        KeyCode::Other => Effect::Nothing,
    }
}

/// The selector's state.
pub struct State<'a> {
    repos: &'a [Repo],
    query: Vec<char>,
    /// Editing cursor inside the query, in chars.
    qcursor: usize,
    hits: Vec<Hit>,
    cursor: usize,
    offset: usize,
    matcher: Matcher,
}

/// What the selector's state means: the query, its editing cursor, the
/// listed entries, the list cursor and scroll offset, and the repositories.
pub struct StateView {
    pub query: Seq<char>,
    pub qcursor: nat,
    pub hits: Seq<Hit>,
    pub cursor: nat,
    pub offset: nat,
    pub repos: Seq<Repo>,
}

impl<'a> View for State<'a> {
    type V = StateView;

    closed spec fn view(&self) -> StateView {
        StateView {
            query: self.query@,
            qcursor: self.qcursor as nat,
            hits: self.hits@,
            cursor: self.cursor as nat,
            offset: self.offset as nat,
            repos: self.repos@,
        }
    }
}

impl StateView {
    /// The state's invariant: the editing cursor lies in the query, the list
    /// is what `hits_for` says for the query, and the list cursor is on an
    /// entry (at 0 when the list is empty).
    pub open spec fn wf(self) -> bool {
        &&& self.qcursor <= self.query.len()
        &&& hits_for(self.query, rels(self.repos), self.hits)
        &&& if self.hits.len() == 0 {
            self.cursor == 0
        } else {
            self.cursor < self.hits.len()
        }
    }

    /// The state after the list cursor moves one entry up.
    pub open spec fn moved_up(self) -> StateView {
        StateView { cursor: left_of(self.cursor), ..self }
    }

    /// The state after the list cursor moves one entry down.
    pub open spec fn moved_down(self) -> StateView {
        if self.hits.len() == 0 {
            self
        } else {
            StateView {
                cursor: if self.cursor + 1 < self.hits.len() {
                    self.cursor + 1
                } else {
                    (self.hits.len() - 1) as nat
                },
                ..self
            }
        }
    }

    /// What a key does to the state, and the action it asks for.
    pub open spec fn after_key(self, key: Key, next: StateView, action: Action) -> bool {
        match key_effect(key, self.query, self.qcursor) {
            Effect::Accept => action == Action::Accept && next == self,
            Effect::Abort => action == Action::Abort && next == self,
            Effect::Up => action == Action::Continue && next == self.moved_up(),
            Effect::Down => action == Action::Continue && next == self.moved_down(),
            Effect::Cursor(c) => action == Action::Continue && next == StateView {
                qcursor: c,
                ..self
            },
            Effect::Edit(q, c) => {
                &&& action == Action::Continue
                &&& next.query == q
                &&& next.qcursor == c
                &&& next.repos == self.repos
                &&& hits_for(q, rels(self.repos), next.hits)
                &&& next.cursor == 0
                &&& next.offset == 0
            },
            Effect::Nothing => action == Action::Continue && next == self,
        }
    }
}

/// Executable form of `is_separator`.
fn separator(c: char) -> (b: bool)
    ensures
        b == is_separator(c),
{
    crate::text::whitespace(c) || c == '/'
}

impl<'a> State<'a> {
    /// The selector over `repos`: empty query, every repository listed.
    pub fn new(repos: &'a [Repo]) -> (s: State<'a>)
        ensures
            s@.wf(),
            s@.query.len() == 0,
            s@.qcursor == 0,
            s@.cursor == 0,
            s@.offset == 0,
            s@.repos == repos@,
    {
        let mut state = State {
            repos,
            query: Vec::new(),
            qcursor: 0,
            hits: Vec::new(),
            cursor: 0,
            offset: 0,
            matcher: new_path_matcher(),
        };
        state.refilter();
        state
    }

    /// The selector over `repos` started with `query` typed in: the editing
    /// cursor at its end and the list filtered for it.
    pub fn with_query(repos: &'a [Repo], query: &str) -> (s: State<'a>)
        ensures
            s@.wf(),
            s@.query == query@,
            s@.qcursor == query@.len(),
            s@.cursor == 0,
            s@.offset == 0,
            s@.repos == repos@,
    {
        let q = crate::text::chars_of(query);
        let n = q.len();
        let mut state = State {
            repos,
            query: q,
            qcursor: n,
            hits: Vec::new(),
            cursor: 0,
            offset: 0,
            matcher: new_path_matcher(),
        };
        state.refilter();
        state
    }

    /// Number of characters in the query.
    pub fn query_chars(&self) -> (n: usize)
        ensures
            n == self@.query.len(),
    {
        self.query.len()
    }

    /// Relists the entries for the current query and puts the list cursor
    /// and scroll offset back to the top.
    fn refilter(&mut self)
        ensures
            hits_for(final(self)@.query, rels(final(self)@.repos), final(self)@.hits),
            final(self)@ == (StateView {
                hits: final(self)@.hits,
                cursor: 0,
                offset: 0,
                ..old(self)@
            }),
    {
        let hits = compute_hits(&self.query, self.repos, &mut self.matcher);
        self.hits = hits;
        self.cursor = 0;
        self.offset = 0;
    }

    /// Moves the list cursor one entry up (`delta < 0`) or down, staying on
    /// the list.
    fn move_cursor(&mut self, delta: i32)
        requires
            old(self)@.wf(),
        ensures
            delta < 0 ==> final(self)@ == old(self)@.moved_up(),
            delta >= 0 ==> final(self)@ == old(self)@.moved_down(),
    {
        if self.hits.len() == 0 {
            return;
        }
        let last = self.hits.len() - 1;
        self.cursor = if delta < 0 {
            if self.cursor > 0 {
                self.cursor - 1
            } else {
                0
            }
        } else if self.cursor + 1 < last {
            self.cursor + 1
        } else {
            last
        };
    }

    /// Removes the character at the editing cursor, if there is one.
    fn delete_at_cursor(&mut self)
        requires
            old(self)@.wf(),
        ensures
            match delete_effect(old(self)@.query, old(self)@.qcursor) {
                Effect::Edit(q, c) => final(self)@.query == q && final(self)@.qcursor == c
                    && hits_for(q, rels(old(self)@.repos), final(self)@.hits) && final(self)@
                    == (StateView { query: q, qcursor: c, hits: final(self)@.hits, cursor: 0, offset: 0, ..old(self)@ }),
                _ => final(self)@ == old(self)@,
            },
    {
        if self.qcursor < self.query_chars() {
            proof {
                self.query@.remove_ensures(self.qcursor as int);
            }
            self.query.remove(self.qcursor);
            self.refilter();
        }
    }

    /// Removes the word before the editing cursor (Ctrl-W); separators
    /// directly before the cursor go with it.
    fn delete_word_before_cursor(&mut self)
        requires
            old(self)@.wf(),
        ensures
            final(self)@ == (StateView {
                query: old(self)@.query.take(delete_word_start(old(self)@.query, old(self)@.qcursor) as int)
                    + old(self)@.query.skip(old(self)@.qcursor as int),
                qcursor: delete_word_start(old(self)@.query, old(self)@.qcursor),
                ..old(self)@
            }),
            final(self)@.qcursor <= final(self)@.query.len(),
    {
        let ghost q = self.query@;
        let end = self.qcursor;
        let mut stripped = end;
        assert(q.take(end as int) =~= q.take(stripped as int));
        while stripped > 0 && separator(self.query[stripped - 1])
            invariant
                q == self.query@,
                end <= q.len(),
                stripped <= end,
                trim_end_separators(q.take(end as int)) == trim_end_separators(
                    q.take(stripped as int),
                ),
            decreases stripped,
        {
            assert(q.take(stripped as int).drop_last() =~= q.take(stripped - 1));
            stripped = stripped - 1;
        }
        assert(trim_end_separators(q.take(end as int)) == q.take(stripped as int));
        let mut start = stripped;
        while start > 0 && !separator(self.query[start - 1])
            invariant
                q == self.query@,
                start <= stripped <= q.len(),
                word_start(q.take(stripped as int)) == word_start(q.take(start as int)),
            decreases start,
        {
            assert(q.take(start as int).drop_last() =~= q.take(start - 1));
            start = start - 1;
        }
        assert(word_start(q.take(start as int)) == start);
        let head = crate::text::slice_of(self.query.as_slice(), 0, start);
        let tail = crate::text::slice_of(self.query.as_slice(), end, self.query.len());
        let mut joined = head;
        let mut tail = tail;
        joined.append(&mut tail);
        assert(joined@ =~= q.take(start as int) + q.skip(end as int));
        self.query = joined;
        self.qcursor = start;
    }

    /// Handles one key press.
    pub fn handle(&mut self, key: Key) -> (a: Action)
        requires
            old(self)@.wf(),
        ensures
            final(self)@.wf(),
            old(self)@.after_key(key, final(self)@, a),
    {
        match key.code {
            KeyCode::Enter => {
                return Action::Accept;
            },
            KeyCode::Esc => {
                return Action::Abort;
            },
            KeyCode::Up => self.move_cursor(-1),
            KeyCode::Down => self.move_cursor(1),
            KeyCode::Left => {
                self.qcursor = if self.qcursor > 0 {
                    self.qcursor - 1
                } else {
                    0
                };
            },
            KeyCode::Right => {
                self.qcursor = if self.qcursor < self.query_chars() {
                    self.qcursor + 1
                } else {
                    self.query_chars()
                };
            },
            KeyCode::Home => self.qcursor = 0,
            KeyCode::End => self.qcursor = self.query_chars(),
            KeyCode::Backspace => {
                if self.qcursor > 0 {
                    proof {
                        self.query@.remove_ensures(self.qcursor - 1);
                    }
                    self.query.remove(self.qcursor - 1);
                    self.qcursor = self.qcursor - 1;
                    self.refilter();
                }
            },
            KeyCode::Delete => self.delete_at_cursor(),
            KeyCode::Char(c) => {
                if key.ctrl {
                    if c == 'c' {
                        return Action::Abort;
                    } else if c == 'p' || c == 'k' {
                        self.move_cursor(-1);
                    } else if c == 'n' || c == 'j' {
                        self.move_cursor(1);
                    } else if c == 'b' {
                        self.qcursor = if self.qcursor > 0 {
                            self.qcursor - 1
                        } else {
                            0
                        };
                    } else if c == 'f' {
                        self.qcursor = if self.qcursor < self.query_chars() {
                            self.qcursor + 1
                        } else {
                            self.query_chars()
                        };
                    } else if c == 'a' {
                        self.qcursor = 0;
                    } else if c == 'e' {
                        self.qcursor = self.query_chars();
                    } else if c == 'u' {
                        // Delete everything before the cursor (fzf: unix-line-discard).
                        let rest = crate::text::slice_of(
                            self.query.as_slice(),
                            self.qcursor,
                            self.query.len(),
                        );
                        self.query = rest;
                        self.qcursor = 0;
                        self.refilter();
                    } else if c == 'w' {
                        self.delete_word_before_cursor();
                        self.refilter();
                    } else if c == 'd' {
                        self.delete_at_cursor();
                    }
                } else {
                    self.query.insert(self.qcursor, c);
                    let n = self.query.len();
                    assert(self.qcursor < n);
                    self.qcursor = self.qcursor + 1;
                    self.refilter();
                }
            },
            KeyCode::Other => {},
        }
        Action::Continue
    }
}

/// Columns that characters of widths `ws` take together; a character
/// without a width (a control character) takes none.
pub open spec fn width_total(ws: Seq<Option<usize>>) -> nat
    decreases ws.len(),
{
    if ws.len() == 0 {
        0
    } else {
        width_total(ws.drop_last()) + match ws.last() {
            Some(w) => w as nat,
            None => 0,
        }
    }
}

/// The widths of characters.
pub open spec fn widths_of(cs: Seq<char>) -> Seq<Option<usize>> {
    cs.map_values(|c: char| display_width(c))
}

/// Columns the characters take together.
pub open spec fn width_sum(cs: Seq<char>) -> nat {
    width_total(widths_of(cs))
}

/// `n`, capped at `u16::MAX`.
pub open spec fn capped(n: nat) -> nat {
    if n < u16::MAX {
        n
    } else {
        u16::MAX as nat
    }
}

/// Columns that characters of widths `ws` take together, capped at
/// `u16::MAX`.
pub fn total_width(ws: &Vec<Option<usize>>) -> (w: u16)
    ensures
        w == capped(width_total(ws@)),
{
    let mut acc: u16 = 0;
    let mut i: usize = 0;
    assert(ws@.take(0) =~= Seq::<Option<usize>>::empty());
    while i < ws.len()
        invariant
            i <= ws@.len(),
            acc == capped(width_total(ws@.take(i as int))),
        decreases ws@.len() - i,
    {
        assert(ws@.take(i + 1).drop_last() =~= ws@.take(i as int));
        let w: usize = match ws[i] {
            Some(n) => n,
            None => 0,
        };
        let room: usize = (65535 - acc) as usize;
        acc = if w >= room {
            65535
        } else {
            acc + (w as u16)
        };
        i = i + 1;
    }
    assert(ws@.take(ws@.len() as int) =~= ws@);
    acc
}

/// How a run of a row's text is shown.
#[derive(PartialEq, Eq, Structural, Clone, Copy, Debug)]
pub enum RowStyle {
    /// A character the query matched.
    Matched,
    /// The `host/owner/` part before the repository's name.
    Dim,
    Plain,
}

/// A run of a row's text and its style.
pub struct Segment {
    pub text: String,
    pub style: RowStyle,
}

pub open spec fn segment_views(v: Seq<Segment>) -> Seq<(Seq<char>, RowStyle)> {
    v.map_values(|s: Segment| (s.text@, s.style))
}

/// Position just after the last `/` in `s`, or 0.
pub open spec fn after_last_slash(s: Seq<char>) -> nat
    decreases s.len(),
{
    if s.len() == 0 {
        0
    } else if s.last() == '/' {
        s.len()
    } else {
        after_last_slash(s.drop_last())
    }
}

/// Style of the grapheme at position `k` starting at character `start`:
/// matched, else dim when it lies in `host/owner/`, else plain.
pub open spec fn grapheme_style(k: int, start: nat, indices: Seq<u32>, dim_upto: nat) -> RowStyle {
    if indices.contains(k as u32) {
        RowStyle::Matched
    } else if start < dim_upto {
        RowStyle::Dim
    } else {
        RowStyle::Plain
    }
}

/// The style of each grapheme of a row.
pub open spec fn grapheme_styles(gs: Seq<Seq<char>>, indices: Seq<u32>, dim_upto: nat) -> Seq<
    RowStyle,
> {
    Seq::new(gs.len(), |k: int| grapheme_style(k, concat(gs.take(k)).len(), indices, dim_upto))
}

/// Neighbouring graphemes of the same style merged into one run.
pub open spec fn runs(gs: Seq<Seq<char>>, styles: Seq<RowStyle>) -> Seq<(Seq<char>, RowStyle)>
    decreases gs.len(),
{
    if gs.len() == 0 {
        Seq::empty()
    } else {
        let r = runs(gs.drop_last(), styles.drop_last());
        let st = styles[gs.len() - 1];
        if r.len() > 0 && r.last().1 == st {
            r.update(r.len() - 1, (r.last().0 + gs.last(), st))
        } else {
            r.push((gs.last(), st))
        }
    }
}

/// The runs a row shows for the relative path `rel` and match positions
/// `indices`.
pub open spec fn row_runs(rel: Seq<char>, indices: Seq<u32>) -> Seq<(Seq<char>, RowStyle)> {
    let gs = extended_graphemes(rel);
    runs(gs, grapheme_styles(gs, indices, after_last_slash(rel)))
}

/// The texts of runs, joined.
pub open spec fn runs_text(rs: Seq<(Seq<char>, RowStyle)>) -> Seq<char> {
    concat(rs.map_values(|r: (Seq<char>, RowStyle)| r.0))
}

/// Merging neighbours loses and adds no text: the runs' texts join up to
/// the graphemes joined.
proof fn lemma_runs_text(gs: Seq<Seq<char>>, styles: Seq<RowStyle>)
    ensures
        runs_text(runs(gs, styles)) == concat(gs),
    decreases gs.len(),
{
    if gs.len() > 0 {
        let r = runs(gs.drop_last(), styles.drop_last());
        lemma_runs_text(gs.drop_last(), styles.drop_last());
        let st = styles[gs.len() - 1];
        let t = r.map_values(|x: (Seq<char>, RowStyle)| x.0);
        if r.len() > 0 && r.last().1 == st {
            let r2 = r.update(r.len() - 1, (r.last().0 + gs.last(), st));
            let t2 = r2.map_values(|x: (Seq<char>, RowStyle)| x.0);
            assert(t2.drop_last() =~= t.drop_last());
            assert(t.last() == r.last().0);
            assert(concat(t) == concat(t.drop_last()) + t.last());
            assert(concat(t2) == concat(t2.drop_last()) + t2.last());
            assert(concat(t2) =~= concat(t) + gs.last());
        } else {
            let r2 = r.push((gs.last(), st));
            let t2 = r2.map_values(|x: (Seq<char>, RowStyle)| x.0);
            assert(t2.drop_last() =~= t);
            assert(concat(t2) == concat(t2.drop_last()) + t2.last());
        }
    }
}

proof fn lemma_concat_prefix_len(gs: Seq<Seq<char>>, k: int)
    requires
        0 <= k <= gs.len(),
    ensures
        concat(gs.take(k)).len() <= concat(gs).len(),
    decreases gs.len() - k,
{
    if k < gs.len() {
        lemma_concat_prefix_len(gs, k + 1);
        assert(gs.take(k + 1).drop_last() =~= gs.take(k));
    } else {
        assert(gs.take(k) =~= gs);
    }
}

/// Whether `x` occurs in `v`.
fn contains_u32(v: &Vec<u32>, x: u32) -> (b: bool)
    ensures
        b == v@.contains(x),
{
    let mut i: usize = 0;
    while i < v.len()
        invariant
            i <= v@.len(),
            forall|j: int| 0 <= j < i ==> v@[j] != x,
        decreases v@.len() - i,
    {
        if v[i] == x {
            assert(v@[i as int] == x);
            return true;
        }
        i = i + 1;
    }
    false
}

/// Visible rows after the scroll offset follows the cursor: the offset
/// moves up to the cursor, or just far enough down that the cursor is on
/// the last of `visible` rows.
pub open spec fn scrolled_offset(cursor: nat, offset: nat, visible: nat) -> nat {
    if visible == 0 {
        offset
    } else if cursor < offset {
        cursor
    } else if cursor >= offset + visible {
        (cursor + 1 - visible) as nat
    } else {
        offset
    }
}

/// Scrolling keeps the list cursor on screen: with at least one visible
/// row, the cursor lies within the `visible` rows after the new offset.
pub proof fn lemma_scroll_keeps_cursor_visible(cursor: nat, offset: nat, visible: nat)
    requires
        visible > 0,
    ensures
        scrolled_offset(cursor, offset, visible) <= cursor,
        cursor < scrolled_offset(cursor, offset, visible) + visible,
{
}

/// Column of the terminal cursor on the prompt line: after `> ` and the
/// query's width before the editing cursor, kept inside the area.
pub open spec fn prompt_cursor_column(area_x: u16, area_right: u16, width: u16) -> int {
    let x = if area_x + 2 + width > u16::MAX {
        u16::MAX as int
    } else {
        area_x + 2 + width
    };
    let last = if area_right > 0 {
        area_right - 1
    } else {
        0
    };
    if x < last {
        x
    } else {
        last
    }
}

/// Where the terminal cursor goes on the prompt line.
pub fn prompt_cursor_x(area_x: u16, area_right: u16, width: u16) -> (x: u16)
    requires
        area_x + 2 <= u16::MAX,
    ensures
        x == prompt_cursor_column(area_x, area_right, width),
{
    let start = area_x + 2;
    let x = if start > u16::MAX - width {
        u16::MAX
    } else {
        start + width
    };
    let last = if area_right > 0 {
        area_right - 1
    } else {
        0
    };
    if x < last {
        x
    } else {
        last
    }
}

/// Rows the inline viewport gets: 40% of the terminal (24 rows when its
/// size is unknown), at least 3, and at most the terminal's rows unless
/// that is under 3.
pub open spec fn viewport_rows(terminal_rows: Option<u16>) -> int {
    let rows: int = match terminal_rows {
        Some(r) => if r > 0 {
            r as int
        } else {
            24
        },
        None => 24,
    };
    let share = rows * 40 / 100;
    let upper = if rows > 3 {
        rows
    } else {
        3
    };
    if share < 3 {
        3
    } else if share > upper {
        upper
    } else {
        share
    }
}

/// Height of the selector's inline viewport for a terminal with
/// `terminal_rows` rows (`None` when the size could not be read).
pub fn viewport_height(terminal_rows: Option<u16>) -> (h: u16)
    ensures
        h == viewport_rows(terminal_rows),
        3 <= h,
{
    let rows: u16 = match terminal_rows {
        Some(r) => if r > 0 {
            r
        } else {
            24
        },
        None => 24,
    };
    // Widen before multiplying: rows >= 1639 would overflow u16.
    let share: u32 = (rows as u32) * 40 / 100;
    let upper: u32 = if rows > 3 {
        rows as u32
    } else {
        3
    };
    let h: u32 = if share < 3 {
        3
    } else if share > upper {
        upper
    } else {
        share
    };
    h as u16
}

impl<'a> State<'a> {
    /// The query.
    pub fn query(&self) -> (q: String)
        ensures
            q@ == self@.query,
    {
        string_of(self.query.as_slice())
    }

    /// The editing cursor, in chars.
    pub fn qcursor(&self) -> (c: usize)
        ensures
            c == self@.qcursor,
    {
        self.qcursor
    }

    /// The list cursor.
    pub fn cursor(&self) -> (c: usize)
        ensures
            c == self@.cursor,
    {
        self.cursor
    }

    /// The scroll offset of the list.
    pub fn offset(&self) -> (o: usize)
        ensures
            o == self@.offset,
    {
        self.offset
    }

    /// The listed entries.
    pub fn hits(&self) -> (h: &Vec<Hit>)
        ensures
            h@ == self@.hits,
    {
        &self.hits
    }

    /// All repositories.
    pub fn repos(&self) -> (r: &'a [Repo])
        ensures
            r@ == self@.repos,
    {
        self.repos
    }

    /// Display width of the query up to the editing cursor, capped at
    /// `u16::MAX`. CJK and other wide characters take two columns.
    pub fn width_before_cursor(&self) -> (w: u16)
        requires
            self@.wf(),
        ensures
            w == capped(width_sum(self@.query.take(self@.qcursor as int))),
    {
        let ghost q = self.query@;
        let mut ws: Vec<Option<usize>> = Vec::new();
        let mut i: usize = 0;
        assert(widths_of(q.take(0)) =~= Seq::<Option<usize>>::empty());
        while i < self.qcursor
            invariant
                q == self.query@,
                self.qcursor <= q.len(),
                i <= self.qcursor,
                ws@ == widths_of(q.take(i as int)),
            decreases self.qcursor - i,
        {
            let w = char_width(self.query[i]);
            ws.push(w);
            assert(widths_of(q.take(i + 1)) =~= widths_of(q.take(i as int)).push(
                display_width(q[i as int]),
            ));
            i = i + 1;
        }
        total_width(&ws)
    }

    /// The repository under the list cursor, if the list is not empty.
    pub fn selected_repo(&self) -> (r: Option<&Repo>)
        requires
            self@.wf(),
        ensures
            self@.hits.len() == 0 ==> r is None,
            self@.hits.len() > 0 ==> r == Some(&self@.repos[self@.hits[self@.cursor as int].index as int]),
    {
        if self.cursor < self.hits.len() {
            let index = self.hits[self.cursor].index;
            assert(index < self.repos@.len());
            Some(&self.repos[index])
        } else {
            None
        }
    }

    /// The outcome of accepting: the absolute path of the repository under
    /// the cursor, or an abort when nothing is listed.
    pub fn outcome(&self) -> (o: Outcome)
        requires
            self@.wf(),
        ensures
            self@.hits.len() == 0 ==> o is Aborted,
            self@.hits.len() > 0 ==> (o matches Outcome::Selected(p)
                && p@ == self@.repos[self@.hits[self@.cursor as int].index as int].abs@),
    {
        match self.selected_repo() {
            Some(repo) => Outcome::Selected(repo.abs.clone()),
            None => Outcome::Aborted,
        }
    }

    /// Keeps the list cursor inside a viewport of `visible` rows by
    /// adjusting the scroll offset.
    pub fn scroll(&mut self, visible: usize)
        ensures
            final(self)@ == (StateView {
                offset: scrolled_offset(old(self)@.cursor, old(self)@.offset, visible as nat),
                ..old(self)@
            }),
    {
        if visible == 0 {
            return;
        }
        if self.cursor < self.offset {
            self.offset = self.cursor;
        } else if self.cursor - self.offset >= visible {
            self.offset = self.cursor - (visible - 1);
        }
    }

    /// The styled runs of the row for the entry at `hit_pos`: matched
    /// graphemes, then the dimmed `host/owner/` part, then the rest, with
    /// neighbouring graphemes of one style merged.
    pub fn row_segments(&self, hit_pos: usize) -> (segs: Vec<Segment>)
        requires
            self@.wf(),
            hit_pos < self@.hits.len(),
        ensures
            segment_views(segs@) == row_runs(
                self@.repos[self@.hits[hit_pos as int].index as int].rel@,
                self@.hits[hit_pos as int].indices@,
            ),
            runs_text(segment_views(segs@)) == self@.repos[self@.hits[hit_pos
                as int].index as int].rel@,
    {
        let hit = &self.hits[hit_pos];
        let repo = &self.repos[hit.index];
        let rel = repo.rel.as_str();
        let chars = crate::text::chars_of(rel);
        // Dim `host/owner/`; the eye should land on the repository name.
        let mut dim_upto: usize = chars.len();
        assert(chars@.take(chars@.len() as int) =~= chars@);
        while dim_upto > 0 && chars[dim_upto - 1] != '/'
            invariant
                dim_upto <= chars@.len(),
                after_last_slash(chars@) == after_last_slash(chars@.take(dim_upto as int)),
            decreases dim_upto,
        {
            assert(chars@.take(dim_upto as int).drop_last() =~= chars@.take(dim_upto - 1));
            dim_upto = dim_upto - 1;
        }
        // nucleo splits non-ASCII haystacks by grapheme, so the match
        // positions are grapheme positions: enumerate the same way.
        let gs = graphemes(rel);
        let segs = segments_of(&gs, &hit.indices, dim_upto);
        proof {
            let gv = string_views(gs@);
            lemma_runs_text(gv, grapheme_styles(gv, hit.indices@, dim_upto as nat));
        }
        segs
    }
}

/// The styled runs of a row whose text is the graphemes `gs`: a grapheme
/// whose position is in `indices` is matched, else one that starts before
/// character `dim_upto` is dim, else plain; neighbours of one style are
/// merged.
pub fn segments_of(gs: &Vec<String>, indices: &Vec<u32>, dim_upto: usize) -> (segs: Vec<Segment>)
    requires
        concat(string_views(gs@)).len() <= usize::MAX,
    ensures
        segment_views(segs@) == runs(
            string_views(gs@),
            grapheme_styles(string_views(gs@), indices@, dim_upto as nat),
        ),
        runs_text(segment_views(segs@)) == concat(string_views(gs@)),
{
    proof {
        let gv = string_views(gs@);
        lemma_runs_text(gv, grapheme_styles(gv, indices@, dim_upto as nat));
    }
    let ghost gv = string_views(gs@);
    let ghost styles = grapheme_styles(gv, indices@, dim_upto as nat);
    let mut segs: Vec<Segment> = Vec::new();
    let mut start: usize = 0;
    let mut k: usize = 0;
    assert(gv.take(0) =~= Seq::<Seq<char>>::empty());
    while k < gs.len()
        invariant
            gv == string_views(gs@),
            concat(gv).len() <= usize::MAX,
            styles == grapheme_styles(gv, indices@, dim_upto as nat),
            k <= gs@.len(),
            start == concat(gv.take(k as int)).len(),
            segment_views(segs@) == runs(gv.take(k as int), styles.take(k as int)),
        decreases gs@.len() - k,
    {
        let g = &gs[k];
        let glen = g.unicode_len();
        proof {
            lemma_concat_prefix_len(gv, k + 1);
            assert(gv.take(k + 1).drop_last() =~= gv.take(k as int));
            assert(styles.take(k + 1).drop_last() =~= styles.take(k as int));
            assert(gv.take(k + 1).last() == gv[k as int]);
            assert(concat(gv.take(k + 1)) == concat(gv.take(k as int)) + gv[k as int]);
        }
        let style = if contains_u32(indices, k as u32) {
            RowStyle::Matched
        } else if start < dim_upto {
            RowStyle::Dim
        } else {
            RowStyle::Plain
        };
        assert(style == styles[k as int]);
        let n = segs.len();
        if n > 0 && segs[n - 1].style == style {
            let ghost before = segs@;
            let mut seg = segs.pop().unwrap();
            seg.text.append(g.as_str());
            segs.push(seg);
            assert(segment_views(segs@) =~= segment_views(before).update(
                n - 1,
                (segment_views(before)[n - 1].0 + gv[k as int], style),
            ));
        } else {
            let ghost before = segs@;
            let text = String::from_str(g.as_str());
            segs.push(Segment { text, style });
            assert(segment_views(segs@) =~= segment_views(before).push((gv[k as int], style)));
        }
        start = start + glen;
        k = k + 1;
    }
    assert(gv.take(gs@.len() as int) =~= gv);
    assert(styles.take(gs@.len() as int) =~= styles);
    segs
}

/// A row of the list on screen: which entry it shows, and whether that is
/// the entry under the cursor.
pub struct ListRow {
    pub hit_pos: usize,
    pub selected: bool,
}

/// How many of `len` entries fit in `height` rows from `offset` on.
pub open spec fn shown_count(len: nat, offset: nat, height: nat) -> nat {
    if offset >= len {
        0
    } else if len - offset < height {
        (len - offset) as nat
    } else {
        height
    }
}

/// The mark in front of a row: `❯ ` for the entry under the cursor, two
/// spaces otherwise.
pub open spec fn row_prefix_text(selected: bool) -> Seq<char> {
    if selected {
        "❯ "@
    } else {
        "  "@
    }
}

/// The mark in front of a row (see `row_prefix_text`).
pub fn row_prefix(selected: bool) -> (p: String)
    ensures
        p@ == row_prefix_text(selected),
{
    if selected {
        String::from_str("❯ ")
    } else {
        String::from_str("  ")
    }
}

impl<'a> State<'a> {
    /// Lays the list out in `height` rows: the scroll offset follows the
    /// cursor (see `scroll`), then the entries from the offset on are shown,
    /// as many as fit, the one under the cursor marked. With no rows nothing
    /// is shown and nothing moves.
    pub fn list_rows(&mut self, height: usize) -> (rows: Vec<ListRow>)
        requires
            old(self)@.wf(),
        ensures
            final(self)@ == (StateView {
                offset: scrolled_offset(old(self)@.cursor, old(self)@.offset, height as nat),
                ..old(self)@
            }),
            rows@.len() == shown_count(final(self)@.hits.len(), final(self)@.offset, height as nat),
            forall|i: int|
                0 <= i < rows@.len() ==> (#[trigger] rows@[i]).hit_pos == final(self)@.offset + i
                    && rows@[i].selected == (final(self)@.offset + i == final(self)@.cursor),
            height > 0 && final(self)@.hits.len() > 0 ==> final(self)@.offset <= final(self)@.cursor
                && final(self)@.cursor - final(self)@.offset < rows@.len(),
    {
        self.scroll(height);
        proof {
            if height > 0 {
                lemma_scroll_keeps_cursor_visible(
                    old(self)@.cursor,
                    old(self)@.offset,
                    height as nat,
                );
            }
        }
        let len = self.hits.len();
        let off = self.offset;
        let n: usize = if off >= len {
            0
        } else if len - off < height {
            len - off
        } else {
            height
        };
        let mut rows: Vec<ListRow> = Vec::new();
        let mut k: usize = 0;
        while k < n
            invariant
                n == shown_count(len as nat, off as nat, height as nat),
                off < len || n == 0,
                n <= len - off || n == 0,
                k <= n,
                rows@.len() == k,
                forall|i: int|
                    0 <= i < k ==> (#[trigger] rows@[i]).hit_pos == off + i && rows@[i].selected
                        == (off + i == self.cursor),
            decreases n - k,
        {
            rows.push(ListRow { hit_pos: off + k, selected: off + k == self.cursor });
            k = k + 1;
        }
        rows
    }
}

/// The entries as plain values: the repository index and the match
/// positions.
pub open spec fn hit_views(hits: Seq<Hit>) -> Seq<(usize, Seq<u32>)> {
    hits.map_values(|h: Hit| (h.index, h.indices@))
}

/// Two strictly increasing sequences with the same values are equal.
proof fn lemma_increasing_same_values(x: Seq<u32>, y: Seq<u32>)
    requires
        forall|i: int, k: int| 0 <= i < k < x.len() ==> x[i] < x[k],
        forall|i: int, k: int| 0 <= i < k < y.len() ==> y[i] < y[k],
        forall|v: u32| x.contains(v) <==> y.contains(v),
    ensures
        x == y,
    decreases x.len(),
{
    if x.len() == 0 {
        if y.len() > 0 {
            assert(y.contains(y[0]));
        }
        assert(x =~= y);
    } else {
        assert(x.contains(x[0]));
        if y.len() == 0 {
            assert(false);
        }
        assert(y.contains(y[0]));
        let j = choose|j: int| 0 <= j < y.len() && y[j] == x[0];
        let i = choose|i: int| 0 <= i < x.len() && x[i] == y[0];
        if i > 0 && j > 0 {
            assert(x[0] < x[i]);
            assert(y[0] < y[j]);
        }
        assert(x[0] == y[0]);
        let xt = x.drop_first();
        let yt = y.drop_first();
        assert forall|v: u32| xt.contains(v) <==> yt.contains(v) by {
            if xt.contains(v) {
                let a = choose|a: int| 0 <= a < xt.len() && xt[a] == v;
                assert(x[a + 1] == v);
                assert(x[0] < x[a + 1]);
                assert(x.contains(v));
                let b = choose|b: int| 0 <= b < y.len() && y[b] == v;
                assert(b != 0);
                assert(yt[b - 1] == v);
            }
            if yt.contains(v) {
                let a = choose|a: int| 0 <= a < yt.len() && yt[a] == v;
                assert(y[a + 1] == v);
                assert(y[0] < y[a + 1]);
                assert(y.contains(v));
                let b = choose|b: int| 0 <= b < x.len() && x[b] == v;
                assert(b != 0);
                assert(xt[b - 1] == v);
            }
        }
        lemma_increasing_same_values(xt, yt);
        assert(x =~= seq![x[0]] + xt);
        assert(y =~= seq![y[0]] + yt);
    }
}

/// Two sequences strictly sorted by the same asymmetric relation and
/// holding the same values are equal.
proof fn lemma_sorted_same_values(x: Seq<int>, y: Seq<int>, lt: spec_fn(int, int) -> bool)
    requires
        forall|a: int, b: int| #[trigger] lt(a, b) ==> !lt(b, a),
        forall|i: int, k: int| 0 <= i < k < x.len() ==> lt(x[i], x[k]),
        forall|i: int, k: int| 0 <= i < k < y.len() ==> lt(y[i], y[k]),
        forall|v: int| x.contains(v) <==> y.contains(v),
    ensures
        x == y,
    decreases x.len(),
{
    if x.len() == 0 {
        if y.len() > 0 {
            assert(y.contains(y[0]));
        }
        assert(x =~= y);
    } else {
        assert(x.contains(x[0]));
        if y.len() == 0 {
            assert(false);
        }
        assert(y.contains(y[0]));
        let j = choose|j: int| 0 <= j < y.len() && y[j] == x[0];
        let i = choose|i: int| 0 <= i < x.len() && x[i] == y[0];
        if i > 0 && j > 0 {
            assert(lt(x[0], x[i]));
            assert(lt(y[0], y[j]));
        }
        assert(x[0] == y[0]);
        let xt = x.drop_first();
        let yt = y.drop_first();
        assert forall|v: int| xt.contains(v) <==> yt.contains(v) by {
            if xt.contains(v) {
                let a = choose|a: int| 0 <= a < xt.len() && xt[a] == v;
                assert(x[a + 1] == v);
                assert(lt(x[0], x[a + 1]));
                assert(x.contains(v));
                let b = choose|b: int| 0 <= b < y.len() && y[b] == v;
                assert(b != 0);
                assert(yt[b - 1] == v);
            }
            if yt.contains(v) {
                let a = choose|a: int| 0 <= a < yt.len() && yt[a] == v;
                assert(y[a + 1] == v);
                assert(lt(y[0], y[a + 1]));
                assert(y.contains(v));
                let b = choose|b: int| 0 <= b < x.len() && x[b] == v;
                assert(b != 0);
                assert(xt[b - 1] == v);
            }
        }
        lemma_sorted_same_values(xt, yt, lt);
        assert(x =~= seq![x[0]] + xt);
        assert(y =~= seq![y[0]] + yt);
    }
}

/// The ranking order on repository indices for match results.
pub open spec fn rank_order(ms: Seq<Option<(u32, Seq<u32>)>>) -> spec_fn(int, int) -> bool {
    |a: int, b: int| ranks_before(score_of(ms, a), a, score_of(ms, b), b)
}

/// The repository indices of the entries.
pub open spec fn index_seq(hits: Seq<Hit>) -> Seq<int> {
    hits.map_values(|h: Hit| h.index as int)
}

/// Two lists ranked from the same match results hold the same
/// repositories in the same order.
proof fn lemma_ranked_indices_unique(ms: Seq<Option<(u32, Seq<u32>)>>, x: Seq<Hit>, y: Seq<Hit>)
    requires
        ranked(ms, x),
        ranked(ms, y),
    ensures
        index_seq(x) == index_seq(y),
{
    let lt = rank_order(ms);
    let xs = index_seq(x);
    let ys = index_seq(y);
    assert forall|a: int, b: int| #[trigger] lt(a, b) implies !lt(b, a) by {}
    assert forall|i: int, k: int| 0 <= i < k < xs.len() implies lt(xs[i], xs[k]) by {}
    assert forall|i: int, k: int| 0 <= i < k < ys.len() implies lt(ys[i], ys[k]) by {}
    assert forall|v: int| xs.contains(v) <==> ys.contains(v) by {
        if xs.contains(v) {
            let k = choose|k: int| 0 <= k < xs.len() && xs[k] == v;
            assert(is_match_hit(ms, x[k]));
            assert(ms[v] is Some);
            let m = choose|m: int| 0 <= m < y.len() && (#[trigger] y[m]).index == v;
            assert(ys[m] == v);
        }
        if ys.contains(v) {
            let k = choose|k: int| 0 <= k < ys.len() && ys[k] == v;
            assert(is_match_hit(ms, y[k]));
            assert(ms[v] is Some);
            let m = choose|m: int| 0 <= m < x.len() && (#[trigger] x[m]).index == v;
            assert(xs[m] == v);
        }
    }
    lemma_sorted_same_values(xs, ys, lt);
}

/// Ranking is determined by the match results: two lists that both rank
/// the same results are the same list (as plain values).
pub proof fn lemma_ranking_determined(ms: Seq<Option<(u32, Seq<u32>)>>, x: Seq<Hit>, y: Seq<Hit>)
    requires
        ranked(ms, x),
        ranked(ms, y),
    ensures
        hit_views(x) == hit_views(y),
{
    lemma_ranked_indices_unique(ms, x, y);
    assert(x.len() == index_seq(x).len());
    assert forall|i: int| 0 <= i < x.len() implies hit_views(x)[i] == hit_views(y)[i] by {
        assert(index_seq(x)[i] == index_seq(y)[i]);
        assert(x[i].index == y[i].index);
        assert(is_match_hit(ms, x[i]));
        assert(is_match_hit(ms, y[i]));
        lemma_increasing_same_values(x[i].indices@, y[i].indices@);
    }
    assert(hit_views(x) =~= hit_views(y));
}

/// The list that `hits_for` describes is unique: for a query and the
/// repositories there is exactly one list of entries (as plain values).
pub proof fn lemma_list_determined_by_query(
    query: Seq<char>,
    rels: Seq<Seq<char>>,
    x: Seq<Hit>,
    y: Seq<Hit>,
)
    requires
        hits_for(query, rels, x),
        hits_for(query, rels, y),
    ensures
        hit_views(x) == hit_views(y),
{
    if query.len() == 0 {
        assert forall|i: int| 0 <= i < x.len() implies hit_views(x)[i] == hit_views(y)[i] by {
            assert(x[i].index == i);
            assert(y[i].index == i);
            assert(x[i].indices@ =~= y[i].indices@);
        }
        assert(hit_views(x) =~= hit_views(y));
    } else {
        lemma_ranking_determined(matches_for(query, rels), x, y);
    }
}

/// Typing a character and then pressing Backspace gives back the query,
/// the editing cursor and the list.
pub proof fn lemma_type_then_backspace(
    s0: StateView,
    s1: StateView,
    s2: StateView,
    c: char,
    a1: Action,
    a2: Action,
)
    requires
        s0.wf(),
        s0.after_key((Key { code: KeyCode::Char(c), ctrl: false }), s1, a1),
        s1.after_key((Key { code: KeyCode::Backspace, ctrl: false }), s2, a2),
    ensures
        a1 == Action::Continue,
        a2 == Action::Continue,
        s2.query == s0.query,
        s2.qcursor == s0.qcursor,
        s2.repos == s0.repos,
        hit_views(s2.hits) == hit_views(s0.hits),
{
    let q = s0.query;
    let qc = s0.qcursor;
    assert(s1.query == q.insert(qc as int, c));
    assert(s1.qcursor == qc + 1);
    assert(q.insert(qc as int, c).remove(qc as int) =~= q);
    lemma_list_determined_by_query(q, rels(s0.repos), s2.hits, s0.hits);
}


/// The list-moving control keys are the arrows: in every state, Ctrl-P and
/// Ctrl-K do exactly what Up does, and Ctrl-N and Ctrl-J exactly what Down
/// does (same next state, same action).
pub proof fn lemma_control_keys_are_arrows(s: StateView, next: StateView, a: Action)
    ensures
        s.after_key((Key { code: KeyCode::Char('p'), ctrl: true }), next, a) == s.after_key(
            (Key { code: KeyCode::Up, ctrl: false }),
            next,
            a,
        ),
        s.after_key((Key { code: KeyCode::Char('k'), ctrl: true }), next, a) == s.after_key(
            (Key { code: KeyCode::Up, ctrl: false }),
            next,
            a,
        ),
        s.after_key((Key { code: KeyCode::Char('n'), ctrl: true }), next, a) == s.after_key(
            (Key { code: KeyCode::Down, ctrl: false }),
            next,
            a,
        ),
        s.after_key((Key { code: KeyCode::Char('j'), ctrl: true }), next, a) == s.after_key(
            (Key { code: KeyCode::Down, ctrl: false }),
            next,
            a,
        ),
{
}

/// The other control aliases are their keys: Ctrl-B is Left, Ctrl-F is
/// Right, Ctrl-A is Home, Ctrl-E is End, Ctrl-D is Delete and Ctrl-C is Esc.
pub proof fn lemma_control_aliases(s: StateView, next: StateView, a: Action)
    ensures
        s.after_key((Key { code: KeyCode::Char('b'), ctrl: true }), next, a) == s.after_key(
            (Key { code: KeyCode::Left, ctrl: false }),
            next,
            a,
        ),
        s.after_key((Key { code: KeyCode::Char('f'), ctrl: true }), next, a) == s.after_key(
            (Key { code: KeyCode::Right, ctrl: false }),
            next,
            a,
        ),
        s.after_key((Key { code: KeyCode::Char('a'), ctrl: true }), next, a) == s.after_key(
            (Key { code: KeyCode::Home, ctrl: false }),
            next,
            a,
        ),
        s.after_key((Key { code: KeyCode::Char('e'), ctrl: true }), next, a) == s.after_key(
            (Key { code: KeyCode::End, ctrl: false }),
            next,
            a,
        ),
        s.after_key((Key { code: KeyCode::Char('d'), ctrl: true }), next, a) == s.after_key(
            (Key { code: KeyCode::Delete, ctrl: false }),
            next,
            a,
        ),
        s.after_key((Key { code: KeyCode::Char('c'), ctrl: true }), next, a) == s.after_key(
            (Key { code: KeyCode::Esc, ctrl: false }),
            next,
            a,
        ),
{
}

/// Enter accepts and Esc aborts, changing nothing; Left, Right, Home and
/// End move only the editing cursor: one back (staying at the start), one
/// on (staying at the end), to the start, to the end.
pub proof fn lemma_keys_that_keep_the_query(s: StateView, next: StateView, a: Action)
    requires
        s.wf(),
    ensures
        s.after_key((Key { code: KeyCode::Enter, ctrl: false }), next, a) ==> a == Action::Accept
            && next == s,
        s.after_key((Key { code: KeyCode::Esc, ctrl: false }), next, a) ==> a == Action::Abort
            && next == s,
        s.after_key((Key { code: KeyCode::Left, ctrl: false }), next, a) ==> a == Action::Continue
            && next.query == s.query && next.hits == s.hits && next.cursor == s.cursor
            && next.offset == s.offset && (s.qcursor > 0 ==> next.qcursor + 1 == s.qcursor) && (
        s.qcursor == 0 ==> next.qcursor == 0),
        s.after_key((Key { code: KeyCode::Right, ctrl: false }), next, a) ==> a == Action::Continue
            && next.query == s.query && next.hits == s.hits && next.cursor == s.cursor
            && next.offset == s.offset && (s.qcursor < s.query.len() ==> next.qcursor == s.qcursor
            + 1) && (s.qcursor == s.query.len() ==> next.qcursor == s.qcursor),
        s.after_key((Key { code: KeyCode::Home, ctrl: false }), next, a) ==> a == Action::Continue
            && next.query == s.query && next.hits == s.hits && next.cursor == s.cursor
            && next.qcursor == 0,
        s.after_key((Key { code: KeyCode::End, ctrl: false }), next, a) ==> a == Action::Continue
            && next.query == s.query && next.hits == s.hits && next.cursor == s.cursor
            && next.qcursor == s.query.len(),
{
}

/// The editing keys, by what they leave of the query: a typed character
/// goes in at the editing cursor, which moves past it; Backspace takes out
/// the character before the cursor and Delete the one at it (when there is
/// one); Ctrl-U takes out everything before the cursor; Ctrl-W takes out a
/// stretch that ends at the cursor. After an edit the list is the one for
/// the new query, with its cursor and scroll at the top.
pub proof fn lemma_editing_keys(s: StateView, next: StateView, a: Action, c: char)
    requires
        s.wf(),
    ensures
        s.after_key((Key { code: KeyCode::Char(c), ctrl: false }), next, a) ==> {
            &&& a == Action::Continue
            &&& next.query.len() == s.query.len() + 1
            &&& next.query[s.qcursor as int] == c
            &&& next.query.take(s.qcursor as int) == s.query.take(s.qcursor as int)
            &&& next.query.skip(s.qcursor as int + 1) == s.query.skip(s.qcursor as int)
            &&& next.qcursor == s.qcursor + 1
            &&& hits_for(next.query, rels(s.repos), next.hits) && next.cursor == 0
                && next.offset == 0
        },
        s.after_key((Key { code: KeyCode::Backspace, ctrl: false }), next, a) ==> a
            == Action::Continue && if s.qcursor > 0 {
            &&& next.query == s.query.take(s.qcursor - 1) + s.query.skip(s.qcursor as int)
            &&& next.qcursor + 1 == s.qcursor
            &&& hits_for(next.query, rels(s.repos), next.hits) && next.cursor == 0
                && next.offset == 0
        } else {
            next == s
        },
        s.after_key((Key { code: KeyCode::Delete, ctrl: false }), next, a) ==> a == Action::Continue
            && if s.qcursor < s.query.len() {
            &&& next.query == s.query.take(s.qcursor as int) + s.query.skip(s.qcursor as int + 1)
            &&& next.qcursor == s.qcursor
            &&& hits_for(next.query, rels(s.repos), next.hits) && next.cursor == 0
                && next.offset == 0
        } else {
            next == s
        },
        s.after_key((Key { code: KeyCode::Char('u'), ctrl: true }), next, a) ==> {
            &&& a == Action::Continue
            &&& next.query == s.query.skip(s.qcursor as int)
            &&& next.qcursor == 0
            &&& hits_for(next.query, rels(s.repos), next.hits) && next.cursor == 0
                && next.offset == 0
        },
        s.after_key((Key { code: KeyCode::Char('w'), ctrl: true }), next, a) ==> {
            &&& a == Action::Continue
            &&& next.qcursor <= s.qcursor
            &&& next.query == s.query.take(next.qcursor as int) + s.query.skip(s.qcursor as int)
            &&& hits_for(next.query, rels(s.repos), next.hits) && next.cursor == 0
                && next.offset == 0
        },
{
    let q = s.query;
    let qc = s.qcursor as int;
    if s.after_key((Key { code: KeyCode::Char(c), ctrl: false }), next, a) {
        assert(next.query == q.insert(qc, c));
        assert(q.insert(qc, c).take(qc) =~= q.take(qc));
        assert(q.insert(qc, c).skip(qc + 1) =~= q.skip(qc));
    }
    if qc > 0 {
        assert(q.remove(qc - 1) =~= q.take(qc - 1) + q.skip(qc));
    }
    if qc < q.len() {
        assert(q.remove(qc) =~= q.take(qc) + q.skip(qc + 1));
    }
    if s.after_key((Key { code: KeyCode::Char('w'), ctrl: true }), next, a) {
        lemma_delete_word_start_bound(q, s.qcursor);
    }
}

/// Where Ctrl-W starts deleting lies at or before the cursor.
proof fn lemma_delete_word_start_bound(q: Seq<char>, qcursor: nat)
    requires
        qcursor <= q.len(),
    ensures
        delete_word_start(q, qcursor) <= qcursor,
{
    let t = q.take(qcursor as int);
    lemma_trim_end_separators_len(t);
    lemma_word_start_len(trim_end_separators(t));
}

proof fn lemma_trim_end_separators_len(s: Seq<char>)
    ensures
        trim_end_separators(s).len() <= s.len(),
    decreases s.len(),
{
    if s.len() > 0 && is_separator(s.last()) {
        lemma_trim_end_separators_len(s.drop_last());
    }
}

proof fn lemma_word_start_len(s: Seq<char>)
    ensures
        word_start(s) <= s.len(),
    decreases s.len(),
{
    if s.len() > 0 && !is_separator(s.last()) {
        lemma_word_start_len(s.drop_last());
    }
}

/// Up moves the list cursor one entry towards the top (staying at the
/// top), Down one entry towards the bottom (staying on the last entry);
/// neither touches the query, its editing cursor, the list, the scroll
/// offset or the repositories, and the selector goes on.
pub proof fn lemma_arrows_move_the_list_cursor(s: StateView, next: StateView, a: Action)
    requires
        s.wf(),
    ensures
        s.after_key((Key { code: KeyCode::Up, ctrl: false }), next, a) ==> {
            &&& a == Action::Continue
            &&& s.cursor > 0 ==> next.cursor + 1 == s.cursor
            &&& s.cursor == 0 ==> next.cursor == 0
            &&& next.query == s.query && next.qcursor == s.qcursor && next.hits == s.hits
            &&& next.offset == s.offset && next.repos == s.repos
        },
        s.after_key((Key { code: KeyCode::Down, ctrl: false }), next, a) ==> {
            &&& a == Action::Continue
            &&& s.cursor + 1 < s.hits.len() ==> next.cursor == s.cursor + 1
            &&& s.cursor + 1 >= s.hits.len() ==> next.cursor == s.cursor
            &&& next.query == s.query && next.qcursor == s.qcursor && next.hits == s.hits
            &&& next.offset == s.offset && next.repos == s.repos
        },
{
}

} // verus!
