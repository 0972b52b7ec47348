use gh_yard::scan::Repo;
use gh_yard::selector::{
    prompt_cursor_x, rank_matches, row_prefix, segments_of, total_width, viewport_height, Action, Key,
    KeyCode, Outcome, RowStyle, State,
};

fn repos(names: &[&str]) -> Vec<Repo> {
    names
        .iter()
        .map(|n| Repo {
            abs: format!("/root/{n}"),
            rel: n.to_string(),
        })
        .collect()
}

fn key(code: KeyCode) -> Key {
    Key::plain(code)
}

fn ctrl(c: char) -> Key {
    Key::ctrl(c)
}

fn type_str(state: &mut State, s: &str) {
    for c in s.chars() {
        state.handle(key(KeyCode::Char(c)));
    }
}

#[test]
fn insert_at_cursor_middle() {
    let repos = repos(&["github.com/a/yard"]);
    let mut state = State::new(&repos);
    type_str(&mut state, "ard");
    state.handle(ctrl('a'));
    type_str(&mut state, "y");
    assert_eq!(state.query(), "yard");
    assert_eq!(state.qcursor(), 1);
}

#[test]
fn backspace_removes_cjk_before_cursor() {
    let repos = repos(&["github.com/a/b"]);
    let mut state = State::new(&repos);
    type_str(&mut state, "日本語");
    state.handle(key(KeyCode::Backspace));
    assert_eq!(state.query(), "日本");
    assert_eq!(state.qcursor(), 2);
}

#[test]
fn delete_at_cursor_removes_cjk() {
    let repos = repos(&["github.com/a/b"]);
    let mut state = State::new(&repos);
    type_str(&mut state, "日本語");
    state.handle(ctrl('a'));
    state.handle(key(KeyCode::Delete));
    assert_eq!(state.query(), "本語");
    assert_eq!(state.qcursor(), 0);
}

#[test]
fn ctrl_w_with_fullwidth_space_does_not_panic() {
    // Regression: the word boundary was computed as byte position + 1,
    // which split multi-byte whitespace (U+3000) and panicked.
    let repos = repos(&["github.com/a/b"]);
    let mut state = State::new(&repos);
    type_str(&mut state, "ab\u{3000}cd");
    state.handle(ctrl('w'));
    assert_eq!(state.query(), "ab\u{3000}");
    assert_eq!(state.qcursor(), 3);
}

#[test]
fn ctrl_w_deletes_word_before_cursor_only() {
    let repos = repos(&["github.com/a/b"]);
    let mut state = State::new(&repos);
    type_str(&mut state, "foo/bar");
    state.handle(ctrl('a'));
    for _ in 0..4 {
        state.handle(key(KeyCode::Right));
    }
    state.handle(ctrl('w'));
    assert_eq!(state.query(), "bar");
    assert_eq!(state.qcursor(), 0);
}

#[test]
fn ctrl_u_deletes_before_cursor_only() {
    let repos = repos(&["github.com/a/b"]);
    let mut state = State::new(&repos);
    type_str(&mut state, "日本語abc");
    state.handle(key(KeyCode::Left));
    state.handle(ctrl('u'));
    assert_eq!(state.query(), "c");
    assert_eq!(state.qcursor(), 0);
}

#[test]
fn cursor_movement_clamps_at_edges() {
    let repos = repos(&["github.com/a/b"]);
    let mut state = State::new(&repos);
    type_str(&mut state, "ab");
    state.handle(key(KeyCode::Right));
    assert_eq!(state.qcursor(), 2);
    state.handle(ctrl('a'));
    state.handle(key(KeyCode::Left));
    assert_eq!(state.qcursor(), 0);
}

#[test]
fn width_before_cursor_counts_wide_chars_as_two() {
    let repos = repos(&["github.com/a/b"]);
    let mut state = State::new(&repos);
    type_str(&mut state, "日a");
    assert_eq!(state.width_before_cursor(), 3);
}

#[test]
fn filter_matches_and_selects() {
    let repos = repos(&["github.com/a/apple", "github.com/a/yard"]);
    let mut state = State::new(&repos);
    type_str(&mut state, "yard");
    assert_eq!(state.hits().len(), 1);
    assert_eq!(state.selected_repo().unwrap().rel, "github.com/a/yard");
}

#[test]
fn filter_matches_cjk() {
    let repos = repos(&["github.com/a/日本語メモ", "github.com/a/other"]);
    let mut state = State::new(&repos);
    type_str(&mut state, "日本");
    assert_eq!(state.hits().len(), 1);
    assert_eq!(
        state.selected_repo().unwrap().rel,
        "github.com/a/日本語メモ"
    );
}

#[test]
fn empty_query_lists_every_repository_in_order() {
    let repos = repos(&["a/b/c", "d/e/f", "g/h/i"]);
    let state = State::new(&repos);
    let indices: Vec<usize> = state.hits().iter().map(|h| h.index).collect();
    assert_eq!(indices, vec![0, 1, 2]);
    assert!(state.hits().iter().all(|h| h.indices.is_empty()));
}

#[test]
fn list_cursor_moves_and_clamps() {
    let repos = repos(&["a/b/c", "d/e/f", "g/h/i"]);
    let mut state = State::new(&repos);
    state.handle(key(KeyCode::Up));
    assert_eq!(state.cursor(), 0);
    state.handle(key(KeyCode::Down));
    state.handle(ctrl('j'));
    state.handle(ctrl('n'));
    assert_eq!(state.cursor(), 2);
    state.handle(ctrl('k'));
    assert_eq!(state.cursor(), 1);
    assert_eq!(state.selected_repo().unwrap().rel, "d/e/f");
    // Editing the query puts the cursor back on the first entry.
    type_str(&mut state, "x");
    assert_eq!(state.cursor(), 0);
}

#[test]
fn keys_give_actions() {
    let repos = repos(&["a/b/c"]);
    let mut state = State::new(&repos);
    assert!(state.handle(key(KeyCode::Enter)) == Action::Accept);
    assert!(state.handle(key(KeyCode::Esc)) == Action::Abort);
    assert!(state.handle(ctrl('c')) == Action::Abort);
    assert!(state.handle(key(KeyCode::Char('c'))) == Action::Continue);
    assert_eq!(state.query(), "c");
    assert!(state.handle(ctrl('z')) == Action::Continue);
    assert!(state.handle(key(KeyCode::Other)) == Action::Continue);
    assert_eq!(state.query(), "c");
}

#[test]
fn home_end_and_ctrl_d() {
    let repos = repos(&["a/b/c"]);
    let mut state = State::new(&repos);
    type_str(&mut state, "abc");
    state.handle(key(KeyCode::Home));
    assert_eq!(state.qcursor(), 0);
    state.handle(ctrl('d'));
    assert_eq!(state.query(), "bc");
    state.handle(key(KeyCode::End));
    assert_eq!(state.qcursor(), 2);
    state.handle(key(KeyCode::Delete));
    assert_eq!(state.query(), "bc");
    state.handle(ctrl('b'));
    assert_eq!(state.qcursor(), 1);
    state.handle(ctrl('f'));
    state.handle(ctrl('f'));
    assert_eq!(state.qcursor(), 2);
    state.handle(ctrl('a'));
    state.handle(key(KeyCode::Backspace));
    assert_eq!(state.query(), "bc");
    state.handle(ctrl('e'));
    assert_eq!(state.qcursor(), 2);
}

#[test]
fn ctrl_w_skips_trailing_separators() {
    let repos = repos(&["a/b/c"]);
    let mut state = State::new(&repos);
    type_str(&mut state, "foo/bar/");
    state.handle(ctrl('w'));
    assert_eq!(state.query(), "foo/");
    assert_eq!(state.qcursor(), 4);
}

#[test]
fn typing_then_backspace_restores_the_list() {
    let repos = repos(&["github.com/a/apple", "github.com/a/yard"]);
    let mut state = State::new(&repos);
    type_str(&mut state, "y");
    let before: Vec<usize> = state.hits().iter().map(|h| h.index).collect();
    type_str(&mut state, "q");
    state.handle(key(KeyCode::Backspace));
    let after: Vec<usize> = state.hits().iter().map(|h| h.index).collect();
    assert_eq!(state.query(), "y");
    assert_eq!(before, after);
}

#[test]
fn accept_outcome() {
    let repos = repos(&["a/b/c", "d/e/f"]);
    let mut state = State::new(&repos);
    state.handle(key(KeyCode::Down));
    match state.outcome() {
        Outcome::Selected(p) => assert_eq!(p, "/root/d/e/f"),
        Outcome::Aborted => panic!("nothing selected"),
    }
    type_str(&mut state, "zzzzzz");
    assert!(matches!(state.outcome(), Outcome::Aborted));
}

#[test]
fn scroll_keeps_cursor_visible() {
    let repos = repos(&["a/1", "a/2", "a/3", "a/4", "a/5"]);
    let mut state = State::new(&repos);
    for _ in 0..4 {
        state.handle(key(KeyCode::Down));
    }
    state.scroll(2);
    assert_eq!(state.offset(), 3);
    state.handle(key(KeyCode::Up));
    state.handle(key(KeyCode::Up));
    state.scroll(2);
    assert_eq!(state.offset(), 2);
    state.scroll(0);
    assert_eq!(state.offset(), 2);
}

#[test]
fn row_segments_dim_owner_and_mark_matches() {
    let repos = repos(&["github.com/a/yard"]);
    let mut state = State::new(&repos);
    let segs = state.row_segments(0);
    let view: Vec<(String, RowStyle)> = segs.into_iter().map(|s| (s.text, s.style)).collect();
    assert!(view == vec![
        ("github.com/a/".to_string(), RowStyle::Dim),
        ("yard".to_string(), RowStyle::Plain),
    ]);
    type_str(&mut state, "yard");
    let segs = state.row_segments(0);
    let text: String = segs.iter().map(|s| s.text.as_str()).collect();
    assert_eq!(text, "github.com/a/yard");
    assert!(segs.last().unwrap().style == RowStyle::Matched);
}

#[test]
fn prompt_cursor_stays_in_area() {
    assert_eq!(prompt_cursor_x(0, 80, 3), 5);
    assert_eq!(prompt_cursor_x(0, 4, 3), 3);
    assert_eq!(prompt_cursor_x(10, 80, u16::MAX), 79);
}

#[test]
fn viewport_is_forty_percent_at_least_three() {
    assert_eq!(viewport_height(Some(50)), 20);
    assert_eq!(viewport_height(None), 9);
    assert_eq!(viewport_height(Some(0)), 9);
    assert_eq!(viewport_height(Some(5)), 3);
    assert_eq!(viewport_height(Some(2)), 3);
    assert_eq!(viewport_height(Some(u16::MAX)), 26214);
}

#[test]
fn ranking_is_score_descending_ties_in_order() {
    let ms = vec![
        Some((10, vec![3, 1, 1])),
        None,
        Some((20, vec![0])),
        Some((10, vec![2])),
    ];
    let hits = rank_matches(&ms);
    let got: Vec<(usize, Vec<u32>)> = hits.iter().map(|h| (h.index, h.indices.clone())).collect();
    assert_eq!(got, vec![(2, vec![0]), (0, vec![1, 3]), (3, vec![2])]);
    assert!(rank_matches(&vec![None, None]).is_empty());
}

#[test]
fn segments_merge_neighbours_of_one_style() {
    let gs: Vec<String> = ["g", "h", "/", "a", "é", "b"].iter().map(|g| g.to_string()).collect();
    let segs = segments_of(&gs, &vec![1, 4], 3);
    let got: Vec<(String, RowStyle)> = segs.into_iter().map(|s| (s.text, s.style)).collect();
    assert_eq!(
        got,
        vec![
            ("g".to_string(), RowStyle::Dim),
            ("h".to_string(), RowStyle::Matched),
            ("/".to_string(), RowStyle::Dim),
            ("a".to_string(), RowStyle::Plain),
            ("é".to_string(), RowStyle::Matched),
            ("b".to_string(), RowStyle::Plain),
        ]
    );
    assert!(segments_of(&Vec::new(), &vec![0], 0).is_empty());
}

#[test]
fn widths_add_up_and_cap() {
    assert_eq!(total_width(&vec![Some(2), None, Some(1)]), 3);
    assert_eq!(total_width(&vec![]), 0);
    assert_eq!(total_width(&vec![Some(65000), Some(600)]), u16::MAX);
    assert_eq!(total_width(&vec![Some(usize::MAX), Some(1)]), u16::MAX);
}

#[test]
fn row_positions_count_graphemes_not_chars() {
    // `日` + combining acute is one grapheme, so `x` is the grapheme after it
    // (one position less than its character position).
    let repos = repos(&["github.com/a/\u{65e5}\u{301}x"]);
    let mut state = State::new(&repos);
    type_str(&mut state, "x");
    assert_eq!(state.hits().len(), 1);
    let view: Vec<(String, RowStyle)> = state
        .row_segments(0)
        .into_iter()
        .map(|s| (s.text, s.style))
        .collect();
    assert_eq!(
        view,
        vec![
            ("github.com/a/".to_string(), RowStyle::Dim),
            ("\u{65e5}\u{301}".to_string(), RowStyle::Plain),
            ("x".to_string(), RowStyle::Matched),
        ]
    );
}

#[test]
fn list_rows_show_the_window_and_mark_the_cursor() {
    let repos = repos(&["a/b/c", "d/e/f", "g/h/i", "j/k/l", "m/n/o"]);
    let mut state = State::new(&repos);
    for _ in 0..3 {
        state.handle(key(KeyCode::Down));
    }
    let rows: Vec<(usize, bool)> = state.list_rows(2).iter().map(|r| (r.hit_pos, r.selected)).collect();
    assert_eq!(rows, vec![(2, false), (3, true)]);
    assert_eq!(state.offset(), 2);
    let rows: Vec<(usize, bool)> = state.list_rows(10).iter().map(|r| (r.hit_pos, r.selected)).collect();
    assert_eq!(rows, vec![(2, false), (3, true), (4, false)]);
    assert!(state.list_rows(0).is_empty());
    assert_eq!(row_prefix(true), "\u{276f} ");
    assert_eq!(row_prefix(false), "  ");
}

#[test]
fn row_texts_join_to_the_path() {
    let repos = repos(&["github.com/a/\u{65e5}\u{301}x", "gitlab.com/g/s/yard"]);
    let mut state = State::new(&repos);
    type_str(&mut state, "a");
    for i in 0..state.hits().len() {
        let text: String = state.row_segments(i).iter().map(|s| s.text.as_str()).collect();
        assert_eq!(text, repos[state.hits()[i].index].rel);
    }
}
