use gd::db::{Candidate, ResultSource};
use gd::picker::{build_spread, passes_filter, Action, App, Key, LayoutMode};
use gd::score::Score;

fn candidates(n: usize) -> Vec<Candidate> {
    (0..n)
        .map(|i| Candidate {
            path: format!("/x/d{i}"),
            score: Score { tier: 0, units: (n - i) as i128 * 30000, num: 0, over: 0 },
            source: ResultSource::History,
        })
        .collect()
}

fn open(n: usize, viewport: usize, mode: LayoutMode) -> App {
    let list = candidates(n);
    let alive = vec![false; list.len()];
    App::new("q".to_string(), &list, &alive, viewport, mode)
}

fn paths(app: &App) -> Vec<Option<(bool, String)>> {
    app.visible_rows()
        .into_iter()
        .map(|slot| slot.map(|(sel, c)| (sel, c.path.clone())))
        .collect()
}

fn row(sel: bool, path: &str) -> Option<(bool, String)> {
    Some((sel, path.to_string()))
}

/// The best stands in the middle; the others fan out one up, one down, in turn.
#[test]
fn spread_is_center_out() {
    assert_eq!(build_spread(&vec![0]), (vec![0], 0));
    assert_eq!(build_spread(&vec![0, 1, 2]), (vec![1, 0, 2], 1));
    assert_eq!(build_spread(&vec![0, 1, 2, 3, 4]), (vec![3, 1, 0, 2, 4], 2));
    assert_eq!(
        build_spread(&vec![0, 1, 2, 3, 4, 5]),
        (vec![5, 3, 1, 0, 2, 4], 3)
    );
}

#[test]
fn spread_of_nothing_is_nothing() {
    assert_eq!(build_spread(&vec![]), (vec![], 0));
}

#[test]
fn centered_best_match_opens_in_middle() {
    let app = open(5, 5, LayoutMode::Centered);
    let rows = paths(&app);
    assert_eq!(rows[2], row(true, "/x/d0"));
    assert_eq!(rows[1], row(false, "/x/d1"));
    assert_eq!(rows[3], row(false, "/x/d2"));
    assert_eq!(rows[0], row(false, "/x/d3"));
    assert_eq!(rows[4], row(false, "/x/d4"));
}

#[test]
fn centered_short_list_pads_to_center() {
    let app = open(1, 5, LayoutMode::Centered);
    let rows = paths(&app);
    assert!(rows[0].is_none() && rows[1].is_none());
    assert_eq!(rows[2], row(true, "/x/d0"));
    assert!(rows[3].is_none() && rows[4].is_none());
}

#[test]
fn centered_cursor_clamps_at_both_ends() {
    let mut app = open(3, 5, LayoutMode::Centered);
    for _ in 0..5 {
        app.move_up();
    }
    assert_eq!(app.cursor, 0);
    for _ in 0..10 {
        app.move_down();
    }
    assert_eq!(app.cursor, app.order.len() - 1);
}

#[test]
fn traditional_is_top_packed() {
    let app = open(3, 5, LayoutMode::Traditional);
    let rows = paths(&app);
    assert_eq!(rows[0], row(true, "/x/d0"));
    assert_eq!(rows[1], row(false, "/x/d1"));
    assert_eq!(rows[2], row(false, "/x/d2"));
    assert!(rows[3].is_none());
    assert_eq!(app.visible_count(), 3);
}

#[test]
fn traditional_down_wraps() {
    let mut app = open(3, 5, LayoutMode::Traditional);
    app.move_up();
    assert_eq!(app.cursor, 2);
    app.move_down();
    assert_eq!(app.cursor, 0);
}

#[test]
fn inline_best_match_on_top() {
    let app = open(3, 5, LayoutMode::Inline);
    let rows = paths(&app);
    assert_eq!(rows[0], row(true, "/x/d0"));
    assert_eq!(rows[1], row(false, "/x/d1"));
    assert_eq!(rows[2], row(false, "/x/d2"));
    assert!(rows[3].is_none() && rows[4].is_none(), "blanks pad the bottom");
}

#[test]
fn inline_moves_clamp_without_wrap() {
    let mut app = open(3, 5, LayoutMode::Inline);
    assert_eq!(app.cursor, 0);
    app.move_up();
    assert_eq!(app.cursor, 0);
    app.move_down();
    assert_eq!(app.cursor, 1);
    app.move_down();
    assert_eq!(app.cursor, 2);
    app.move_down();
    assert_eq!(app.cursor, 2);
    app.move_up();
    assert_eq!(app.cursor, 1);
}

#[test]
fn long_list_scrolls_with_the_cursor() {
    let mut app = open(10, 3, LayoutMode::Traditional);
    for _ in 0..4 {
        app.move_down();
    }
    let rows = paths(&app);
    assert_eq!(rows.len(), 3);
    assert!(rows.contains(&row(true, "/x/d4")));
    assert_eq!(app.selected_rank(), 5);
    assert_eq!(app.total_matches(), 10);
}

#[test]
fn enter_selects_the_marked_directory() {
    let list = candidates(3);
    let alive = vec![true; 3];
    let mut app = App::new("q".to_string(), &list, &alive, 5, LayoutMode::Inline);
    assert!(matches!(app.handle_key(Key::Down, false), Action::Continue));
    match app.handle_key(Key::Enter, false) {
        Action::Select(path) => assert_eq!(path, "/x/d1"),
        other => panic!("not a choice: {other:?}"),
    }
}

#[test]
fn directory_that_is_gone_cannot_be_chosen() {
    let mut app = open(3, 5, LayoutMode::Inline);
    assert!(matches!(app.handle_key(Key::Enter, false), Action::Continue));
}

#[test]
fn escape_cancels() {
    let mut app = open(3, 5, LayoutMode::Inline);
    assert!(matches!(app.handle_key(Key::Esc, false), Action::Cancel));
}

#[test]
fn control_c_cancels() {
    let mut app = open(3, 5, LayoutMode::Inline);
    assert!(matches!(app.handle_key(Key::Char('c'), true), Action::Cancel));
}

#[test]
fn filter_narrows_and_clearing_restores() {
    let mut app = open(12, 5, LayoutMode::Traditional);
    app.enter_filter();
    app.filter_push('d');
    app.filter_push('7');
    assert_eq!(app.total_matches(), 1);
    assert_eq!(paths(&app)[0], row(true, "/x/d7"));
    app.filter_pop();
    assert_eq!(app.total_matches(), 12);
    app.filter_push('z');
    assert_eq!(app.total_matches(), 0);
    assert!(matches!(app.select_current(), Action::Continue | Action::Cancel));
    app.filter_clear();
    assert_eq!(app.total_matches(), 12);
    app.exit_filter();
    assert!(!app.filter_mode);
}

#[test]
fn filter_keeps_the_order_of_the_candidates() {
    let mut app = open(12, 12, LayoutMode::Traditional);
    app.enter_filter();
    app.filter_push('1');
    let shown: Vec<String> = paths(&app).into_iter().flatten().map(|(_, p)| p).collect();
    assert_eq!(shown, vec!["/x/d1", "/x/d10", "/x/d11"]);
}

#[test]
fn filter_takes_a_fuzzy_hit_or_a_plain_part() {
    assert!(passes_filter(Some(3), "/x/d1", "zz"));
    assert!(passes_filter(None, "/x/Docs", "docs"));
    assert!(!passes_filter(None, "/x/d1", "zz"));
}

#[test]
fn side_scroll_stays_in_range_and_resets_on_a_move() {
    let mut app = open(3, 5, LayoutMode::Traditional);
    app.hscroll_left();
    assert_eq!(app.h_scroll, 0);
    app.set_max_hscroll(10);
    for _ in 0..10 {
        app.hscroll_left();
    }
    assert_eq!(app.h_scroll, 10);
    app.hscroll_right();
    assert!(app.h_scroll < 10);
    app.move_down();
    assert_eq!(app.h_scroll, 0);
}

#[test]
fn layout_is_read_from_its_setting() {
    assert_eq!(LayoutMode::from_setting(Some("traditional")), LayoutMode::Traditional);
    assert_eq!(LayoutMode::from_setting(Some("centered")), LayoutMode::Centered);
    assert_eq!(LayoutMode::from_setting(Some("inline")), LayoutMode::Inline);
    assert_eq!(LayoutMode::from_setting(None), LayoutMode::default());
    assert!(LayoutMode::Inline.is_inline());
    assert!(!LayoutMode::Centered.is_inline());
}
