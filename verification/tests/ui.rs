use gd::db::{Candidate, ResultSource};
use gd::i18n::Lang;
use gd::picker::{App, CandidateView, LayoutMode};
use gd::score::Score;
use gd::ui::{
    candidate_row, config_footer, footer, fullscreen_rows, h_window, inline_height, inline_rows,
    keep_tail, line_paint, position_text, row_paint, setting_help, setting_paint, setting_pieces,
    shows_all_colours, split_path, title, truncate_parent, LinePiece, LineRole, Paint, Role, Row,
    SettingRole, Tone,
};
use unicode_width::UnicodeWidthStr;

fn view(path: &str, valid: bool) -> CandidateView {
    CandidateView { path: path.to_string(), valid, source: ResultSource::History }
}

fn text(row: &Row) -> String {
    row.segments.iter().map(|s| s.text.as_str()).collect()
}

fn line(pieces: &[LinePiece]) -> String {
    pieces.iter().map(|p| p.text.as_str()).collect()
}

fn of_role(row: &Row, role: Role) -> String {
    row.segments.iter().filter(|s| s.role == role).map(|s| s.text.as_str()).collect()
}

fn picker(paths: &[&str], viewport: usize, mode: LayoutMode) -> App {
    let list: Vec<Candidate> = paths
        .iter()
        .map(|p| Candidate {
            path: p.to_string(),
            score: Score { tier: 0, units: 30000, num: 0, over: 0 },
            source: ResultSource::History,
        })
        .collect();
    let alive = vec![true; list.len()];
    App::new("qwen2api".to_string(), &list, &alive, viewport, mode)
}

/// The tag stands at the right edge of every row, also where a path holds characters
/// that are two columns wide.
#[test]
fn cjk_rows_keep_tag_flush_right() {
    let width = 56;
    let root = "/tmp/gd-render";
    let rows = ["文件/dev/qwen2api-rs", "文件/docker/qwen2api-rs", "下載/qwen2api"];
    for (i, dir) in rows.iter().enumerate() {
        let row = candidate_row(&view(&format!("{root}/{dir}"), true), i == 0, width, 0, None);
        let shown = text(&row);
        assert!(
            shown.trim_end().ends_with("[hist]"),
            "row {i} should end with the flush-right tag: {shown:?}"
        );
        assert_eq!(shown.width(), width);
    }
}

/// A long path scrolls sideways on the marked row: its beginning comes into view and
/// its name leaves behind an ellipsis, the scroll is limited, and a move resets it.
#[test]
fn highlighted_row_scrolls_to_reveal_prefix() {
    let home = "/home/u";
    let deep = "/home/u/tmp/gd-hscroll-4711/文件/projects/dev/docker/qwen2api-rs";
    let mut app = picker(&[deep], 5, LayoutMode::Traditional);

    let default_row = candidate_row(&view(deep, true), true, 56, app.h_scroll, Some(home));
    let shown = text(&default_row);
    assert!(shown.contains("qwen2api-rs"), "basename shown: {shown:?}");
    assert!(shown.trim_start_matches('▌').trim_start().starts_with('…'));
    let max = default_row.max_scroll;
    assert!(max > 0, "long path must be scrollable");
    app.set_max_hscroll(max);

    assert!(line(&footer(&app, Lang::Zh)).contains("路徑"));

    for _ in 0..10 {
        app.hscroll_left();
        let row = candidate_row(&view(deep, true), true, 56, app.h_scroll, Some(home));
        app.set_max_hscroll(row.max_scroll);
    }
    assert_eq!(app.h_scroll, max, "← clamps at max");
    let scrolled = text(&candidate_row(&view(deep, true), true, 56, app.h_scroll, Some(home)));
    assert!(scrolled.contains("~/"), "prefix revealed: {scrolled:?}");
    assert!(scrolled.contains('…'), "basename pushed out behind a trailing …");

    app.move_down();
    assert_eq!(app.h_scroll, 0, "scroll resets on selection change");
}

/// The marked row starts with a bar and stands on one; other rows do neither. Its tag
/// alone is bright.
#[test]
fn selected_row_has_gutter_and_bar() {
    let c = view("/tmp/gd-render/文件/dev/qwen2api-rs", true);
    let marked = candidate_row(&c, true, 56, 0, None);
    let other = candidate_row(&c, false, 56, 0, None);
    let paints = |row: &Row, marked: bool| -> Vec<(Role, Paint)> {
        row.segments.iter().map(|s| (s.role, row_paint(s.role, marked, c.source))).collect()
    };
    assert!(text(&marked).starts_with('▌'), "selected gutter bar");
    assert!(paints(&marked, true).iter().all(|(_, p)| p.bar), "selected bg fill");
    assert_eq!(text(&marked).width(), 56, "the bar fills the row");
    assert!(text(&other).starts_with(' '), "no gutter on other rows");
    assert!(paints(&other, false).iter().all(|(_, p)| !p.bar), "no bg on other rows");

    let tag_tone = |list: Vec<(Role, Paint)>| list.iter().find(|(r, _)| *r == Role::Tag).unwrap().1.tone;
    assert_eq!(of_role(&marked, Role::Tag).trim(), "[hist]");
    assert_eq!(
        tag_tone(paints(&marked, true)),
        Tone::TitleKey,
        "selected tag keeps its bright source colour"
    );
    assert_eq!(tag_tone(paints(&other, false)), Tone::MatchCount, "other tags dimmed to grey");
}

#[test]
fn lines_and_settings_are_painted() {
    assert_eq!(line_paint(LineRole::Query), Paint { tone: Tone::TitleKey, bar: false, bold: true });
    assert_eq!(line_paint(LineRole::Key), Paint { tone: Tone::FooterKey, bar: false, bold: false });
    let name = |marked| setting_paint(SettingRole::Name, marked);
    assert_eq!(name(true), Paint { tone: Tone::TitleKey, bar: false, bold: true });
    assert_eq!(name(false), Paint { tone: Tone::PathParent, bar: false, bold: false });
    assert_eq!(row_paint(Role::Base, true, ResultSource::Link).bold, true);
    assert_eq!(row_paint(Role::Tag, true, ResultSource::Link).tone, Tone::SelectedIndicator);
}

/// The block at the prompt has the query on top, the best match below it, and the keys
/// at the bottom.
#[test]
fn inline_layout_puts_query_and_best_on_top() {
    let paths = ["/tmp/gd-inline/文件/dev/qwen2api-rs", "/tmp/gd-inline/下載/qwen2api"];
    let app = picker(&paths, 2, LayoutMode::Inline);

    let top = line(&title(&app, 56));
    assert!(top.contains("gd") && top.contains("qwen2api"), "query/title on the first row: {top:?}");

    let rows = app.visible_rows();
    let (sel, best) = rows[0].unwrap();
    assert!(sel);
    let row = text(&candidate_row(best, sel, 56, 0, None));
    assert!(row.starts_with('▌'), "best match carries the gutter");
    assert!(row.contains("qwen2api-rs"), "best basename on row 1: {row:?}");

    let keys = line(&footer(&app, Lang::En));
    assert!(keys.contains("select"), "footer on the last row: {keys:?}");
    assert_eq!(inline_height(2, 40), 4);
}

#[test]
fn missing_directory_is_marked() {
    let row = candidate_row(&view("/x/gone", false), false, 40, 0, None);
    assert!(of_role(&row, Role::Invalid).contains('✗'));
    let row = candidate_row(&view("/x/there", true), false, 40, 0, None);
    assert_eq!(of_role(&row, Role::Invalid), "");
}

#[test]
fn path_is_split_before_its_name() {
    assert_eq!(split_path("~/a/b"), ("~/a/".to_string(), "b".to_string()));
    assert_eq!(split_path("b"), (String::new(), "b".to_string()));
}

#[test]
fn tail_is_kept_by_columns() {
    assert_eq!(keep_tail(&vec![1, 1, 2, 2], 4), 2);
    assert_eq!(keep_tail(&vec![1, 1, 2, 2], 5), 1);
    assert_eq!(keep_tail(&vec![2, 2], 1), 2);
    assert_eq!(keep_tail(&vec![], 9), 0);
}

#[test]
fn parent_is_cut_from_the_left() {
    assert_eq!(truncate_parent("~/a/", "b", 20), "~/a/");
    let cut = truncate_parent("/very/long/parent/", "name", 12);
    assert!(cut.starts_with('…'));
    assert!(cut.width() + "name".width() <= 12);
}

#[test]
fn window_shows_all_where_all_fits() {
    let w = h_window(&vec![1; 10], 10, 10, 0);
    assert_eq!((w.start, w.end, w.lead, w.trail), (0, 10, false, false));
    let w = h_window(&vec![1; 20], 20, 10, 0);
    assert!(w.lead && !w.trail);
    assert_eq!(w.end, 20);
    let w = h_window(&vec![1; 20], 20, 10, 10);
    assert!(!w.lead && w.trail);
    assert_eq!(w.start, 0);
}

#[test]
fn position_fits_the_layout() {
    let mut app = picker(&["/a", "/b", "/c"], 5, LayoutMode::Inline);
    assert_eq!(position_text(&app), "1/3");
    app.move_down();
    assert_eq!(position_text(&app), "2/3");
    assert_eq!(position_text(&picker(&["/a"], 5, LayoutMode::Inline)), "1 match");
    assert_eq!(position_text(&picker(&["/a", "/b"], 5, LayoutMode::Traditional)), "2 matches");
    let app = picker(&["/a", "/b", "/c"], 2, LayoutMode::Traditional);
    assert_eq!(position_text(&app), "1-2/3");
}

#[test]
fn filter_is_shown_in_the_title() {
    let mut app = picker(&["/a", "/b"], 5, LayoutMode::Traditional);
    app.enter_filter();
    app.filter_push('a');
    let top = title(&app, 56);
    assert!(top.iter().any(|p| p.role == LineRole::Filter && p.text.contains('a')));
}

#[test]
fn rows_leave_room_for_title_and_keys() {
    assert_eq!(fullscreen_rows(24), 20);
    assert_eq!(inline_rows(3, 40), 3);
    assert!(inline_rows(1000, 40) < 40);
}

#[test]
fn true_colour_is_announced() {
    assert!(shows_all_colours(Some("truecolor")));
    assert!(shows_all_colours(Some("24bit")));
    assert!(!shows_all_colours(Some("yes")));
    assert!(!shows_all_colours(None));
}

#[test]
fn settings_are_drawn_with_their_values() {
    let store = gd::db::KeyStore::new(
        gd::table::Table::new(vec![]),
        gd::table::Table::new(vec![]),
        gd::table::Table::new(vec![]),
        gd::table::Table::new(vec![]),
    );
    let all = gd::config::known();
    let pieces = setting_pieces(&store, &all[0], true, Lang::En, "en_US.UTF-8");
    let shown: String = pieces.iter().map(|p| p.text.as_str()).collect();
    assert_eq!(shown, "  ▸ layout            inline  (default)");
    let pieces = setting_pieces(&store, &all[2], false, Lang::En, "en_US.UTF-8");
    let shown: String = pieces.iter().map(|p| p.text.as_str()).collect();
    assert_eq!(shown, "    daemon.fallback   poll  (default)");
    assert!(setting_help(&all[0], Lang::En).contains(all[0].help(Lang::En)));
    assert!(!line(&config_footer(Lang::En)).is_empty());
}
