use gd::config::{
    cycle, editor_key, editor_step, is_default, known, known_keys, lookup, read_args, show_all, show_one,
    value_of, ConfigCommand, EditorKey, EditorStep,
};
use gd::daemon::fallback_off;
use gd::db::KeyStore;
use gd::i18n::{locale_of, Lang};
use gd::picker::Key;
use gd::table::Table;

fn empty() -> KeyStore {
    KeyStore::new(
        Table::new(vec![]),
        Table::new(vec![]),
        Table::new(vec![]),
        Table::new(vec![]),
    )
}

fn args(list: &[&str]) -> Vec<String> {
    list.iter().map(|s| s.to_string()).collect()
}

#[test]
fn language_follows_setting_then_locale() {
    assert_eq!(Lang::resolve(Some("en"), "zh_TW.UTF-8"), Lang::En);
    assert_eq!(Lang::resolve(Some("中文"), "en_US.UTF-8"), Lang::Zh);
    assert_eq!(Lang::resolve(None, "zh_TW.UTF-8"), Lang::Zh);
    assert_eq!(Lang::resolve(None, "de_DE.UTF-8"), Lang::En);
    assert_eq!(Lang::resolve(None, ""), Lang::En);
    for lang in [Lang::En, Lang::Zh] {
        assert_eq!(Lang::resolve(Some(lang.code()), ""), lang);
    }
    assert_eq!(Lang::Zh.pick("a", "b"), "b");
    assert_eq!(Lang::En.pick("a", "b"), "a");
}

#[test]
fn first_locale_variable_counts() {
    let some = |s: &str| Some(s.to_string());
    assert_eq!(locale_of(some("zh_TW"), some("en"), some("de")), "zh_TW");
    assert_eq!(locale_of(None, some("en"), some("de")), "en");
    assert_eq!(locale_of(None, None, some("de")), "de");
    assert_eq!(locale_of(None, None, None), "");
}

#[test]
fn settings_have_their_values() {
    let all = known();
    let keys: Vec<&str> = all.iter().map(|s| s.key).collect();
    assert_eq!(keys, vec!["layout", "language", "daemon.fallback"]);
    assert_eq!(all[0].allowed, args(&["inline", "centered", "traditional"]));
    assert_eq!(all[1].allowed, args(&["en", "中文"]));
    assert_eq!(all[2].allowed, args(&["poll", "off"]));
    assert_eq!(all[0].effective_default("zh_TW"), "inline");
    assert_eq!(all[2].effective_default("zh_TW"), "poll");
    assert_eq!(all[1].effective_default("zh_TW"), "中文");
    assert_eq!(all[1].effective_default("en_US"), "en");
    assert!(all[0].allows("centered") && !all[0].allows("wide"));
    assert!(lookup("layout").is_some() && lookup("colour").is_none());
    assert_eq!(known_keys(), "layout, language, daemon.fallback");
    for s in &all {
        assert_eq!(lookup(s.key).unwrap().allowed, s.allowed);
        assert!(s.allows(s.default));
    }
    assert_eq!(all[1].help(Lang::En), "language for the picker and this config screen");
    assert_eq!(all[1].help(Lang::Zh), "目錄選單與這個設定畫面的語言");
}

#[test]
fn value_that_was_set_is_shown() {
    let mut s = empty();
    let layout = lookup("layout").unwrap();
    assert!(is_default(&s, &layout));
    assert_eq!(show_one(&s, "layout", Lang::En, "").unwrap(), "layout = inline (default)");
    assert_eq!(gd::config::set(&mut s, "layout", "traditional").unwrap(), "layout = traditional");
    assert_eq!(show_one(&s, "layout", Lang::En, "").unwrap(), "layout = traditional");
    assert_eq!(value_of(&s, &layout, ""), "traditional");
    assert!(!is_default(&s, &layout));
}

#[test]
fn background_scan_can_be_turned_off() {
    let mut s = empty();
    assert_eq!(
        gd::config::set(&mut s, "daemon.fallback", "off").unwrap(),
        "daemon.fallback = off"
    );
    assert_eq!(s.get_setting("daemon.fallback").as_deref(), Some("off"));
    assert!(fallback_off(s.get_setting("daemon.fallback").as_deref()));
    cycle(&mut s, 2, true, "");
    assert_eq!(s.get_setting("daemon.fallback").as_deref(), Some("poll"));
    assert!(!fallback_off(s.get_setting("daemon.fallback").as_deref()));
    let refused = gd::config::set(&mut s, "daemon.fallback", "never").unwrap_err();
    assert_eq!(refused, "invalid value 'never' for daemon.fallback (values: poll, off)");
    assert_eq!(s.get_setting("daemon.fallback").as_deref(), Some("poll"));
}

#[test]
fn wrong_settings_are_refused() {
    let mut s = empty();
    let unknown = gd::config::set(&mut s, "colour", "red").unwrap_err();
    assert_eq!(unknown, "unknown config key 'colour' (known: layout, language, daemon.fallback)");
    assert_eq!(show_one(&s, "colour", Lang::En, "").unwrap_err(), unknown);
    let invalid = gd::config::set(&mut s, "layout", "wide").unwrap_err();
    assert!(invalid.contains("wide") && invalid.contains("inline"));
    assert_eq!(s.get_setting("layout"), None);
}

#[test]
fn arguments_are_read() {
    assert!(matches!(read_args(&args(&[])), ConfigCommand::All));
    match read_args(&args(&["layout"])) {
        ConfigCommand::One(key) => assert_eq!(key, "layout"),
        other => panic!("{other:?}"),
    }
    match read_args(&args(&["layout", "inline"])) {
        ConfigCommand::Assign(key, value) => assert_eq!((key.as_str(), value.as_str()), ("layout", "inline")),
        other => panic!("{other:?}"),
    }
    assert!(matches!(read_args(&args(&["a", "b", "c"])), ConfigCommand::Usage));
}

#[test]
fn all_settings_are_listed() {
    let lines = show_all(&empty(), Lang::En, "en_US");
    assert_eq!(lines[0], "gd config:");
    assert_eq!(lines[1], "  layout = inline (default)");
    assert_eq!(lines[3], "      values: inline | centered | traditional");
    assert_eq!(lines[4], "  language = en (default)");
    assert_eq!(lines[7], "  daemon.fallback = poll (default)");
    assert_eq!(lines[9], "      values: poll | off");
    assert!(lines.last().unwrap().starts_with("set with:"));
}

#[test]
fn cycling_goes_round_and_back() {
    let mut s = empty();
    let layout = lookup("layout").unwrap();
    for expected in ["centered", "traditional", "inline"] {
        cycle(&mut s, 0, true, "");
        assert_eq!(value_of(&s, &layout, ""), expected);
    }
    cycle(&mut s, 0, false, "");
    assert_eq!(value_of(&s, &layout, ""), "traditional");
}

#[test]
fn keys_have_their_meaning() {
    for (key, meaning) in [
        (Key::Esc, EditorKey::Leave),
        (Key::Char('q'), EditorKey::Leave),
        (Key::Char('k'), EditorKey::Up),
        (Key::Down, EditorKey::Down),
        (Key::Enter, EditorKey::Forward),
        (Key::Char(' '), EditorKey::Forward),
        (Key::Char('h'), EditorKey::Back),
        (Key::Char('c'), EditorKey::Other),
        (Key::Backspace, EditorKey::Other),
    ] {
        assert_eq!(editor_key(key, false), meaning);
    }
    assert_eq!(editor_key(Key::Char('c'), true), EditorKey::Leave);
}

#[test]
fn editor_follows_the_keys() {
    assert_eq!(editor_step(0, 2, EditorKey::Down), EditorStep::Go(1));
    assert_eq!(editor_step(0, 2, EditorKey::Forward), EditorStep::Cycle(true));
    assert_eq!(editor_step(0, 2, EditorKey::Back), EditorStep::Cycle(false));
    assert_eq!(editor_step(1, 2, EditorKey::Leave), EditorStep::Leave);
    assert_eq!(editor_step(1, 2, EditorKey::Other), EditorStep::Go(1));
    assert_eq!(editor_step(1, 2, EditorKey::Up), EditorStep::Go(0));
}
