//! The settings, and how they are shown and changed.

use crate::db::KeyStore;
use crate::i18n::{lang_code, stored_lang, Lang};
use crate::picker::Key;
use crate::table::{lookup as value_under, replaced};
use crate::text::{
    join,
    joined,
    law_joined,
    lemma_occurs_between,
    occurs_in,
    str_eq,
    texts,
    views,
};
use vstd::prelude::*;
use vstd::string::*;

verus! {

/// A setting: its key, the values it may have, the one it has at first, and what it is
/// for, in both languages.
#[derive(Debug)]
pub struct Setting {
    pub key: &'static str,
    pub allowed: Vec<String>,
    pub default: &'static str,
    pub help_en: &'static str,
    pub help_zh: &'static str,
}

/// What a setting is.
pub struct SettingInfo {
    pub key: Seq<char>,
    pub allowed: Seq<Seq<char>>,
    pub default: Seq<char>,
    pub help_en: Seq<char>,
    pub help_zh: Seq<char>,
}

impl View for Setting {
    type V = SettingInfo;

    open spec fn view(&self) -> SettingInfo {
        SettingInfo {
            key: self.key@,
            allowed: texts(self.allowed@),
            default: self.default@,
            help_en: self.help_en@,
            help_zh: self.help_zh@,
        }
    }
}

/// The picker's layout.
pub open spec fn layout_setting() -> SettingInfo {
    SettingInfo {
        key: "layout"@,
        allowed: seq!["inline"@, "centered"@, "traditional"@],
        default: "inline"@,
        help_en: "picker layout — inline: compact block at the prompt, query and best match on the line your cursor is on, list flowing down (eye stays put); centered: full-screen, best in the middle, fanning out; traditional: full-screen, best on top"@,
        help_zh: "選單排版 — inline：貼著游標的精簡區塊，query 與最佳結果就在你打字那行、清單向下排（眼睛不用移動）；centered：全螢幕、最佳置中向外擴散；traditional：全螢幕、最佳在最上向下排列"@,
    }
}

/// The language of the screens.
pub open spec fn language_setting() -> SettingInfo {
    SettingInfo {
        key: "language"@,
        allowed: seq!["en"@, "中文"@],
        default: "en"@,
        help_en: "language for the picker and this config screen"@,
        help_zh: "目錄選單與這個設定畫面的語言"@,
    }
}

/// What the daemon does while the kernel's events cannot be had.
pub open spec fn daemon_fallback_setting() -> SettingInfo {
    SettingInfo {
        key: "daemon.fallback"@,
        allowed: seq!["poll"@, "off"@],
        default: "poll"@,
        help_en: "what the daemon does while fanotify is unavailable — poll: low-frequency background rescan; off: no scanning, the index only grows from your shell visits"@,
        help_zh: "fanotify 不可用時 daemon 的行為 — poll：低頻背景補掃；off：完全不掃描，索引只靠 shell hook"@,
    }
}

/// All settings, in the order in which they are shown.
pub open spec fn all_settings() -> Seq<SettingInfo> {
    seq![layout_setting(), language_setting(), daemon_fallback_setting()]
}

/// The value of a setting where none is stored. That of the language goes by the
/// locale.
pub open spec fn default_value(s: SettingInfo, locale: Seq<char>) -> Seq<char> {
    if s.key == "language"@ {
        lang_code(stored_lang(None, locale))
    } else {
        s.default
    }
}

/// The setting with the given key.
pub open spec fn setting_of(key: Seq<char>) -> Option<SettingInfo> {
    if key == "layout"@ {
        Some(layout_setting())
    } else if key == "language"@ {
        Some(language_setting())
    } else if key == "daemon.fallback"@ {
        Some(daemon_fallback_setting())
    } else {
        None
    }
}

/// A list of three texts.
fn three(a: &str, b: &str, c: &str) -> (r: Vec<String>)
    ensures
        texts(r@) == seq![a@, b@, c@],
{
    let mut out: Vec<String> = Vec::new();
    out.push(a.to_owned());
    out.push(b.to_owned());
    out.push(c.to_owned());
    assert(texts(out@) =~= seq![a@, b@, c@]);
    out
}

/// A list of two texts.
fn two(a: &str, b: &str) -> (r: Vec<String>)
    ensures
        texts(r@) == seq![a@, b@],
{
    let mut out: Vec<String> = Vec::new();
    out.push(a.to_owned());
    out.push(b.to_owned());
    assert(texts(out@) =~= seq![a@, b@]);
    out
}

/// The setting of the picker's layout.
fn layout() -> (r: Setting)
    ensures
        r@ == layout_setting(),
{
    Setting {
        key: "layout",
        allowed: three("inline", "centered", "traditional"),
        default: "inline",
        help_en: "picker layout — inline: compact block at the prompt, query and best match on the line your cursor is on, list flowing down (eye stays put); centered: full-screen, best in the middle, fanning out; traditional: full-screen, best on top",
        help_zh: "選單排版 — inline：貼著游標的精簡區塊，query 與最佳結果就在你打字那行、清單向下排（眼睛不用移動）；centered：全螢幕、最佳置中向外擴散；traditional：全螢幕、最佳在最上向下排列",
    }
}

/// The setting of the language.
fn language() -> (r: Setting)
    ensures
        r@ == language_setting(),
{
    Setting {
        key: "language",
        allowed: two("en", "中文"),
        default: "en",
        help_en: "language for the picker and this config screen",
        help_zh: "目錄選單與這個設定畫面的語言",
    }
}

/// The setting of what the daemon does while the kernel's events cannot be had.
fn daemon_fallback() -> (r: Setting)
    ensures
        r@ == daemon_fallback_setting(),
{
    Setting {
        key: "daemon.fallback",
        allowed: two("poll", "off"),
        default: "poll",
        help_en: "what the daemon does while fanotify is unavailable — poll: low-frequency background rescan; off: no scanning, the index only grows from your shell visits",
        help_zh: "fanotify 不可用時 daemon 的行為 — poll：低頻背景補掃；off：完全不掃描，索引只靠 shell hook",
    }
}

/// All settings, in the order in which they are shown.
pub fn known() -> (r: Vec<Setting>)
    ensures
        views(r@) == all_settings(),
        r@.len() == 3,
{
    let mut out: Vec<Setting> = Vec::new();
    out.push(layout());
    out.push(language());
    out.push(daemon_fallback());
    assert(views(out@) =~= all_settings());
    out
}

impl Setting {
    /// What the setting is for, in the given language.
    pub fn help(&self, lang: Lang) -> (r: &'static str)
        ensures
            r@ == match lang {
                Lang::En => self@.help_en,
                Lang::Zh => self@.help_zh,
            },
    {
        lang.pick(self.help_en, self.help_zh)
    }

    /// The value of the setting where none is stored.
    pub fn effective_default(&self, locale: &str) -> (r: String)
        ensures
            r@ == default_value(self@, locale@),
    {
        if str_eq(self.key, "language") {
            Lang::resolve(None, locale).code().to_owned()
        } else {
            self.default.to_owned()
        }
    }

    /// Whether the setting may have the given value.
    pub fn allows(&self, value: &str) -> (r: bool)
        ensures
            r == self@.allowed.contains(value@),
    {
        let mut i: usize = 0;
        while i < self.allowed.len()
            invariant
                i <= self.allowed@.len(),
                forall|k: int| 0 <= k < i ==> #[trigger] self@.allowed[k] != value@,
            decreases self.allowed@.len() - i,
        {
            if str_eq(self.allowed[i].as_str(), value) {
                assert(self@.allowed[i as int] == value@);
                return true;
            }
            i = i + 1;
        }
        false
    }
}

/// The setting with the given key.
pub fn lookup(key: &str) -> (r: Option<Setting>)
    ensures
        match r {
            Some(s) => setting_of(key@) == Some(s@),
            None => setting_of(key@) is None,
        },
{
    if str_eq(key, "layout") {
        Some(layout())
    } else if str_eq(key, "language") {
        Some(language())
    } else if str_eq(key, "daemon.fallback") {
        Some(daemon_fallback())
    } else {
        None
    }
}

/// The keys of all settings.
pub open spec fn key_list() -> Seq<char> {
    joined(seq!["layout"@, "language"@, "daemon.fallback"@], ", "@)
}

/// The keys of all settings.
pub fn known_keys() -> (r: String)
    ensures
        r@ == key_list(),
{
    join(&three("layout", "language", "daemon.fallback"), ", ")
}

/// What is said of a key that is no setting's.
pub open spec fn unknown_key(key: Seq<char>) -> Seq<char> {
    "unknown config key '"@ + key + "' (known: "@ + key_list() + ")"@
}

/// What is said of a value that a setting may not have.
pub open spec fn invalid_value(s: SettingInfo, value: Seq<char>) -> Seq<char> {
    "invalid value '"@ + value + "' for "@ + s.key + " (values: "@ + joined(s.allowed, ", "@)
        + ")"@
}

/// What is said of a key that is no setting's.
fn say_unknown_key(key: &str) -> (r: String)
    ensures
        r@ == unknown_key(key@),
{
    let mut out = String::new();
    out.append("unknown config key '");
    out.append(key);
    out.append("' (known: ");
    out.append(known_keys().as_str());
    out.append(")");
    assert(out@ =~= unknown_key(key@));
    out
}

/// The value of a setting: the stored one, else its default.
pub open spec fn current_value(store: KeyStore, s: SettingInfo, locale: Seq<char>) -> Seq<char> {
    match value_under(store.settings.rows(), s.key) {
        Some(v) => v,
        None => default_value(s, locale),
    }
}

/// The value of a setting: the stored one, else its default.
pub fn value_of(store: &KeyStore, s: &Setting, locale: &str) -> (r: String)
    ensures
        r@ == current_value(*store, s@, locale@),
{
    match store.get_setting(s.key) {
        Some(v) => v,
        None => s.effective_default(locale),
    }
}

/// Whether nothing is stored for a setting.
pub fn is_default(store: &KeyStore, s: &Setting) -> (r: bool)
    ensures
        r == value_under(store.settings.rows(), s@.key) is None,
{
    store.get_setting(s.key).is_none()
}

/// What is asked for with some arguments.
#[derive(Debug)]
pub enum ConfigCommand {
    /// To see them all, or to change them on a screen.
    All,
    /// To see one.
    One(String),
    /// To change one.
    Assign(String, String),
    /// Nothing that is known.
    Usage,
}

/// What is asked for with the given arguments.
pub fn read_args(args: &Vec<String>) -> (r: ConfigCommand)
    ensures
        match r {
            ConfigCommand::All => args@.len() == 0,
            ConfigCommand::One(key) => args@.len() == 1 && key@ == args@[0]@,
            ConfigCommand::Assign(key, value) => args@.len() == 2 && key@ == args@[0]@ && value@
                == args@[1]@,
            ConfigCommand::Usage => args@.len() > 2,
        },
{
    if args.len() == 0 {
        ConfigCommand::All
    } else if args.len() == 1 {
        ConfigCommand::One(args[0].clone())
    } else if args.len() == 2 {
        ConfigCommand::Assign(args[0].clone(), args[1].clone())
    } else {
        ConfigCommand::Usage
    }
}

/// The three lines that show a setting.
pub open spec fn setting_lines(
    store: KeyStore,
    s: SettingInfo,
    lang: Lang,
    locale: Seq<char>,
) -> Seq<Seq<char>> {
    let tag = if value_under(store.settings.rows(), s.key) is Some {
        Seq::empty()
    } else {
        match lang {
            Lang::En => " (default)"@,
            Lang::Zh => "（預設）"@,
        }
    };
    let help = match lang {
        Lang::En => s.help_en,
        Lang::Zh => s.help_zh,
    };
    let values = match lang {
        Lang::En => "values"@,
        Lang::Zh => "可選值"@,
    };
    seq![
        "  "@ + s.key + " = "@ + current_value(store, s, locale) + tag,
        "      "@ + help,
        "      "@ + values + ": "@ + joined(s.allowed, " | "@),
    ]
}

/// The lines that show all settings.
pub open spec fn all_lines(store: KeyStore, lang: Lang, locale: Seq<char>) -> Seq<Seq<char>> {
    seq!["gd config:"@] + setting_lines(store, layout_setting(), lang, locale) + setting_lines(
        store,
        language_setting(),
        lang,
        locale,
    ) + setting_lines(store, daemon_fallback_setting(), lang, locale) + seq![
        Seq::empty(),
        match lang {
            Lang::En => "set with:  gd config <key> <value>   e.g. gd config layout traditional"@,
            Lang::Zh => "設定方式：gd config <key> <value>   例如 gd config layout traditional"@,
        },
    ]
}

/// Adds the three lines that show a setting.
fn push_setting(out: &mut Vec<String>, store: &KeyStore, s: &Setting, lang: Lang, locale: &str)
    ensures
        texts(final(out)@) == texts(old(out)@) + setting_lines(*store, s@, lang, locale@),
{
    let ghost before = texts(out@);
    let mut row = String::new();
    row.append("  ");
    row.append(s.key);
    row.append(" = ");
    row.append(value_of(store, s, locale).as_str());
    if is_default(store, s) {
        row.append(lang.pick(" (default)", "（預設）"));
    }
    let mut help = String::new();
    help.append("      ");
    help.append(s.help(lang));
    let mut values = String::new();
    values.append("      ");
    values.append(lang.pick("values", "可選值"));
    values.append(": ");
    values.append(join(&s.allowed, " | ").as_str());
    proof {
        let lines = setting_lines(*store, s@, lang, locale@);
        assert(row@ =~= lines[0]);
        assert(help@ =~= lines[1]);
        assert(values@ =~= lines[2]);
    }
    out.push(row);
    out.push(help);
    out.push(values);
    assert(texts(out@) =~= before + setting_lines(*store, s@, lang, locale@));
}

/// The lines that show all settings.
pub fn show_all(store: &KeyStore, lang: Lang, locale: &str) -> (r: Vec<String>)
    ensures
        texts(r@) == all_lines(*store, lang, locale@),
{
    let mut out: Vec<String> = Vec::new();
    out.push("gd config:".to_owned());
    assert(texts(out@) =~= seq!["gd config:"@]);
    push_setting(&mut out, store, &layout(), lang, locale);
    push_setting(&mut out, store, &language(), lang, locale);
    push_setting(&mut out, store, &daemon_fallback(), lang, locale);
    let ghost before = texts(out@);
    out.push(String::new());
    out.push(
        lang.pick(
            "set with:  gd config <key> <value>   e.g. gd config layout traditional",
            "設定方式：gd config <key> <value>   例如 gd config layout traditional",
        ).to_owned(),
    );
    assert(texts(out@) =~= all_lines(*store, lang, locale@));
    out
}

/// The line that shows one setting.
pub open spec fn one_line(store: KeyStore, s: SettingInfo, lang: Lang, locale: Seq<char>) -> Seq<
    char,
> {
    match value_under(store.settings.rows(), s.key) {
        Some(v) => s.key + " = "@ + v,
        None => s.key + " = "@ + default_value(s, locale) + " "@ + match lang {
            Lang::En => "(default)"@,
            Lang::Zh => "（預設）"@,
        },
    }
}

/// The line that shows one setting, or what is said where the key is no setting's.
pub fn show_one(store: &KeyStore, key: &str, lang: Lang, locale: &str) -> (r: Result<
    String,
    String,
>)
    ensures
        match r {
            Ok(line) => setting_of(key@) matches Some(s) && line@ == one_line(
                *store,
                s,
                lang,
                locale@,
            ),
            Err(message) => setting_of(key@) is None && message@ == unknown_key(key@),
        },
{
    match lookup(key) {
        None => Err(say_unknown_key(key)),
        Some(s) => {
            let mut out = String::new();
            out.append(s.key);
            out.append(" = ");
            match store.get_setting(s.key) {
                Some(v) => {
                    out.append(v.as_str());
                },
                None => {
                    out.append(s.effective_default(locale).as_str());
                    out.append(" ");
                    out.append(lang.pick("(default)", "（預設）"));
                },
            }
            assert(out@ =~= one_line(*store, s@, lang, locale@));
            Ok(out)
        },
    }
}

/// Gives a setting a value that it may have, and says so; where the key is no
/// setting's, or the setting may not have the value, says that and changes nothing.
pub fn set(store: &mut KeyStore, key: &str, value: &str) -> (r: Result<String, String>)
    ensures
        match setting_of(key@) {
            None => r matches Err(message) && message@ == unknown_key(key@),
            Some(s) => if s.allowed.contains(value@) {
                r matches Ok(line) && line@ == s.key + " = "@ + value@
            } else {
                r matches Err(message) && message@ == invalid_value(s, value@)
            },
        },
        r is Ok ==> final(store).settings.rows() == replaced(
            old(store).settings.rows(),
            key@,
            value@,
        ) && old(store).settings.leads_to(&final(store).settings),
        r is Err ==> final(store).settings == old(store).settings,
        final(store).dirs == old(store).dirs,
        final(store).links == old(store).links,
        final(store).boosts == old(store).boosts,
{
    match lookup(key) {
        None => Err(say_unknown_key(key)),
        Some(s) => {
            if !s.allows(value) {
                let mut out = String::new();
                out.append("invalid value '");
                out.append(value);
                out.append("' for ");
                out.append(s.key);
                out.append(" (values: ");
                out.append(join(&s.allowed, ", ").as_str());
                out.append(")");
                assert(out@ =~= invalid_value(s@, value@));
                return Err(out);
            }
            store.set_setting(s.key, value);
            let mut out = String::new();
            out.append(s.key);
            out.append(" = ");
            out.append(value);
            assert(out@ =~= s@.key + " = "@ + value@);
            Ok(out)
        },
    }
}

// ---- the screen on which settings are changed ----

/// Where a value stands among those a setting may have; the first place where it does
/// not stand there at all.
pub open spec fn value_place(allowed: Seq<Seq<char>>, value: Seq<char>) -> int {
    match allowed.index_of_first(value) {
        Some(i) => i,
        None => 0,
    }
}

/// The next place among `n`, or the one before, round and round.
pub open spec fn stepped(place: int, n: int, forward: bool) -> int {
    if forward {
        if place + 1 < n {
            place + 1
        } else {
            0
        }
    } else if place > 0 {
        place - 1
    } else {
        n - 1
    }
}

/// The value that follows the given one, or comes before it, among those a setting may
/// have.
pub open spec fn cycled(s: SettingInfo, value: Seq<char>, forward: bool) -> Seq<char> {
    s.allowed[stepped(value_place(s.allowed, value), s.allowed.len() as int, forward)]
}

/// Where a value stands among those a setting may have.
fn place_of(allowed: &Vec<String>, value: &str) -> (r: usize)
    requires
        allowed@.len() > 0,
    ensures
        r == value_place(texts(allowed@), value@),
        r < allowed@.len(),
{
    let ghost all = texts(allowed@);
    let mut i: usize = 0;
    while i < allowed.len()
        invariant
            all == texts(allowed@),
            i <= all.len(),
            forall|k: int| 0 <= k < i ==> #[trigger] all[k] != value@,
        decreases all.len() - i,
    {
        if str_eq(allowed[i].as_str(), value) {
            proof {
                assert(all[i as int] == value@);
                all.index_of_first_ensures(value@);
            }
            return i;
        }
        i = i + 1;
    }
    proof {
        all.index_of_first_ensures(value@);
    }
    0
}

/// Moves the setting `at` to its next value, or to the one before, round and round, and
/// stores it.
pub fn cycle(store: &mut KeyStore, at: usize, forward: bool, locale: &str)
    requires
        at < 3,
    ensures
        ({
            let s = all_settings()[at as int];
            final(store).settings.rows() == replaced(
                old(store).settings.rows(),
                s.key,
                cycled(s, current_value(*old(store), s, locale@), forward),
            )
        }),
        old(store).settings.leads_to(&final(store).settings),
        final(store).dirs == old(store).dirs,
        final(store).links == old(store).links,
        final(store).boosts == old(store).boosts,
{
    let list = known();
    let s = &list[at];
    assert(s@ == all_settings()[at as int]);
    let current = value_of(store, s, locale);
    let n: usize = s.allowed.len();
    assert(n == s@.allowed.len());
    assert(n == 2 || n == 3);
    let place: usize = place_of(&s.allowed, current.as_str());
    let next: usize = if forward {
        if place + 1 < n {
            place + 1
        } else {
            0
        }
    } else if place > 0 {
        place - 1
    } else {
        n - 1
    };
    assert(s.allowed@[next as int]@ == cycled(s@, current@, forward));
    store.set_setting(s.key, s.allowed[next].as_str());
}

/// A key that is pressed on that screen.
#[derive(Clone, Copy, PartialEq, Eq, Structural, Debug)]
pub enum EditorKey {
    Up,
    Down,
    Forward,
    Back,
    Leave,
    Other,
}

/// What a key means on the settings screen.
pub open spec fn key_meaning(key: Key, control: bool) -> EditorKey {
    if control && key == Key::Char('c') {
        EditorKey::Leave
    } else {
        match key {
            Key::Esc => EditorKey::Leave,
            Key::Up => EditorKey::Up,
            Key::Down => EditorKey::Down,
            Key::Right => EditorKey::Forward,
            Key::Enter => EditorKey::Forward,
            Key::Left => EditorKey::Back,
            Key::Char(c) => if c == 'q' {
                EditorKey::Leave
            } else if c == 'k' {
                EditorKey::Up
            } else if c == 'j' {
                EditorKey::Down
            } else if c == 'l' || c == ' ' {
                EditorKey::Forward
            } else if c == 'h' {
                EditorKey::Back
            } else {
                EditorKey::Other
            },
            _ => EditorKey::Other,
        }
    }
}

/// What a key means on the settings screen.
pub fn editor_key(key: Key, control: bool) -> (r: EditorKey)
    ensures
        r == key_meaning(key, control),
{
    match key {
        Key::Esc => EditorKey::Leave,
        Key::Up => EditorKey::Up,
        Key::Down => EditorKey::Down,
        Key::Right => EditorKey::Forward,
        Key::Enter => EditorKey::Forward,
        Key::Left => EditorKey::Back,
        Key::Char(c) => if c == 'q' || (control && c == 'c') {
            EditorKey::Leave
        } else if c == 'k' {
            EditorKey::Up
        } else if c == 'j' {
            EditorKey::Down
        } else if c == 'l' || c == ' ' {
            EditorKey::Forward
        } else if c == 'h' {
            EditorKey::Back
        } else {
            EditorKey::Other
        },
        Key::Backspace => EditorKey::Other,
        Key::Other => EditorKey::Other,
    }
}

/// What a key does there.
#[derive(Clone, Copy, PartialEq, Eq, Structural, Debug)]
pub enum EditorStep {
    /// Goes to the setting at this place.
    Go(usize),
    /// Changes the setting, forward or back.
    Cycle(bool),
    /// Leaves the screen.
    Leave,
}

/// What a key does where the setting `at` of `n` is marked.
pub fn editor_step(at: usize, n: usize, key: EditorKey) -> (r: EditorStep)
    requires
        at < n,
    ensures
        r == match key {
            EditorKey::Up => EditorStep::Go(
                if at > 0 {
                    (at - 1) as usize
                } else {
                    0
                },
            ),
            EditorKey::Down => EditorStep::Go(
                if at + 1 < n {
                    (at + 1) as usize
                } else {
                    at
                },
            ),
            EditorKey::Forward => EditorStep::Cycle(true),
            EditorKey::Back => EditorStep::Cycle(false),
            EditorKey::Leave => EditorStep::Leave,
            EditorKey::Other => EditorStep::Go(at),
        },
{
    match key {
        EditorKey::Up => EditorStep::Go(
            if at > 0 {
                at - 1
            } else {
                0
            },
        ),
        EditorKey::Down => EditorStep::Go(
            if at < n - 1 {
                at + 1
            } else {
                at
            },
        ),
        EditorKey::Forward => EditorStep::Cycle(true),
        EditorKey::Back => EditorStep::Cycle(false),
        EditorKey::Leave => EditorStep::Leave,
        EditorKey::Other => EditorStep::Go(at),
    }
}

/// Law: every setting that is shown is the one that its key leads to, and its first
/// value is one that it may have.
pub proof fn law_settings_are_known(at: int)
    requires
        0 <= at < all_settings().len(),
    ensures
        setting_of(all_settings()[at].key) == Some(all_settings()[at]),
        all_settings()[at].allowed.contains(all_settings()[at].default),
{
    reveal_strlit("layout");
    reveal_strlit("language");
    reveal_strlit("daemon.fallback");
    assert("layout"@.len() == 6 && "language"@.len() == 8 && "daemon.fallback"@.len() == 15);
    let s = all_settings()[at];
    assert(s.allowed[0] == s.default);
}

/// Law: a step back undoes a step forward, and the other way round.
pub proof fn law_steps_undo(place: int, n: int)
    requires
        0 <= place < n,
    ensures
        stepped(stepped(place, n, true), n, false) == place,
        stepped(stepped(place, n, false), n, true) == place,
        0 <= stepped(place, n, true) < n,
        0 <= stepped(place, n, false) < n,
{
}

/// Law: what a key was given is what it has, and no other setting changes.
pub proof fn law_set_get(
    rows: Seq<(Seq<char>, Seq<char>)>,
    key: Seq<char>,
    value: Seq<char>,
    other: Seq<char>,
)
    ensures
        value_under(replaced(rows, key, value), key) == Some(value),
        other != key ==> value_under(replaced(rows, key, value), other) == value_under(rows, other),
{
    crate::table::law_replaced(rows, key, value, key);
    crate::table::law_replaced(rows, key, value, other);
}

/// Law: a setting has the value that is stored for it; where none is, the language goes by
/// the locale, and every other setting has its first value.
pub proof fn law_current_value(store: KeyStore, s: SettingInfo, locale: Seq<char>)
    ensures
        value_under(store.settings.rows(), s.key) matches Some(v) ==> current_value(
            store,
            s,
            locale,
        ) == v,
        value_under(store.settings.rows(), s.key) is None && s.key != "language"@ ==> current_value(
            store,
            s,
            locale,
        ) == s.default,
        value_under(store.settings.rows(), s.key) is None && s.key == "language"@ ==> current_value(
            store,
            s,
            locale,
        ) == if crate::i18n::locale_lang(locale) == Lang::Zh {
            "中文"@
        } else {
            "en"@
        },
{
}

/// Law: a step among the values of a setting leads to one that it may have; from a value
/// that it may have it leads to the next in the list, or from the last to the first, and a
/// step back leads back.
pub proof fn law_cycled(s: SettingInfo, i: int)
    requires
        0 <= i < s.allowed.len(),
        forall|a: int, b: int|
            0 <= a < b < s.allowed.len() ==> #[trigger] s.allowed[a] != #[trigger] s.allowed[b],
    ensures
        cycled(s, s.allowed[i], true) == s.allowed[if i + 1 < s.allowed.len() {
            i + 1
        } else {
            0
        }],
        cycled(s, cycled(s, s.allowed[i], true), false) == s.allowed[i],
        cycled(s, cycled(s, s.allowed[i], false), true) == s.allowed[i],
{
    let n = s.allowed.len() as int;
    lemma_value_place(s.allowed, i);
    lemma_value_place(s.allowed, stepped(i, n, true));
    lemma_value_place(s.allowed, stepped(i, n, false));
}

/// A value that stands once stands where it stands.
proof fn lemma_value_place(allowed: Seq<Seq<char>>, i: int)
    requires
        0 <= i < allowed.len(),
        forall|a: int, b: int|
            0 <= a < b < allowed.len() ==> #[trigger] allowed[a] != #[trigger] allowed[b],
    ensures
        value_place(allowed, allowed[i]) == i,
{
    allowed.index_of_first_ensures(allowed[i]);
    let p = value_place(allowed, allowed[i]);
    if p < i {
        assert(allowed[p] != allowed[i]);
    } else if i < p {
        assert(allowed[i] != allowed[p]);
    }
}

/// Law: what is shown of a setting names its key and its value, and whether that is its
/// first one, says what it is for in the language that is spoken, and lists all values
/// that it may have; and every setting is shown.
pub proof fn law_all_shown(store: KeyStore, lang: Lang, locale: Seq<char>, at: int)
    requires
        0 <= at < all_settings().len(),
    ensures
        ({
            let s = all_settings()[at];
            let all = all_lines(store, lang, locale);
            let lines = setting_lines(store, s, lang, locale);
            &&& lines.len() == 3
            &&& all.len() == 12
            &&& all[1 + 3 * at] == lines[0] && all[2 + 3 * at] == lines[1] && all[3 + 3 * at]
                == lines[2]
            &&& ("  "@ + s.key + " = "@ + current_value(store, s, locale)).is_prefix_of(lines[0])
            &&& value_under(store.settings.rows(), s.key) is Some ==> lines[0] == "  "@ + s.key
                + " = "@ + current_value(store, s, locale)
            &&& lines[1] == "      "@ + (if lang == Lang::Zh {
                s.help_zh
            } else {
                s.help_en
            })
        }),
{
    let s = all_settings()[at];
    let lines = setting_lines(store, s, lang, locale);
    let row = "  "@ + s.key + " = "@ + current_value(store, s, locale);
    assert(lines[0].take(row.len() as int) =~= row);
    assert(row + Seq::<char>::empty() =~= row);
}

/// Law: what is said of a key that no setting has names it and the key of every setting;
/// what is said of a value that a setting may not have names the value, the setting and
/// every value that it may have.
pub proof fn law_refusals(key: Seq<char>, s: SettingInfo, value: Seq<char>, at: int)
    requires
        all_settings().contains(s),
        0 <= at < s.allowed.len(),
    ensures
        occurs_in(unknown_key(key), s.key),
        occurs_in(unknown_key(key), key),
        occurs_in(invalid_value(s, value), value),
        occurs_in(invalid_value(s, value), s.key),
        occurs_in(invalid_value(s, value), s.allowed[at]),
{
    let keys = seq!["layout"@, "language"@, "daemon.fallback"@];
    let i = choose|i: int| 0 <= i < all_settings().len() && all_settings()[i] == s;
    assert(s.key == keys[i]);
    lemma_joined_occurs(keys, ", "@, i, "unknown config key '"@ + key + "' (known: "@, ")"@);
    lemma_occurs_between("unknown config key '"@, key, "' (known: "@ + key_list() + ")"@);
    assert("unknown config key '"@ + key + ("' (known: "@ + key_list() + ")"@) =~= unknown_key(
        key,
    ));
    let list = joined(s.allowed, ", "@);
    let said = invalid_value(s, value);
    lemma_joined_occurs(
        s.allowed,
        ", "@,
        at,
        "invalid value '"@ + value + "' for "@ + s.key + " (values: "@,
        ")"@,
    );
    lemma_occurs_between(
        "invalid value '"@,
        value,
        "' for "@ + s.key + " (values: "@ + list + ")"@,
    );
    assert("invalid value '"@ + value + ("' for "@ + s.key + " (values: "@ + list + ")"@) =~= said);
    lemma_occurs_between(
        "invalid value '"@ + value + "' for "@,
        s.key,
        " (values: "@ + list + ")"@,
    );
    assert("invalid value '"@ + value + "' for "@ + s.key + (" (values: "@ + list + ")"@) =~= said);
}

/// Each of the texts that are joined occurs in what they are joined to.
proof fn lemma_joined_occurs(
    list: Seq<Seq<char>>,
    sep: Seq<char>,
    i: int,
    before: Seq<char>,
    behind: Seq<char>,
)
    requires
        0 <= i < list.len(),
    ensures
        occurs_in(before + joined(list, sep) + behind, list[i]),
{
    let front = list.take(i);
    let tail = list.skip(i + 1);
    let one = seq![list[i]];
    let all = before + joined(list, sep) + behind;
    let a = if i > 0 {
        joined(front, sep) + sep
    } else {
        Seq::empty()
    };
    let b = if tail.len() > 0 {
        sep + joined(tail, sep)
    } else {
        Seq::empty()
    };
    assert(list =~= front + (one + tail));
    law_joined(front, one + tail, list[i], sep);
    law_joined(one, tail, list[i], sep);
    if i == 0 {
        assert(front + (one + tail) =~= one + tail);
    }
    if tail.len() == 0 {
        assert(one + tail =~= one);
    }
    assert(joined(list, sep) =~= a + list[i] + b);
    lemma_occurs_between(before + a, list[i], b + behind);
    assert(before + a + list[i] + (b + behind) =~= all);
}

/// Law: one setting is shown by its key and its value, and by nothing else where the value
/// is stored.
pub proof fn law_one_line(store: KeyStore, s: SettingInfo, lang: Lang, locale: Seq<char>)
    ensures
        (s.key + " = "@ + current_value(store, s, locale)).is_prefix_of(
            one_line(store, s, lang, locale),
        ),
        value_under(store.settings.rows(), s.key) is Some <==> one_line(store, s, lang, locale)
            == s.key + " = "@ + current_value(store, s, locale),
{
    let row = s.key + " = "@ + current_value(store, s, locale);
    let line = one_line(store, s, lang, locale);
    reveal_strlit(" ");
    assert(" "@.len() == 1);
    assert(line.take(row.len() as int) =~= row);
}

/// Law: on the settings screen the letters of the home row do what the arrows do; Enter and
/// the space bar change a value as the right arrow does; Escape, `q` and Ctrl-C leave.
pub proof fn law_editor_keys(control: bool)
    ensures
        key_meaning(Key::Up, control) == EditorKey::Up,
        key_meaning(Key::Down, control) == EditorKey::Down,
        key_meaning(Key::Left, control) == EditorKey::Back,
        key_meaning(Key::Right, control) == EditorKey::Forward,
        key_meaning(Key::Char('k'), control) == key_meaning(Key::Up, control),
        key_meaning(Key::Char('j'), control) == key_meaning(Key::Down, control),
        key_meaning(Key::Char('h'), control) == key_meaning(Key::Left, control),
        key_meaning(Key::Char('l'), control) == key_meaning(Key::Right, control),
        key_meaning(Key::Enter, control) == key_meaning(Key::Right, control),
        key_meaning(Key::Char(' '), control) == key_meaning(Key::Right, control),
        key_meaning(Key::Esc, control) == EditorKey::Leave,
        key_meaning(Key::Char('q'), control) == EditorKey::Leave,
        key_meaning(Key::Char('c'), control) == if control {
            EditorKey::Leave
        } else {
            EditorKey::Other
        },
{
}

} // verus!
