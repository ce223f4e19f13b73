//! The configuration: what the file may hold, and the settings that come of it.

use std::collections::hash_map::RandomState;

use vstd::prelude::*;

use crate::apps::{app_texts, App, AppText};
use crate::fonts;
use crate::keyboard;
use crate::names;
use crate::pairs;
use crate::pairs::{pair_texts, Bindings};
use crate::path;
use crate::text;

verus! {

/// Longest idle time before the volumes are dismounted by themselves, in minutes.
pub const AUTO_DISMOUNT_MAX: u32 = 1440;

/// Shortest and longest time before the host's clipboard is cleared, in seconds.
pub const CLIP_CLEAR_TIMEOUT_MIN: u32 = 1;

pub const CLIP_CLEAR_TIMEOUT_MAX: u32 = 3600;

// ------------------------------------------------- the table of the file ---

/// A map that keeps its keys in the order in which they came.
#[verifier::external_type_specification]
#[verifier::external_body]
#[verifier::reject_recursive_types(K)]
#[verifier::reject_recursive_types(V)]
#[verifier::reject_recursive_types(S)]
pub struct ExIndexMap<K, V, S>(indexmap::IndexMap<K, V, S>);

/// The applications of the file: name and command by key, in the file's order.
pub type AppTable = indexmap::IndexMap<String, (String, String), RandomState>;

/// What an `AppTable` holds, in its order.
pub uninterp spec fn table(m: AppTable) -> Seq<(Seq<char>, (Seq<char>, Seq<char>))>;

/// The texts of a list of entries.
pub open spec fn entry_texts(v: Seq<(String, (String, String))>) -> Seq<
    (Seq<char>, (Seq<char>, Seq<char>)),
> {
    v.map_values(|e: (String, (String, String))| (e.0@, (e.1.0@, e.1.1@)))
}

/// No key stands twice.
pub open spec fn keys_distinct(es: Seq<(Seq<char>, (Seq<char>, Seq<char>))>) -> bool {
    forall|i: int, j: int| 0 <= i < j < es.len() ==> #[trigger] es[i].0 != #[trigger] es[j].0
}

/// A list of entries after one was inserted: in the place of the entry with the same
/// key, else at the end.
pub open spec fn inserted(
    es: Seq<(Seq<char>, (Seq<char>, Seq<char>))>,
    e: (Seq<char>, (Seq<char>, Seq<char>)),
) -> Seq<(Seq<char>, (Seq<char>, Seq<char>))>
    decreases es.len(),
{
    if es.len() == 0 {
        seq![e]
    } else if es[0].0 == e.0 {
        seq![e] + es.skip(1)
    } else {
        seq![es[0]] + inserted(es.skip(1), e)
    }
}

/// `IndexMap::new`: a new map holds nothing.
#[verifier::external_body]
fn new_table() -> (m: AppTable)
    ensures
        table(m) == Seq::<(Seq<char>, (Seq<char>, Seq<char>))>::empty(),
{
    indexmap::IndexMap::new()
}

/// `IndexMap::insert`: a known key keeps its place and gets the new value, a new
/// one comes last.
#[verifier::external_body]
fn table_insert(m: &mut AppTable, key: String, value: (String, String))
    ensures
        table(*final(m)) == inserted(table(*old(m)), (key@, (value.0@, value.1@))),
{
    m.insert(key, value);
}

/// `IndexMap::into_iter`: the entries come in the order of the map, each key once.
#[verifier::external_body]
fn table_entries(m: AppTable) -> (r: Vec<(String, (String, String))>)
    ensures
        entry_texts(r@) == table(m),
        keys_distinct(entry_texts(r@)),
{
    m.into_iter().collect()
}

// ---------------------------------------------------------- the defaults ---

/// The shortcut actions and their default binds.
pub open spec fn shortcut_defaults() -> Seq<(Seq<char>, Seq<char>)> {
    seq![("copy_out"@, "Ctrl+Alt+C"@), ("paste_in"@, "Ctrl+Alt+V"@)]
}

/// `shortcut_defaults`, computed.
pub fn shortcut_default_list() -> (r: Vec<(String, String)>)
    ensures
        pair_texts(r@) == shortcut_defaults(),
{
    let mut v: Vec<(String, String)> = Vec::new();
    v.push(pairs::pair("copy_out", "Ctrl+Alt+C"));
    v.push(pairs::pair("paste_in", "Ctrl+Alt+V"));
    assert(pair_texts(v@) =~= shortcut_defaults());
    v
}

/// The default bind of a shortcut action; nothing for an unknown one.
pub fn default_shortcut(action: &str) -> (r: String)
    ensures
        r@ == match pairs::lookup(shortcut_defaults(), action@) {
            Some(b) => b,
            None => seq![],
        },
{
    let v = shortcut_default_list();
    match pairs::find(&v, action) {
        Some(b) => b,
        None => String::new(),
    }
}

/// The default binds by action.
pub fn default_shortcuts() -> (r: Bindings)
    ensures
        r.wf(),
        r@ == pairs::binds(shortcut_defaults()),
{
    let mut b = Bindings::new();
    b.set("copy_out".to_owned(), "Ctrl+Alt+C".to_owned());
    b.set("paste_in".to_owned(), "Ctrl+Alt+V".to_owned());
    proof {
        reveal_strlit("copy_out");
        reveal_strlit("paste_in");
        assert("copy_out"@[0] != "paste_in"@[0]);
        reveal_with_fuel(pairs::lookup, 3);
        let d = shortcut_defaults();
        assert(d.skip(1)[0] == d[1]);
        assert(d.skip(1).skip(1).len() == 0);
        assert(b@ =~= pairs::binds(d));
    }
    b
}

pub fn default_suspend() -> (r: String)
    ensures
        r@ == "dismount"@,
{
    "dismount".to_owned()
}

pub fn default_modifier_keys() -> (r: String)
    ensures
        r@ == "system"@,
{
    "system".to_owned()
}

pub fn default_clip_clear_timeout() -> (r: u32)
    ensures
        r == 30,
{
    30
}

pub fn default_theme() -> (r: String)
    ensures
        r@ == "system"@,
{
    "system".to_owned()
}

pub fn default_font() -> (r: String)
    ensures
        r@ == "system"@,
{
    "system".to_owned()
}

pub fn default_font_size() -> (r: String)
    ensures
        r@ == "system"@,
{
    "system".to_owned()
}

pub fn default_window_size() -> (r: String)
    ensures
        r@ == "default"@,
{
    "default".to_owned()
}

// -------------------------------------------------------------- validity ---

/// A time before the clipboard is cleared, brought into its range.
pub open spec fn clamped(secs: int) -> int {
    if secs < CLIP_CLEAR_TIMEOUT_MIN {
        CLIP_CLEAR_TIMEOUT_MIN as int
    } else if secs > CLIP_CLEAR_TIMEOUT_MAX {
        CLIP_CLEAR_TIMEOUT_MAX as int
    } else {
        secs
    }
}

/// `clamped`, computed.
pub fn clamp_clip_timeout(secs: u32) -> (r: u32)
    ensures
        r == clamped(secs as int),
{
    if secs < CLIP_CLEAR_TIMEOUT_MIN {
        CLIP_CLEAR_TIMEOUT_MIN
    } else if secs > CLIP_CLEAR_TIMEOUT_MAX {
        CLIP_CLEAR_TIMEOUT_MAX
    } else {
        secs
    }
}

/// The width and height of a size written `<w>x<h>`, where both are sane.
pub open spec fn sane_size(s: Seq<char>) -> Option<(int, int)> {
    match text::split_once(s, 'x') {
        Some((w, h)) => match (
            text::unsigned_in(w, u32::MAX as int),
            text::unsigned_in(h, u32::MAX as int),
        ) {
            (Some(w), Some(h)) => if 320 <= w <= 16384 && 240 <= h <= 16384 {
                Some((w, h))
            } else {
                None
            },
            _ => None,
        },
        None => None,
    }
}

/// `sane_size`, computed.
pub fn parse_sane_size(s: &str) -> (r: Option<(u32, u32)>)
    ensures
        r is Some <==> sane_size(s@) is Some,
        r matches Some((w, h)) ==> sane_size(s@) == Some((w as int, h as int)),
{
    match text::cut(s, 'x') {
        Some((w, h)) => {
            match (
                text::parse_unsigned(w.as_str(), u32::MAX as u64),
                text::parse_unsigned(h.as_str(), u32::MAX as u64),
            ) {
                (Some(w), Some(h)) => {
                    if w >= 320 && w <= 16384 && h >= 240 && h <= 16384 {
                        Some((w as u32, h as u32))
                    } else {
                        None
                    }
                },
                _ => None,
            }
        },
        None => None,
    }
}

/// Is the value a size of the window that may be configured?
pub open spec fn window_size_ok(s: Seq<char>) -> bool {
    s == "default"@ || s == "max"@ || sane_size(s) is Some
}

/// `window_size_ok`, computed.
pub fn window_size_valid(s: &str) -> (r: bool)
    ensures
        r == window_size_ok(s@),
{
    text::same(s, "default") || text::same(s, "max") || parse_sane_size(s).is_some()
}

pub open spec fn suspend_ok(s: Seq<char>) -> bool {
    s == "dismount"@ || s == "ignore"@
}

pub open spec fn theme_ok(s: Seq<char>) -> bool {
    s == "light"@ || s == "dark"@ || s == "system"@
}

pub open spec fn modifier_ok(s: Seq<char>) -> bool {
    pairs::lookup(keyboard::choice_list(), s) is Some
}

/// A value where it is valid, else the other one.
pub open spec fn valid_or(ok: bool, s: Seq<char>, other: Seq<char>) -> Seq<char> {
    if ok { s } else { other }
}

fn pick(ok: bool, s: String, other: &str) -> (r: String)
    ensures
        r@ == valid_or(ok, s@, other@),
{
    if ok {
        s
    } else {
        other.to_owned()
    }
}

// ---------------------------------------------------------- the settings ---

/// What the file holds.
pub struct RawConfig {
    pub last_used_app: Option<String>,
    pub suspend_action: String,
    pub theme: String,
    pub ui_font: String,
    pub ui_font_size: String,
    pub window_size: String,
    pub modifier_keys: String,
    pub exchange: bool,
    pub exchange_dir: Option<String>,
    pub clip_clear: bool,
    pub clip_clear_timeout: u32,
    pub auto_dismount: u32,
    pub debug: bool,
    pub log_dir: Option<String>,
    pub apps: AppTable,
    pub shortcuts: Vec<(String, String)>,
    /// The name of each volume that has a table of its own, with the text of the table.
    pub volumes: Vec<(String, String)>,
}

/// What the file holds, as values.
pub ghost struct RawSettings {
    pub last_used_app: Option<Seq<char>>,
    pub suspend_action: Seq<char>,
    pub theme: Seq<char>,
    pub ui_font: Seq<char>,
    pub ui_font_size: Seq<char>,
    pub window_size: Seq<char>,
    pub modifier_keys: Seq<char>,
    pub exchange: bool,
    pub exchange_dir: Option<Seq<char>>,
    pub clip_clear: bool,
    pub clip_clear_timeout: int,
    pub auto_dismount: int,
    pub debug: bool,
    pub log_dir: Option<Seq<char>>,
    pub apps: Seq<(Seq<char>, (Seq<char>, Seq<char>))>,
    pub shortcuts: Seq<(Seq<char>, Seq<char>)>,
    pub volumes: Seq<(Seq<char>, Seq<char>)>,
}

impl View for RawConfig {
    type V = RawSettings;

    open spec fn view(&self) -> RawSettings {
        RawSettings {
            last_used_app: text::opt(self.last_used_app),
            suspend_action: self.suspend_action@,
            theme: self.theme@,
            ui_font: self.ui_font@,
            ui_font_size: self.ui_font_size@,
            window_size: self.window_size@,
            modifier_keys: self.modifier_keys@,
            exchange: self.exchange,
            exchange_dir: text::opt(self.exchange_dir),
            clip_clear: self.clip_clear,
            clip_clear_timeout: self.clip_clear_timeout as int,
            auto_dismount: self.auto_dismount as int,
            debug: self.debug,
            log_dir: text::opt(self.log_dir),
            apps: table(self.apps),
            shortcuts: pair_texts(self.shortcuts@),
            volumes: pair_texts(self.volumes@),
        }
    }
}

/// The settings.
pub struct Config {
    pub apps: Vec<App>,
    pub last_used_app: Option<String>,
    pub suspend_action: String,
    pub theme: String,
    pub ui_font: String,
    pub ui_font_size: String,
    pub window_size: String,
    pub modifier_keys: String,
    pub exchange: bool,
    pub exchange_dir: Option<String>,
    pub clip_clear: bool,
    pub clip_clear_timeout: u32,
    pub auto_dismount: u32,
    pub debug: bool,
    pub log_dir: Option<String>,
    pub shortcuts: Bindings,
    /// The tables of single volumes, which nothing here reads.
    pub volumes: Vec<(String, String)>,
}

/// The settings, as values.
pub ghost struct Settings {
    pub apps: Seq<AppText>,
    pub last_used_app: Option<Seq<char>>,
    pub suspend_action: Seq<char>,
    pub theme: Seq<char>,
    pub ui_font: Seq<char>,
    pub ui_font_size: Seq<char>,
    pub window_size: Seq<char>,
    pub modifier_keys: Seq<char>,
    pub exchange: bool,
    pub exchange_dir: Option<Seq<char>>,
    pub clip_clear: bool,
    pub clip_clear_timeout: int,
    pub auto_dismount: int,
    pub debug: bool,
    pub log_dir: Option<Seq<char>>,
    pub shortcuts: Map<Seq<char>, Seq<char>>,
    pub volumes: Seq<(Seq<char>, Seq<char>)>,
}

impl View for Config {
    type V = Settings;

    open spec fn view(&self) -> Settings {
        Settings {
            apps: app_texts(self.apps@),
            last_used_app: text::opt(self.last_used_app),
            suspend_action: self.suspend_action@,
            theme: self.theme@,
            ui_font: self.ui_font@,
            ui_font_size: self.ui_font_size@,
            window_size: self.window_size@,
            modifier_keys: self.modifier_keys@,
            exchange: self.exchange,
            exchange_dir: text::opt(self.exchange_dir),
            clip_clear: self.clip_clear,
            clip_clear_timeout: self.clip_clear_timeout as int,
            auto_dismount: self.auto_dismount as int,
            debug: self.debug,
            log_dir: text::opt(self.log_dir),
            shortcuts: self.shortcuts@,
            volumes: pair_texts(self.volumes@),
        }
    }
}

/// The settings of a file that says nothing.
pub open spec fn empty_settings() -> Settings {
    Settings {
        apps: seq![],
        last_used_app: None,
        suspend_action: "dismount"@,
        theme: "system"@,
        ui_font: "system"@,
        ui_font_size: "system"@,
        window_size: "default"@,
        modifier_keys: "system"@,
        exchange: true,
        exchange_dir: None,
        clip_clear: true,
        clip_clear_timeout: 30,
        auto_dismount: 0,
        debug: false,
        log_dir: None,
        shortcuts: pairs::binds(shortcut_defaults()),
        volumes: seq![],
    }
}

/// The host directory that is shared with the volumes: the configured one, with the
/// home directory in place of a leading `~`.
pub open spec fn exchange_at(dir: Option<Seq<char>>, home: Option<Seq<char>>) -> Seq<char> {
    match dir {
        Some(d) => if d == "~"@ {
            match home {
                Some(h) => h,
                None => "~"@,
            }
        } else {
            match (text::after_prefix(d, "~/"@), home) {
                (Some(rest), Some(h)) => names::path_join(h, rest),
                _ => d,
            }
        },
        None => names::path_join(
            names::path_join(
                match home {
                    Some(h) => h,
                    None => seq![],
                },
                "Veracage"@,
            ),
            "Exchange"@,
        ),
    }
}

impl Config {
    /// `exchange_at`, for the configured directory.
    pub fn exchange_path(&self, home: Option<&str>) -> (r: String)
        ensures
            r@ == exchange_at(text::opt(self.exchange_dir), text::opt_str(home)),
    {
        match &self.exchange_dir {
            Some(d) => {
                if text::same(d.as_str(), "~") {
                    return match home {
                        Some(h) => h.to_owned(),
                        None => "~".to_owned(),
                    };
                }
                if let Some(rest) = text::strip(d.as_str(), "~/") {
                    if let Some(h) = home {
                        return names::join_path(h, rest.as_str());
                    }
                }
                d.clone()
            },
            None => {
                let h = match home {
                    Some(h) => h.to_owned(),
                    None => String::new(),
                };
                let v = names::join_path(h.as_str(), "Veracage");
                names::join_path(v.as_str(), "Exchange")
            },
        }
    }

    /// `empty_settings`, computed.
    pub fn empty() -> (r: Config)
        ensures
            r@ == empty_settings(),
            r.shortcuts.wf(),
    {
        let r = Config {
            apps: Vec::new(),
            last_used_app: None,
            suspend_action: default_suspend(),
            theme: default_theme(),
            ui_font: default_font(),
            ui_font_size: default_font_size(),
            window_size: default_window_size(),
            modifier_keys: default_modifier_keys(),
            exchange: true,
            exchange_dir: None,
            clip_clear: true,
            clip_clear_timeout: default_clip_clear_timeout(),
            auto_dismount: 0,
            debug: false,
            log_dir: None,
            shortcuts: default_shortcuts(),
            volumes: Vec::new(),
        };
        assert(r@.apps =~= empty_settings().apps);
        assert(r@.volumes =~= empty_settings().volumes);
        r
    }
}

/// The basename of a command, by which two entries are the same application.
pub fn exec_basename(command: &str) -> (r: String)
    ensures
        r@ == path::base_name(command@),
{
    path::basename(command)
}

/// A name with its first character in upper case.
pub fn capitalize_first(s: &str) -> (r: String)
    ensures
        r@ == text::capitalized(s@),
{
    text::capitalize(s)
}

/// Where the file is.
pub open spec fn config_at(config_home: Option<Seq<char>>, home: Option<Seq<char>>) -> Seq<char> {
    let base = match config_home {
        Some(c) => c,
        None => names::path_join(
            match home {
                Some(h) => h,
                None => seq![],
            },
            ".config"@,
        ),
    };
    names::path_join(names::path_join(base, "veracage"@), "config.toml"@)
}

/// `config_at`, computed.
pub fn config_path(config_home: Option<&str>, home: Option<&str>) -> (r: String)
    ensures
        r@ == config_at(text::opt_str(config_home), text::opt_str(home)),
{
    let base = match config_home {
        Some(c) => c.to_owned(),
        None => {
            let h = match home {
                Some(h) => h.to_owned(),
                None => String::new(),
            };
            names::join_path(h.as_str(), ".config")
        },
    };
    let dir = names::join_path(base.as_str(), "veracage");
    names::join_path(dir.as_str(), "config.toml")
}

// --------------------------------------------------------------- loading ---

/// Is the program of `command` that of an entry?
pub open spec fn program_known(
    es: Seq<(Seq<char>, (Seq<char>, Seq<char>))>,
    command: Seq<char>,
) -> bool {
    exists|i: int|
        0 <= i < es.len() && path::base_name(#[trigger] es[i].1.1) == path::base_name(command)
}

/// The applications of a table: of the entries of one program the first one counts.
pub open spec fn loaded_apps(es: Seq<(Seq<char>, (Seq<char>, Seq<char>))>) -> Seq<AppText>
    decreases es.len(),
{
    if es.len() == 0 {
        seq![]
    } else {
        let before = loaded_apps(es.drop_last());
        let e = es.last();
        if program_known(es.drop_last(), e.1.1) {
            before
        } else {
            before.push(AppText { key: e.0, name: text::capitalized(e.1.0), command: e.1.1 })
        }
    }
}

/// Values by name after those of a list, blank ones left out, were put over them.
pub open spec fn overlaid(
    base: Map<Seq<char>, Seq<char>>,
    ps: Seq<(Seq<char>, Seq<char>)>,
) -> Map<Seq<char>, Seq<char>>
    decreases ps.len(),
{
    if ps.len() == 0 {
        base
    } else {
        let m = overlaid(base, ps.drop_last());
        if text::trimmed(ps.last().1).len() > 0 {
            m.insert(ps.last().0, ps.last().1)
        } else {
            m
        }
    }
}

/// The settings that come of what the file holds: a value out of its range is
/// brought into it, or replaced.
pub open spec fn normalized(raw: RawSettings) -> Settings {
    Settings {
        apps: loaded_apps(raw.apps),
        last_used_app: raw.last_used_app,
        suspend_action: valid_or(
            suspend_ok(raw.suspend_action),
            raw.suspend_action,
            "dismount"@,
        ),
        theme: valid_or(theme_ok(raw.theme), raw.theme, "light"@),
        ui_font: valid_or(fonts::font_ok(raw.ui_font), raw.ui_font, "system"@),
        ui_font_size: valid_or(fonts::size_ok(raw.ui_font_size), raw.ui_font_size, "system"@),
        window_size: valid_or(window_size_ok(raw.window_size), raw.window_size, "default"@),
        modifier_keys: valid_or(modifier_ok(raw.modifier_keys), raw.modifier_keys, "system"@),
        exchange: raw.exchange,
        exchange_dir: raw.exchange_dir,
        clip_clear: raw.clip_clear,
        clip_clear_timeout: clamped(raw.clip_clear_timeout),
        auto_dismount: if raw.auto_dismount < AUTO_DISMOUNT_MAX {
            raw.auto_dismount
        } else {
            AUTO_DISMOUNT_MAX as int
        },
        debug: raw.debug,
        log_dir: raw.log_dir,
        shortcuts: overlaid(pairs::binds(shortcut_defaults()), raw.shortcuts),
        volumes: raw.volumes,
    }
}

/// `program_known`, computed for the first `n` entries.
fn is_program_known(es: &Vec<(String, (String, String))>, n: usize, command: &str) -> (r: bool)
    requires
        n <= es@.len(),
    ensures
        r == program_known(entry_texts(es@).take(n as int), command@),
{
    let base = path::basename(command);
    let ghost t = entry_texts(es@).take(n as int);
    let mut i: usize = 0;
    while i < n
        invariant
            i <= n <= es@.len(),
            base@ == path::base_name(command@),
            t == entry_texts(es@).take(n as int),
            forall|k: int| 0 <= k < i ==> path::base_name(#[trigger] t[k].1.1) != base@,
        decreases n - i,
    {
        let b = path::basename(es[i].1.1.as_str());
        assert(t[i as int].1.1 == es@[i as int].1.1@);
        if text::same(b.as_str(), base.as_str()) {
            assert(path::base_name(t[i as int].1.1) == path::base_name(command@));
            return true;
        }
        i = i + 1;
    }
    false
}

/// `loaded_apps`, computed.
pub fn load_apps(es: &Vec<(String, (String, String))>) -> (r: Vec<App>)
    ensures
        app_texts(r@) == loaded_apps(entry_texts(es@)),
{
    let mut out: Vec<App> = Vec::new();
    let ghost t = entry_texts(es@);
    let mut i: usize = 0;
    assert(app_texts(out@) =~= loaded_apps(t.take(0)));
    while i < es.len()
        invariant
            i <= es@.len(),
            t == entry_texts(es@),
            app_texts(out@) == loaded_apps(t.take(i as int)),
        decreases es@.len() - i,
    {
        let ghost before = app_texts(out@);
        assert(t.take(i + 1).drop_last() =~= t.take(i as int));
        assert(t.take(i + 1).last() == (
            es@[i as int].0@,
            (es@[i as int].1.0@, es@[i as int].1.1@),
        ));
        if !is_program_known(es, i, es[i].1.1.as_str()) {
            let a = App {
                key: es[i].0.clone(),
                name: text::capitalize(es[i].1.0.as_str()),
                command: es[i].1.1.clone(),
            };
            out.push(a);
            assert(app_texts(out@) =~= before.push(a@));
        }
        i = i + 1;
    }
    assert(t.take(i as int) =~= t);
    out
}

/// `overlaid`, computed over the default shortcuts.
pub fn load_shortcuts(ps: &Vec<(String, String)>) -> (r: Bindings)
    ensures
        r.wf(),
        r@ == overlaid(pairs::binds(shortcut_defaults()), pair_texts(ps@)),
{
    let mut b = default_shortcuts();
    let ghost t = pair_texts(ps@);
    let ghost base = b@;
    let mut i: usize = 0;
    while i < ps.len()
        invariant
            i <= ps@.len(),
            t == pair_texts(ps@),
            b.wf(),
            b@ == overlaid(base, t.take(i as int)),
        decreases ps@.len() - i,
    {
        assert(t.take(i + 1).drop_last() =~= t.take(i as int));
        assert(t.take(i + 1).last() == (ps@[i as int].0@, ps@[i as int].1@));
        let v = text::trim(ps[i].1.as_str());
        if !v.as_str().is_empty() {
            b.set(ps[i].0.clone(), ps[i].1.clone());
        }
        i = i + 1;
    }
    assert(t.take(i as int) =~= t);
    b
}

/// `normalized`, computed.
pub fn normalize(raw: RawConfig) -> (r: Config)
    ensures
        r@ == normalized(raw@),
        r.shortcuts.wf(),
        keys_distinct(raw@.apps),
{
    let entries = table_entries(raw.apps);
    let apps = load_apps(&entries);
    let suspend_ok = text::same(raw.suspend_action.as_str(), "dismount") || text::same(
        raw.suspend_action.as_str(),
        "ignore",
    );
    let theme_ok = text::same(raw.theme.as_str(), "light") || text::same(raw.theme.as_str(), "dark")
        || text::same(raw.theme.as_str(), "system");
    let modifier_ok = keyboard::is_valid(raw.modifier_keys.as_str());
    let font_ok = fonts::is_valid_font(raw.ui_font.as_str());
    let size_ok = fonts::is_valid_size(raw.ui_font_size.as_str());
    let window_ok = window_size_valid(raw.window_size.as_str());
    let shortcuts = load_shortcuts(&raw.shortcuts);
    Config {
        apps,
        last_used_app: raw.last_used_app,
        suspend_action: pick(suspend_ok, raw.suspend_action, "dismount"),
        theme: pick(theme_ok, raw.theme, "light"),
        ui_font: pick(font_ok, raw.ui_font, "system"),
        ui_font_size: pick(size_ok, raw.ui_font_size, "system"),
        window_size: pick(window_ok, raw.window_size, "default"),
        modifier_keys: pick(modifier_ok, raw.modifier_keys, "system"),
        exchange: raw.exchange,
        exchange_dir: raw.exchange_dir,
        clip_clear: raw.clip_clear,
        clip_clear_timeout: clamp_clip_timeout(raw.clip_clear_timeout),
        auto_dismount: if raw.auto_dismount < AUTO_DISMOUNT_MAX {
            raw.auto_dismount
        } else {
            AUTO_DISMOUNT_MAX
        },
        debug: raw.debug,
        log_dir: raw.log_dir,
        shortcuts,
        volumes: raw.volumes,
    }
}

/// The configuration: empty where there is no file, or one that cannot be read.
pub fn load(raw: Option<RawConfig>) -> (r: Config)
    ensures
        r@ == match raw {
            Some(f) => normalized(f@),
            None => empty_settings(),
        },
        r.shortcuts.wf(),
        raw matches Some(f) ==> keys_distinct(f@.apps),
        settled(r@),
{
    match raw {
        Some(f) => {
            let ghost fs = f@;
            let c = normalize(f);
            proof {
                law_a_loaded_configuration_is_settled(fs);
            }
            c
        },
        None => {
            proof {
                lemma_empty_is_settled();
            }
            Config::empty()
        },
    }
}

// ---------------------------------------------------------------- saving ---

/// The table of a list of applications.
pub open spec fn saved_apps(apps: Seq<AppText>) -> Seq<(Seq<char>, (Seq<char>, Seq<char>))>
    decreases apps.len(),
{
    if apps.len() == 0 {
        seq![]
    } else {
        inserted(
            saved_apps(apps.drop_last()),
            (apps.last().key, (apps.last().name, apps.last().command)),
        )
    }
}

/// What the file holds for the settings; `ps` are the shortcuts in order.
pub open spec fn saved(s: Settings, ps: Seq<(Seq<char>, Seq<char>)>) -> RawSettings {
    RawSettings {
        last_used_app: s.last_used_app,
        suspend_action: s.suspend_action,
        theme: s.theme,
        ui_font: s.ui_font,
        ui_font_size: s.ui_font_size,
        window_size: s.window_size,
        modifier_keys: s.modifier_keys,
        exchange: s.exchange,
        exchange_dir: s.exchange_dir,
        clip_clear: s.clip_clear,
        clip_clear_timeout: s.clip_clear_timeout,
        auto_dismount: s.auto_dismount,
        debug: s.debug,
        log_dir: s.log_dir,
        apps: saved_apps(s.apps),
        shortcuts: ps,
        volumes: s.volumes,
    }
}

fn table_of(apps: &Vec<App>) -> (m: AppTable)
    ensures
        table(m) == saved_apps(app_texts(apps@)),
{
    let mut m = new_table();
    let ghost t = app_texts(apps@);
    let mut i: usize = 0;
    assert(t.take(0).len() == 0);
    while i < apps.len()
        invariant
            i <= apps@.len(),
            t == app_texts(apps@),
            table(m) == saved_apps(t.take(i as int)),
        decreases apps@.len() - i,
    {
        assert(t.take(i + 1).drop_last() =~= t.take(i as int));
        assert(t.take(i + 1).last() == apps@[i as int]@);
        table_insert(
            &mut m,
            apps[i].key.clone(),
            (apps[i].name.clone(), apps[i].command.clone()),
        );
        i = i + 1;
    }
    assert(t.take(i as int) =~= t);
    m
}

/// A copy of a list of pairs.
pub fn copy_pairs(v: &Vec<(String, String)>) -> (r: Vec<(String, String)>)
    ensures
        pair_texts(r@) == pair_texts(v@),
{
    let mut out: Vec<(String, String)> = Vec::new();
    let mut i: usize = 0;
    while i < v.len()
        invariant
            i <= v@.len(),
            pair_texts(out@) == pair_texts(v@).take(i as int),
        decreases v@.len() - i,
    {
        let ghost before = pair_texts(out@);
        let p = (v[i].0.clone(), v[i].1.clone());
        out.push(p);
        assert(pair_texts(out@) =~= before.push((v@[i as int].0@, v@[i as int].1@)));
        i = i + 1;
        assert(pair_texts(out@) =~= pair_texts(v@).take(i as int));
    }
    assert(pair_texts(v@).take(i as int) =~= pair_texts(v@));
    out
}

fn copy_opt(o: &Option<String>) -> (r: Option<String>)
    ensures
        text::opt(r) == text::opt(*o),
{
    match o {
        Some(s) => Some(s.clone()),
        None => None,
    }
}

/// `saved`, computed.
pub fn raw_of(cfg: &Config) -> (r: RawConfig)
    ensures
        r@ == saved(cfg@, pair_texts(cfg.shortcuts.entries@)),
{
    RawConfig {
        last_used_app: copy_opt(&cfg.last_used_app),
        suspend_action: cfg.suspend_action.clone(),
        theme: cfg.theme.clone(),
        ui_font: cfg.ui_font.clone(),
        ui_font_size: cfg.ui_font_size.clone(),
        window_size: cfg.window_size.clone(),
        modifier_keys: cfg.modifier_keys.clone(),
        exchange: cfg.exchange,
        exchange_dir: copy_opt(&cfg.exchange_dir),
        clip_clear: cfg.clip_clear,
        clip_clear_timeout: cfg.clip_clear_timeout,
        auto_dismount: cfg.auto_dismount,
        debug: cfg.debug,
        log_dir: copy_opt(&cfg.log_dir),
        apps: table_of(&cfg.apps),
        shortcuts: copy_pairs(&cfg.shortcuts.entries),
        volumes: copy_pairs(&cfg.volumes),
    }
}

/// The line that the file starts with.
pub open spec fn file_header() -> Seq<char> {
    "# Veracage config - edit carefully, see `veracage configure`\n\n"@
}

/// The text of the file.
pub fn config_text(body: &str) -> (r: String)
    ensures
        r@ == file_header() + body@,
{
    let mut s = "# Veracage config - edit carefully, see `veracage configure`\n\n".to_owned();
    s.append(body);
    s
}

/// The file that is written before it takes the place of the configuration; each
/// process has its own.
pub fn temp_path(path: &str, pid: u32) -> (r: String)
    ensures
        r@ == path@ + seq!['.'] + text::decimal(pid as nat) + ".tmp"@,
{
    let mut s = path.to_owned();
    s.push('.');
    let d = text::decimal_of(pid as u64);
    s.append(d.as_str());
    s.append(".tmp");
    assert(s@ =~= path@ + seq!['.'] + text::decimal(pid as nat) + ".tmp"@);
    s
}

// ------------------------------------------------------------------ laws ---

/// No two applications are the same program.
pub open spec fn programs_distinct(apps: Seq<AppText>) -> bool {
    forall|i: int, j: int|
        0 <= i < j < apps.len() ==> path::base_name(#[trigger] apps[i].command)
            != path::base_name(#[trigger] apps[j].command)
}

/// No two applications have the same key.
pub open spec fn app_keys_distinct(apps: Seq<AppText>) -> bool {
    forall|i: int, j: int| 0 <= i < j < apps.len() ==> #[trigger] apps[i].key != #[trigger] apps[j].key
}

/// Every value is in its range.
pub open spec fn settled(s: Settings) -> bool {
    &&& suspend_ok(s.suspend_action)
    &&& theme_ok(s.theme)
    &&& fonts::font_ok(s.ui_font)
    &&& fonts::size_ok(s.ui_font_size)
    &&& window_size_ok(s.window_size)
    &&& modifier_ok(s.modifier_keys)
    &&& CLIP_CLEAR_TIMEOUT_MIN <= s.clip_clear_timeout <= CLIP_CLEAR_TIMEOUT_MAX
    &&& s.auto_dismount <= AUTO_DISMOUNT_MAX
    &&& programs_distinct(s.apps)
    &&& app_keys_distinct(s.apps)
    &&& forall|k: Seq<char>| #[trigger]
        pairs::binds(shortcut_defaults()).dom().contains(k) ==> s.shortcuts.dom().contains(k)
    &&& forall|k: Seq<char>|
        s.shortcuts.dom().contains(k) ==> text::trimmed(#[trigger] s.shortcuts[k]).len() > 0
}

proof fn lemma_loaded_apps(es: Seq<(Seq<char>, (Seq<char>, Seq<char>))>)
    requires
        keys_distinct(es),
    ensures
        programs_distinct(loaded_apps(es)),
        app_keys_distinct(loaded_apps(es)),
        forall|i: int|
            0 <= i < loaded_apps(es).len() ==> exists|k: int|
                #![trigger es[k]]
                0 <= k < es.len() && es[k].0 == (#[trigger] loaded_apps(es)[i]).key && es[k].1.1
                    == loaded_apps(es)[i].command,
    decreases es.len(),
{
    if es.len() > 0 {
        let h = es.drop_last();
        let e = es.last();
        assert forall|i: int, j: int| 0 <= i < j < h.len() implies #[trigger] h[i].0
            != #[trigger] h[j].0 by {
            assert(es[i].0 != es[j].0);
        }
        lemma_loaded_apps(h);
        let before = loaded_apps(h);
        let apps = loaded_apps(es);
        assert forall|i: int| 0 <= i < apps.len() implies exists|k: int|
            #![trigger es[k]]
            0 <= k < es.len() && es[k].0 == (#[trigger] apps[i]).key && es[k].1.1
                == apps[i].command by {
            if i < before.len() {
                let k = choose|k: int|
                    #![trigger h[k]]
                    0 <= k < h.len() && h[k].0 == before[i].key && h[k].1.1 == before[i].command;
                assert(es[k] == h[k]);
            } else {
                assert(es[es.len() - 1] == e);
            }
        }
        if !program_known(h, e.1.1) {
            assert forall|i: int| 0 <= i < before.len() implies path::base_name(
                #[trigger] apps[i].command,
            ) != path::base_name(e.1.1) && apps[i].key != e.0 by {
                assert(apps[i] == before[i]);
                let k = choose|k: int|
                    #![trigger h[k]]
                    0 <= k < h.len() && h[k].0 == before[i].key && h[k].1.1 == before[i].command;
                assert(path::base_name(h[k].1.1) != path::base_name(e.1.1));
                assert(es[k].0 != es[es.len() - 1].0);
            }
            assert forall|i: int, j: int| 0 <= i < j < apps.len() implies path::base_name(
                #[trigger] apps[i].command,
            ) != path::base_name(#[trigger] apps[j].command) by {
                if j < before.len() {
                    assert(before[i] == apps[i] && before[j] == apps[j]);
                }
            }
            assert forall|i: int, j: int| 0 <= i < j < apps.len() implies #[trigger] apps[i].key
                != #[trigger] apps[j].key by {
                if j < before.len() {
                    assert(before[i] == apps[i] && before[j] == apps[j]);
                } else {
                    assert(path::base_name(apps[i].command) != path::base_name(e.1.1));
                }
            }
        }
    }
}

proof fn lemma_overlaid_values(
    base: Map<Seq<char>, Seq<char>>,
    ps: Seq<(Seq<char>, Seq<char>)>,
)
    requires
        forall|k: Seq<char>|
            base.dom().contains(k) ==> text::trimmed(#[trigger] base[k]).len() > 0,
    ensures
        forall|k: Seq<char>| #[trigger]
            base.dom().contains(k) ==> overlaid(base, ps).dom().contains(k),
        forall|k: Seq<char>|
            overlaid(base, ps).dom().contains(k) ==> text::trimmed(
                #[trigger] overlaid(base, ps)[k],
            ).len() > 0,
    decreases ps.len(),
{
    if ps.len() > 0 {
        let h = ps.drop_last();
        lemma_overlaid_values(base, h);
        let m = overlaid(base, ps);
        assert forall|k: Seq<char>| m.dom().contains(k) implies text::trimmed(#[trigger] m[k]).len()
            > 0 by {
            if text::trimmed(ps.last().1).len() == 0 || k != ps.last().0 {
                assert(overlaid(base, h).dom().contains(k));
                assert(m[k] == overlaid(base, h)[k]);
            }
        }
    }
}

proof fn lemma_default_shortcuts_show()
    ensures
        forall|k: Seq<char>|
            pairs::binds(shortcut_defaults()).dom().contains(k) ==> text::trimmed(
                #[trigger] pairs::binds(shortcut_defaults())[k],
            ).len() > 0,
{
    reveal_strlit("Ctrl+Alt+C");
    reveal_strlit("Ctrl+Alt+V");
    let d = shortcut_defaults();
    let a = "Ctrl+Alt+C"@;
    let b = "Ctrl+Alt+V"@;
    text::lemma_trim_start(a, 0);
    assert(a.skip(0) =~= a);
    text::lemma_trim_end(a, a.len() as int);
    assert(a.take(a.len() as int) =~= a);
    text::lemma_trim_start(b, 0);
    assert(b.skip(0) =~= b);
    text::lemma_trim_end(b, b.len() as int);
    assert(b.take(b.len() as int) =~= b);
    assert forall|k: Seq<char>| pairs::binds(d).dom().contains(k) implies text::trimmed(
        #[trigger] pairs::binds(d)[k],
    ).len() > 0 by {
        pairs::lemma_lookup(d, k);
        let i = choose|i: int| 0 <= i < d.len() && #[trigger] d[i] == (k, pairs::lookup(d, k)->0);
        assert(i == 0 || i == 1);
    }
}

/// Whatever the file holds, the settings that come of it are in their ranges, no
/// program stands twice among the applications, and every shortcut has a bind.
pub proof fn law_a_loaded_configuration_is_settled(raw: RawSettings)
    requires
        keys_distinct(raw.apps),
        raw.clip_clear_timeout >= 0,
        raw.auto_dismount >= 0,
    ensures
        settled(normalized(raw)),
{
    lemma_loaded_apps(raw.apps);
    lemma_default_shortcuts_show();
    lemma_overlaid_values(pairs::binds(shortcut_defaults()), raw.shortcuts);
    reveal_strlit("system");
    assert(fonts::font_list()[0].0 == "system"@);
    assert(keyboard::choice_list()[0].0 == "system"@);
}

proof fn lemma_empty_is_settled()
    ensures
        settled(empty_settings()),
{
    lemma_default_shortcuts_show();
    reveal_strlit("system");
    assert(fonts::font_list()[0].0 == "system"@);
    assert(keyboard::choice_list()[0].0 == "system"@);
}

proof fn lemma_inserted_new(
    es: Seq<(Seq<char>, (Seq<char>, Seq<char>))>,
    e: (Seq<char>, (Seq<char>, Seq<char>)),
)
    requires
        forall|i: int| 0 <= i < es.len() ==> #[trigger] es[i].0 != e.0,
    ensures
        inserted(es, e) == es.push(e),
    decreases es.len(),
{
    if es.len() == 0 {
        assert(inserted(es, e) =~= es.push(e));
    } else {
        let t = es.skip(1);
        assert forall|i: int| 0 <= i < t.len() implies #[trigger] t[i].0 != e.0 by {
            assert(es[i + 1].0 != e.0);
        }
        lemma_inserted_new(t, e);
        assert(inserted(es, e) =~= es.push(e));
    }
}

/// The entry of an application.
pub open spec fn entry_of(a: AppText) -> (Seq<char>, (Seq<char>, Seq<char>)) {
    (a.key, (a.name, a.command))
}

proof fn lemma_saved_apps(apps: Seq<AppText>)
    requires
        app_keys_distinct(apps),
    ensures
        saved_apps(apps) == apps.map_values(|a: AppText| entry_of(a)),
    decreases apps.len(),
{
    let m = apps.map_values(|a: AppText| entry_of(a));
    if apps.len() == 0 {
        assert(saved_apps(apps) =~= m);
    } else {
        let h = apps.drop_last();
        assert forall|i: int, j: int| 0 <= i < j < h.len() implies #[trigger] h[i].key
            != #[trigger] h[j].key by {
            assert(apps[i].key != apps[j].key);
        }
        lemma_saved_apps(h);
        let hm = h.map_values(|a: AppText| entry_of(a));
        assert forall|i: int| 0 <= i < hm.len() implies #[trigger] hm[i].0 != apps.last().key by {
            assert(apps[i].key != apps[apps.len() - 1].key);
        }
        lemma_inserted_new(hm, entry_of(apps.last()));
        assert(m =~= hm.push(entry_of(apps.last())));
    }
}

proof fn lemma_loaded_back(apps: Seq<AppText>)
    requires
        programs_distinct(apps),
        forall|i: int|
            0 <= i < apps.len() ==> text::capitalized(#[trigger] apps[i].name) == apps[i].name,
    ensures
        loaded_apps(apps.map_values(|a: AppText| entry_of(a))) == apps,
    decreases apps.len(),
{
    let es = apps.map_values(|a: AppText| entry_of(a));
    if apps.len() == 0 {
        assert(loaded_apps(es) =~= apps);
    } else {
        let h = apps.drop_last();
        let a = apps.last();
        assert forall|i: int, j: int| 0 <= i < j < h.len() implies path::base_name(
            #[trigger] h[i].command,
        ) != path::base_name(#[trigger] h[j].command) by {
            assert(path::base_name(apps[i].command) != path::base_name(apps[j].command));
        }
        assert forall|i: int| 0 <= i < h.len() implies text::capitalized(#[trigger] h[i].name)
            == h[i].name by {
            assert(apps[i].name == h[i].name);
        }
        lemma_loaded_back(h);
        let hm = h.map_values(|a: AppText| entry_of(a));
        assert(es.drop_last() =~= hm);
        assert(es.last() == entry_of(a));
        if program_known(hm, a.command) {
            let k = choose|k: int|
                0 <= k < hm.len() && path::base_name(#[trigger] hm[k].1.1) == path::base_name(
                    a.command,
                );
            assert(path::base_name(apps[k].command) != path::base_name(
                apps[apps.len() - 1].command,
            ));
        }
        assert(apps[apps.len() - 1].name == a.name);
        assert(loaded_apps(es) =~= apps);
    }
}

proof fn lemma_overlaid_all(base: Map<Seq<char>, Seq<char>>, ps: Seq<(Seq<char>, Seq<char>)>)
    requires
        pairs::distinct(ps),
        forall|i: int| 0 <= i < ps.len() ==> text::trimmed(#[trigger] ps[i].1).len() > 0,
    ensures
        forall|k: Seq<char>| #[trigger]
            overlaid(base, ps).dom().contains(k) <==> base.dom().contains(k) || pairs::lookup(
                ps,
                k,
            ) is Some,
        forall|k: Seq<char>|
            pairs::lookup(ps, k) is Some ==> #[trigger] overlaid(base, ps)[k] == pairs::lookup(
                ps,
                k,
            )->0,
    decreases ps.len(),
{
    if ps.len() > 0 {
        let h = ps.drop_last();
        let p = ps.last();
        assert forall|i: int, j: int| 0 <= i < j < h.len() implies #[trigger] h[i].0
            != #[trigger] h[j].0 by {
            assert(ps[i].0 != ps[j].0);
        }
        assert forall|i: int| 0 <= i < h.len() implies text::trimmed(#[trigger] h[i].1).len()
            > 0 by {
            assert(ps[i].1 == h[i].1);
        }
        lemma_overlaid_all(base, h);
        assert(ps =~= h.push(p));
        assert(text::trimmed(ps[ps.len() - 1].1).len() > 0);
        pairs::lemma_lookup(h, p.0);
        if pairs::lookup(h, p.0) is Some {
            let i = choose|i: int|
                0 <= i < h.len() && #[trigger] h[i] == (p.0, pairs::lookup(h, p.0)->0);
            assert(ps[i].0 != ps[ps.len() - 1].0);
        }
        let m = overlaid(base, ps);
        assert(m == overlaid(base, h).insert(p.0, p.1));
        assert forall|k: Seq<char>| #[trigger]
            m.dom().contains(k) <==> base.dom().contains(k) || pairs::lookup(ps, k) is Some by {
            pairs::lemma_lookup_push(h, p, k);
            assert(overlaid(base, h).dom().contains(k) <==> base.dom().contains(k)
                || pairs::lookup(h, k) is Some);
        }
        assert forall|k: Seq<char>| pairs::lookup(ps, k) is Some implies #[trigger] m[k]
            == pairs::lookup(ps, k)->0 by {
            pairs::lemma_lookup_push(h, p, k);
            if k != p.0 {
                assert(m[k] == overlaid(base, h)[k]);
            }
        }
    }
}

/// The tables of the volumes stay as they are, whatever else the file holds: read and
/// saved again, with other shortcuts or without, they are what they were.
pub proof fn law_volume_tables_are_kept(raw: RawSettings, ps: Seq<(Seq<char>, Seq<char>)>)
    ensures
        saved(normalized(raw), ps).volumes == raw.volumes,
{
}

/// What is saved reads back: every setting, every application in its order, every
/// shortcut and the table of every volume come out as they went in.
pub proof fn law_a_saved_configuration_reads_back(s: Settings, ps: Seq<(Seq<char>, Seq<char>)>)
    requires
        settled(s),
        pairs::ascending(ps),
        pairs::binds(ps) == s.shortcuts,
        forall|i: int|
            0 <= i < s.apps.len() ==> text::capitalized(#[trigger] s.apps[i].name) == s.apps[i].name,
    ensures
        normalized(saved(s, ps)) == s,
{
    lemma_saved_apps(s.apps);
    lemma_loaded_back(s.apps);
    pairs::lemma_ascending_distinct(ps);
    assert forall|i: int| 0 <= i < ps.len() implies text::trimmed(#[trigger] ps[i].1).len() > 0 by {
        pairs::lemma_lookup_at(ps, i);
        assert(s.shortcuts.dom().contains(ps[i].0));
        assert(s.shortcuts[ps[i].0] == ps[i].1);
    }
    let base = pairs::binds(shortcut_defaults());
    lemma_overlaid_all(base, ps);
    assert(overlaid(base, ps) =~= s.shortcuts) by {
        assert forall|k: Seq<char>| overlaid(base, ps).dom().contains(k)
            == s.shortcuts.dom().contains(k) by {}
    }
}

/// The shared directory is the one that the settings show: without a configured one that
/// of the user's home, with `~` the home directory itself, with `~/` one below it, and any
/// other path as it stands.
pub proof fn law_the_shared_directory_is_the_one_shown(h: Seq<char>, d: Seq<char>)
    requires
        h.len() > 0,
        h.last() != '/',
    ensures
        exchange_at(None, Some(h)) == h + "/Veracage/Exchange"@,
        exchange_at(Some("~"@), Some(h)) == h,
        exchange_at(Some("~"@), None) == "~"@,
        d.len() > 0 && d[0] != '/' ==> exchange_at(Some("~/"@ + d), Some(h)) == h + seq!['/'] + d,
        d.len() == 0 || d[0] != '~' ==> exchange_at(Some(d), Some(h)) == d && exchange_at(Some(d), None) == d,
{
    reveal_strlit("Veracage");
    reveal_strlit("Exchange");
    reveal_strlit("/Veracage/Exchange");
    reveal_strlit("~");
    reveal_strlit("~/");
    assert(names::path_join(h, "Veracage"@) == h + seq!['/'] + "Veracage"@);
    assert(exchange_at(None, Some(h)) =~= h + "/Veracage/Exchange"@);
    assert("~"@.len() == 1);
    let t = "~/"@ + d;
    assert(t.skip(2) =~= d);
    assert("~/"@.is_prefix_of(t)) by {
        assert(t.take(2) =~= "~/"@);
    }
    assert(t.len() == 2 + d.len());
    assert(t != "~"@);
    if d.len() == 0 || d[0] != '~' {
        assert(d != "~"@) by {
            assert("~"@[0] == '~');
        }
        assert(!"~/"@.is_prefix_of(d)) by {
            assert("~/"@[0] == '~');
        }
    }
}

/// The configuration is where the user's configuration is kept, in a directory of its own.
pub proof fn law_the_file_is_in_its_own_directory(dir: Seq<char>, home: Option<Seq<char>>)
    requires
        dir.len() > 0,
        dir.last() != '/',
    ensures
        config_at(Some(dir), home) == dir + "/veracage/config.toml"@,
        config_at(None, Some(dir)) == dir + "/.config/veracage/config.toml"@,
{
    reveal_strlit("veracage");
    reveal_strlit("config.toml");
    reveal_strlit(".config");
    reveal_strlit("/veracage/config.toml");
    reveal_strlit("/.config/veracage/config.toml");
    assert(config_at(Some(dir), home) =~= dir + "/veracage/config.toml"@);
    let c = names::path_join(dir, ".config"@);
    assert(c == dir + seq!['/'] + ".config"@);
    assert(c.last() == 'g');
    assert(config_at(None, Some(dir)) =~= dir + "/.config/veracage/config.toml"@);
}

/// What is out of its range is replaced by what is documented for it, and by nothing else:
/// a time by the nearest one that is allowed, and a word that is not known by its default.
pub proof fn law_what_is_not_valid_is_replaced(raw: RawSettings)
    ensures
        ({
            let s = normalized(raw);
            &&& raw.suspend_action != "dismount"@ && raw.suspend_action != "ignore"@
                ==> s.suspend_action == "dismount"@
            &&& raw.theme != "light"@ && raw.theme != "dark"@ && raw.theme != "system"@ ==> s.theme
                == "light"@
            &&& !fonts::font_ok(raw.ui_font) ==> s.ui_font == "system"@
            &&& !fonts::size_ok(raw.ui_font_size) ==> s.ui_font_size == "system"@
            &&& raw.window_size != "max"@ && sane_size(raw.window_size) is None ==> s.window_size
                == "default"@
            &&& !modifier_ok(raw.modifier_keys) ==> s.modifier_keys == "system"@
            &&& raw.clip_clear_timeout < 1 ==> s.clip_clear_timeout == 1
            &&& raw.clip_clear_timeout > 3600 ==> s.clip_clear_timeout == 3600
            &&& raw.auto_dismount > 1440 ==> s.auto_dismount == 1440
        }),
{
}

/// What is in its range is kept as it is.
pub proof fn law_what_is_valid_is_kept(raw: RawSettings)
    ensures
        ({
            let s = normalized(raw);
            &&& raw.suspend_action == "dismount"@ || raw.suspend_action == "ignore"@
                ==> s.suspend_action == raw.suspend_action
            &&& raw.theme == "light"@ || raw.theme == "dark"@ || raw.theme == "system"@ ==> s.theme
                == raw.theme
            &&& raw.window_size == "max"@ || sane_size(raw.window_size) is Some ==> s.window_size
                == raw.window_size
            &&& fonts::font_ok(raw.ui_font) ==> s.ui_font == raw.ui_font
            &&& fonts::size_ok(raw.ui_font_size) ==> s.ui_font_size == raw.ui_font_size
            &&& modifier_ok(raw.modifier_keys) ==> s.modifier_keys == raw.modifier_keys
            &&& 1 <= raw.clip_clear_timeout <= 3600 ==> s.clip_clear_timeout == raw.clip_clear_timeout
            &&& 0 <= raw.auto_dismount <= 1440 ==> s.auto_dismount == raw.auto_dismount
            &&& s.exchange == raw.exchange
            &&& s.exchange_dir == raw.exchange_dir
            &&& s.clip_clear == raw.clip_clear
            &&& s.debug == raw.debug
            &&& s.log_dir == raw.log_dir
            &&& s.last_used_app == raw.last_used_app
        }),
{
}

/// A size of the window is two numbers with an `x` between them, within the sizes that a
/// screen can have.
pub proof fn law_a_size_is_two_numbers(w: nat, h: nat)
    requires
        w <= u32::MAX,
        h <= u32::MAX,
    ensures
        sane_size(text::decimal(w) + seq!['x'] + text::decimal(h)) == if 320 <= w <= 16384 && 240 <= h
            <= 16384 {
            Some((w as int, h as int))
        } else {
            None
        },
{
    let a = text::decimal(w);
    let b = text::decimal(h);
    text::lemma_decimal_reads_back(w);
    assert(!a.contains('x')) by {
        if a.contains('x') {
            let k = choose|k: int| 0 <= k < a.len() && a[k] == 'x';
            assert(text::is_digit(a[k]));
        }
    }
    text::lemma_split_once_at(a, b, 'x');
    text::lemma_decimal_parses(w, u32::MAX as int);
    text::lemma_decimal_parses(h, u32::MAX as int);
}

/// Every program of the file becomes an application, with its key and its command as they
/// stand and its name capitalised: of several entries for one program the first one.
pub proof fn law_every_program_of_the_file_is_loaded(
    es: Seq<(Seq<char>, (Seq<char>, Seq<char>))>,
    i: int,
)
    requires
        0 <= i < es.len(),
        forall|k: int|
            0 <= k < i ==> path::base_name((#[trigger] es[k]).1.1) != path::base_name(es[i].1.1),
    ensures
        loaded_apps(es).contains(
            AppText { key: es[i].0, name: text::capitalized(es[i].1.0), command: es[i].1.1 },
        ),
        loaded_apps(es.take(i)).is_prefix_of(loaded_apps(es)),
        loaded_apps(es.take(i)).len() < loaded_apps(es).len(),
        loaded_apps(es)[loaded_apps(es.take(i)).len() as int].command == es[i].1.1,
    decreases es.len(),
{
    let d = es.drop_last();
    if i == es.len() - 1 {
        assert(es.take(i) =~= d);
        assert(!program_known(d, es[i].1.1)) by {
            if program_known(d, es[i].1.1) {
                let k = choose|k: int|
                    0 <= k < d.len() && path::base_name(#[trigger] d[k].1.1) == path::base_name(
                        es[i].1.1,
                    );
                assert(es[k].1.1 == d[k].1.1);
            }
        }
        let n = loaded_apps(d).len() as int;
        assert(loaded_apps(es)[n] == (AppText {
            key: es[i].0,
            name: text::capitalized(es[i].1.0),
            command: es[i].1.1,
        }));
    } else {
        assert forall|k: int| 0 <= k < i implies path::base_name((#[trigger] d[k]).1.1)
            != path::base_name(d[i].1.1) by {
            assert(d[k] == es[k]);
        }
        law_every_program_of_the_file_is_loaded(d, i);
        assert(d.take(i) =~= es.take(i));
        let a = AppText { key: es[i].0, name: text::capitalized(es[i].1.0), command: es[i].1.1 };
        let k = choose|k: int| 0 <= k < loaded_apps(d).len() && loaded_apps(d)[k] == a;
        assert(loaded_apps(es)[k] == a);
    }
}

/// A shortcut of the file takes the place of the one that was there; a blank one changes
/// nothing, and no shortcut touches another.
pub proof fn law_a_shortcut_of_the_file_counts(
    base: Map<Seq<char>, Seq<char>>,
    ps: Seq<(Seq<char>, Seq<char>)>,
    name: Seq<char>,
    bind: Seq<char>,
    other: Seq<char>,
)
    requires
        other != name,
    ensures
        ({
            let before = overlaid(base, ps);
            let now = overlaid(base, ps.push((name, bind)));
            &&& text::trimmed(bind).len() > 0 ==> now.dom().contains(name) && now[name] == bind
            &&& text::trimmed(bind).len() == 0 ==> now == before
            &&& now.dom().contains(other) == before.dom().contains(other)
            &&& before.dom().contains(other) ==> now[other] == before[other]
        }),
        overlaid(base, seq![]) == base,
{
    assert(ps.push((name, bind)).drop_last() =~= ps);
}

/// The two shortcuts have their documented keys until others are configured, and the rest
/// of a fresh configuration is as documented too.
pub proof fn law_a_fresh_configuration_is_as_documented()
    ensures
        ({
            let s = empty_settings();
            &&& s.shortcuts.dom().contains("copy_out"@) && s.shortcuts["copy_out"@] == "Ctrl+Alt+C"@
            &&& s.shortcuts.dom().contains("paste_in"@) && s.shortcuts["paste_in"@] == "Ctrl+Alt+V"@
            &&& s.clip_clear && s.clip_clear_timeout == 30 && s.auto_dismount == 0
            &&& s.exchange && s.exchange_dir is None
            &&& s.suspend_action == "dismount"@
            &&& s.theme == "system"@ && s.ui_font == "system"@ && s.ui_font_size == "system"@
            &&& s.window_size == "default"@ && s.modifier_keys == "system"@
            &&& !s.debug && s.log_dir is None && s.apps.len() == 0 && s.volumes.len() == 0
        }),
{
    reveal_strlit("copy_out");
    reveal_strlit("paste_in");
    let d = shortcut_defaults();
    assert(d[0] == ("copy_out"@, "Ctrl+Alt+C"@));
    assert(d.skip(1)[0] == ("paste_in"@, "Ctrl+Alt+V"@));
    assert("copy_out"@[0] == 'c' && "paste_in"@[0] == 'p');
    reveal_with_fuel(pairs::lookup, 3);
}

/// The header of the file is a comment and a blank line, so that what follows is all there
/// is to read.
pub proof fn law_the_header_is_a_comment(body: Seq<char>)
    ensures
        text::lines(file_header() + body) == text::lines(file_header()) + text::lines(body),
        text::lines(file_header()).len() == 2,
        text::lines(file_header())[0][0] == '#',
        text::lines(file_header())[1].len() == 0,
{
    reveal_strlit("# Veracage config - edit carefully, see `veracage configure`\n\n");
    let h = file_header();
    assert(h.last() == '\n');
    text::lemma_lines_concat(h, body);
    let n = h.len() as int;
    let l = h.take(n - 2);
    let e: Seq<char> = seq![];
    assert forall|k: int| 0 <= k < n - 2 implies h[k] != '\n' by {}
    assert(!l.contains('\n')) by {
        if l.contains('\n') {
            let k = choose|k: int| 0 <= k < l.len() && l[k] == '\n';
            assert(h[k] == '\n');
        }
    }
    assert(l.last() == h[n - 3]);
    assert(text::is_line(l));
    assert(text::is_line(e));
    text::lemma_one_line(l);
    text::lemma_one_line(e);
    assert(h =~= (l + seq!['\n']) + (e + seq!['\n']));
    text::lemma_lines_concat(l + seq!['\n'], e + seq!['\n']);
}

} // verus!
