//! The windows in which the configuration is edited.

use vstd::prelude::*;

use crate::apps;
use crate::config;
use crate::config::{settled, Config, Settings};
use crate::fonts;
use crate::keyboard;
use crate::names;
use crate::pairs;
use crate::pairs::pair_texts;
use crate::path;
use crate::text;

verus! {

// --------------------------------------------------------- what is offered ---

/// The delays on offer before the host's clipboard is cleared, in seconds.
pub open spec fn clip_timeout_list() -> Seq<u32> {
    seq![10u32, 30u32, 60u32, 120u32]
}

/// `clip_timeout_list`, computed.
pub fn clip_timeouts() -> (r: Vec<u32>)
    ensures
        r@ == clip_timeout_list(),
{
    let mut v: Vec<u32> = Vec::new();
    v.push(10);
    v.push(30);
    v.push(60);
    v.push(120);
    assert(v@ =~= clip_timeout_list());
    v
}

/// The idle times on offer before the volumes are dismounted, in minutes; 0 is never.
pub open spec fn auto_dismount_list() -> Seq<u32> {
    seq![0u32, 30u32, 60u32, 120u32, 720u32]
}

/// `auto_dismount_list`, computed.
pub fn auto_dismounts() -> (r: Vec<u32>)
    ensures
        r@ == auto_dismount_list(),
{
    let mut v: Vec<u32> = Vec::new();
    v.push(0);
    v.push(30);
    v.push(60);
    v.push(120);
    v.push(720);
    assert(v@ =~= auto_dismount_list());
    v
}

/// The sizes of the window on offer: the configured value and its label.
pub open spec fn window_size_list() -> Seq<(Seq<char>, Seq<char>)> {
    seq![
        ("default"@, "Default"@),
        ("1024x680"@, "1024 x 680"@),
        ("1280x800"@, "1280 x 800"@),
        ("1600x1000"@, "1600 x 1000"@),
        ("max"@, "Maximized"@),
    ]
}

/// `window_size_list`, computed.
pub fn window_sizes() -> (r: Vec<(String, String)>)
    ensures
        pair_texts(r@) == window_size_list(),
{
    let mut v: Vec<(String, String)> = Vec::new();
    v.push(pairs::pair("default", "Default"));
    v.push(pairs::pair("1024x680", "1024 x 680"));
    v.push(pairs::pair("1280x800", "1280 x 800"));
    v.push(pairs::pair("1600x1000", "1600 x 1000"));
    v.push(pairs::pair("max", "Maximized"));
    assert(pair_texts(v@) =~= window_size_list());
    v
}

// ---------------------------------------------------------------- labels ---

/// The label of an idle time.
pub open spec fn idle_label(minutes: nat) -> Seq<char> {
    if minutes == 0 {
        "Off"@
    } else if minutes == 1 {
        "1 minute"@
    } else if minutes < 60 {
        text::decimal(minutes) + " minutes"@
    } else if minutes == 60 {
        "1 hour"@
    } else if minutes % 60 == 0 {
        text::decimal(minutes / 60) + " hours"@
    } else {
        text::decimal(minutes / 60) + " hours "@ + text::decimal(minutes % 60) + " minutes"@
    }
}

/// `idle_label`, computed.
pub fn auto_dismount_label(minutes: u32) -> (r: String)
    ensures
        r@ == idle_label(minutes as nat),
{
    if minutes == 0 {
        "Off".to_owned()
    } else if minutes == 1 {
        "1 minute".to_owned()
    } else if minutes < 60 {
        let mut s = text::decimal_of(minutes as u64);
        s.append(" minutes");
        s
    } else if minutes == 60 {
        "1 hour".to_owned()
    } else if minutes % 60 == 0 {
        let mut s = text::decimal_of((minutes / 60) as u64);
        s.append(" hours");
        s
    } else {
        let mut s = text::decimal_of((minutes / 60) as u64);
        s.append(" hours ");
        let m = text::decimal_of((minutes % 60) as u64);
        s.append(m.as_str());
        s.append(" minutes");
        s
    }
}

/// The label of the choice when the host's clipboard is cleared.
pub fn clip_clear_label(on: bool, secs: u32) -> (r: String)
    ensures
        r@ == if on { "After "@ + text::decimal(secs as nat) + " seconds"@ } else { "Off"@ },
{
    if on {
        let mut s = "After ".to_owned();
        let d = text::decimal_of(secs as u64);
        s.append(d.as_str());
        s.append(" seconds");
        s
    } else {
        "Off".to_owned()
    }
}

/// The label of what happens on suspend.
pub fn suspend_label(action: &str) -> (r: String)
    ensures
        r@ == if action@ == "ignore"@ { "Leave mounted"@ } else { "Dismount (recommended)"@ },
{
    if text::same(action, "ignore") {
        "Leave mounted".to_owned()
    } else {
        "Dismount (recommended)".to_owned()
    }
}

/// The label of a theme.
pub fn theme_label(theme: &str) -> (r: String)
    ensures
        r@ == if theme@ == "dark"@ {
            "Dark"@
        } else if theme@ == "light"@ {
            "Light"@
        } else {
            "Follow the Host"@
        },
{
    if text::same(theme, "dark") {
        "Dark".to_owned()
    } else if text::same(theme, "light") {
        "Light".to_owned()
    } else {
        "Follow the Host".to_owned()
    }
}

/// The label of a value, else another.
pub open spec fn label_or(
    list: Seq<(Seq<char>, Seq<char>)>,
    v: Seq<char>,
    other: Seq<char>,
) -> Seq<char> {
    match pairs::lookup(list, v) {
        Some(l) => l,
        None => other,
    }
}

/// The label of a size of the window.
pub fn window_size_label(val: &str) -> (r: String)
    ensures
        r@ == label_or(window_size_list(), val@, "Default"@),
{
    let v = window_sizes();
    match pairs::find(&v, val) {
        Some(l) => l,
        None => "Default".to_owned(),
    }
}

/// The label of a font.
pub fn font_label(val: &str) -> (r: String)
    ensures
        r@ == label_or(fonts::font_list(), val@, "Host system font"@),
{
    let v = fonts::choices();
    match pairs::find(&v, val) {
        Some(l) => l,
        None => "Host system font".to_owned(),
    }
}

/// The label of a size of the font.
pub fn font_size_label(val: &str) -> (r: String)
    ensures
        r@ == label_or(fonts::size_list(), val@, "Host system size"@),
{
    let v = fonts::size_choices();
    match pairs::find(&v, val) {
        Some(l) => l,
        None => "Host system size".to_owned(),
    }
}

/// The label of the host's own setting, with what it is where that is known.
pub open spec fn host_label(what: Seq<char>, value: Option<Seq<char>>) -> Seq<char> {
    match value {
        Some(v) => what + " ("@ + v + seq![')'],
        None => what,
    }
}

fn host_entry(what: &str, value: Option<String>) -> (r: String)
    ensures
        r@ == host_label(what@, text::opt(value)),
{
    match value {
        Some(v) => {
            let mut s = what.to_owned();
            s.append(" (");
            s.append(v.as_str());
            s.push(')');
            assert(s@ =~= what@ + " ("@ + v@ + seq![')']);
            s
        },
        None => what.to_owned(),
    }
}

/// The label of the host's font.
pub fn host_font_label(family: Option<String>) -> (r: String)
    ensures
        r@ == host_label("Host system font"@, text::opt(family)),
{
    host_entry("Host system font", family)
}

/// The label of the host's size, in whole points.
pub fn host_size_label(points: Option<u32>) -> (r: String)
    ensures
        r@ == match points {
            Some(p) => host_label("Host system size"@, Some(text::decimal(p as nat) + " pt"@)),
            None => "Host system size"@,
        },
{
    match points {
        Some(p) => {
            let mut d = text::decimal_of(p as u64);
            d.append(" pt");
            host_entry("Host system size", Some(d))
        },
        None => "Host system size".to_owned(),
    }
}

/// The label of the host's modifier mapping.
pub fn host_modifiers_label(options: &str) -> (r: String)
    ensures
        r@ == host_label("Host setting"@, if options@.len() == 0 { None } else { Some(options@) }),
{
    if options.is_empty() {
        host_entry("Host setting", None)
    } else {
        host_entry("Host setting", Some(options.to_owned()))
    }
}

// --------------------------------------------------------------- choices ---

/// A choice in one of the windows.
pub enum Choice {
    ClipOff,
    ClipAfter(u32),
    AutoDismount(u32),
    Suspend(String),
    Exchange(bool),
    Theme(String),
    WindowSize(String),
    Font(String),
    FontSize(String),
    Modifiers(String),
}

/// The settings after a choice. Switching the clearing of the clipboard off keeps its
/// delay.
pub open spec fn chosen(s: Settings, c: Choice) -> Settings {
    match c {
        Choice::ClipOff => Settings { clip_clear: false, ..s },
        Choice::ClipAfter(secs) => Settings {
            clip_clear: true,
            clip_clear_timeout: secs as int,
            ..s
        },
        Choice::AutoDismount(m) => Settings { auto_dismount: m as int, ..s },
        Choice::Suspend(a) => Settings { suspend_action: a@, ..s },
        Choice::Exchange(on) => Settings { exchange: on, ..s },
        Choice::Theme(t) => Settings { theme: t@, ..s },
        Choice::WindowSize(w) => Settings { window_size: w@, ..s },
        Choice::Font(f) => Settings { ui_font: f@, ..s },
        Choice::FontSize(f) => Settings { ui_font_size: f@, ..s },
        Choice::Modifiers(m) => Settings { modifier_keys: m@, ..s },
    }
}

/// `chosen`, computed.
pub fn choose_setting(cfg: &mut Config, c: Choice)
    ensures
        final(cfg)@ == chosen(old(cfg)@, c),
        final(cfg).shortcuts == old(cfg).shortcuts,
{
    match c {
        Choice::ClipOff => {
            cfg.clip_clear = false;
        },
        Choice::ClipAfter(secs) => {
            cfg.clip_clear = true;
            cfg.clip_clear_timeout = secs;
        },
        Choice::AutoDismount(m) => {
            cfg.auto_dismount = m;
        },
        Choice::Suspend(a) => {
            cfg.suspend_action = a;
        },
        Choice::Exchange(on) => {
            cfg.exchange = on;
        },
        Choice::Theme(t) => {
            cfg.theme = t;
        },
        Choice::WindowSize(w) => {
            cfg.window_size = w;
        },
        Choice::Font(f) => {
            cfg.ui_font = f;
        },
        Choice::FontSize(f) => {
            cfg.ui_font_size = f;
        },
        Choice::Modifiers(m) => {
            cfg.modifier_keys = m;
        },
    }
}

/// Is the choice one of those on offer?
pub open spec fn is_offered(c: Choice) -> bool {
    match c {
        Choice::ClipOff => true,
        Choice::ClipAfter(secs) => clip_timeout_list().contains(secs),
        Choice::AutoDismount(m) => auto_dismount_list().contains(m),
        Choice::Suspend(a) => config::suspend_ok(a@),
        Choice::Exchange(_) => true,
        Choice::Theme(t) => config::theme_ok(t@),
        Choice::WindowSize(w) => pairs::lookup(window_size_list(), w@) is Some,
        Choice::Font(f) => pairs::lookup(fonts::font_list(), f@) is Some,
        Choice::FontSize(f) => pairs::lookup(fonts::size_list(), f@) is Some,
        Choice::Modifiers(m) => pairs::lookup(keyboard::choice_list(), m@) is Some,
    }
}

proof fn lemma_number_is(s: Seq<char>, a: char, b: char, n: int)
    requires
        s == seq![a, b],
        text::is_digit(a),
        text::is_digit(b),
        n == (a as int - '0' as int) * 10 + (b as int - '0' as int),
    ensures
        text::unsigned_in(s, u32::MAX as int) == Some(n),
{
    reveal_with_fuel(text::digits_value, 3);
    assert(s.drop_last() =~= seq![a]);
    assert(s.drop_last().drop_last() =~= seq![]);
    assert(text::all_digits(s));
}

proof fn lemma_offered_sizes(s: Seq<char>)
    requires
        pairs::lookup(fonts::size_list(), s) is Some,
    ensures
        fonts::size_ok(s),
{
    let l = fonts::size_list();
    pairs::lemma_lookup(l, s);
    let i = choose|i: int| 0 <= i < l.len() && #[trigger] l[i] == (s, pairs::lookup(l, s)->0);
    reveal_strlit("10");
    reveal_strlit("11");
    reveal_strlit("12");
    reveal_strlit("13");
    reveal_strlit("14");
    reveal_strlit("16");
    reveal_strlit("18");
    if i > 0 {
        assert(s.len() == 2);
        assert(s =~= seq![s[0], s[1]]);
        lemma_number_is(s, s[0], s[1], (s[0] as int - '0' as int) * 10 + (s[1] as int - '0' as int));
    }
}

proof fn lemma_digits(s: Seq<char>)
    requires
        3 <= s.len() <= 4,
        text::all_digits(s),
        s[0] != '+',
    ensures
        text::unsigned_in(s, u32::MAX as int) == Some(
            if s.len() == 3 {
                (s[0] as int - '0' as int) * 100 + (s[1] as int - '0' as int) * 10 + (s[2] as int
                    - '0' as int)
            } else {
                (s[0] as int - '0' as int) * 1000 + (s[1] as int - '0' as int) * 100 + (s[2] as int
                    - '0' as int) * 10 + (s[3] as int - '0' as int)
            },
        ),
{
    reveal_with_fuel(text::digits_value, 6);
    let a = s.drop_last();
    let b = a.drop_last();
    let c = b.drop_last();
    assert(text::is_digit(s[0]) && text::is_digit(s[1]) && text::is_digit(s[2]));
    if s.len() == 4 {
        assert(text::is_digit(s[3]));
        assert(c.drop_last() =~= seq![]);
    } else {
        assert(c =~= seq![]);
    }
}

proof fn lemma_offered_windows(s: Seq<char>)
    requires
        pairs::lookup(window_size_list(), s) is Some,
    ensures
        config::window_size_ok(s),
{
    let l = window_size_list();
    pairs::lemma_lookup(l, s);
    let i = choose|i: int| 0 <= i < l.len() && #[trigger] l[i] == (s, pairs::lookup(l, s)->0);
    reveal_strlit("1024x680");
    reveal_strlit("1280x800");
    reveal_strlit("1600x1000");
    if i == 1 || i == 2 || i == 3 {
        let w = s.take(4);
        let h = s.skip(5);
        assert(s =~= w + seq!['x'] + h);
        assert forall|k: int| 0 <= k < w.len() implies text::is_digit(#[trigger] w[k]) by {
            assert(w[k] == s[k]);
        }
        assert forall|k: int| 0 <= k < h.len() implies text::is_digit(#[trigger] h[k]) by {
            assert(h[k] == s[k + 5]);
        }
        assert(!w.contains('x')) by {
            if w.contains('x') {
                let k = choose|k: int| 0 <= k < w.len() && w[k] == 'x';
                assert(text::is_digit(w[k]));
            }
        }
        text::lemma_split_once_at(w, h, 'x');
        lemma_digits(w);
        lemma_digits(h);
    }
}

/// A choice drops nothing: the applications, the shortcuts and the tables of the volumes
/// stay as they are.
pub proof fn law_a_choice_keeps_the_tables(s: Settings, c: Choice)
    ensures
        chosen(s, c).apps == s.apps,
        chosen(s, c).shortcuts == s.shortcuts,
        chosen(s, c).volumes == s.volumes,
{
}

/// Whatever is chosen from what is on offer, the settings stay in their ranges.
pub proof fn law_a_choice_stays_settled(s: Settings, c: Choice)
    requires
        settled(s),
        is_offered(c),
    ensures
        settled(chosen(s, c)),
{
    match c {
        Choice::WindowSize(w) => {
            lemma_offered_windows(w@);
        },
        Choice::FontSize(f) => {
            lemma_offered_sizes(f@);
        },
        _ => {},
    }
}

// -------------------------------------------------- the shared directory ---

/// The shared directory where none is configured.
pub fn default_exchange_dir(home: Option<&str>) -> (r: String)
    ensures
        r@ == home_text(text::opt_str(home)) + "/Veracage/Exchange"@,
{
    let mut s = match home {
        Some(h) => h.to_owned(),
        None => String::new(),
    };
    s.append("/Veracage/Exchange");
    s
}

/// The home directory, or nothing.
pub open spec fn home_text(home: Option<Seq<char>>) -> Seq<char> {
    match home {
        Some(h) => h,
        None => seq![],
    }
}

/// The directory that a field's text configures: none where it is blank.
pub fn exchange_dir_of(field: &str) -> (r: Option<String>)
    ensures
        text::opt(r) == if text::trimmed(field@).len() == 0 {
            None
        } else {
            Some(text::trimmed(field@))
        },
{
    let d = text::trim(field);
    if d.as_str().is_empty() {
        None
    } else {
        Some(d)
    }
}

/// Is the path one from the root?
pub open spec fn is_absolute(p: Seq<char>) -> bool {
    p.len() > 0 && p[0] == '/'
}

/// The components of a path; a leading `.` is one of them.
pub open spec fn components(p: Seq<char>) -> Seq<Seq<char>> {
    if !is_absolute(p) && text::fields(p, '/')[0] == "."@ {
        seq!["."@] + path::parts(p)
    } else {
        path::parts(p)
    }
}

/// The path of components.
pub open spec fn path_of_components(absolute: bool, cs: Seq<Seq<char>>) -> Seq<char> {
    if absolute { seq!['/'] + text::joined(cs, "/"@) } else { text::joined(cs, "/"@) }
}

/// The directories above a path whose first `n` components are `cs`, the closest
/// first; not the empty path.
pub open spec fn above(absolute: bool, cs: Seq<Seq<char>>, n: nat) -> Seq<Seq<char>>
    decreases n,
{
    if n == 0 || (n == 1 && !absolute) {
        seq![]
    } else {
        seq![path_of_components(absolute, cs.take(n - 1))] + above(absolute, cs, (n - 1) as nat)
    }
}

/// Where the picker of a directory is to open: at the path in the field.
pub open spec fn wanted_start(field: Seq<char>, home: Option<Seq<char>>) -> Seq<char> {
    let h = match home {
        Some(h) => h,
        None => "/"@,
    };
    let t = text::trimmed(field);
    let start = if t.len() == 0 { home_text(home) + "/Veracage/Exchange"@ } else { t };
    match text::after_prefix(start, "~/"@) {
        Some(rest) => names::path_join(h, rest),
        None => if start == "~"@ { h } else { start },
    }
}

/// The directories at which the picker may open, in order: the wanted one and those
/// above it.
pub open spec fn start_candidates(field: Seq<char>, home: Option<Seq<char>>) -> Seq<Seq<char>> {
    let s = wanted_start(field, home);
    let cs = components(s);
    seq![s] + above(is_absolute(s), cs, cs.len())
}

fn join_prefix(absolute: bool, cs: &Vec<String>, n: usize) -> (r: String)
    requires
        n <= cs@.len(),
    ensures
        r@ == path_of_components(absolute, text::texts(cs@).take(n as int)),
{
    let ghost t = text::texts(cs@);
    let mut v: Vec<String> = Vec::new();
    let mut i: usize = 0;
    while i < n
        invariant
            i <= n <= cs@.len(),
            t == text::texts(cs@),
            text::texts(v@) == t.take(i as int),
        decreases n - i,
    {
        let ghost before = text::texts(v@);
        let c = cs[i].clone();
        v.push(c);
        assert(text::texts(v@) =~= before.push(c@));
        i = i + 1;
        assert(text::texts(v@) =~= t.take(i as int));
    }
    let j = text::join(&v, "/");
    if absolute {
        let mut s = "/".to_owned();
        proof {
            reveal_strlit("/");
        }
        s.append(j.as_str());
        assert(s@ =~= seq!['/'] + j@);
        s
    } else {
        j
    }
}

/// `start_candidates`, computed.
pub fn pick_start_dirs(field: &str, home: Option<&str>) -> (r: Vec<String>)
    ensures
        text::texts(r@) == start_candidates(field@, text::opt_str(home)),
{
    let h = match home {
        Some(h) => h.to_owned(),
        None => "/".to_owned(),
    };
    let t = text::trim(field);
    let start = if t.as_str().is_empty() {
        default_exchange_dir(home)
    } else {
        t
    };
    let s = match text::strip(start.as_str(), "~/") {
        Some(rest) => names::join_path(h.as_str(), rest.as_str()),
        None => {
            if text::same(start.as_str(), "~") {
                h
            } else {
                start
            }
        },
    };
    let ghost sv = s@;
    assert(sv == wanted_start(field@, text::opt_str(home)));
    let v = text::chars_of(s.as_str());
    let absolute = v.len() > 0 && v[0] == '/';
    let fs = text::split(s.as_str(), '/');
    proof {
        text::lemma_fields_nonempty(sv, '/');
    }
    assert(text::texts(fs@).len() == fs@.len());
    assert(text::texts(fs@)[0] == fs@[0]@);
    let mut cs = path::split_path(s.as_str());
    if !absolute && text::same(fs[0].as_str(), ".") {
        let ghost before = text::texts(cs@);
        cs.insert(0, ".".to_owned());
        assert(text::texts(cs@) =~= seq!["."@] + before);
    }
    let ghost ct = text::texts(cs@);
    assert(ct == components(sv));
    assert(ct.len() == cs@.len());
    let mut out: Vec<String> = Vec::new();
    out.push(s);
    assert(text::texts(out@) =~= seq![sv]);
    let mut n: usize = cs.len();
    let ghost all = above(absolute, ct, ct.len());
    assert(text::texts(out@) + above(absolute, ct, n as nat) =~= seq![sv] + all);
    while n > 1 || (n == 1 && absolute)
        invariant
            n <= cs@.len(),
            ct == text::texts(cs@),
            text::texts(out@) + above(absolute, ct, n as nat) == seq![sv] + all,
        decreases n,
    {
        let ghost before = text::texts(out@);
        let p = join_prefix(absolute, &cs, n - 1);
        let ghost pv = p@;
        out.push(p);
        assert(text::texts(out@) =~= before.push(pv));
        assert(before.push(pv) + above(absolute, ct, (n - 1) as nat) =~= before + (seq![pv] + above(
            absolute,
            ct,
            (n - 1) as nat,
        )));
        n = n - 1;
    }
    assert(text::texts(out@) + above(absolute, ct, n as nat) =~= text::texts(out@));
    out
}

/// Where the picker of a directory opens: at the first of the candidates that is a
/// directory, else at home.
pub fn pick_start_dir(field: &str, home: Option<&str>, dirs: &Vec<String>) -> (r: String)
    ensures
        r@ == match apps::first_present(
            start_candidates(field@, text::opt_str(home)),
            text::texts(dirs@),
        ) {
            Some(d) => d,
            None => match home {
                Some(h) => h@,
                None => "/"@,
            },
        },
{
    let cs = pick_start_dirs(field, home);
    let ghost t = text::texts(cs@);
    let ghost want = apps::first_present(t, text::texts(dirs@));
    let mut i: usize = 0;
    assert(t.skip(0) =~= t);
    while i < cs.len()
        invariant
            i <= cs@.len(),
            t == text::texts(cs@),
            t == start_candidates(field@, text::opt_str(home)),
            want == apps::first_present(t, text::texts(dirs@)),
            apps::first_present(t.skip(i as int), text::texts(dirs@)) == want,
        decreases cs@.len() - i,
    {
        assert(t.skip(i as int)[0] == cs@[i as int]@);
        assert(t.skip(i as int).skip(1) =~= t.skip(i + 1));
        if names::among(dirs, cs[i].as_str()) {
            return cs[i].clone();
        }
        i = i + 1;
    }
    match home {
        Some(h) => h.to_owned(),
        None => "/".to_owned(),
    }
}

// --------------------------------------------------------------- windows ---

/// Is the text of the style's value the configured one?
fn is_current(have: &Option<String>, want: &str) -> (r: bool)
    ensures
        r == (have is Some && have->0@ == want@),
{
    match have {
        Some(h) => text::same(h.as_str(), want),
        None => false,
    }
}

/// What of a window's style has to be brought in line with the configuration: whether
/// the font is installed anew, and whether the size is.
pub fn style_changes(font: &Option<String>, size: &Option<String>, cfg: &Config) -> (r: (
    bool,
    bool,
))
    ensures
        r.0 == !(font is Some && font->0@ == cfg.ui_font@),
        r.1 == (r.0 || !(size is Some && size->0@ == cfg.ui_font_size@)),
{
    let f = !is_current(font, cfg.ui_font.as_str());
    let s = f || !is_current(size, cfg.ui_font_size.as_str());
    (f, s)
}

/// What the bar of a window comes to: Enter saves and Escape cancels, unless something
/// is being typed; the buttons always do.
pub fn action_bar(
    typing: bool,
    enter: bool,
    escape: bool,
    save_clicked: bool,
    cancel_clicked: bool,
) -> (r: (bool, bool))
    ensures
        r.0 == (save_clicked || (enter && !typing)),
        r.1 == (cancel_clicked || (escape && !typing)),
{
    (save_clicked || (enter && !typing), cancel_clicked || (escape && !typing))
}

/// A choice sets what it is about, and nothing else: put back, everything is as it was.
pub proof fn law_a_choice_sets_its_own(s: Settings, c: Choice)
    ensures
        ({
            let n = chosen(s, c);
            match c {
                Choice::ClipOff => !n.clip_clear && s == (Settings { clip_clear: s.clip_clear, ..n }),
                Choice::ClipAfter(secs) => n.clip_clear && n.clip_clear_timeout == secs && s == (Settings {
                    clip_clear: s.clip_clear,
                    clip_clear_timeout: s.clip_clear_timeout,
                    ..n
                }),
                Choice::AutoDismount(m) => n.auto_dismount == m && s == (Settings {
                    auto_dismount: s.auto_dismount,
                    ..n
                }),
                Choice::Suspend(a) => n.suspend_action == a@ && s == (Settings {
                    suspend_action: s.suspend_action,
                    ..n
                }),
                Choice::Exchange(on) => n.exchange == on && s == (Settings { exchange: s.exchange, ..n }),
                Choice::Theme(t) => n.theme == t@ && s == (Settings { theme: s.theme, ..n }),
                Choice::WindowSize(w) => n.window_size == w@ && s == (Settings {
                    window_size: s.window_size,
                    ..n
                }),
                Choice::Font(f) => n.ui_font == f@ && s == (Settings { ui_font: s.ui_font, ..n }),
                Choice::FontSize(f) => n.ui_font_size == f@ && s == (Settings {
                    ui_font_size: s.ui_font_size,
                    ..n
                }),
                Choice::Modifiers(m) => n.modifier_keys == m@ && s == (Settings {
                    modifier_keys: s.modifier_keys,
                    ..n
                }),
            }
        }),
{
}

/// An idle time is shown in hours and minutes.
pub proof fn law_an_idle_time_is_shown_in_hours_and_minutes(h: nat, m: nat)
    requires
        m < 60,
    ensures
        idle_label(0) == "Off"@,
        idle_label(1) == "1 minute"@,
        idle_label(60) == "1 hour"@,
        m > 1 ==> idle_label(m) == text::decimal(m) + " minutes"@,
        h > 1 ==> idle_label(60 * h) == text::decimal(h) + " hours"@,
        h >= 1 && m >= 1 ==> idle_label(60 * h + m) == text::decimal(h) + " hours "@ + text::decimal(m)
            + " minutes"@,
{
    assert((60 * h + m) / 60 == h && (60 * h + m) % 60 == m);
    assert((60 * h) / 60 == h && (60 * h) % 60 == 0);
}

/// What is on offer holds the defaults, and the choices that the windows show.
pub proof fn law_the_defaults_are_on_offer()
    ensures
        clip_timeout_list() == seq![10u32, 30u32, 60u32, 120u32],
        auto_dismount_list() == seq![0u32, 30u32, 60u32, 120u32, 720u32],
        clip_timeout_list().contains(30u32),
        auto_dismount_list().contains(0u32),
        label_or(window_size_list(), "default"@, seq![]) == "Default"@,
        label_or(window_size_list(), "1280x800"@, seq![]) == "1280 x 800"@,
        label_or(window_size_list(), "max"@, seq![]) == "Maximized"@,
        window_size_list().len() == 5,
{
    assert(clip_timeout_list()[1] == 30u32);
    assert(auto_dismount_list()[0] == 0u32);
    reveal_strlit("default");
    reveal_strlit("1024x680");
    reveal_strlit("1280x800");
    reveal_strlit("1600x1000");
    reveal_strlit("max");
    assert("default"@.len() == 7 && "1024x680"@.len() == 8 && "1280x800"@.len() == 8
        && "1600x1000"@.len() == 9 && "max"@.len() == 3);
    assert("1024x680"@[1] == '0' && "1280x800"@[1] == '2');
    let l = window_size_list();
    let l1 = l.skip(1);
    let l2 = l1.skip(1);
    let l3 = l2.skip(1);
    let l4 = l3.skip(1);
    assert(l[0].0 == "default"@ && l1[0].0 == "1024x680"@ && l2[0].0 == "1280x800"@ && l3[0].0
        == "1600x1000"@ && l4[0].0 == "max"@);
    assert(pairs::lookup(l2, "1280x800"@) == Some("1280 x 800"@));
    assert(pairs::lookup(l1, "1280x800"@) == Some("1280 x 800"@));
    assert(pairs::lookup(l4, "max"@) == Some("Maximized"@));
    assert(pairs::lookup(l3, "max"@) == Some("Maximized"@));
    assert(pairs::lookup(l2, "max"@) == Some("Maximized"@));
    assert(pairs::lookup(l1, "max"@) == Some("Maximized"@));
}

/// The label of the host's own setting says what that is.
pub proof fn law_the_hosts_setting_is_shown(what: Seq<char>, v: Seq<char>)
    ensures
        host_label(what, Some(v)) == what + " ("@ + v + ")"@,
        host_label(what, None) == what,
{
    reveal_strlit(")");
    assert(host_label(what, Some(v)) =~= what + " ("@ + v + ")"@);
}

/// The picker of a directory opens where the shared directory is: a blank field stands for
/// the default one, and `~` for the home directory, as in the configuration.
pub proof fn law_the_picker_opens_at_the_shared_directory(h: Seq<char>, d: Seq<char>)
    requires
        h.len() > 0,
        h.last() != '/',
        h[0] != '~',
        d.len() > 0,
        !text::is_space(d[0]),
        !text::is_space(d.last()),
        d[0] != '/',
    ensures
        wanted_start(seq![], Some(h)) == config::exchange_at(None, Some(h)),
        wanted_start("~"@, Some(h)) == config::exchange_at(Some("~"@), Some(h)),
        wanted_start("~/"@ + d, Some(h)) == config::exchange_at(Some("~/"@ + d), Some(h)),
        d[0] != '~' ==> wanted_start(d, Some(h)) == d,
        start_candidates(d, Some(h))[0] == wanted_start(d, Some(h)),
{
    config::law_the_shared_directory_is_the_one_shown(h, d);
    reveal_strlit("~");
    reveal_strlit("~/");
    reveal_strlit("/Veracage/Exchange");
    let e: Seq<char> = seq![];
    text::lemma_trimmed_is(e);
    let x = h + "/Veracage/Exchange"@;
    assert(x[0] == h[0]);
    assert("~/"@[0] == '~' && "~"@[0] == '~');
    assert(!"~/"@.is_prefix_of(x));
    assert(x != "~"@);
    text::lemma_trimmed_is("~"@);
    assert(!"~/"@.is_prefix_of("~"@)) by {
        assert("~"@.len() == 1 && "~/"@.len() == 2);
    }
    let t = "~/"@ + d;
    assert(t.last() == d.last());
    text::lemma_trimmed_is(t);
    assert(t.take(2) =~= "~/"@);
    assert("~/"@.is_prefix_of(t));
    assert(t.skip(2) =~= d);
    text::lemma_trimmed_is(d);
    if d[0] != '~' {
        assert(!"~/"@.is_prefix_of(d));
    }
}

/// Above a path stand its directories, each one component shorter than the one before, up
/// to the root.
pub proof fn law_the_directories_above_are_tried_in_order(cs: Seq<Seq<char>>, n: nat, i: int)
    requires
        n <= cs.len(),
        0 <= i < n,
    ensures
        above(true, cs, n).len() == n,
        above(true, cs, n)[i] == path_of_components(true, cs.take(n - 1 - i)),
        above(true, cs, n).last() == "/"@,
    decreases n,
{
    lemma_above_len(cs, n);
    lemma_above_at(cs, n, i);
    lemma_above_at(cs, n, n - 1);
    reveal_strlit("/");
    let e: Seq<Seq<char>> = seq![];
    assert(cs.take(0) =~= e);
    assert(path_of_components(true, e) =~= "/"@);
}

proof fn lemma_above_len(cs: Seq<Seq<char>>, n: nat)
    ensures
        above(true, cs, n).len() == n,
    decreases n,
{
    if n > 0 {
        lemma_above_len(cs, (n - 1) as nat);
    }
}

proof fn lemma_above_at(cs: Seq<Seq<char>>, n: nat, i: int)
    requires
        0 <= i < n,
    ensures
        above(true, cs, n)[i] == path_of_components(true, cs.take(n - 1 - i)),
    decreases n,
{
    lemma_above_len(cs, (n - 1) as nat);
    if i > 0 {
        lemma_above_at(cs, (n - 1) as nat, i - 1);
    }
}

/// A path is its components, each behind a slash where the path starts at the root, and
/// with one between any two.
pub proof fn law_a_path_is_its_components(cs: Seq<Seq<char>>, x: Seq<char>)
    ensures
        path_of_components(true, seq![x]) == seq!['/'] + x,
        path_of_components(false, seq![x]) == x,
        cs.len() > 0 ==> path_of_components(true, cs.push(x)) == path_of_components(true, cs) + seq!['/'] + x,
        cs.len() > 0 ==> path_of_components(false, cs.push(x)) == path_of_components(false, cs) + seq!['/'] + x,
        is_absolute(seq!['/'] + x),
        x.len() > 0 && x[0] != '/' ==> !is_absolute(x),
        !is_absolute(seq![]),
{
    reveal_strlit("/");
    assert("/"@ =~= seq!['/']);
    assert(cs.push(x).drop_last() =~= cs);
    if cs.len() > 0 {
        assert(path_of_components(true, cs.push(x)) =~= path_of_components(true, cs) + seq!['/'] + x);
    }
}

/// The sizes of the window on offer are each shown with a cross between its numbers.
pub proof fn law_every_window_size_has_its_label()
    ensures
        window_size_list().contains(("default"@, "Default"@)),
        window_size_list().contains(("1024x680"@, "1024 x 680"@)),
        window_size_list().contains(("1280x800"@, "1280 x 800"@)),
        window_size_list().contains(("1600x1000"@, "1600 x 1000"@)),
        window_size_list().contains(("max"@, "Maximized"@)),
{
    let l = window_size_list();
    assert(l[0] == ("default"@, "Default"@) && l[1] == ("1024x680"@, "1024 x 680"@));
    assert(l[2] == ("1280x800"@, "1280 x 800"@) && l[3] == ("1600x1000"@, "1600 x 1000"@));
    assert(l[4] == ("max"@, "Maximized"@));
}

} // verus!
