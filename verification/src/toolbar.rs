//! The strip at the top of the session's window: what its menus hold, what it shows,
//! and what it reads from the files that others publish.

use vstd::prelude::*;

use crate::broker;
use crate::broker::Deed;
use crate::config;
use crate::publish;
use crate::text;

verus! {

/// The height of the strip, in points.
pub const TOOLBAR_HEIGHT: i32 = 40;

/// The side of the icon on the backdrop, in points.
pub const HINT_ICON_PX: i32 = 96;

/// The quotient of a number, towards zero.
pub open spec fn quotient(a: int, b: int) -> int {
    if a >= 0 { a / b } else { -((-a) / b) }
}

/// Where the icon on the backdrop stands: in the middle, three tenths down.
pub fn hint_icon_pos(w: i32, h: i32) -> (r: (i32, i32))
    requires
        w - HINT_ICON_PX >= i32::MIN,
        i32::MIN < h * 3 <= i32::MAX,
    ensures
        r.0 == quotient(w - HINT_ICON_PX, 2),
        r.1 == quotient(h * 3, 10),
{
    let dx: i64 = w as i64 - 96;
    let dy: i64 = h as i64 * 3;
    let x: i64 = if dx >= 0 {
        dx / 2
    } else {
        -((-dx) / 2)
    };
    let y: i64 = if dy >= 0 {
        dy / 10
    } else {
        -((-dy) / 10)
    };
    (x as i32, y as i32)
}

// ------------------------------------------------------------- the notes ---

/// A note of progress: which one it is, by its time, and whether it is finished.
#[derive(Clone, Copy, PartialEq, Eq, Structural, Debug)]
pub struct LaunchNote {
    pub stamp: u128,
    pub done: bool,
}

/// How long a note may be shown, in nanoseconds: that of a launch and that of the
/// broker.
pub const STATUS_TTL_LAUNCH: u128 = 10_000_000_000;

pub const STATUS_TTL_BROKER: u128 = 90_000_000_000;

/// Is a note of this session, and not too old?
pub open spec fn is_fresh(stamp: int, ttl: int, now: int, start: int) -> bool {
    stamp >= start && (now <= stamp || now - stamp < ttl)
}

/// The note of a launch that is followed: a new one is not finished, and a window that
/// came after it finishes it.
pub open spec fn followed(stamp: u128, last_window: int, note: Option<LaunchNote>) -> LaunchNote {
    let before = match note {
        Some(n) => n.stamp == stamp && n.done,
        None => false,
    };
    LaunchNote { stamp, done: before || last_window > stamp }
}

/// Which note is shown, and which one is followed from then on. That of the broker is
/// shown first; that of a launch until it is finished.
pub open spec fn status_of(
    broker: Option<(u128, Seq<char>)>,
    leader: Option<(u128, Seq<char>)>,
    last_window: int,
    note: Option<LaunchNote>,
    now: int,
    start: int,
) -> (Option<Seq<char>>, Option<LaunchNote>) {
    if broker is Some && is_fresh((broker->0).0 as int, STATUS_TTL_BROKER as int, now, start) {
        (Some((broker->0).1), note)
    } else if leader is Some && is_fresh(
        (leader->0).0 as int,
        STATUS_TTL_LAUNCH as int,
        now,
        start,
    ) {
        let n = followed((leader->0).0, last_window, note);
        (if n.done { None } else { Some((leader->0).1) }, Some(n))
    } else {
        (None, None)
    }
}

/// The texts of a note.
pub open spec fn note_text(n: Option<(u128, String)>) -> Option<(u128, Seq<char>)> {
    match n {
        Some((t, s)) => Some((t, s@)),
        None => None,
    }
}

fn fresh(stamp: u128, ttl: u128, now: u128, start: u128) -> (r: bool)
    ensures
        r == is_fresh(stamp as int, ttl as int, now as int, start as int),
{
    stamp >= start && (now <= stamp || now - stamp < ttl)
}

/// `status_of`, computed.
pub fn pick_status(
    from_broker: Option<(u128, String)>,
    from_leader: Option<(u128, String)>,
    last_window_ns: u128,
    note: Option<LaunchNote>,
    now_ns: u128,
    session_start_ns: u128,
) -> (r: (Option<String>, Option<LaunchNote>))
    ensures
        (text::opt(r.0), r.1) == status_of(
            note_text(from_broker),
            note_text(from_leader),
            last_window_ns as int,
            note,
            now_ns as int,
            session_start_ns as int,
        ),
{
    if let Some((stamp, t)) = from_broker {
        if fresh(stamp, STATUS_TTL_BROKER, now_ns, session_start_ns) {
            return (Some(t), note);
        }
    }
    if let Some((stamp, t)) = from_leader {
        if fresh(stamp, STATUS_TTL_LAUNCH, now_ns, session_start_ns) {
            let before = match note {
                Some(n) => n.stamp == stamp && n.done,
                None => false,
            };
            let done = before || last_window_ns > stamp;
            let n = LaunchNote { stamp, done };
            return (if done {
                None
            } else {
                Some(t)
            }, Some(n));
        }
    }
    (None, None)
}

/// Is the note of a launch left over from an earlier session, so that its file goes?
pub fn note_is_left_over(stamp: u128, session_start_ns: u128) -> (r: bool)
    ensures
        r == (stamp < session_start_ns),
{
    stamp < session_start_ns
}

/// A finished note stays finished: whatever the windows do afterwards, it is not shown
/// again.
pub proof fn law_a_finished_note_stays_finished(
    leader: (u128, Seq<char>),
    first_window: int,
    note: Option<LaunchNote>,
    now: int,
    start: int,
    later_window: int,
    later: int,
)
    requires
        first_window > leader.0,
        is_fresh(leader.0 as int, STATUS_TTL_LAUNCH as int, now, start),
    ensures
        ({
            let first = status_of(None, Some(leader), first_window, note, now, start);
            let again = status_of(None, Some(leader), later_window, first.1, later, start);
            first.0 is None && again.0 is None
        }),
{
}

/// Nothing is shown of a note that was written before the session began, or that is as
/// old as a note of its kind may get.
pub proof fn law_a_stale_note_is_never_shown(
    note: (u128, Seq<char>),
    last_window: int,
    tracking: Option<LaunchNote>,
    now: int,
    start: int,
)
    ensures
        note.0 < start || now - note.0 >= STATUS_TTL_BROKER ==> status_of(
            Some(note),
            None,
            last_window,
            tracking,
            now,
            start,
        ).0 is None,
        note.0 < start || now - note.0 >= STATUS_TTL_LAUNCH ==> status_of(
            None,
            Some(note),
            last_window,
            tracking,
            now,
            start,
        ).0 is None,
{
}

/// A note of the broker that is of this session and not too old is shown, before any note
/// of a launch, and what is known of a launch stays as it is.
pub proof fn law_a_note_of_the_broker_is_shown_first(
    note: (u128, Seq<char>),
    leader: Option<(u128, Seq<char>)>,
    last_window: int,
    tracking: Option<LaunchNote>,
    now: int,
    start: int,
)
    requires
        note.0 >= start,
        now - note.0 < 90_000_000_000,
    ensures
        status_of(Some(note), leader, last_window, tracking, now, start) == (Some(note.1), tracking),
{
}

/// A note of a launch is shown from the time it is written until a window comes up after
/// it: whatever came before it, and whatever note was finished before.
pub proof fn law_a_launch_is_shown_until_its_window_comes(
    broker: Option<(u128, Seq<char>)>,
    note: (u128, Seq<char>),
    last_window: int,
    tracking: Option<LaunchNote>,
    now: int,
    start: int,
)
    requires
        note.0 >= start,
        now - note.0 < 10_000_000_000,
        broker matches Some(b) ==> b.0 < start || now - b.0 >= 90_000_000_000,
        tracking matches Some(t) ==> t.stamp != note.0 || !t.done,
    ensures
        ({
            let s = status_of(broker, Some(note), last_window, tracking, now, start);
            &&& last_window <= note.0 ==> s.0 == Some(note.1)
            &&& last_window > note.0 ==> s.0 is None
            &&& s.1 == Some(LaunchNote { stamp: note.0, done: last_window > note.0 })
        }),
{
}

/// Where no publisher has a note, nothing is shown and nothing is remembered.
pub proof fn law_without_a_note_nothing_is_shown(
    last_window: int,
    tracking: Option<LaunchNote>,
    now: int,
    start: int,
)
    ensures
        status_of(None, None, last_window, tracking, now, start) == (
            None::<Seq<char>>,
            None::<LaunchNote>,
        ),
{
}

/// The note on the first line of a file, without the number in front of it.
pub open spec fn note_of(body: Seq<char>) -> Option<Seq<char>> {
    let ls = text::lines(body);
    if ls.len() == 0 {
        None
    } else {
        let raw = match text::split_once(ls[0], '\t') {
            Some((_, rest)) => rest,
            None => ls[0],
        };
        let t = publish::status_body(raw);
        if t.len() == 0 { None } else { Some(t) }
    }
}

/// `note_of`, computed.
pub fn read_status_line(body: &str) -> (r: Option<String>)
    ensures
        text::opt(r) == note_of(body@),
{
    let ls = text::split_lines(body);
    assert(text::texts(ls@).len() == ls@.len());
    if ls.len() == 0 {
        return None;
    }
    assert(text::texts(ls@)[0] == ls@[0]@);
    let raw = match text::cut(ls[0].as_str(), '\t') {
        Some((_, rest)) => rest,
        None => ls[0].clone(),
    };
    let plain = text::drop_controls(raw.as_str());
    let t = text::shorten(plain.as_str(), 80);
    if t.as_str().is_empty() {
        None
    } else {
        Some(t)
    }
}

/// The longest file that a note is read from.
pub const NOTE_FILE_MAX: u64 = 4096;

/// May a published file be read? It is a plain file, and not too long.
pub fn file_ok(is_file: bool, len: u64, max: u64) -> (r: bool)
    ensures
        r == (is_file && len <= max),
{
    is_file && len <= max
}

/// The notice on the first line of a file: its number and its text.
pub open spec fn notice_of(body: Seq<char>) -> Option<(int, Seq<char>)> {
    let ls = text::lines(body);
    if ls.len() == 0 {
        None
    } else {
        match text::split_once(ls[0], '\t') {
            Some((n, t)) => match text::unsigned_in(n, u64::MAX as int) {
                Some(nonce) => {
                    let s = text::at_most(text::without_controls(t), 200);
                    if s.len() == 0 { None } else { Some((nonce, s)) }
                },
                None => None,
            },
            None => None,
        }
    }
}

/// `notice_of`, computed.
pub fn scan_notice(body: &str) -> (r: Option<(u64, String)>)
    ensures
        r is Some <==> notice_of(body@) is Some,
        r matches Some((n, s)) ==> notice_of(body@) == Some((n as int, s@)),
{
    let ls = text::split_lines(body);
    assert(text::texts(ls@).len() == ls@.len());
    if ls.len() == 0 {
        return None;
    }
    assert(text::texts(ls@)[0] == ls@[0]@);
    match text::cut(ls[0].as_str(), '\t') {
        Some((n, t)) => match text::parse_unsigned(n.as_str(), u64::MAX) {
            Some(nonce) => {
                let plain = text::drop_controls(t.as_str());
                let s = text::shorten(plain.as_str(), 200);
                if s.as_str().is_empty() {
                    None
                } else {
                    Some((nonce, s))
                }
            },
            None => None,
        },
        None => None,
    }
}

/// How long a notice is shown, in milliseconds.
pub const NOTICE_TTL: u64 = 6000;

/// Is a notice that was set then still shown?
pub open spec fn is_shown(set_ms: int, now_ms: int) -> bool {
    now_ms <= set_ms || now_ms - set_ms < NOTICE_TTL
}

/// A notice is shown for six seconds.
pub proof fn law_a_notice_is_shown_for_six_seconds(set_ms: int, now_ms: int)
    ensures
        is_shown(set_ms, now_ms) <==> now_ms < set_ms + 6000,
{
}

/// Is a notice still shown?
pub fn notice_live(set_ms: u64, now_ms: u64) -> (r: bool)
    ensures
        r == is_shown(set_ms as int, now_ms as int),
        r == (now_ms <= set_ms || now_ms - set_ms < NOTICE_TTL),
{
    now_ms <= set_ms || now_ms - set_ms < NOTICE_TTL
}

// ------------------------------------------------------- published settings ---

/// The published policy for clearing the host's clipboard.
pub open spec fn policy_of(body: Seq<char>) -> Option<(bool, int)> {
    let ls = text::lines(body);
    if ls.len() < 2 {
        None
    } else {
        match text::unsigned_in(text::trimmed(ls[1]), u32::MAX as int) {
            Some(secs) => Some((text::trimmed(ls[0]) == "1"@, config::clamped(secs))),
            None => None,
        }
    }
}

/// `policy_of`, computed.
pub fn scan_clipclear(body: &str) -> (r: Option<(bool, u32)>)
    ensures
        r is Some <==> policy_of(body@) is Some,
        r matches Some((on, secs)) ==> policy_of(body@) == Some((on, secs as int)),
{
    let ls = text::split_lines(body);
    assert(text::texts(ls@).len() == ls@.len());
    if ls.len() < 2 {
        return None;
    }
    assert(text::texts(ls@)[0] == ls@[0]@);
    assert(text::texts(ls@)[1] == ls@[1]@);
    let a = text::trim(ls[0].as_str());
    let b = text::trim(ls[1].as_str());
    match text::parse_unsigned(b.as_str(), u32::MAX as u64) {
        Some(secs) => Some((text::same(a.as_str(), "1"), config::clamp_clip_timeout(secs as u32))),
        None => None,
    }
}

/// The number that a published file holds.
pub open spec fn minutes_of(body: Seq<char>) -> Option<int> {
    text::unsigned_in(text::trimmed(body), u32::MAX as int)
}

/// `minutes_of`, computed.
pub fn scan_autodismount(body: &str) -> (r: Option<u32>)
    ensures
        r is Some <==> minutes_of(body@) is Some,
        r matches Some(n) ==> minutes_of(body@) == Some(n as int),
{
    let t = text::trim(body);
    match text::parse_unsigned(t.as_str(), u32::MAX as u64) {
        Some(n) => Some(n as u32),
        None => None,
    }
}

/// Have the volumes been left alone for long enough?
pub open spec fn idle_over(minutes: int, idle_ms: int) -> bool {
    minutes > 0 && idle_ms >= minutes * 60_000
}

/// Volumes are dismounted after the minutes that are configured, not before, and never
/// where none are.
pub proof fn law_volumes_are_dismounted_after_the_idle_time(minutes: int, idle_ms: int)
    requires
        minutes >= 0,
    ensures
        !idle_over(0, idle_ms),
        minutes > 0 && idle_ms < 60_000 * minutes ==> !idle_over(minutes, idle_ms),
        minutes > 0 && idle_ms >= 60_000 * minutes ==> idle_over(minutes, idle_ms),
{
}

/// Have the volumes been left alone for so long that they are dismounted?
pub fn idle_is_over(minutes: u32, idle_ms: u64) -> (r: bool)
    ensures
        r == idle_over(minutes as int, idle_ms as int),
        r == (minutes > 0 && idle_ms >= minutes * 60_000),
{
    minutes > 0 && idle_ms >= minutes as u64 * 60_000
}

/// The value that a published file holds; none where it is blank.
pub fn scan_word(body: &str) -> (r: Option<String>)
    ensures
        text::opt(r) == if text::trimmed(body@).len() == 0 {
            None
        } else {
            Some(text::trimmed(body@))
        },
{
    let t = text::trim(body);
    if t.as_str().is_empty() {
        None
    } else {
        Some(t)
    }
}

/// The line at `i`, or nothing.
pub open spec fn line_at(ls: Seq<Seq<char>>, i: int) -> Seq<char> {
    if 0 <= i < ls.len() { ls[i] } else { seq![] }
}

fn get_line(ls: &Vec<String>, i: usize) -> (r: String)
    ensures
        r@ == line_at(text::texts(ls@), i as int),
{
    assert(text::texts(ls@).len() == ls@.len());
    if i < ls.len() {
        assert(text::texts(ls@)[i as int] == ls@[i as int]@);
        ls[i].clone()
    } else {
        let e = String::new();
        assert(e@ =~= seq![]);
        e
    }
}

/// The published font of the menu: its file, and its size as it is written.
pub fn scan_font(body: &str) -> (r: (String, String))
    ensures
        r.0@ == text::trimmed(line_at(text::lines(body@), 0)),
        r.1@ == text::trimmed(line_at(text::lines(body@), 1)),
{
    let ls = text::split_lines(body);
    let a = get_line(&ls, 0);
    let b = get_line(&ls, 1);
    (text::trim(a.as_str()), text::trim(b.as_str()))
}

/// The published keyboard: its model, layout, variant and options.
pub fn scan_keyboard(body: &str) -> (r: (String, String, String, String))
    ensures
        r.0@ == line_at(text::lines(body@), 0),
        r.1@ == line_at(text::lines(body@), 1),
        r.2@ == line_at(text::lines(body@), 2),
        r.3@ == line_at(text::lines(body@), 3),
{
    let ls = text::split_lines(body);
    (get_line(&ls, 0), get_line(&ls, 1), get_line(&ls, 2), get_line(&ls, 3))
}

// ----------------------------------------------------------- applications ---

/// An application that is configured.
pub struct ConfigApp {
    pub key: String,
    pub name: String,
}

/// The key and the name of an application.
pub open spec fn config_app_texts(v: Seq<ConfigApp>) -> Seq<(Seq<char>, Seq<char>)> {
    v.map_values(|a: ConfigApp| (a.key@, a.name@))
}

/// The application on a line: its key, and its name or the key again.
pub open spec fn config_app_of(line: Seq<char>) -> Option<(Seq<char>, Seq<char>)> {
    match text::split_once(line, '\t') {
        Some((key, n)) => {
            let name = if n.len() == 0 { key } else { n };
            if publish::is_sane_key(key) && vstd::utf8::encode_utf8(name).len() <= 128 {
                Some((key, name))
            } else {
                None
            }
        },
        None => None,
    }
}

/// The applications on a list of lines.
pub open spec fn config_apps_on(ls: Seq<Seq<char>>) -> Seq<(Seq<char>, Seq<char>)>
    decreases ls.len(),
{
    if ls.len() == 0 {
        seq![]
    } else {
        match config_app_of(ls.last()) {
            Some(a) => config_apps_on(ls.drop_last()).push(a),
            None => config_apps_on(ls.drop_last()),
        }
    }
}

/// The first lines of a list.
pub open spec fn first_lines(ls: Seq<Seq<char>>, n: nat) -> Seq<Seq<char>> {
    if ls.len() <= n { ls } else { ls.take(n as int) }
}

/// The published applications: those on the first 64 lines.
pub fn scan_config_apps(body: &str) -> (r: Vec<ConfigApp>)
    ensures
        config_app_texts(r@) == config_apps_on(first_lines(text::lines(body@), 64)),
{
    let ls = text::split_lines(body);
    let ghost all = text::lines(body@);
    assert(all.len() == ls@.len());
    let n: usize = if ls.len() < 64 {
        ls.len()
    } else {
        64
    };
    let ghost t = first_lines(all, 64);
    assert(t =~= all.take(n as int));
    let mut out: Vec<ConfigApp> = Vec::new();
    let mut i: usize = 0;
    assert(config_app_texts(out@) =~= config_apps_on(t.take(0)));
    while i < n
        invariant
            i <= n <= ls@.len(),
            text::texts(ls@) == all,
            t == all.take(n as int),
            config_app_texts(out@) == config_apps_on(t.take(i as int)),
        decreases n - i,
    {
        let ghost before = config_app_texts(out@);
        assert(text::texts(ls@)[i as int] == ls@[i as int]@);
        assert(t.take(i + 1).drop_last() =~= t.take(i as int));
        assert(t.take(i + 1).last() == ls@[i as int]@);
        if let Some((key, n)) = text::cut(ls[i].as_str(), '\t') {
            let name = if n.as_str().is_empty() {
                key.clone()
            } else {
                n
            };
            let len = name.as_str().as_bytes().len();
            if publish::sane_key(key.as_str()) && len <= 128 {
                let a = ConfigApp { key, name };
                out.push(a);
                assert(config_app_texts(out@) =~= before.push((a.key@, a.name@)));
            }
        }
        i = i + 1;
    }
    assert(t.take(i as int) =~= t);
    out
}

/// The key of the last application of a name.
pub open spec fn key_of_name(
    apps: Seq<(Seq<char>, Seq<char>)>,
    name: Seq<char>,
) -> Option<Seq<char>>
    decreases apps.len(),
{
    if apps.len() == 0 {
        None
    } else if apps.last().1 == name {
        Some(apps.last().0)
    } else {
        key_of_name(apps.drop_last(), name)
    }
}

fn find_key(apps: &Vec<ConfigApp>, name: &str) -> (r: Option<String>)
    ensures
        text::opt(r) == key_of_name(config_app_texts(apps@), name@),
{
    let ghost t = config_app_texts(apps@);
    let mut i: usize = apps.len();
    assert(t.take(i as int) =~= t);
    while i > 0
        invariant
            i <= apps@.len(),
            t == config_app_texts(apps@),
            key_of_name(t.take(i as int), name@) == key_of_name(t, name@),
        decreases i,
    {
        let ghost h = t.take(i as int);
        assert(h.drop_last() =~= t.take(i - 1));
        assert(h.last() == (apps@[i - 1].key@, apps@[i - 1].name@));
        if text::same(apps[i - 1].name.as_str(), name) {
            return Some(apps[i - 1].key.clone());
        }
        i = i - 1;
    }
    None
}

// ---------------------------------------------------------------- leaders ---

/// A session: the socket at which it is asked to launch, its label, its open volumes,
/// the application that opened it, and the names of its applications.
pub struct LeaderApps {
    pub sock: String,
    pub label: String,
    pub volumes: Vec<String>,
    pub opener: Option<usize>,
    pub names: Vec<String>,
}

/// A session, as values.
pub ghost struct Leader {
    pub sock: Seq<char>,
    pub label: Seq<char>,
    pub volumes: Seq<Seq<char>>,
    pub opener: Option<int>,
    pub names: Seq<Seq<char>>,
}

impl View for LeaderApps {
    type V = Leader;

    open spec fn view(&self) -> Leader {
        Leader {
            sock: self.sock@,
            label: self.label@,
            volumes: text::texts(self.volumes@),
            opener: match self.opener {
                Some(i) => Some(i as int),
                None => None,
            },
            names: text::texts(self.names@),
        }
    }
}

/// The sessions of a list.
pub open spec fn leaders_of(v: Seq<LeaderApps>) -> Seq<Leader> {
    v.map_values(|l: LeaderApps| l@)
}

/// The parts that are not empty.
pub open spec fn nonempty(ts: Seq<Seq<char>>) -> Seq<Seq<char>> {
    ts.filter(|t: Seq<char>| t.len() > 0)
}

fn keep_nonempty(v: &Vec<String>, from: usize) -> (r: Vec<String>)
    requires
        from <= v@.len(),
    ensures
        text::texts(r@) == nonempty(text::texts(v@).skip(from as int)),
{
    let ghost t = text::texts(v@).skip(from as int);
    let ghost p = |t: Seq<char>| t.len() > 0;
    let mut out: Vec<String> = Vec::new();
    let mut i: usize = from;
    reveal(Seq::filter);
    assert(text::texts(out@) =~= t.take(0).filter(p));
    while i < v.len()
        invariant
            from <= i <= v@.len(),
            t == text::texts(v@).skip(from as int),
            p == (|t: Seq<char>| t.len() > 0),
            text::texts(out@) == t.take(i - from).filter(p),
        decreases v@.len() - i,
    {
        let ghost before = text::texts(out@);
        proof {
            reveal(Seq::filter);
            assert(t.take(i - from + 1).drop_last() =~= t.take(i - from));
            assert(t.take(i - from + 1).last() == v@[i as int]@);
        }
        if !v[i].as_str().is_empty() {
            let s = v[i].clone();
            out.push(s);
            assert(text::texts(out@) =~= before.push(s@));
        }
        i = i + 1;
    }
    assert(t.take(i - from) =~= t);
    out
}

/// The session that a file describes: the name of its socket, which stays in its
/// directory, its label, its volumes, its opener, and its applications.
pub open spec fn leader_of(runtime: Seq<char>, body: Seq<char>) -> Option<Leader> {
    let ls = text::lines(body);
    if ls.len() == 0 || ls[0].len() == 0 || ls[0].contains('/') || ls[0] == ".."@ {
        None
    } else {
        let names = if ls.len() > 4 { nonempty(ls.skip(4)) } else { seq![] };
        let opener = if ls.len() > 3 {
            text::signed_in(text::trimmed(ls[3]), i64::MAX as int)
        } else {
            None
        };
        Some(
            Leader {
                sock: crate::names::path_join(runtime, ls[0]),
                label: if ls.len() > 1 { ls[1] } else { "Volume"@ },
                volumes: nonempty(text::fields(line_at(ls, 2), '\t')),
                opener: match opener {
                    Some(n) => if 0 <= n < names.len() { Some(n) } else { None },
                    None => None,
                },
                names,
            },
        )
    }
}

/// `leader_of`, computed.
pub fn scan_leader(runtime: &str, body: &str) -> (r: Option<LeaderApps>)
    ensures
        r is Some <==> leader_of(runtime@, body@) is Some,
        r matches Some(l) ==> leader_of(runtime@, body@) == Some(l@),
{
    let ls = text::split_lines(body);
    let ghost t = text::lines(body@);
    assert(t.len() == ls@.len());
    if ls.len() == 0 {
        return None;
    }
    assert(t[0] == ls@[0]@);
    if ls[0].as_str().is_empty() || text::has_char(ls[0].as_str(), '/') || text::same(
        ls[0].as_str(),
        "..",
    ) {
        return None;
    }
    let label = if ls.len() > 1 {
        assert(t[1] == ls@[1]@);
        ls[1].clone()
    } else {
        "Volume".to_owned()
    };
    let vline = get_line(&ls, 2);
    let vs = text::split(vline.as_str(), '\t');
    let volumes = keep_nonempty(&vs, 0);
    assert(text::texts(vs@).skip(0) =~= text::texts(vs@));
    let names = if ls.len() > 4 {
        keep_nonempty(&ls, 4)
    } else {
        let v: Vec<String> = Vec::new();
        assert(text::texts(v@) =~= seq![]);
        v
    };
    assert(text::texts(names@).len() == names@.len());
    let opener_raw: Option<i64> = if ls.len() > 3 {
        assert(t[3] == ls@[3]@);
        let o = text::trim(ls[3].as_str());
        text::parse_signed(o.as_str(), i64::MAX)
    } else {
        None
    };
    let count = names.len();
    let opener: Option<usize> = match opener_raw {
        Some(n) => if n >= 0 && (n as u64) < count as u64 {
            Some(n as usize)
        } else {
            None
        },
        None => None,
    };
    Some(
        LeaderApps {
            sock: crate::names::join_path(runtime, ls[0].as_str()),
            label,
            volumes,
            opener,
            names,
        },
    )
}

fn same_texts(a: &Vec<String>, b: &Vec<String>) -> (r: bool)
    ensures
        r == (text::texts(a@) == text::texts(b@)),
{
    let ghost x = text::texts(a@);
    let ghost y = text::texts(b@);
    assert(x.len() == a@.len() && y.len() == b@.len());
    if a.len() != b.len() {
        return false;
    }
    let mut i: usize = 0;
    while i < a.len()
        invariant
            i <= a@.len(),
            a@.len() == b@.len(),
            x == text::texts(a@),
            y == text::texts(b@),
            forall|k: int| 0 <= k < i ==> x[k] == y[k],
        decreases a@.len() - i,
    {
        assert(x[i as int] == a@[i as int]@ && y[i as int] == b@[i as int]@);
        if !text::same(a[i].as_str(), b[i].as_str()) {
            return false;
        }
        i = i + 1;
    }
    assert(x =~= y);
    true
}

/// Do two sessions differ in what is shown of them?
pub open spec fn shows_alike(a: Leader, b: Leader) -> bool {
    a.names == b.names && a.label == b.label && a.volumes == b.volumes
}

/// Did the sessions change in anything that is shown?
pub fn leaders_changed(fresh: &Vec<LeaderApps>, known: &Vec<LeaderApps>) -> (r: bool)
    ensures
        r == !(fresh@.len() == known@.len() && forall|i: int|
            0 <= i < fresh@.len() ==> shows_alike(#[trigger] fresh@[i]@, known@[i]@)),
{
    if fresh.len() != known.len() {
        return true;
    }
    let mut i: usize = 0;
    while i < fresh.len()
        invariant
            i <= fresh@.len(),
            fresh@.len() == known@.len(),
            forall|k: int| 0 <= k < i ==> shows_alike(#[trigger] fresh@[k]@, known@[k]@),
        decreases fresh@.len() - i,
    {
        let a = &fresh[i];
        let b = &known[i];
        if !same_texts(&a.names, &b.names) || !text::same(a.label.as_str(), b.label.as_str())
            || !same_texts(&a.volumes, &b.volumes) {
            assert(!shows_alike(fresh@[i as int]@, known@[i as int]@));
            return true;
        }
        i = i + 1;
    }
    false
}

/// The open volumes of all sessions.
pub open spec fn all_volumes(ls: Seq<Leader>) -> Seq<Seq<char>>
    decreases ls.len(),
{
    if ls.len() == 0 { seq![] } else { all_volumes(ls.drop_last()) + ls.last().volumes }
}

/// `all_volumes`, computed.
pub fn open_volumes(leaders: &Vec<LeaderApps>) -> (r: Vec<String>)
    ensures
        text::texts(r@) == all_volumes(leaders_of(leaders@)),
{
    let ghost t = leaders_of(leaders@);
    let mut out: Vec<String> = Vec::new();
    let mut i: usize = 0;
    assert(text::texts(out@) =~= all_volumes(t.take(0)));
    while i < leaders.len()
        invariant
            i <= leaders@.len(),
            t == leaders_of(leaders@),
            text::texts(out@) == all_volumes(t.take(i as int)),
        decreases leaders@.len() - i,
    {
        let ghost before = text::texts(out@);
        assert(t.take(i + 1).drop_last() =~= t.take(i as int));
        assert(t.take(i + 1).last() == leaders@[i as int]@);
        let ghost vs = text::texts(leaders@[i as int].volumes@);
        let mut j: usize = 0;
        assert(before + vs.take(0) =~= before);
        while j < leaders[i].volumes.len()
            invariant
                i < leaders@.len(),
                j <= leaders@[i as int].volumes@.len(),
                vs == text::texts(leaders@[i as int].volumes@),
                text::texts(out@) == before + vs.take(j as int),
            decreases leaders@[i as int].volumes@.len() - j,
        {
            let ghost now = text::texts(out@);
            let s = leaders[i].volumes[j].clone();
            out.push(s);
            assert(text::texts(out@) =~= now.push(s@));
            assert(vs[j as int] == s@);
            j = j + 1;
            assert(text::texts(out@) =~= before + vs.take(j as int));
        }
        assert(vs.take(j as int) =~= vs);
        i = i + 1;
    }
    assert(t.take(i as int) =~= t);
    out
}

/// The title of the window: the volumes that are mounted.
pub open spec fn title_of(vols: Seq<Seq<char>>) -> Seq<char> {
    if vols.len() == 0 {
        "Veracage"@
    } else if vols.len() == 1 {
        "1 volume mounted ("@ + vols[0] + ")"@
    } else {
        text::decimal(vols.len()) + " volumes mounted ("@ + text::joined(vols, ", "@) + ")"@
    }
}

/// `title_of`, computed for the sessions.
pub fn volumes_title(leaders: &Vec<LeaderApps>) -> (r: String)
    ensures
        r@ == title_of(all_volumes(leaders_of(leaders@))),
{
    let vols = open_volumes(leaders);
    assert(text::texts(vols@).len() == vols@.len());
    if vols.len() == 0 {
        "Veracage".to_owned()
    } else if vols.len() == 1 {
        assert(text::texts(vols@)[0] == vols@[0]@);
        let mut s = "1 volume mounted (".to_owned();
        s.append(vols[0].as_str());
        s.append(")");
        s
    } else {
        let mut s = text::decimal_of(vols.len() as u64);
        s.append(" volumes mounted (");
        let j = text::join(&vols, ", ");
        s.append(j.as_str());
        s.append(")");
        s
    }
}

// --------------------------------------------------------------- the menus ---

/// What a selection asks for.
#[derive(Clone)]
pub enum ToolbarAction {
    Nothing,
    ClipPush,
    ClipPull,
    LaunchApp { sock: String, index: usize },
    Command(String),
    CloseVolume(String),
    Quit,
}

/// What a selection asks for, as values.
pub ghost enum Ask {
    Nothing,
    ClipPush,
    ClipPull,
    LaunchApp(Seq<char>, int),
    Command(Seq<char>),
    CloseVolume(Seq<char>),
    Quit,
}

impl View for ToolbarAction {
    type V = Ask;

    open spec fn view(&self) -> Ask {
        match self {
            ToolbarAction::Nothing => Ask::Nothing,
            ToolbarAction::ClipPush => Ask::ClipPush,
            ToolbarAction::ClipPull => Ask::ClipPull,
            ToolbarAction::LaunchApp { sock, index } => Ask::LaunchApp(sock@, *index as int),
            ToolbarAction::Command(v) => Ask::Command(v@),
            ToolbarAction::CloseVolume(l) => Ask::CloseVolume(l@),
            ToolbarAction::Quit => Ask::Quit,
        }
    }
}

/// The menus, in their order.
#[derive(Clone, Copy, PartialEq, Eq, Structural, Debug)]
pub enum Menu {
    File,
    Unmount,
    Clipboard,
    Apps,
    Settings,
    Help,
}

/// A row of a menu. One without an action is a separator, or cannot be selected. The
/// icon is that of the menu's own set, or that of an application.
pub struct Row {
    pub menu: Menu,
    pub glyph: String,
    pub app_icon: Option<String>,
    pub label: String,
    pub shortcut: String,
    pub action: ToolbarAction,
}

/// A row of a menu, as values.
pub ghost struct RowText {
    pub menu: Menu,
    pub glyph: Seq<char>,
    pub app_icon: Option<Seq<char>>,
    pub label: Seq<char>,
    pub shortcut: Seq<char>,
    pub action: Ask,
}

impl View for Row {
    type V = RowText;

    open spec fn view(&self) -> RowText {
        RowText {
            menu: self.menu,
            glyph: self.glyph@,
            app_icon: text::opt(self.app_icon),
            label: self.label@,
            shortcut: self.shortcut@,
            action: self.action@,
        }
    }
}

/// The rows of a list.
pub open spec fn row_texts(v: Seq<Row>) -> Seq<RowText> {
    v.map_values(|r: Row| r@)
}

/// A row of the menu's own set.
pub open spec fn own_row(menu: Menu, glyph: Seq<char>, label: Seq<char>, action: Ask) -> RowText {
    RowText { menu, glyph, app_icon: None, label, shortcut: seq![], action }
}

/// A separator.
pub open spec fn separator(menu: Menu) -> RowText {
    own_row(menu, seq![], seq![], Ask::Nothing)
}

/// The rows from which volumes are unmounted.
pub open spec fn unmount_rows(vols: Seq<Seq<char>>) -> Seq<RowText> {
    vols.map_values(
        |v: Seq<char>| own_row(Menu::Unmount, "unmount"@, v, Ask::CloseVolume(v)),
    )
}

/// The rows of the file menu.
pub open spec fn file_rows(vols: Seq<Seq<char>>) -> Seq<RowText> {
    seq![
        own_row(Menu::File, "mount"@, "Mount volume..."@, Ask::Command("open"@)),
        own_row(Menu::File, "exchange"@, "Shared directory"@, Ask::Command("exchange"@)),
    ] + (if vols.len() > 0 { seq![separator(Menu::File)] + unmount_rows(vols) } else { seq![] })
        + seq![separator(Menu::File), own_row(Menu::File, "quit"@, "Quit"@, Ask::Quit)]
}

/// The rows of the clipboard menu.
pub open spec fn clipboard_rows(copy_out: Seq<char>, paste_in: Seq<char>) -> Seq<RowText> {
    seq![
        RowText {
            shortcut: copy_out,
            ..own_row(Menu::Clipboard, "copy_out"@, "Copy out"@, Ask::ClipPull)
        },
        RowText {
            shortcut: paste_in,
            ..own_row(Menu::Clipboard, "paste_in"@, "Paste in"@, Ask::ClipPush)
        },
    ]
}

/// A row of an application.
pub open spec fn app_row(icon: Option<Seq<char>>, name: Seq<char>, action: Ask) -> RowText {
    RowText {
        menu: Menu::Apps,
        glyph: seq![],
        app_icon: icon,
        label: name,
        shortcut: seq![],
        action,
    }
}

/// The rows of the configured applications while no volume is mounted: none can be
/// selected.
pub open spec fn idle_rows(cfg: Seq<(Seq<char>, Seq<char>)>) -> Seq<RowText> {
    if cfg.len() == 0 {
        seq![app_row(None, "(no apps configured)"@, Ask::Nothing)]
    } else {
        cfg.map_values(|a: (Seq<char>, Seq<char>)| app_row(Some(a.0), a.1, Ask::Nothing))
    }
}

/// The rows of the first `n` applications of a session, each of which it launches.
pub open spec fn launch_rows(l: Leader, cfg: Seq<(Seq<char>, Seq<char>)>, n: int) -> Seq<RowText> {
    Seq::new(
        n as nat,
        |i: int|
            app_row(key_of_name(cfg, l.names[i]), l.names[i], Ask::LaunchApp(l.sock, i)),
    )
}

/// The rows of the applications of all sessions.
pub open spec fn session_rows(
    ls: Seq<Leader>,
    cfg: Seq<(Seq<char>, Seq<char>)>,
) -> Seq<RowText>
    decreases ls.len(),
{
    if ls.len() == 0 {
        seq![]
    } else {
        session_rows(ls.drop_last(), cfg) + launch_rows(
            ls.last(),
            cfg,
            ls.last().names.len() as int,
        )
    }
}

/// The rows of the applications menu.
pub open spec fn apps_rows(ls: Seq<Leader>, cfg: Seq<(Seq<char>, Seq<char>)>) -> Seq<RowText> {
    (if ls.len() == 0 { idle_rows(cfg) } else { session_rows(ls, cfg) }) + seq![
        separator(Menu::Apps),
        own_row(Menu::Apps, "configure_apps"@, "Configure apps..."@, Ask::Command("configure"@)),
    ]
}

/// The rows of the settings menu.
pub open spec fn settings_rows() -> Seq<RowText> {
    seq![
        own_row(
            Menu::Settings,
            "settings"@,
            "System Integration..."@,
            Ask::Command("settings"@),
        ),
        own_row(Menu::Settings, "settings"@, "Appearance..."@, Ask::Command("appearance"@)),
        own_row(
            Menu::Settings,
            "shortcuts"@,
            "Keyboard and Shortcuts..."@,
            Ask::Command("shortcuts"@),
        ),
    ]
}

/// The rows of the help menu.
pub open spec fn help_rows() -> Seq<RowText> {
    seq![
        own_row(Menu::Help, "help"@, "Help..."@, Ask::Command("help"@)),
        own_row(Menu::Help, "about"@, "About Veracage..."@, Ask::Command("about"@)),
    ]
}

fn own(menu: Menu, glyph: &str, label: &str, action: ToolbarAction) -> (r: Row)
    ensures
        r@ == own_row(menu, glyph@, label@, action@),
{
    let r = Row {
        menu,
        glyph: glyph.to_owned(),
        app_icon: None,
        label: label.to_owned(),
        shortcut: String::new(),
        action,
    };
    assert(r@.shortcut =~= seq![]);
    r
}

fn line(menu: Menu) -> (r: Row)
    ensures
        r@ == separator(menu),
{
    let r = Row {
        menu,
        glyph: String::new(),
        app_icon: None,
        label: String::new(),
        shortcut: String::new(),
        action: ToolbarAction::Nothing,
    };
    assert(r@.shortcut =~= seq![]);
    assert(r@.glyph =~= seq![]);
    assert(r@.label =~= seq![]);
    r
}

fn app_entry(icon: Option<String>, name: &str, action: ToolbarAction) -> (r: Row)
    ensures
        r@ == app_row(text::opt(icon), name@, action@),
{
    let r = Row {
        menu: Menu::Apps,
        glyph: String::new(),
        app_icon: icon,
        label: name.to_owned(),
        shortcut: String::new(),
        action,
    };
    assert(r@.shortcut =~= seq![]);
    assert(r@.glyph =~= seq![]);
    r
}

/// `file_rows`, computed.
pub fn file_menu(leaders: &Vec<LeaderApps>) -> (r: Vec<Row>)
    ensures
        row_texts(r@) == file_rows(all_volumes(leaders_of(leaders@))),
{
    let vols = open_volumes(leaders);
    let ghost vt = text::texts(vols@);
    assert(vt.len() == vols@.len());
    let mut out: Vec<Row> = Vec::new();
    out.push(
        own(Menu::File, "mount", "Mount volume...", ToolbarAction::Command("open".to_owned())),
    );
    out.push(
        own(
            Menu::File,
            "exchange",
            "Shared directory",
            ToolbarAction::Command("exchange".to_owned()),
        ),
    );
    let ghost head = row_texts(out@);
    assert(head =~= seq![
        own_row(Menu::File, "mount"@, "Mount volume..."@, Ask::Command("open"@)),
        own_row(Menu::File, "exchange"@, "Shared directory"@, Ask::Command("exchange"@)),
    ]);
    let ghost middle = if vt.len() > 0 {
        seq![separator(Menu::File)] + unmount_rows(vt)
    } else {
        seq![]
    };
    if vols.len() > 0 {
        out.push(line(Menu::File));
        let mut i: usize = 0;
        let ghost rows = unmount_rows(vt);
        assert(row_texts(out@) =~= head + (seq![separator(Menu::File)] + rows.take(0)));
        while i < vols.len()
            invariant
                i <= vols@.len(),
                vt == text::texts(vols@),
                rows == unmount_rows(vt),
                row_texts(out@) == head + (seq![separator(Menu::File)] + rows.take(i as int)),
            decreases vols@.len() - i,
        {
            let ghost before = row_texts(out@);
            assert(vt[i as int] == vols@[i as int]@);
            let row = own(
                Menu::Unmount,
                "unmount",
                vols[i].as_str(),
                ToolbarAction::CloseVolume(vols[i].clone()),
            );
            out.push(row);
            assert(row_texts(out@) =~= before.push(row@));
            assert(rows[i as int] == row@);
            i = i + 1;
            assert(row_texts(out@) =~= head + (seq![separator(Menu::File)] + rows.take(i as int)));
        }
        assert(rows.take(i as int) =~= rows);
    }
    assert(row_texts(out@) =~= head + middle);
    let ghost before = row_texts(out@);
    out.push(line(Menu::File));
    out.push(own(Menu::File, "quit", "Quit", ToolbarAction::Quit));
    assert(row_texts(out@) =~= before + seq![
        separator(Menu::File),
        own_row(Menu::File, "quit"@, "Quit"@, Ask::Quit),
    ]);
    out
}

/// `clipboard_rows`, computed.
pub fn clipboard_menu(copy_out: &str, paste_in: &str) -> (r: Vec<Row>)
    ensures
        row_texts(r@) == clipboard_rows(copy_out@, paste_in@),
{
    let mut out: Vec<Row> = Vec::new();
    let mut a = own(Menu::Clipboard, "copy_out", "Copy out", ToolbarAction::ClipPull);
    a.shortcut = copy_out.to_owned();
    let mut b = own(Menu::Clipboard, "paste_in", "Paste in", ToolbarAction::ClipPush);
    b.shortcut = paste_in.to_owned();
    out.push(a);
    out.push(b);
    assert(row_texts(out@) =~= clipboard_rows(copy_out@, paste_in@));
    out
}

fn idle_menu(cfg: &Vec<ConfigApp>) -> (r: Vec<Row>)
    ensures
        row_texts(r@) == idle_rows(config_app_texts(cfg@)),
{
    let ghost t = config_app_texts(cfg@);
    assert(t.len() == cfg@.len());
    let mut out: Vec<Row> = Vec::new();
    if cfg.len() == 0 {
        out.push(app_entry(None, "(no apps configured)", ToolbarAction::Nothing));
        assert(row_texts(out@) =~= idle_rows(t));
        return out;
    }
    let ghost rows = idle_rows(t);
    let mut i: usize = 0;
    assert(row_texts(out@) =~= rows.take(0));
    while i < cfg.len()
        invariant
            0 < cfg@.len(),
            i <= cfg@.len(),
            t == config_app_texts(cfg@),
            rows == idle_rows(t),
            rows.len() == cfg@.len(),
            row_texts(out@) == rows.take(i as int),
        decreases cfg@.len() - i,
    {
        let ghost before = row_texts(out@);
        let row = app_entry(
            Some(cfg[i].key.clone()),
            cfg[i].name.as_str(),
            ToolbarAction::Nothing,
        );
        out.push(row);
        assert(row_texts(out@) =~= before.push(row@));
        assert(t[i as int] == (cfg@[i as int].key@, cfg@[i as int].name@));
        assert(rows[i as int] == row@);
        i = i + 1;
        assert(row_texts(out@) =~= rows.take(i as int));
    }
    assert(rows.take(i as int) =~= rows);
    out
}

fn add_launchers(out: &mut Vec<Row>, l: &LeaderApps, cfg: &Vec<ConfigApp>)
    ensures
        row_texts(final(out)@) == row_texts(old(out)@) + launch_rows(
            l@,
            config_app_texts(cfg@),
            l@.names.len() as int,
        ),
{
    let ghost t = config_app_texts(cfg@);
    let ghost base = row_texts(out@);
    let mut i: usize = 0;
    assert(base + launch_rows(l@, t, 0) =~= base);
    assert(l@.names.len() == l.names@.len());
    while i < l.names.len()
        invariant
            i <= l.names@.len(),
            t == config_app_texts(cfg@),
            row_texts(out@) == base + launch_rows(l@, t, i as int),
        decreases l.names@.len() - i,
    {
        let ghost before = row_texts(out@);
        let icon = find_key(cfg, l.names[i].as_str());
        let row = app_entry(
            icon,
            l.names[i].as_str(),
            ToolbarAction::LaunchApp { sock: l.sock.clone(), index: i },
        );
        out.push(row);
        assert(row_texts(out@) =~= before.push(row@));
        assert(l@.names[i as int] == l.names@[i as int]@);
        assert(launch_rows(l@, t, i + 1) =~= launch_rows(l@, t, i as int).push(row@));
        i = i + 1;
        assert(row_texts(out@) =~= base + launch_rows(l@, t, i as int));
    }
}

/// `apps_rows`, computed.
pub fn apps_menu(leaders: &Vec<LeaderApps>, cfg: &Vec<ConfigApp>) -> (r: Vec<Row>)
    ensures
        row_texts(r@) == apps_rows(leaders_of(leaders@), config_app_texts(cfg@)),
{
    let ghost lt = leaders_of(leaders@);
    let ghost ct = config_app_texts(cfg@);
    assert(lt.len() == leaders@.len());
    let mut out: Vec<Row> = Vec::new();
    if leaders.len() == 0 {
        out = idle_menu(cfg);
    } else {
        let mut i: usize = 0;
        assert(row_texts(out@) =~= session_rows(lt.take(0), ct));
        while i < leaders.len()
            invariant
                i <= leaders@.len(),
                lt == leaders_of(leaders@),
                ct == config_app_texts(cfg@),
                row_texts(out@) == session_rows(lt.take(i as int), ct),
            decreases leaders@.len() - i,
        {
            assert(lt.take(i + 1).drop_last() =~= lt.take(i as int));
            assert(lt.take(i + 1).last() == leaders@[i as int]@);
            add_launchers(&mut out, &leaders[i], cfg);
            i = i + 1;
        }
        assert(lt.take(i as int) =~= lt);
    }
    let ghost before = row_texts(out@);
    out.push(line(Menu::Apps));
    out.push(
        own(
            Menu::Apps,
            "configure_apps",
            "Configure apps...",
            ToolbarAction::Command("configure".to_owned()),
        ),
    );
    assert(row_texts(out@) =~= before + seq![
        separator(Menu::Apps),
        own_row(Menu::Apps, "configure_apps"@, "Configure apps..."@, Ask::Command("configure"@)),
    ]);
    out
}

/// `settings_rows`, computed.
pub fn settings_menu() -> (r: Vec<Row>)
    ensures
        row_texts(r@) == settings_rows(),
{
    let mut out: Vec<Row> = Vec::new();
    out.push(
        own(
            Menu::Settings,
            "settings",
            "System Integration...",
            ToolbarAction::Command("settings".to_owned()),
        ),
    );
    out.push(
        own(
            Menu::Settings,
            "settings",
            "Appearance...",
            ToolbarAction::Command("appearance".to_owned()),
        ),
    );
    out.push(
        own(
            Menu::Settings,
            "shortcuts",
            "Keyboard and Shortcuts...",
            ToolbarAction::Command("shortcuts".to_owned()),
        ),
    );
    assert(row_texts(out@) =~= settings_rows());
    out
}

/// `help_rows`, computed.
pub fn help_menu() -> (r: Vec<Row>)
    ensures
        row_texts(r@) == help_rows(),
{
    let mut out: Vec<Row> = Vec::new();
    out.push(own(Menu::Help, "help", "Help...", ToolbarAction::Command("help".to_owned())));
    out.push(
        own(Menu::Help, "about", "About Veracage...", ToolbarAction::Command("about".to_owned())),
    );
    assert(row_texts(out@) =~= help_rows());
    out
}

/// The command that a selection sends to the broker.
pub open spec fn command_for(a: Ask) -> Option<Seq<char>> {
    match a {
        Ask::Command(v) => Some(v),
        Ask::CloseVolume(l) => Some("close-volume:"@ + l),
        _ => None,
    }
}

/// `command_for`, computed.
pub fn action_command(a: &ToolbarAction) -> (r: Option<String>)
    ensures
        text::opt(r) == command_for(a@),
{
    match a {
        ToolbarAction::Command(v) => Some(v.clone()),
        ToolbarAction::CloseVolume(l) => {
            let mut s = "close-volume:".to_owned();
            s.append(l.as_str());
            Some(s)
        },
        _ => None,
    }
}

/// The line that asks a session to launch an application.
pub fn launch_line(index: usize) -> (r: String)
    ensures
        r@ == text::decimal(index as nat) + seq!['\n'],
{
    let mut s = text::decimal_of(index as u64);
    s.push('\n');
    assert(s@ =~= text::decimal(index as nat) + seq!['\n']);
    s
}

/// The broker closes the volume that was selected, whatever its label.
pub proof fn law_unmounting_closes_that_volume(label: Seq<char>)
    ensures
        broker::deed_of(command_for(Ask::CloseVolume(label))->0) == Deed::CloseVolume(label),
{
    let p = "close-volume:"@;
    let s = p + label;
    assert(s.take(p.len() as int) =~= p);
    assert(s.subrange(0, p.len() as int) =~= p);
    assert(s.skip(p.len() as int) =~= label);
}

/// The broker knows every command of the menus.
pub proof fn law_every_command_of_the_menus_is_known(
    ls: Seq<Leader>,
    cfg: Seq<(Seq<char>, Seq<char>)>,
    copy_out: Seq<char>,
    paste_in: Seq<char>,
)
    ensures
        known_commands(file_rows(all_volumes(ls))),
        known_commands(clipboard_rows(copy_out, paste_in)),
        known_commands(apps_rows(ls, cfg)),
        known_commands(settings_rows()),
        known_commands(help_rows()),
{
    lemma_fixed_verbs();
    let vols = all_volumes(ls);
    let fr = file_rows(vols);
    assert forall|i: int| 0 <= i < fr.len() implies known_command((#[trigger] fr[i]).action) by {
        let m = if vols.len() > 0 {
            seq![separator(Menu::File)] + unmount_rows(vols)
        } else {
            Seq::<RowText>::empty()
        };
        if 2 <= i < 2 + m.len() {
            assert(fr[i] == m[i - 2]);
            if i > 2 {
                law_unmounting_closes_that_volume(vols[i - 3]);
            }
        }
    }
    lemma_session_rows(ls, cfg);
    let ar = apps_rows(ls, cfg);
    assert forall|i: int| 0 <= i < ar.len() implies known_command((#[trigger] ar[i]).action) by {
        let body = if ls.len() == 0 { idle_rows(cfg) } else { session_rows(ls, cfg) };
        if i < body.len() {
            assert(ar[i] == body[i]);
            if ls.len() > 0 {
                assert(known_command(session_rows(ls, cfg)[i].action));
            }
        }
    }
}

/// Does the broker know the command that an action sends, if it sends one?
pub open spec fn known_command(a: Ask) -> bool {
    match command_for(a) {
        Some(v) => broker::deed_of(v) != Deed::Unknown,
        None => true,
    }
}

/// Does the broker know the commands of all rows?
pub open spec fn known_commands(rs: Seq<RowText>) -> bool {
    forall|i: int| 0 <= i < rs.len() ==> known_command((#[trigger] rs[i]).action)
}

proof fn lemma_session_rows(ls: Seq<Leader>, cfg: Seq<(Seq<char>, Seq<char>)>)
    ensures
        known_commands(session_rows(ls, cfg)),
    decreases ls.len(),
{
    if ls.len() > 0 {
        lemma_session_rows(ls.drop_last(), cfg);
        let h = session_rows(ls.drop_last(), cfg);
        let r = session_rows(ls, cfg);
        assert forall|i: int| 0 <= i < r.len() implies known_command((#[trigger] r[i]).action) by {
            if i < h.len() {
                assert(r[i] == h[i]);
                assert(known_command(h[i].action));
            }
        }
    }
}

proof fn lemma_not_close_volume(v: Seq<char>)
    requires
        v.len() < 13,
    ensures
        text::after_prefix(v, "close-volume:"@) is None,
{
    reveal_strlit("close-volume:");
}

proof fn lemma_fixed_verbs()
    ensures
        known_command(Ask::Command("open"@)),
        known_command(Ask::Command("exchange"@)),
        known_command(Ask::Command("configure"@)),
        known_command(Ask::Command("settings"@)),
        known_command(Ask::Command("appearance"@)),
        known_command(Ask::Command("shortcuts"@)),
        known_command(Ask::Command("help"@)),
        known_command(Ask::Command("about"@)),
{
    reveal_strlit("open");
    reveal_strlit("exchange");
    reveal_strlit("configure");
    reveal_strlit("settings");
    reveal_strlit("appearance");
    reveal_strlit("shortcuts");
    reveal_strlit("help");
    reveal_strlit("about");
    lemma_not_close_volume("open"@);
    lemma_not_close_volume("exchange"@);
    lemma_not_close_volume("configure"@);
    lemma_not_close_volume("settings"@);
    lemma_not_close_volume("appearance"@);
    lemma_not_close_volume("shortcuts"@);
    lemma_not_close_volume("help"@);
    lemma_not_close_volume("about"@);
}

/// The part of the window that was painted: its corner and its size.
pub open spec fn painted(x0: int, y0: int, x1: int, y1: int, w: int, h: int) -> Option<
    (int, int, int, int),
> {
    let a = if x0 < 0 { 0 } else { x0 };
    let b = if y0 < 0 { 0 } else { y0 };
    let c = if x1 > w { w } else { x1 };
    let d = if y1 > h { h } else { y1 };
    if c > a && d > b { Some((a, b, c - a, d - b)) } else { None }
}

/// A point was painted in the window exactly where it lies in what was painted and in the
/// window.
pub proof fn law_what_is_painted_is_in_the_window(
    x0: int,
    y0: int,
    x1: int,
    y1: int,
    w: int,
    h: int,
    x: int,
    y: int,
)
    ensures
        ({
            let inside = x0 <= x < x1 && y0 <= y < y1 && 0 <= x < w && 0 <= y < h;
            inside <==> (painted(x0, y0, x1, y1, w, h) matches Some((a, b, pw, ph)) && a <= x < a + pw && b <= y
                < b + ph)
        }),
{
}

/// The part of the window that was painted, within it: its corner and its size.
pub fn painted_rect(x0: i32, y0: i32, x1: i32, y1: i32, w: i32, h: i32) -> (r: Option<
    (i32, i32, i32, i32),
>)
    ensures
        match r { Some((a, b, c, d)) => painted(x0 as int, y0 as int, x1 as int, y1 as int, w as int, h as int) == Some((a as int, b as int, c as int, d as int)), None => painted(x0 as int, y0 as int, x1 as int, y1 as int, w as int, h as int) is None },
        ({
            let a = if x0 < 0 { 0 } else { x0 as int };
            let b = if y0 < 0 { 0 } else { y0 as int };
            let c = if x1 > w { w as int } else { x1 as int };
            let d = if y1 > h { h as int } else { y1 as int };
            &&& r is Some <==> c > a && d > b
            &&& r matches Some((x, y, rw, rh)) ==> x == a && y == b && rw == c - a && rh == d - b
        }),
{
    let a: i32 = if x0 < 0 {
        0
    } else {
        x0
    };
    let b: i32 = if y0 < 0 {
        0
    } else {
        y0
    };
    let c: i32 = if x1 > w {
        w
    } else {
        x1
    };
    let d: i32 = if y1 > h {
        h
    } else {
        y1
    };
    if c > a && d > b {
        Some((a, b, c - a, d - b))
    } else {
        None
    }
}

/// A notice is read as it was written: its number, and its text up to the longest that is
/// shown.
pub proof fn law_a_notice_is_read(n: nat, t: Seq<char>, rest: Seq<char>)
    requires
        n <= u64::MAX,
        t.len() > 0,
        text::is_line(t),
        forall|i: int| 0 <= i < t.len() ==> !text::is_control(#[trigger] t[i]),
    ensures
        notice_of(text::decimal(n) + seq!['\t'] + t + seq!['\n'] + rest) == Some(
            (n as int, if t.len() <= 200 { t } else { t.take(200) }),
        ),
{
    let d = text::decimal(n);
    let l = d + seq!['\t'] + t;
    text::lemma_decimal_reads_back(n);
    text::lemma_decimal_parses(n, u64::MAX as int);
    assert(!d.contains('\t')) by {
        if d.contains('\t') {
            let k = choose|k: int| 0 <= k < d.len() && d[k] == '\t';
            assert(text::is_digit(d[k]));
        }
    }
    assert(text::is_line(l)) by {
        assert(l.last() == t.last());
        if l.contains('\n') {
            let k = choose|k: int| 0 <= k < l.len() && l[k] == '\n';
            if k < d.len() {
                assert(text::is_digit(d[k]));
            } else if k > d.len() {
                assert(t[k - d.len() - 1] == '\n');
            }
        }
    }
    text::lemma_one_line(l);
    text::lemma_lines_concat(l + seq!['\n'], rest);
    assert(text::lines(l + seq!['\n'] + rest)[0] == l);
    text::lemma_split_once_at(d, t, '\t');
    lemma_plain_kept(t);
}

proof fn lemma_plain_kept(t: Seq<char>)
    requires
        forall|i: int| 0 <= i < t.len() ==> !text::is_control(#[trigger] t[i]),
    ensures
        text::without_controls(t) == t,
    decreases t.len(),
{
    reveal(Seq::filter);
    if t.len() > 0 {
        let d = t.drop_last();
        assert forall|i: int| 0 <= i < d.len() implies !text::is_control(#[trigger] d[i]) by {
            assert(d[i] == t[i]);
        }
        lemma_plain_kept(d);
        assert(!text::is_control(t[t.len() - 1]));
        assert(d.push(t.last()) =~= t);
    } else {
        assert(text::without_controls(t) =~= t);
    }
}

/// The lines by which a session makes itself known.
pub open spec fn leader_lines(
    sock: Seq<char>,
    label: Seq<char>,
    volumes: Seq<Seq<char>>,
    opener: nat,
    names: Seq<Seq<char>>,
) -> Seq<Seq<char>> {
    seq![sock, label, text::joined(volumes, seq!['\t']), text::decimal(opener)] + names
}

/// A session that makes itself known is read as it is: its socket in the directory of the
/// sessions, its label, all its volumes, its opener and all its applications.
pub proof fn law_a_session_is_read(
    runtime: Seq<char>,
    sock: Seq<char>,
    label: Seq<char>,
    volumes: Seq<Seq<char>>,
    opener: nat,
    names: Seq<Seq<char>>,
)
    requires
        runtime.len() > 0,
        runtime.last() != '/',
        crate::names::is_component(sock),
        volumes.len() > 0,
        forall|i: int| 0 <= i < volumes.len() ==> !(#[trigger] volumes[i]).contains('\t') && volumes[i].len() > 0,
        forall|i: int| 0 <= i < names.len() ==> (#[trigger] names[i]).len() > 0,
        opener < names.len(),
        opener <= i64::MAX,
        ({
            let ls = leader_lines(sock, label, volumes, opener, names);
            forall|i: int| 0 <= i < ls.len() ==> text::is_line(#[trigger] ls[i])
        }),
    ensures
        leader_of(runtime, text::unlines(leader_lines(sock, label, volumes, opener, names))) == Some(
            (Leader {
                sock: runtime + seq!['/'] + sock,
                label,
                volumes,
                opener: Some(opener as int),
                names,
            }),
        ),
{
    let ls = leader_lines(sock, label, volumes, opener, names);
    text::lemma_lines_unlines(ls);
    text::lemma_joined_fields(volumes, '\t');
    lemma_all_nonempty(volumes);
    lemma_all_nonempty(names);
    assert(ls.skip(4) =~= names);
    assert(ls[0] == sock && ls[1] == label && ls[3] == text::decimal(opener));
    assert(sock.contains(sock[0]));
    assert(sock[0] != '/');
    reveal_strlit("..");
    assert(".."@ =~= seq!['.', '.']);
    text::lemma_decimal_parses(opener, i64::MAX as int);
    text::lemma_decimal_reads_back(opener);
    text::lemma_trimmed_is(text::decimal(opener));
    let d = text::decimal(opener);
    assert(text::is_digit(d[d.len() - 1]));
    assert(text::is_digit(d[0]));
}

proof fn lemma_all_nonempty(ts: Seq<Seq<char>>)
    requires
        forall|i: int| 0 <= i < ts.len() ==> (#[trigger] ts[i]).len() > 0,
    ensures
        nonempty(ts) == ts,
    decreases ts.len(),
{
    reveal(Seq::filter);
    if ts.len() > 0 {
        let d = ts.drop_last();
        assert forall|i: int| 0 <= i < d.len() implies (#[trigger] d[i]).len() > 0 by {
            assert(d[i] == ts[i]);
        }
        lemma_all_nonempty(d);
        assert(ts[ts.len() - 1].len() > 0);
        assert(d.push(ts.last()) =~= ts);
    } else {
        assert(nonempty(ts) =~= ts);
    }
}

/// A socket is only ever one of the directory of the sessions: a name that leads elsewhere
/// makes no session known.
pub proof fn law_a_socket_stays_in_its_directory(runtime: Seq<char>, sock: Seq<char>, rest: Seq<char>)
    requires
        text::is_line(sock),
    ensures
        sock.len() == 0 || sock.contains('/') || sock == ".."@ ==> leader_of(
            runtime,
            sock + seq!['\n'] + rest,
        ) is None,
        leader_of(runtime, seq![]) is None,
{
    text::lemma_one_line(sock);
    text::lemma_lines_concat(sock + seq!['\n'], rest);
    assert(text::lines(sock + seq!['\n'] + rest)[0] == sock);
}

/// The volumes that are open are those of every session, in order.
pub proof fn law_every_open_volume_is_listed(ls: Seq<Leader>, l: Leader, i: int)
    ensures
        all_volumes(ls.push(l)) == all_volumes(ls) + l.volumes,
        all_volumes(seq![]).len() == 0,
        0 <= i < l.volumes.len() ==> all_volumes(ls.push(l)).contains(l.volumes[i]),
{
    assert(ls.push(l).drop_last() =~= ls);
    if 0 <= i < l.volumes.len() {
        assert(all_volumes(ls.push(l))[all_volumes(ls).len() + i] == l.volumes[i]);
    }
}

/// The title tells how many volumes are mounted, and names each of them.
pub proof fn law_the_title_names_every_volume(vols: Seq<Seq<char>>, a: Seq<char>, b: Seq<char>)
    ensures
        title_of(seq![]) == "Veracage"@,
        title_of(seq![a]) == "1 volume mounted ("@ + a + ")"@,
        title_of(seq![a, b]) == "2 volumes mounted ("@ + a + ", "@ + b + ")"@,
        vols.len() >= 2 ==> text::decimal(vols.len()).is_prefix_of(title_of(vols)),
        forall|i: int| 0 <= i < vols.len() ==> text::occurs(#[trigger] vols[i], title_of(vols)),
{
    let two = seq![a, b];
    assert(two.drop_last() =~= seq![a]);
    assert(text::joined(seq![a], ", "@) == a);
    reveal_strlit(" volumes mounted (");
    reveal_strlit("2 volumes mounted (");
    assert(text::decimal(2) =~= seq!['2']);
    assert(title_of(two) =~= "2 volumes mounted ("@ + a + ", "@ + b + ")"@);
    if vols.len() >= 2 {
        assert(title_of(vols).take(text::decimal(vols.len()).len() as int) =~= text::decimal(vols.len()));
    }
    assert forall|i: int| 0 <= i < vols.len() implies text::occurs(#[trigger] vols[i], title_of(vols)) by {
        let v = vols[i];
        let t = title_of(vols);
        if vols.len() == 1 {
            let p = "1 volume mounted ("@.len() as int;
            assert(t.subrange(p, p + v.len()) =~= v);
        } else {
            lemma_joined_names(vols, ", "@, i);
            let j = text::joined(vols, ", "@);
            let k = choose|k: int| 0 <= k <= j.len() - v.len() && #[trigger] j.subrange(k, k + v.len()) == v;
            let p = text::decimal(vols.len()).len() + " volumes mounted ("@.len() + k;
            assert(t.subrange(p, p + v.len()) =~= j.subrange(k, k + v.len()));
        }
    }
}

proof fn lemma_joined_names(parts: Seq<Seq<char>>, sep: Seq<char>, i: int)
    requires
        0 <= i < parts.len(),
    ensures
        text::occurs(parts[i], text::joined(parts, sep)),
    decreases parts.len(),
{
    let j = text::joined(parts, sep);
    let p = parts[i];
    if parts.len() == 1 {
        assert(j.subrange(0int, 0int + p.len()) =~= p);
    } else {
        let d = parts.drop_last();
        let h = text::joined(d, sep);
        if i < d.len() {
            lemma_joined_names(d, sep, i);
            assert(d[i] == p);
            let k = choose|k: int| 0 <= k <= h.len() - p.len() && #[trigger] h.subrange(k, k + p.len()) == p;
            assert(j.subrange(k, k + p.len()) =~= h.subrange(k, k + p.len()));
        } else {
            let k = h.len() as int + sep.len();
            assert(j.subrange(k, k + p.len()) =~= p);
        }
    }
}

/// The file menu mounts, opens the shared directory and quits, and has one row for each
/// volume that is mounted, which closes just that one.
pub proof fn law_every_volume_can_be_unmounted(vols: Seq<Seq<char>>, i: int)
    requires
        0 <= i <= vols.len(),
    ensures
        ({
            let r = file_rows(vols);
            &&& r[0].action == Ask::Command("open"@)
            &&& r[1].action == Ask::Command("exchange"@)
            &&& r.last().action == Ask::Quit && r.last().label == "Quit"@
            &&& vols.len() == 0 ==> r.len() == 4
            &&& vols.len() > 0 ==> r.len() == 5 + vols.len()
            &&& i < vols.len() ==> r[3 + i].label == vols[i] && r[3 + i].action == Ask::CloseVolume(
                vols[i],
            ) && r[3 + i].menu == Menu::Unmount
        }),
{
}

/// Copying out takes what the sandbox has, and pasting in brings what the host has; each
/// row shows the keys that do the same.
pub proof fn law_the_clipboard_menu_goes_both_ways(copy_out: Seq<char>, paste_in: Seq<char>)
    ensures
        ({
            let r = clipboard_rows(copy_out, paste_in);
            &&& r.len() == 2
            &&& r[0].label == "Copy out"@ && r[0].action == Ask::ClipPull && r[0].shortcut == copy_out
            &&& r[1].label == "Paste in"@ && r[1].action == Ask::ClipPush && r[1].shortcut == paste_in
        }),
{
}

/// Every application of every session has a row that launches it there, under its name and
/// with the icon of the configured application of that name; the last row configures them.
pub proof fn law_every_application_can_be_launched(
    ls: Seq<Leader>,
    cfg: Seq<(Seq<char>, Seq<char>)>,
    s: int,
    i: int,
)
    requires
        0 <= s < ls.len(),
        0 <= i < ls[s].names.len(),
    ensures
        apps_rows(ls, cfg).contains(
            (RowText {
                menu: Menu::Apps,
                glyph: seq![],
                app_icon: key_of_name(cfg, ls[s].names[i]),
                label: ls[s].names[i],
                shortcut: seq![],
                action: Ask::LaunchApp(ls[s].sock, i),
            }),
        ),
        apps_rows(ls, cfg).last().action == Ask::Command("configure"@),
{
    lemma_session_row(ls, cfg, s, i);
    let r = session_rows(ls, cfg);
    let row = app_row(key_of_name(cfg, ls[s].names[i]), ls[s].names[i], Ask::LaunchApp(ls[s].sock, i));
    let k = choose|k: int| 0 <= k < r.len() && r[k] == row;
    assert(apps_rows(ls, cfg)[k] == row);
}

proof fn lemma_session_row(ls: Seq<Leader>, cfg: Seq<(Seq<char>, Seq<char>)>, s: int, i: int)
    requires
        0 <= s < ls.len(),
        0 <= i < ls[s].names.len(),
    ensures
        session_rows(ls, cfg).contains(
            app_row(key_of_name(cfg, ls[s].names[i]), ls[s].names[i], Ask::LaunchApp(ls[s].sock, i)),
        ),
    decreases ls.len(),
{
    let d = ls.drop_last();
    let h = session_rows(d, cfg);
    let all = session_rows(ls, cfg);
    let row = app_row(key_of_name(cfg, ls[s].names[i]), ls[s].names[i], Ask::LaunchApp(ls[s].sock, i));
    if s < d.len() {
        assert(d[s] == ls[s]);
        lemma_session_row(d, cfg, s, i);
        let k = choose|k: int| 0 <= k < h.len() && h[k] == row;
        assert(all[k] == row);
    } else {
        assert(all[h.len() + i] == row);
    }
}

/// Without a session the configured applications are shown and none can be launched.
pub proof fn law_nothing_is_launched_without_a_session(cfg: Seq<(Seq<char>, Seq<char>)>, i: int)
    requires
        0 <= i < cfg.len(),
    ensures
        ({
            let r = apps_rows(seq![], cfg);
            &&& r.len() == cfg.len() + 2
            &&& r[i].label == cfg[i].1 && r[i].app_icon == Some(cfg[i].0) && r[i].action == Ask::Nothing
            &&& r.last().label == "Configure apps..."@ && r.last().action == Ask::Command("configure"@)
        }),
        apps_rows(seq![], seq![])[0].label == "(no apps configured)"@,
        apps_rows(seq![], seq![])[0].action == Ask::Nothing,
{
}

/// The other menus open each window under its own name.
pub proof fn law_every_window_has_its_row()
    ensures
        settings_rows().len() == 3,
        settings_rows()[0].label == "System Integration..."@ && settings_rows()[0].action == Ask::Command("settings"@),
        settings_rows()[1].label == "Appearance..."@ && settings_rows()[1].action == Ask::Command("appearance"@),
        settings_rows()[2].label == "Keyboard and Shortcuts..."@ && settings_rows()[2].action == Ask::Command(
            "shortcuts"@,
        ),
        help_rows().len() == 2,
        help_rows()[0].label == "Help..."@ && help_rows()[0].action == Ask::Command("help"@),
        help_rows()[1].label == "About Veracage..."@ && help_rows()[1].action == Ask::Command("about"@),
{
}

/// What a row asks of the broker is sent to it, word for word; what the compositor does
/// itself is not.
pub proof fn law_only_commands_are_sent(a: Ask)
    ensures
        a matches Ask::Command(v) ==> command_for(a) == Some(v),
        a matches Ask::CloseVolume(l) ==> command_for(a) == Some("close-volume:"@ + l),
        a is Nothing || a is ClipPush || a is ClipPull || a is LaunchApp || a is Quit ==> command_for(a) is None,
{
}

/// The icon of an application of a session is that of the last configured one of its name.
pub proof fn law_an_application_has_the_icon_of_its_name(
    before: Seq<(Seq<char>, Seq<char>)>,
    key: Seq<char>,
    name: Seq<char>,
    behind: Seq<(Seq<char>, Seq<char>)>,
)
    requires
        forall|i: int| 0 <= i < behind.len() ==> (#[trigger] behind[i]).1 != name,
    ensures
        key_of_name(before + seq![(key, name)] + behind, name) == Some(key),
        key_of_name(behind, name) is None,
    decreases behind.len(),
{
    let all = before + seq![(key, name)] + behind;
    if behind.len() == 0 {
        assert(all.last() == (key, name));
    } else {
        let d = behind.drop_last();
        assert forall|i: int| 0 <= i < d.len() implies (#[trigger] d[i]).1 != name by {
            assert(d[i] == behind[i]);
        }
        law_an_application_has_the_icon_of_its_name(before, key, name, d);
        assert(all.last() == behind[behind.len() - 1]);
        assert(all.drop_last() =~= before + seq![(key, name)] + d);
    }
}

/// A session that changed in what is shown of it is not taken for the same.
pub proof fn law_a_changed_session_is_noticed(a: Leader, b: Leader)
    ensures
        shows_alike(a, a),
        shows_alike(a, b) <==> a.volumes == b.volumes && a.label == b.label && a.names == b.names,
        a.volumes != b.volumes ==> !shows_alike(a, b),
{
}

/// The parts that are kept are those that hold anything, and all of them.
pub proof fn law_empty_parts_are_left_out(ts: Seq<Seq<char>>, t: Seq<char>)
    ensures
        nonempty(ts).contains(t) <==> ts.contains(t) && t.len() > 0,
        nonempty(ts.push(t)) == if t.len() > 0 { nonempty(ts).push(t) } else { nonempty(ts) },
{
    let p = |x: Seq<char>| x.len() > 0;
    reveal(Seq::filter);
    assert(ts.push(t).drop_last() =~= ts);
    if ts.contains(t) && t.len() > 0 {
        let i = choose|i: int| 0 <= i < ts.len() && ts[i] == t;
        ts.lemma_filter_contains(p, i);
    }
    if nonempty(ts).contains(t) {
        let k = choose|k: int| 0 <= k < nonempty(ts).len() && nonempty(ts)[k] == t;
        ts.lemma_filter_pred(p, k);
        ts.lemma_filter_contains_rev(p, t);
    }
}

/// The icon on the backdrop stands in the middle, three tenths down, to the nearest whole
/// place towards the corner.
pub proof fn law_the_icon_stands_in_the_middle(a: int, b: int)
    requires
        b > 0,
    ensures
        a >= 0 ==> 0 <= a - quotient(a, b) * b < b,
        a <= 0 ==> 0 <= quotient(a, b) * b - a < b,
{
    assert(a >= 0 ==> 0 <= a - (a / b) * b < b) by (nonlinear_arith)
        requires
            b > 0,
    ;
    assert(a <= 0 ==> 0 <= (-((-a) / b)) * b - a < b) by (nonlinear_arith)
        requires
            b > 0,
    ;
    if a == 0 {
        assert(0int / b == 0) by (nonlinear_arith)
            requires
                b > 0,
        ;
    }
}

/// Of a list no more than the first `n` lines are looked at, and all where there are no
/// more.
pub proof fn law_only_the_first_lines_are_read(ls: Seq<Seq<char>>, n: nat, i: int)
    requires
        0 <= i < ls.len(),
    ensures
        first_lines(ls, n).len() <= n,
        i < n ==> i < first_lines(ls, n).len() && first_lines(ls, n)[i] == ls[i],
        ls.len() <= n ==> first_lines(ls, n) == ls,
{
}

/// A note is read as it was published, whether a number stands before it or not.
pub proof fn law_a_note_is_read(n: nat, t: Seq<char>, rest: Seq<char>)
    requires
        0 < t.len() <= 80,
        text::is_line(t),
        forall|i: int| 0 <= i < t.len() ==> !text::is_control(#[trigger] t[i]),
        !t.contains('\t'),
    ensures
        note_of(text::decimal(n) + seq!['\t'] + t + seq!['\n'] + rest) == Some(t),
        note_of(t + seq!['\n'] + rest) == Some(t),
        note_of(seq![]) is None,
        note_of(seq!['\n'] + rest) is None,
{
    let d = text::decimal(n);
    let l = d + seq!['\t'] + t;
    text::lemma_decimal_reads_back(n);
    assert(!d.contains('\t')) by {
        if d.contains('\t') {
            let k = choose|k: int| 0 <= k < d.len() && d[k] == '\t';
            assert(text::is_digit(d[k]));
        }
    }
    assert(text::is_line(l)) by {
        assert(l.last() == t.last());
        if l.contains('\n') {
            let k = choose|k: int| 0 <= k < l.len() && l[k] == '\n';
            if k < d.len() {
                assert(text::is_digit(d[k]));
            } else if k > d.len() {
                assert(t[k - d.len() - 1] == '\n');
            }
        }
    }
    text::lemma_one_line(l);
    text::lemma_lines_concat(l + seq!['\n'], rest);
    assert(text::lines(l + seq!['\n'] + rest)[0] == l);
    text::lemma_split_once_at(d, t, '\t');
    lemma_plain_kept(t);
    text::lemma_one_line(t);
    text::lemma_lines_concat(t + seq!['\n'], rest);
    assert(text::lines(t + seq!['\n'] + rest)[0] == t);
    assert(text::split_once(t, '\t') is None);
    let e: Seq<char> = seq![];
    text::lemma_one_line(e);
    text::lemma_lines_concat(e + seq!['\n'], rest);
    assert(e + seq!['\n'] + rest =~= seq!['\n'] + rest);
    assert(text::lines(seq!['\n'] + rest)[0] == e);
    lemma_plain_kept(e);
}

/// Every row of the file menu has the glyph of what it does, in its own menu, and the rows
/// are parted where the volumes begin and end.
pub proof fn law_every_row_has_its_glyph(vols: Seq<Seq<char>>, i: int)
    requires
        0 <= i < vols.len(),
    ensures
        ({
            let r = file_rows(vols);
            &&& r[0].glyph == "mount"@ && r[0].label == "Mount volume..."@
            &&& r[1].glyph == "exchange"@ && r[1].label == "Shared directory"@
            &&& r[3 + i].glyph == "unmount"@
            &&& r.last().glyph == "quit"@
            &&& r[2].action is Nothing && r[2].label.len() == 0
            &&& r[r.len() - 2].action is Nothing && r[r.len() - 2].label.len() == 0
            &&& forall|k: int| 0 <= k < r.len() ==> (#[trigger] r[k]).app_icon is None && r[k].shortcut.len() == 0
            &&& forall|k: int|
                0 <= k < r.len() ==> (#[trigger] r[k]).menu == (if 3 <= k < 3 + vols.len() {
                    Menu::Unmount
                } else {
                    Menu::File
                })
        }),
        clipboard_rows(seq![], seq![])[0].glyph == "copy_out"@,
        clipboard_rows(seq![], seq![])[1].glyph == "paste_in"@,
{
}

/// The policy for clearing the host's clipboard is read as it was published.
pub proof fn law_the_published_policy_is_read(on: bool, secs: nat)
    requires
        1 <= secs <= 3600,
    ensures
        policy_of(publish::clipclear_body(on, secs)) == Some((on, secs as int)),
{
    let a = seq![if on { '1' } else { '0' }];
    let d = text::decimal(secs);
    text::lemma_decimal_reads_back(secs);
    text::lemma_decimal_parses(secs, u32::MAX as int);
    reveal_strlit("1");
    assert("1"@ =~= seq!['1']);
    assert(a[0] != '\n' && a[0] != '\r' && !text::is_space(a[0]));
    assert(!d.contains('\n')) by {
        if d.contains('\n') {
            let k = choose|k: int| 0 <= k < d.len() && d[k] == '\n';
            assert(text::is_digit(d[k]));
        }
    }
    assert(text::is_digit(d[0]) && text::is_digit(d[d.len() - 1]));
    text::lemma_one_line(a);
    text::lemma_one_line(d);
    text::lemma_lines_concat(a + seq!['\n'], d + seq!['\n']);
    assert((a + seq!['\n']) + (d + seq!['\n']) =~= publish::clipclear_body(on, secs));
    let ls = text::lines(publish::clipclear_body(on, secs));
    assert(ls[0] == a && ls[1] == d);
    text::lemma_trimmed_is(a);
    text::lemma_trimmed_is(d);
}

} // verus!
