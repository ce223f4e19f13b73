//! The privileged helper's command line, and the environment it forwards.

use vstd::prelude::*;

use crate::crypt::Backend;
use crate::names;
use crate::pairs::pair_texts;
use crate::text;

verus! {

/// What the command line asks for.
pub struct Args {
    /// Bring up the shared compositor instead of opening a volume.
    pub spawn_compositor: bool,
    /// Bring up a session without a volume.
    pub empty_session: bool,
    pub source: Option<String>,
    /// None: find out.
    pub backend: Option<Backend>,
    pub session: Option<String>,
    /// Close this one volume of a running session.
    pub close_volume: Option<String>,
    /// The directory that the session shares with the host.
    pub exchange: Option<String>,
    /// `KEY=VALUE` pairs of the caller.
    pub setenv: Vec<String>,
    /// The arguments of the continuation.
    pub rest: Vec<String>,
    /// How often the passphrase is to be read from standard input; the last
    /// reading is the one that counts.
    pub passphrase_reads: u64,
    pub passphrase: Option<Vec<u8>>,
}

/// The command line that `Args` stands for.
pub ghost struct Request {
    pub spawn_compositor: bool,
    pub empty_session: bool,
    pub source: Option<Seq<char>>,
    pub backend: Option<Backend>,
    pub session: Option<Seq<char>>,
    pub close_volume: Option<Seq<char>>,
    pub exchange: Option<Seq<char>>,
    pub setenv: Seq<Seq<char>>,
    pub rest: Seq<Seq<char>>,
    pub passphrase_reads: nat,
}

impl View for Args {
    type V = Request;

    open spec fn view(&self) -> Request {
        Request {
            spawn_compositor: self.spawn_compositor,
            empty_session: self.empty_session,
            source: text::opt(self.source),
            backend: self.backend,
            session: text::opt(self.session),
            close_volume: text::opt(self.close_volume),
            exchange: text::opt(self.exchange),
            setenv: text::texts(self.setenv@),
            rest: text::texts(self.rest@),
            passphrase_reads: self.passphrase_reads as nat,
        }
    }
}

/// Why a command line is refused.
pub enum ArgsError {
    UnknownBackend(String),
    Unexpected(String),
}

/// The refusal that an `ArgsError` stands for.
pub ghost enum Refusal {
    UnknownBackend(Seq<char>),
    Unexpected(Seq<char>),
}

pub open spec fn refusal(e: ArgsError) -> Refusal {
    match e {
        ArgsError::UnknownBackend(s) => Refusal::UnknownBackend(s@),
        ArgsError::Unexpected(s) => Refusal::Unexpected(s@),
    }
}

/// A command line that asks for nothing.
pub open spec fn empty_request() -> Request {
    Request {
        spawn_compositor: false,
        empty_session: false,
        source: None,
        backend: None,
        session: None,
        close_volume: None,
        exchange: None,
        setenv: seq![],
        rest: seq![],
        passphrase_reads: 0,
    }
}

/// The argument after the first, if there is one.
pub open spec fn second(argv: Seq<Seq<char>>) -> Option<Seq<char>> {
    if argv.len() > 1 { Some(argv[1]) } else { None }
}

/// `argv` without its first argument and the value behind it.
pub open spec fn behind_value(argv: Seq<Seq<char>>) -> Seq<Seq<char>> {
    if argv.len() > 1 { argv.skip(2) } else { argv.skip(1) }
}

/// The command line `argv`, read on from `r`. A flag with a value takes the next
/// argument, whatever it is; a flag given twice counts as given last; everything
/// behind `--` is the continuation's.
pub open spec fn read(argv: Seq<Seq<char>>, r: Request) -> Result<Request, Refusal>
    decreases argv.len(),
{
    if argv.len() == 0 {
        Ok(r)
    } else {
        let a = argv[0];
        let v = second(argv);
        let flag = argv.skip(1);
        let value = behind_value(argv);
        if a == "--spawn-compositor"@ {
            read(flag, Request { spawn_compositor: true, ..r })
        } else if a == "--empty-session"@ {
            read(flag, Request { empty_session: true, ..r })
        } else if a == "--passphrase-stdin"@ {
            read(flag, Request { passphrase_reads: r.passphrase_reads + 1, ..r })
        } else if a == "--source"@ {
            read(value, Request { source: v, ..r })
        } else if a == "--backend"@ {
            match v {
                None => read(value, Request { backend: None, ..r }),
                Some(b) => if b == "auto"@ {
                    read(value, Request { backend: None, ..r })
                } else {
                    match crate::crypt::backend_named(b) {
                        Some(k) => read(value, Request { backend: Some(k), ..r }),
                        None => Err(Refusal::UnknownBackend(b)),
                    }
                },
            }
        } else if a == "--session"@ {
            read(value, Request { session: v, ..r })
        } else if a == "--close-volume"@ {
            read(value, Request { close_volume: v, ..r })
        } else if a == "--exchange"@ {
            read(value, Request { exchange: v, ..r })
        } else if a == "--setenv"@ {
            match v {
                Some(kv) => read(value, Request { setenv: r.setenv.push(kv), ..r }),
                None => read(value, r),
            }
        } else if a == "--"@ {
            Ok(Request { rest: r.rest + flag, ..r })
        } else {
            Err(Refusal::Unexpected(a))
        }
    }
}

/// The value behind the flag at `i`, and the place behind it.
fn value_at(argv: &Vec<String>, i: usize) -> (r: (Option<String>, usize))
    requires
        i < argv@.len(),
    ensures
        text::opt(r.0) == second(text::texts(argv@).skip(i as int)),
        i < r.1 <= argv@.len(),
        text::texts(argv@).skip(r.1 as int) == behind_value(text::texts(argv@).skip(i as int)),
{
    let ghost t = text::texts(argv@).skip(i as int);
    if argv.len() - i > 1 {
        let s = argv[i + 1].clone();
        assert(t[1] == s@);
        assert(t.skip(2) =~= text::texts(argv@).skip(i + 2));
        (Some(s), i + 2)
    } else {
        assert(t.skip(1) =~= text::texts(argv@).skip(i + 1));
        (None, i + 1)
    }
}

/// Reads the command line without the program's own name.
pub fn parse_args(argv: &Vec<String>) -> (r: Result<Args, ArgsError>)
    ensures
        r matches Ok(a) ==> read(text::texts(argv@), empty_request()) == Ok::<_, Refusal>(a@)
            && a.passphrase is None,
        r matches Err(e) ==> read(text::texts(argv@), empty_request()) == Err::<Request, _>(refusal(e)),
{
    let mut a = Args {
        spawn_compositor: false,
        empty_session: false,
        source: None,
        backend: None,
        session: None,
        close_volume: None,
        exchange: None,
        setenv: Vec::new(),
        rest: Vec::new(),
        passphrase_reads: 0,
        passphrase: None,
    };
    let mut i: usize = 0;
    let ghost t = text::texts(argv@);
    proof {
        assert(t.skip(0) =~= t);
        assert(text::texts(a.setenv@) =~= seq![]);
        assert(text::texts(a.rest@) =~= seq![]);
        assert(a@ == empty_request());
    }
    while i < argv.len()
        invariant
            i <= argv@.len(),
            t == text::texts(argv@),
            a.passphrase is None,
            a.rest@.len() == 0,
            a.passphrase_reads <= i,
            read(t.skip(i as int), a@) == read(t, empty_request()),
        decreases argv@.len() - i,
    {
        let arg = argv[i].as_str();
        let ghost tail = t.skip(i as int);
        let ghost before = a@;
        proof {
            assert(tail[0] == arg@);
            assert(tail.skip(1) =~= t.skip(i + 1));
        }
        if text::same(arg, "--spawn-compositor") {
            a.spawn_compositor = true;
            i = i + 1;
        } else if text::same(arg, "--empty-session") {
            a.empty_session = true;
            i = i + 1;
        } else if text::same(arg, "--passphrase-stdin") {
            a.passphrase_reads = a.passphrase_reads + 1;
            i = i + 1;
        } else if text::same(arg, "--source") {
            let (v, next) = value_at(argv, i);
            a.source = v;
            i = next;
        } else if text::same(arg, "--backend") {
            let (v, next) = value_at(argv, i);
            a.backend = match v {
                None => None,
                Some(b) => {
                    if text::same(b.as_str(), "auto") {
                        None
                    } else {
                        match Backend::parse(b.as_str()) {
                            Some(k) => Some(k),
                            None => {
                                return Err(ArgsError::UnknownBackend(b));
                            },
                        }
                    }
                },
            };
            i = next;
        } else if text::same(arg, "--session") {
            let (v, next) = value_at(argv, i);
            a.session = v;
            i = next;
        } else if text::same(arg, "--close-volume") {
            let (v, next) = value_at(argv, i);
            a.close_volume = v;
            i = next;
        } else if text::same(arg, "--exchange") {
            let (v, next) = value_at(argv, i);
            a.exchange = v;
            i = next;
        } else if text::same(arg, "--setenv") {
            let (v, next) = value_at(argv, i);
            if let Some(kv) = v {
                a.setenv.push(kv);
                assert(text::texts(a.setenv@) =~= before.setenv.push(kv@));
            }
            i = next;
        } else if text::same(arg, "--") {
            let mut j: usize = i + 1;
            while j < argv.len()
                invariant
                    i < j <= argv@.len(),
                    t == text::texts(argv@),
                    a@ == (Request { rest: a@.rest, ..before }),
                    a@.rest =~= t.subrange(i + 1, j as int),
                    a.passphrase is None,
                decreases argv@.len() - j,
            {
                let s = argv[j].clone();
                a.rest.push(s);
                assert(text::texts(a.rest@) =~= t.subrange(i + 1, j as int).push(s@));
                assert(text::texts(a.rest@) =~= t.subrange(i + 1, j + 1));
                j = j + 1;
            }
            proof {
                assert(before.rest =~= seq![]);
                assert(a@.rest =~= before.rest + tail.skip(1));
            }
            return Ok(a);
        } else {
            return Err(ArgsError::Unexpected(argv[i].clone()));
        }
    }
    assert(t.skip(i as int) =~= seq![]);
    Ok(a)
}

/// A passphrase without the line endings behind it.
pub open spec fn without_line_end(b: Seq<u8>) -> Seq<u8>
    decreases b.len(),
{
    if b.len() > 0 && (b.last() == 10 || b.last() == 13) { without_line_end(b.drop_last()) } else { b }
}

/// Takes the line endings off a passphrase read from standard input.
pub fn strip_line_end(buf: &mut Vec<u8>)
    ensures
        final(buf)@ == without_line_end(old(buf)@),
{
    while buf.len() > 0 && (buf[buf.len() - 1] == 10 || buf[buf.len() - 1] == 13)
        invariant
            without_line_end(buf@) == without_line_end(old(buf)@),
        decreases buf@.len(),
    {
        let ghost b = buf@;
        buf.pop();
        assert(buf@ =~= b.drop_last());
    }
}

// ------------------------------------------------------------- environment ---

/// The value that the first pair of `kvs` gives `key`.
pub open spec fn value_of(kvs: Seq<Seq<char>>, key: Seq<char>) -> Option<Seq<char>>
    decreases kvs.len(),
{
    if kvs.len() == 0 {
        None
    } else {
        match text::split_once(kvs[0], '=') {
            Some(kv) => if kv.0 == key { Some(kv.1) } else { value_of(kvs.skip(1), key) },
            None => value_of(kvs.skip(1), key),
        }
    }
}

/// The forwarded value of `key`.
pub fn setenv_value(setenv: &Vec<String>, key: &str) -> (r: Option<String>)
    ensures
        text::opt(r) == value_of(text::texts(setenv@), key@),
{
    let mut i: usize = 0;
    let ghost t = text::texts(setenv@);
    assert(t.skip(0) =~= t);
    while i < setenv.len()
        invariant
            i <= setenv@.len(),
            t == text::texts(setenv@),
            value_of(t.skip(i as int), key@) == value_of(t, key@),
        decreases setenv@.len() - i,
    {
        assert(t.skip(i as int)[0] == setenv@[i as int]@);
        assert(t.skip(i as int).skip(1) =~= t.skip(i + 1));
        if let Some((k, v)) = text::cut(setenv[i].as_str(), '=') {
            if text::same(k.as_str(), key) {
                return Some(v);
            }
        }
        i = i + 1;
    }
    None
}

/// The variables that a caller may hand to the continuation.
pub open spec fn is_allowed(key: Seq<char>) -> bool {
    ||| key == "WAYLAND_DISPLAY"@
    ||| key == "XDG_RUNTIME_DIR"@
    ||| key == "XDG_SESSION_TYPE"@
    ||| key == "DISPLAY"@
    ||| key == "LANG"@
    ||| key == "XCURSOR_THEME"@
    ||| key == "XCURSOR_SIZE"@
    ||| key == "VERACAGE_THEME"@
    ||| key == "VERACAGE_FONT_FILE"@
    ||| key == "VERACAGE_FONT_SIZE"@
    ||| key == "VERACAGE_WINDOW_SIZE"@
    ||| key == "VERACAGE_DEBUG"@
    ||| key == "VERACAGE_LOG_DIR"@
}

/// `is_allowed`, computed.
pub fn setenv_allowed(key: &str) -> (r: bool)
    ensures
        r == is_allowed(key@),
{
    text::same(key, "WAYLAND_DISPLAY") || text::same(key, "XDG_RUNTIME_DIR") || text::same(
        key,
        "XDG_SESSION_TYPE",
    ) || text::same(key, "DISPLAY") || text::same(key, "LANG") || text::same(key, "XCURSOR_THEME")
        || text::same(key, "XCURSOR_SIZE") || text::same(key, "VERACAGE_THEME") || text::same(
        key,
        "VERACAGE_FONT_FILE",
    ) || text::same(key, "VERACAGE_FONT_SIZE") || text::same(key, "VERACAGE_WINDOW_SIZE")
        || text::same(key, "VERACAGE_DEBUG") || text::same(key, "VERACAGE_LOG_DIR")
}

/// The pairs of `kvs` that are forwarded, in order.
pub open spec fn forwarded(kvs: Seq<Seq<char>>) -> Seq<(Seq<char>, Seq<char>)>
    decreases kvs.len(),
{
    if kvs.len() == 0 {
        seq![]
    } else {
        let h = forwarded(kvs.drop_last());
        match text::split_once(kvs.last(), '=') {
            Some(kv) => if is_allowed(kv.0) { h.push(kv) } else { h },
            None => h,
        }
    }
}

/// The pairs of the caller's environment that are forwarded.
pub fn forwarded_env(setenv: &Vec<String>) -> (r: Vec<(String, String)>)
    ensures
        pair_texts(r@) == forwarded(text::texts(setenv@)),
{
    let mut out: Vec<(String, String)> = Vec::new();
    let mut i: usize = 0;
    let ghost t = text::texts(setenv@);
    assert(pair_texts(out@) =~= forwarded(t.take(0)));
    while i < setenv.len()
        invariant
            i <= setenv@.len(),
            t == text::texts(setenv@),
            pair_texts(out@) == forwarded(t.take(i as int)),
        decreases setenv@.len() - i,
    {
        let ghost before = pair_texts(out@);
        assert(t.take(i + 1).drop_last() =~= t.take(i as int));
        assert(t.take(i + 1).last() == setenv@[i as int]@);
        if let Some((k, v)) = text::cut(setenv[i].as_str(), '=') {
            if setenv_allowed(k.as_str()) {
                out.push((k, v));
                assert(pair_texts(out@) =~= before.push((k@, v@)));
            }
        }
        i = i + 1;
    }
    assert(t.take(i as int) =~= t);
    out
}

/// Nothing but the allowed variables is ever forwarded.
pub proof fn law_only_allowed_variables_are_forwarded(kvs: Seq<Seq<char>>)
    ensures
        forall|i: int| 0 <= i < forwarded(kvs).len() ==> is_allowed((#[trigger] forwarded(kvs)[i]).0),
    decreases kvs.len(),
{
    if kvs.len() > 0 {
        law_only_allowed_variables_are_forwarded(kvs.drop_last());
        let h = forwarded(kvs.drop_last());
        assert forall|i: int| 0 <= i < forwarded(kvs).len() implies is_allowed(
            (#[trigger] forwarded(kvs)[i]).0,
        ) by {
            if i < h.len() {
                assert(forwarded(kvs)[i] == h[i]);
            }
        }
    }
}

/// The runtime directory of a user.
pub open spec fn runtime_dir(uid: nat) -> Seq<char> {
    "/run/user/"@ + text::decimal(uid)
}

/// Is the forwarded runtime directory the user's own, where there is one?
pub open spec fn runtime_ok(kvs: Seq<Seq<char>>, uid: nat) -> bool {
    match value_of(kvs, "XDG_RUNTIME_DIR"@) {
        Some(d) => d == runtime_dir(uid),
        None => true,
    }
}

/// Only the caller's own runtime directory is accepted, and none is too.
pub proof fn law_only_the_callers_runtime_directory_is_accepted(
    before: Seq<Seq<char>>,
    d: Seq<char>,
    behind: Seq<Seq<char>>,
    uid: nat,
)
    requires
        forall|i: int, v: Seq<char>|
            0 <= i < before.len() ==> #[trigger] before[i] != #[trigger] ("XDG_RUNTIME_DIR"@ + seq!['='] + v),
    ensures
        runtime_ok(before + seq!["XDG_RUNTIME_DIR"@ + seq!['='] + d] + behind, uid) <==> d == "/run/user/"@
            + text::decimal(uid),
        runtime_ok(before, uid),
{
    reveal_strlit("XDG_RUNTIME_DIR");
    assert(!"XDG_RUNTIME_DIR"@.contains('='));
    law_the_first_pair_of_a_name_counts(before, "XDG_RUNTIME_DIR"@, d, behind);
}

/// A forwarded runtime directory is accepted only where it is the caller's own.
pub fn runtime_dir_ok(setenv: &Vec<String>, human_uid: u32) -> (r: bool)
    ensures
        r == runtime_ok(text::texts(setenv@), human_uid as nat),
        r == match value_of(text::texts(setenv@), "XDG_RUNTIME_DIR"@) {
            Some(d) => d == runtime_dir(human_uid as nat),
            None => true,
        },
{
    match setenv_value(setenv, "XDG_RUNTIME_DIR") {
        Some(d) => {
            let mut want = String::new();
            want.append("/run/user/");
            let n = text::decimal_of(human_uid as u64);
            want.append(n.as_str());
            assert(want@ =~= runtime_dir(human_uid as nat));
            text::same(d.as_str(), want.as_str())
        },
        None => true,
    }
}

/// Where the host's display is to be reached.
pub enum DisplayError {
    NoRuntimeDir,
    NoDisplay,
    /// The display is a path and not a name in the runtime directory.
    NotAName,
}

/// The socket of the host's display: a bare name, under the runtime directory.
pub fn host_display(setenv: &Vec<String>) -> (r: Result<String, DisplayError>)
    ensures
        ({
            let rt = value_of(text::texts(setenv@), "XDG_RUNTIME_DIR"@);
            let disp = value_of(text::texts(setenv@), "WAYLAND_DISPLAY"@);
            match r {
                Ok(p) => rt is Some && disp is Some && !disp->0.contains('/') && p@
                    == names::path_join(rt->0, disp->0),
                Err(DisplayError::NoRuntimeDir) => rt is None,
                Err(DisplayError::NoDisplay) => rt is Some && disp is None,
                Err(DisplayError::NotAName) => rt is Some && disp is Some && disp->0.contains('/'),
            }
        }),
{
    let rt = match setenv_value(setenv, "XDG_RUNTIME_DIR") {
        Some(d) => d,
        None => {
            return Err(DisplayError::NoRuntimeDir);
        },
    };
    let disp = match setenv_value(setenv, "WAYLAND_DISPLAY") {
        Some(d) => d,
        None => {
            return Err(DisplayError::NoDisplay);
        },
    };
    if text::has_char(disp.as_str(), '/') {
        return Err(DisplayError::NotAName);
    }
    Ok(names::join_path(rt.as_str(), disp.as_str()))
}

// ------------------------------------------------------------ continuation ---

/// The continuation may be started as one of its two internal commands only.
pub fn check_continuation_argv(rest: &Vec<String>) -> (r: bool)
    ensures
        r == (rest@.len() > 0 && (rest@[0]@ == "_leader"@ || rest@[0]@ == "_compositor"@)),
{
    rest.len() > 0 && (text::same(rest[0].as_str(), "_leader") || text::same(
        rest[0].as_str(),
        "_compositor",
    ))
}

/// The argument behind the first `flag`.
pub open spec fn value_behind(rest: Seq<Seq<char>>, flag: Seq<char>) -> Option<Seq<char>>
    decreases rest.len(),
{
    if rest.len() == 0 {
        None
    } else if rest[0] == flag {
        second(rest)
    } else {
        value_behind(rest.skip(1), flag)
    }
}

/// The value that follows `flag` among the continuation's arguments.
pub fn rest_value<'a>(rest: &'a Vec<String>, flag: &str) -> (r: Option<&'a str>)
    ensures
        r is Some <==> value_behind(text::texts(rest@), flag@) is Some,
        r matches Some(s) ==> value_behind(text::texts(rest@), flag@) == Some(s@),
{
    let mut i: usize = 0;
    let ghost t = text::texts(rest@);
    assert(t.skip(0) =~= t);
    while i < rest.len()
        invariant
            i <= rest@.len(),
            t == text::texts(rest@),
            value_behind(t.skip(i as int), flag@) == value_behind(t, flag@),
        decreases rest@.len() - i,
    {
        assert(t.skip(i as int)[0] == rest@[i as int]@);
        assert(t.skip(i as int).skip(1) =~= t.skip(i + 1));
        if text::same(rest[i].as_str(), flag) {
            if i + 1 < rest.len() {
                assert(t.skip(i as int)[1] == rest@[i + 1]@);
                return Some(rest[i + 1].as_str());
            }
            return None;
        }
        i = i + 1;
    }
    None
}

/// The leader's arguments: the caller's, and where the volume is mounted.
pub fn leader_argv(rest: &Vec<String>, mountpoint: &str) -> (r: Vec<String>)
    ensures
        text::texts(r@) == text::texts(rest@) + seq!["--mountpoint"@, mountpoint@],
{
    let mut out: Vec<String> = Vec::new();
    let mut i: usize = 0;
    while i < rest.len()
        invariant
            i <= rest@.len(),
            text::texts(out@) == text::texts(rest@).take(i as int),
        decreases rest@.len() - i,
    {
        let ghost before = text::texts(out@);
        let s = rest[i].clone();
        out.push(s);
        assert(text::texts(out@) =~= before.push(s@));
        i = i + 1;
        assert(text::texts(out@) =~= text::texts(rest@).take(i as int));
    }
    let ghost before = text::texts(out@);
    out.push("--mountpoint".to_owned());
    out.push(mountpoint.to_owned());
    assert(text::texts(out@) =~= before.push("--mountpoint"@).push(mountpoint@));
    assert(text::texts(out@) =~= text::texts(rest@) + seq!["--mountpoint"@, mountpoint@]);
    out
}

/// An auto-launch request longer than this is not passed on.
pub const MAX_LAUNCH_SPEC: usize = 4096;

/// The application that the arguments ask to launch.
pub open spec fn launch_of(rest: Seq<Seq<char>>) -> Option<Seq<char>> {
    match value_behind(rest, "--first"@) {
        Some(s) => if vstd::utf8::encode_utf8(s).len() <= MAX_LAUNCH_SPEC { Some(s) } else { None },
        None => None,
    }
}

/// The application that is asked for first is passed on as it is, unless it is too long.
pub proof fn law_the_first_application_is_passed_on(before: Seq<Seq<char>>, s: Seq<char>, behind: Seq<Seq<char>>)
    requires
        !before.contains("--first"@),
    ensures
        vstd::utf8::encode_utf8(s).len() <= 4096 ==> launch_of(before + seq!["--first"@, s] + behind) == Some(s),
        vstd::utf8::encode_utf8(s).len() > 4096 ==> launch_of(before + seq!["--first"@, s] + behind) is None,
        launch_of(before) is None,
{
    law_a_flag_has_the_value_behind_it(before, "--first"@, s, behind);
}

/// The application that a volume joining a session launches, if any.
pub fn launch_request(rest: &Vec<String>) -> (r: Option<String>)
    ensures
        text::opt(r) == launch_of(text::texts(rest@)),
        text::opt(r) == match value_behind(text::texts(rest@), "--first"@) {
            Some(s) => if vstd::utf8::encode_utf8(s).len() <= MAX_LAUNCH_SPEC { Some(s) } else { None },
            None => None,
        },
{
    match rest_value(rest, "--first") {
        Some(s) => if s.as_bytes().len() <= MAX_LAUNCH_SPEC {
            Some(s.to_owned())
        } else {
            None
        },
        None => None,
    }
}

// ------------------------------------------------------------------- modes ---

/// What the helper is run for.
pub enum Mode {
    SpawnCompositor,
    CloseVolume(String),
    EmptySession,
    Open(String),
    /// No source was given to open.
    NoSource,
}

/// What the helper is run for, as values.
pub ghost enum Errand {
    SpawnCompositor,
    CloseVolume(Seq<char>),
    EmptySession,
    Open(Seq<char>),
    NoSource,
}

impl View for Mode {
    type V = Errand;

    open spec fn view(&self) -> Errand {
        match self {
            Mode::SpawnCompositor => Errand::SpawnCompositor,
            Mode::CloseVolume(l) => Errand::CloseVolume(l@),
            Mode::EmptySession => Errand::EmptySession,
            Mode::Open(s) => Errand::Open(s@),
            Mode::NoSource => Errand::NoSource,
        }
    }
}

/// The errand of a request.
pub open spec fn errand(r: Request) -> Errand {
    if r.spawn_compositor {
        Errand::SpawnCompositor
    } else if r.close_volume is Some {
        Errand::CloseVolume(r.close_volume->0)
    } else if r.empty_session {
        Errand::EmptySession
    } else if r.source is Some {
        Errand::Open(r.source->0)
    } else {
        Errand::NoSource
    }
}

/// A command line is run for what it asks for: a volume is opened from the source that is
/// named, the one that is named is closed, and without any of these nothing is done.
pub proof fn law_the_helper_does_what_it_is_asked(ws: Seq<Wish>, s: Seq<char>, rest: Seq<Seq<char>>)
    requires
        backends_known(ws),
        forall|i: int|
            0 <= i < ws.len() ==> {
                let w = #[trigger] ws[i];
                w is Session || w is Setenv || w is Backend || w is Exchange || w is Passphrase
            },
    ensures
        ({
            let tail = seq!["--"@] + rest;
            let open = read(written(ws.push(Wish::Source(s))) + tail, empty_request());
            let close = read(written(ws.push(Wish::CloseVolume(s))) + tail, empty_request());
            let empty = read(written(ws.push(Wish::EmptySession)) + tail, empty_request());
            let comp = read(written(ws.push(Wish::SpawnCompositor)) + tail, empty_request());
            let none = read(written(ws) + tail, empty_request());
            &&& open matches Ok(r) && errand(r) == Errand::Open(s)
            &&& close matches Ok(r) && errand(r) == Errand::CloseVolume(s)
            &&& empty matches Ok(r) && errand(r) == Errand::EmptySession
            &&& comp matches Ok(r) && errand(r) == Errand::SpawnCompositor
            &&& none matches Ok(r) && errand(r) == Errand::NoSource
        }),
{
    lemma_only(ws, Wish::Source(s), rest);
    lemma_only(ws, Wish::CloseVolume(s), rest);
    lemma_only(ws, Wish::EmptySession, rest);
    lemma_only(ws, Wish::SpawnCompositor, rest);
    law_a_command_line_is_read(ws, rest);
    let tail = seq!["--"@] + rest;
    assert(written(ws) + seq!["--"@] + rest =~= written(ws) + tail);
    let r = read(written(ws) + tail, empty_request())->Ok_0;
    assert(!ws.contains(Wish::SpawnCompositor));
    assert(!ws.contains(Wish::EmptySession));
}

proof fn lemma_only(ws: Seq<Wish>, w: Wish, rest: Seq<Seq<char>>)
    requires
        backends_known(ws),
        w is Source || w is CloseVolume || w is EmptySession || w is SpawnCompositor,
        forall|i: int|
            0 <= i < ws.len() ==> {
                let w = #[trigger] ws[i];
                w is Session || w is Setenv || w is Backend || w is Exchange || w is Passphrase
            },
    ensures
        read(written(ws.push(w)) + (seq!["--"@] + rest), empty_request()) matches Ok(r) && match w {
            Wish::Source(s) => errand(r) == Errand::Open(s),
            Wish::CloseVolume(s) => errand(r) == Errand::CloseVolume(s),
            Wish::EmptySession => errand(r) == Errand::EmptySession,
            _ => errand(r) == Errand::SpawnCompositor,
        },
{
    let all = ws.push(w);
    let n = ws.len() as int;
    assert forall|i: int| 0 <= i < all.len() implies (#[trigger] all[i] matches Wish::Backend(b) ==> b
        == "auto"@ || b == "luks"@ || b == "veracrypt"@) by {
        if i < n {
            assert(all[i] == ws[i]);
        }
    }
    law_a_command_line_is_read(all, rest);
    let tail = seq!["--"@] + rest;
    assert(written(all) + seq!["--"@] + rest =~= written(all) + tail);
    assert(is_last_word(all, n));
    assert(all[n] == w);
    assert(all.contains(w));
    let r = read(written(all) + tail, empty_request())->Ok_0;
    assert forall|x: Wish| all.contains(x) && x != w implies ws.contains(x) by {
        let k = choose|k: int| 0 <= k < all.len() && all[k] == x;
        assert(ws[k] == x);
    }
    if !(w is SpawnCompositor) {
        assert(!all.contains(Wish::SpawnCompositor));
    }
    if !(w is EmptySession) {
        assert(!all.contains(Wish::EmptySession));
    }
    if !(w is CloseVolume) {
        assert forall|i: int| 0 <= i < all.len() implies !(#[trigger] all[i] is CloseVolume) by {
            if i < n {
                assert(all[i] == ws[i]);
            }
        }
    }
    if !(w is Source) {
        assert forall|i: int| 0 <= i < all.len() implies !(#[trigger] all[i] is Source) by {
            if i < n {
                assert(all[i] == ws[i]);
            }
        }
    }
}

/// The compositor goes before a close, a close before an empty session, and an
/// empty session before opening a volume.
pub fn mode(args: &Args) -> (r: Mode)
    ensures
        r@ == errand(args@),
        match r {
            Mode::SpawnCompositor => args.spawn_compositor,
            Mode::CloseVolume(l) => !args.spawn_compositor && text::opt(args.close_volume) == Some(l@),
            Mode::EmptySession => !args.spawn_compositor && args.close_volume is None
                && args.empty_session,
            Mode::Open(s) => !args.spawn_compositor && args.close_volume is None
                && !args.empty_session && text::opt(args.source) == Some(s@),
            Mode::NoSource => !args.spawn_compositor && args.close_volume is None
                && !args.empty_session && args.source is None,
        },
{
    if args.spawn_compositor {
        return Mode::SpawnCompositor;
    }
    if let Some(l) = &args.close_volume {
        return Mode::CloseVolume(l.clone());
    }
    if args.empty_session {
        return Mode::EmptySession;
    }
    match &args.source {
        Some(s) => Mode::Open(s.clone()),
        None => Mode::NoSource,
    }
}

/// Why there is no session to work on.
pub enum SessionError {
    Missing,
    Invalid,
    Foreign,
}

/// The caller's session: its id is given, and is the caller's own uid.
pub fn session_of(args: &Args, human_uid: u32) -> (r: Result<String, SessionError>)
    ensures
        match r {
            Ok(s) => text::opt(args.session) == Some(s@) && s@ == text::decimal(human_uid as nat),
            Err(SessionError::Missing) => args.session is None,
            Err(SessionError::Invalid) => args.session is Some && !names::is_session_id(args.session->0@),
            Err(SessionError::Foreign) => args.session is Some && names::is_session_id(args.session->0@)
                && args.session->0@ != text::decimal(human_uid as nat),
        },
{
    match &args.session {
        None => Err(SessionError::Missing),
        Some(s) => match names::check_session_caller(s.as_str(), human_uid) {
            Ok(()) => Ok(s.clone()),
            Err(names::SessionRefusal::Invalid) => Err(SessionError::Invalid),
            Err(names::SessionRefusal::Foreign) => Err(SessionError::Foreign),
        },
    }
}

// -------------------------------------------------------------------- laws ---

/// One thing that a command line asks for.
pub ghost enum Wish {
    SpawnCompositor,
    EmptySession,
    Passphrase,
    Source(Seq<char>),
    Backend(Seq<char>),
    Session(Seq<char>),
    CloseVolume(Seq<char>),
    Exchange(Seq<char>),
    Setenv(Seq<char>),
}

/// How a wish is written.
pub open spec fn words_for(w: Wish) -> Seq<Seq<char>> {
    match w {
        Wish::SpawnCompositor => seq!["--spawn-compositor"@],
        Wish::EmptySession => seq!["--empty-session"@],
        Wish::Passphrase => seq!["--passphrase-stdin"@],
        Wish::Source(v) => seq!["--source"@, v],
        Wish::Backend(v) => seq!["--backend"@, v],
        Wish::Session(v) => seq!["--session"@, v],
        Wish::CloseVolume(v) => seq!["--close-volume"@, v],
        Wish::Exchange(v) => seq!["--exchange"@, v],
        Wish::Setenv(v) => seq!["--setenv"@, v],
    }
}

/// A command line that asks for all of `ws`, in order.
pub open spec fn written(ws: Seq<Wish>) -> Seq<Seq<char>>
    decreases ws.len(),
{
    if ws.len() == 0 {
        seq![]
    } else {
        written(ws.drop_last()) + words_for(ws.last())
    }
}

/// The variables that are handed over, in order.
pub open spec fn handed_over(ws: Seq<Wish>) -> Seq<Seq<char>>
    decreases ws.len(),
{
    if ws.len() == 0 {
        seq![]
    } else {
        match ws.last() {
            Wish::Setenv(v) => handed_over(ws.drop_last()).push(v),
            _ => handed_over(ws.drop_last()),
        }
    }
}

/// How often the passphrase is asked for.
pub open spec fn readings(ws: Seq<Wish>) -> nat
    decreases ws.len(),
{
    if ws.len() == 0 {
        0
    } else {
        readings(ws.drop_last()) + if ws.last() is Passphrase { 1nat } else { 0nat }
    }
}

/// Does nothing behind `i` ask for the same thing again?
pub open spec fn is_last_word(ws: Seq<Wish>, i: int) -> bool {
    &&& 0 <= i < ws.len()
    &&& forall|j: int| i < j < ws.len() ==> !same_thing(ws[i], #[trigger] ws[j])
}

/// Are the two values for one thing?
pub open spec fn same_thing(a: Wish, b: Wish) -> bool {
    ||| a is Source && b is Source
    ||| a is Backend && b is Backend
    ||| a is Session && b is Session
    ||| a is CloseVolume && b is CloseVolume
    ||| a is Exchange && b is Exchange
}

/// Is every backend that is asked for one that there is?
pub open spec fn backends_known(ws: Seq<Wish>) -> bool {
    forall|i: int|
        0 <= i < ws.len() ==> (#[trigger] ws[i] matches Wish::Backend(b) ==> b == "auto"@ || b
            == "luks"@ || b == "veracrypt"@)
}

/// Does the request hold what `ws` ask for, with `rest` for the continuation? Every
/// variable counts, in order; of two values for one thing the later one counts.
pub open spec fn fulfils(r: Request, ws: Seq<Wish>, rest: Seq<Seq<char>>) -> bool {
    &&& r.rest == rest
    &&& r.setenv == handed_over(ws)
    &&& r.passphrase_reads == readings(ws)
    &&& r.spawn_compositor <==> ws.contains(Wish::SpawnCompositor)
    &&& r.empty_session <==> ws.contains(Wish::EmptySession)
    &&& forall|i: int| #[trigger]
        is_last_word(ws, i) ==> match ws[i] {
            Wish::Source(v) => r.source == Some(v),
            Wish::Session(v) => r.session == Some(v),
            Wish::CloseVolume(v) => r.close_volume == Some(v),
            Wish::Exchange(v) => r.exchange == Some(v),
            Wish::Backend(v) => (v == "auto"@ ==> r.backend is None) && (v == "luks"@ ==> r.backend
                == Some(Backend::Luks)) && (v == "veracrypt"@ ==> r.backend == Some(
                Backend::Veracrypt,
            )),
            _ => true,
        }
    &&& (forall|i: int| 0 <= i < ws.len() ==> !(#[trigger] ws[i] is Source)) ==> r.source is None
    &&& (forall|i: int| 0 <= i < ws.len() ==> !(#[trigger] ws[i] is Session)) ==> r.session is None
    &&& (forall|i: int| 0 <= i < ws.len() ==> !(#[trigger] ws[i] is CloseVolume)) ==> r.close_volume is None
    &&& (forall|i: int| 0 <= i < ws.len() ==> !(#[trigger] ws[i] is Exchange)) ==> r.exchange is None
    &&& (forall|i: int| 0 <= i < ws.len() ==> !(#[trigger] ws[i] is Backend)) ==> r.backend is None
}

proof fn lemma_flags_differ()
    ensures
        "--spawn-compositor"@.len() == 18,
        "--empty-session"@.len() == 15,
        "--passphrase-stdin"@.len() == 18,
        "--passphrase-stdin"@[2] == 'p',
        "--spawn-compositor"@[2] == 's',
        "--source"@.len() == 8,
        "--backend"@.len() == 9,
        "--session"@.len() == 9,
        "--session"@[2] == 's',
        "--backend"@[2] == 'b',
        "--close-volume"@.len() == 14,
        "--exchange"@.len() == 10,
        "--setenv"@.len() == 8,
        "--source"@[3] == 'o',
        "--setenv"@[3] == 'e',
        "--"@.len() == 2,
        "auto"@.len() == 4,
        "auto"@[0] == 'a',
        "luks"@.len() == 4,
        "luks"@[0] == 'l',
        "veracrypt"@.len() == 9,
{
    reveal_strlit("--spawn-compositor");
    reveal_strlit("--empty-session");
    reveal_strlit("--passphrase-stdin");
    reveal_strlit("--source");
    reveal_strlit("--backend");
    reveal_strlit("--session");
    reveal_strlit("--close-volume");
    reveal_strlit("--exchange");
    reveal_strlit("--setenv");
    reveal_strlit("--");
    reveal_strlit("auto");
    reveal_strlit("luks");
    reveal_strlit("veracrypt");
}

/// The request after one more wish.
spec fn wished(r: Request, w: Wish) -> Request {
    match w {
        Wish::SpawnCompositor => Request { spawn_compositor: true, ..r },
        Wish::EmptySession => Request { empty_session: true, ..r },
        Wish::Passphrase => Request { passphrase_reads: r.passphrase_reads + 1, ..r },
        Wish::Source(v) => Request { source: Some(v), ..r },
        Wish::Backend(v) => Request { backend: crate::crypt::backend_named(v), ..r },
        Wish::Session(v) => Request { session: Some(v), ..r },
        Wish::CloseVolume(v) => Request { close_volume: Some(v), ..r },
        Wish::Exchange(v) => Request { exchange: Some(v), ..r },
        Wish::Setenv(v) => Request { setenv: r.setenv.push(v), ..r },
    }
}

spec fn all_wished(ws: Seq<Wish>) -> Request
    decreases ws.len(),
{
    if ws.len() == 0 {
        empty_request()
    } else {
        wished(all_wished(ws.drop_last()), ws.last())
    }
}

#[verifier::spinoff_prover]
#[verifier::rlimit(50)]
proof fn lemma_one_wish(w: Wish, tail: Seq<Seq<char>>, r: Request)
    requires
        w matches Wish::Backend(b) ==> b == "auto"@ || b == "luks"@ || b == "veracrypt"@,
    ensures
        read(words_for(w) + tail, r) == read(tail, wished(r, w)),
{
    lemma_flags_differ();
    let argv = words_for(w) + tail;
    assert(argv[0] == words_for(w)[0]);
    if words_for(w).len() == 2 {
        assert(argv[1] == words_for(w)[1]);
        assert(argv.skip(2) =~= tail);
        assert(second(argv) == Some(words_for(w)[1]));
        assert(behind_value(argv) == tail);
    } else {
        assert(argv.skip(1) =~= tail);
    }
    match w {
        Wish::SpawnCompositor => {
            assert(read(argv, r) == read(tail, wished(r, w)));
        },
        Wish::EmptySession => {
            assert(read(argv, r) == read(tail, wished(r, w)));
        },
        Wish::Passphrase => {
            assert(read(argv, r) == read(tail, wished(r, w)));
        },
        Wish::Source(v) => {
            assert(read(argv, r) == read(tail, wished(r, w)));
        },
        Wish::Session(v) => {
            assert(read(argv, r) == read(tail, wished(r, w)));
        },
        Wish::CloseVolume(v) => {
            assert(read(argv, r) == read(tail, wished(r, w)));
        },
        Wish::Exchange(v) => {
            assert(read(argv, r) == read(tail, wished(r, w)));
        },
        Wish::Setenv(v) => {
            assert(read(argv, r) == read(tail, wished(r, w)));
        },
        Wish::Backend(v) => {
            if v == "auto"@ {
                assert(crate::crypt::backend_named(v) is None);
            }
            assert(read(argv, r) == read(tail, wished(r, w)));
        },
    }
}

proof fn lemma_wishes_are_read(ws: Seq<Wish>, tail: Seq<Seq<char>>)
    requires
        backends_known(ws),
    ensures
        read(written(ws) + tail, empty_request()) == read(tail, all_wished(ws)),
    decreases ws.len(),
{
    if ws.len() == 0 {
        assert(written(ws) + tail =~= tail);
    } else {
        let d = ws.drop_last();
        assert forall|i: int| 0 <= i < d.len() implies (#[trigger] d[i] matches Wish::Backend(b) ==> b
            == "auto"@ || b == "luks"@ || b == "veracrypt"@) by {
            assert(d[i] == ws[i]);
        }
        assert(ws[ws.len() - 1] == ws.last());
        let t = words_for(ws.last()) + tail;
        assert(written(ws) + tail =~= written(d) + t);
        lemma_wishes_are_read(d, t);
        lemma_one_wish(ws.last(), tail, all_wished(d));
    }
}

#[verifier::rlimit(60)]
proof fn lemma_wishes_are_fulfilled(ws: Seq<Wish>)
    requires
        backends_known(ws),
    ensures
        fulfils(all_wished(ws), ws, seq![]),
    decreases ws.len(),
{
    lemma_flags_differ();
    let r = all_wished(ws);
    if ws.len() > 0 {
        let d = ws.drop_last();
        let n = ws.len() - 1;
        let w = ws.last();
        assert forall|i: int| 0 <= i < d.len() implies (#[trigger] d[i] matches Wish::Backend(b) ==> b
            == "auto"@ || b == "luks"@ || b == "veracrypt"@) by {
            assert(d[i] == ws[i]);
        }
        lemma_wishes_are_fulfilled(d);
        let b = all_wished(d);
        assert(ws[n] == w);
        assert forall|x: Wish| ws.contains(x) == (d.contains(x) || x == w) by {
            if ws.contains(x) {
                let k = choose|k: int| 0 <= k < ws.len() && ws[k] == x;
                if k < n {
                    assert(d[k] == x);
                }
            }
            if d.contains(x) {
                let k = choose|k: int| 0 <= k < d.len() && d[k] == x;
                assert(ws[k] == x);
            }
        }
        assert(ws.contains(Wish::SpawnCompositor) == (d.contains(Wish::SpawnCompositor) || w == Wish::SpawnCompositor));
        assert(ws.contains(Wish::EmptySession) == (d.contains(Wish::EmptySession) || w == Wish::EmptySession));
        assert forall|i: int| #[trigger] is_last_word(ws, i) implies match ws[i] {
            Wish::Source(v) => r.source == Some(v),
            Wish::Session(v) => r.session == Some(v),
            Wish::CloseVolume(v) => r.close_volume == Some(v),
            Wish::Exchange(v) => r.exchange == Some(v),
            Wish::Backend(v) => (v == "auto"@ ==> r.backend is None) && (v == "luks"@ ==> r.backend
                == Some(Backend::Luks)) && (v == "veracrypt"@ ==> r.backend == Some(
                Backend::Veracrypt,
            )),
            _ => true,
        } by {
            if i < n {
                assert(d[i] == ws[i]);
                assert forall|j: int| i < j < d.len() implies !same_thing(d[i], #[trigger] d[j]) by {
                    assert(d[j] == ws[j]);
                }
                assert(is_last_word(d, i));
                assert(!same_thing(ws[i], ws[n]));
            }
        }
        if forall|i: int| 0 <= i < ws.len() ==> !(#[trigger] ws[i] is Source) {
            assert forall|i: int| 0 <= i < d.len() implies !(#[trigger] d[i] is Source) by {
                assert(d[i] == ws[i]);
            }
        }
        if forall|i: int| 0 <= i < ws.len() ==> !(#[trigger] ws[i] is Session) {
            assert forall|i: int| 0 <= i < d.len() implies !(#[trigger] d[i] is Session) by {
                assert(d[i] == ws[i]);
            }
        }
        if forall|i: int| 0 <= i < ws.len() ==> !(#[trigger] ws[i] is CloseVolume) {
            assert forall|i: int| 0 <= i < d.len() implies !(#[trigger] d[i] is CloseVolume) by {
                assert(d[i] == ws[i]);
            }
        }
        if forall|i: int| 0 <= i < ws.len() ==> !(#[trigger] ws[i] is Exchange) {
            assert forall|i: int| 0 <= i < d.len() implies !(#[trigger] d[i] is Exchange) by {
                assert(d[i] == ws[i]);
            }
        }
        if forall|i: int| 0 <= i < ws.len() ==> !(#[trigger] ws[i] is Backend) {
            assert forall|i: int| 0 <= i < d.len() implies !(#[trigger] d[i] is Backend) by {
                assert(d[i] == ws[i]);
            }
        }
    }
}

/// Whatever is asked for on a command line is read from it: every variable in order, of
/// two values for one thing the later one, and everything behind `--` for the
/// continuation.
pub proof fn law_a_command_line_is_read(ws: Seq<Wish>, rest: Seq<Seq<char>>)
    requires
        backends_known(ws),
    ensures
        read(written(ws), empty_request()) matches Ok(r) && fulfils(r, ws, seq![]),
        read(written(ws) + seq!["--"@] + rest, empty_request()) matches Ok(r) && fulfils(r, ws, rest),
{
    lemma_flags_differ();
    lemma_wishes_are_fulfilled(ws);
    lemma_wishes_are_read(ws, seq![]);
    assert(written(ws) + seq![] =~= written(ws));
    let tail = seq!["--"@] + rest;
    lemma_wishes_are_read(ws, tail);
    assert(written(ws) + tail =~= written(ws) + seq!["--"@] + rest);
    assert(tail.skip(1) =~= rest);
    lemma_rest_untouched(ws);
    assert(all_wished(ws).rest + rest =~= rest);
    let r = Request { rest, ..all_wished(ws) };
    assert(read(tail, all_wished(ws)) == Ok::<Request, Refusal>(r));
    assert(fulfils(r, ws, rest));
}

proof fn lemma_rest_untouched(ws: Seq<Wish>)
    ensures
        all_wished(ws).rest == Seq::<Seq<char>>::empty(),
    decreases ws.len(),
{
    if ws.len() > 0 {
        lemma_rest_untouched(ws.drop_last());
    }
}

/// An argument that is none of the flags, and a backend that there is not, are refused,
/// whatever stands before and behind them.
pub proof fn law_an_unknown_argument_is_refused(ws: Seq<Wish>, a: Seq<char>, tail: Seq<Seq<char>>)
    requires
        backends_known(ws),
    ensures
        a.len() == 0 || a[0] != '-' ==> read(written(ws) + seq![a] + tail, empty_request()) == Err::<
            Request,
            Refusal,
        >(Refusal::Unexpected(a)),
        a != "auto"@ && a != "luks"@ && a != "veracrypt"@ ==> read(
            written(ws) + seq!["--backend"@, a] + tail,
            empty_request(),
        ) == Err::<Request, Refusal>(Refusal::UnknownBackend(a)),
{
    lemma_flags_differ();
    reveal_strlit("--spawn-compositor");
    reveal_strlit("--empty-session");
    reveal_strlit("--passphrase-stdin");
    reveal_strlit("--source");
    reveal_strlit("--backend");
    reveal_strlit("--session");
    reveal_strlit("--close-volume");
    reveal_strlit("--exchange");
    reveal_strlit("--setenv");
    reveal_strlit("--");
    let s = seq![a] + tail;
    lemma_wishes_are_read(ws, s);
    assert(written(ws) + s =~= written(ws) + seq![a] + tail);
    assert(s[0] == a);
    let t = seq!["--backend"@, a] + tail;
    lemma_wishes_are_read(ws, t);
    assert(written(ws) + t =~= written(ws) + seq!["--backend"@, a] + tail);
    assert(t[0] == "--backend"@ && t[1] == a);
}

/// A passphrase loses the line endings behind it and nothing else.
pub proof fn law_a_passphrase_keeps_its_bytes(b: Seq<u8>, ends: Seq<u8>)
    requires
        b.len() > 0 ==> b.last() != 10 && b.last() != 13,
        forall|i: int| 0 <= i < ends.len() ==> #[trigger] ends[i] == 10 || ends[i] == 13,
    ensures
        without_line_end(b + ends) == b,
    decreases ends.len(),
{
    let s = b + ends;
    if ends.len() == 0 {
        assert(s =~= b);
    } else {
        let e = ends.drop_last();
        assert(ends[ends.len() - 1] == 10 || ends[ends.len() - 1] == 13);
        assert(s.last() == ends[ends.len() - 1]);
        assert(s.drop_last() =~= b + e);
        law_a_passphrase_keeps_its_bytes(b, e);
    }
}

/// The value of a variable is what the first pair with its name gives it.
pub proof fn law_the_first_pair_of_a_name_counts(
    before: Seq<Seq<char>>,
    key: Seq<char>,
    value: Seq<char>,
    behind: Seq<Seq<char>>,
)
    requires
        !key.contains('='),
        forall|i: int, v: Seq<char>|
            0 <= i < before.len() ==> #[trigger] before[i] != #[trigger] (key + seq!['='] + v),
    ensures
        value_of(before + seq![key + seq!['='] + value] + behind, key) == Some(value),
        value_of(before, key) is None,
    decreases before.len(),
{
    let pair = key + seq!['='] + value;
    let all = before + seq![pair] + behind;
    if before.len() == 0 {
        text::lemma_split_once_at(key, value, '=');
        assert(all[0] == pair);
    } else {
        let t = before.skip(1);
        assert forall|i: int, v: Seq<char>| 0 <= i < t.len() implies #[trigger] t[i]
            != #[trigger] (key + seq!['='] + v) by {
            assert(t[i] == before[i + 1]);
        }
        law_the_first_pair_of_a_name_counts(t, key, value, behind);
        assert(all[0] == before[0]);
        assert(all.skip(1) =~= t + seq![pair] + behind);
        if let Some(kv) = text::split_once(before[0], '=') {
            lemma_split_once_parts(before[0], '=');
            if kv.0 == key {
                assert(before[0] == key + seq!['='] + kv.1);
            }
        }
    }
}

proof fn lemma_split_once_parts(s: Seq<char>, c: char)
    ensures
        text::split_once(s, c) matches Some(kv) ==> s == kv.0 + seq![c] + kv.1 && !kv.0.contains(c),
        text::split_once(s, c) is None ==> !s.contains(c),
{
    text::lemma_first_of(s, c);
    if let Some(kv) = text::split_once(s, c) {
        let i = text::first_of(s, c);
        assert(s =~= kv.0 + seq![c] + kv.1);
        if kv.0.contains(c) {
            let k = choose|k: int| 0 <= k < kv.0.len() && kv.0[k] == c;
            assert(s[k] == c);
        }
    }
}

/// The names of the variables that are handed on.
pub open spec fn handed_on() -> Set<Seq<char>> {
    set![
        "WAYLAND_DISPLAY"@,
        "XDG_RUNTIME_DIR"@,
        "XDG_SESSION_TYPE"@,
        "DISPLAY"@,
        "LANG"@,
        "XCURSOR_THEME"@,
        "XCURSOR_SIZE"@,
        "VERACAGE_THEME"@,
        "VERACAGE_FONT_FILE"@,
        "VERACAGE_FONT_SIZE"@,
        "VERACAGE_WINDOW_SIZE"@,
        "VERACAGE_DEBUG"@,
        "VERACAGE_LOG_DIR"@,
    ]
}

/// Every pair with one of these names is handed on, wherever it stands among the others,
/// with its value as it is and in its order; no other pair is.
pub proof fn law_every_allowed_variable_is_forwarded(
    before: Seq<Seq<char>>,
    key: Seq<char>,
    value: Seq<char>,
    behind: Seq<Seq<char>>,
)
    requires
        !key.contains('='),
    ensures
        forwarded(before + seq![key + seq!['='] + value] + behind) == forwarded(before) + (
        if handed_on().contains(key) { seq![(key, value)] } else { seq![] }) + forwarded(behind),
    decreases behind.len(),
{
    let pair = key + seq!['='] + value;
    let all = before + seq![pair] + behind;
    let mid: Seq<(Seq<char>, Seq<char>)> = if handed_on().contains(key) {
        seq![(key, value)]
    } else {
        seq![]
    };
    if behind.len() == 0 {
        text::lemma_split_once_at(key, value, '=');
        assert(all.drop_last() =~= before);
        assert(all.last() == pair);
        assert(is_allowed(key) == handed_on().contains(key));
        assert(forwarded(all) =~= forwarded(before) + mid + forwarded(behind));
    } else {
        let d = behind.drop_last();
        law_every_allowed_variable_is_forwarded(before, key, value, d);
        assert(all.drop_last() =~= before + seq![pair] + d);
        assert(all.last() == behind.last());
        assert(forwarded(all) =~= forwarded(before) + mid + forwarded(behind));
    }
}

/// The value of a flag is what stands right behind the first of its kind.
pub proof fn law_a_flag_has_the_value_behind_it(
    before: Seq<Seq<char>>,
    flag: Seq<char>,
    value: Seq<char>,
    behind: Seq<Seq<char>>,
)
    requires
        !before.contains(flag),
    ensures
        value_behind(before + seq![flag, value] + behind, flag) == Some(value),
        value_behind(before + seq![flag], flag) is None,
        value_behind(before, flag) is None,
    decreases before.len(),
{
    let all = before + seq![flag, value] + behind;
    let short = before + seq![flag];
    if before.len() == 0 {
        assert(all[0] == flag && all[1] == value);
        assert(short[0] == flag);
    } else {
        let t = before.skip(1);
        assert(before.contains(before[0]));
        assert(!t.contains(flag)) by {
            if t.contains(flag) {
                let k = choose|k: int| 0 <= k < t.len() && t[k] == flag;
                assert(before[k + 1] == flag);
            }
        }
        law_a_flag_has_the_value_behind_it(t, flag, value, behind);
        assert(all[0] == before[0]);
        assert(all.skip(1) =~= t + seq![flag, value] + behind);
        assert(short[0] == before[0]);
        assert(short.skip(1) =~= t + seq![flag]);
    }
}

/// The runtime directory of a user is its own.
pub proof fn law_a_user_has_its_own_runtime_directory(a: nat, b: nat)
    ensures
        runtime_dir(a) == "/run/user/"@ + text::decimal(a),
        runtime_dir(a) == runtime_dir(b) ==> a == b,
{
    reveal_strlit("/run/user/");
    text::lemma_decimal_reads_back(a);
    text::lemma_decimal_reads_back(b);
    let x = runtime_dir(a);
    let y = runtime_dir(b);
    assert(x.skip(10) =~= text::decimal(a));
    assert(y.skip(10) =~= text::decimal(b));
}

} // verus!
