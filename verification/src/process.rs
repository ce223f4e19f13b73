//! Processes as the kernel describes them: how one ended, when one started, and
//! which of them hold a volume.

use vstd::prelude::*;

use crate::names;
use crate::text;

verus! {

// ------------------------------------------------------------ how one ended ---

/// `libc::WIFEXITED`: the low seven bits of the status are clear.
pub assume_specification[ libc::WIFEXITED ](status: libc::c_int) -> (r: bool)
    ensures
        r == (status & 0x7f == 0),
;

/// `libc::WEXITSTATUS`: the second byte of the status.
pub assume_specification[ libc::WEXITSTATUS ](status: libc::c_int) -> (r: libc::c_int)
    ensures
        r == (status >> 8) & 0xff,
;

/// `libc::WIFSIGNALED`: the low seven bits of the status are neither clear nor
/// all set.
pub assume_specification[ libc::WIFSIGNALED ](status: libc::c_int) -> (r: bool)
    ensures
        r == (status & 0x7f != 0 && status & 0x7f != 0x7f),
;

/// `libc::WTERMSIG`: the low seven bits of the status.
pub assume_specification[ libc::WTERMSIG ](status: libc::c_int) -> (r: libc::c_int)
    ensures
        r == status & 0x7f,
;

/// The exit code that a wait status stands for, as a shell reports it: the
/// process's own, 128 and the signal that ended it, or 1.
pub open spec fn exit_code(status: i32) -> int {
    if status & 0x7f == 0 {
        ((status >> 8) & 0xff) as int
    } else if status & 0x7f != 0x7f {
        128 + (status & 0x7f)
    } else {
        1
    }
}

/// `exit_code`, computed.
pub fn wait_code(status: i32) -> (r: i32)
    ensures
        r == exit_code(status),
        0 <= r <= 255,
{
    assert(0 <= status & 0x7f <= 0x7f) by (bit_vector);
    assert(0 <= (status >> 8) & 0xff <= 0xff) by (bit_vector);
    if libc::WIFEXITED(status) {
        libc::WEXITSTATUS(status)
    } else if libc::WIFSIGNALED(status) {
        128 + libc::WTERMSIG(status)
    } else {
        1
    }
}

// ---------------------------------------------------------- when one started ---

/// The index of the last `c` in `s`, or -1.
pub open spec fn last_of(s: Seq<char>, c: char) -> int
    decreases s.len(),
{
    if s.len() == 0 {
        -1
    } else if s.last() == c {
        s.len() - 1
    } else {
        last_of(s.drop_last(), c)
    }
}

/// The start time in the text of a `/proc/<pid>/stat` file: the 20th word behind
/// the last `)`, since the command name in front of it may hold anything.
pub open spec fn start_time(stat: Seq<char>) -> Option<int> {
    let i = last_of(stat, ')');
    if i < 0 {
        None
    } else {
        let w = text::words(stat.skip(i + 1));
        if w.len() > 19 { text::unsigned_in(w[19], u64::MAX as int) } else { None }
    }
}

/// `start_time`, computed.
pub fn proc_starttime(stat: &str) -> (r: Option<u64>)
    ensures
        r is Some <==> start_time(stat@) is Some,
        r matches Some(n) ==> start_time(stat@) == Some(n as int),
{
    let v = text::chars_of(stat);
    let mut i: usize = v.len();
    assert(v@.take(i as int) =~= v@);
    while i > 0 && v[i - 1] != ')'
        invariant
            i <= v@.len(),
            v@ == stat@,
            last_of(v@, ')') == last_of(v@.take(i as int), ')'),
        decreases i,
    {
        assert(v@.take(i as int).drop_last() =~= v@.take(i - 1));
        i = i - 1;
    }
    if i == 0 {
        return None;
    }
    let rest = text::string_of(&v, i, v.len());
    assert(rest@ =~= stat@.skip(i as int));
    let w = text::split_words(rest.as_str());
    assert(text::texts(w@).len() == w@.len());
    if w.len() > 19 {
        assert(text::texts(w@)[19] == w@[19]@);
        text::parse_unsigned(w[19].as_str(), u64::MAX)
    } else {
        None
    }
}

/// The text of a session's pid file.
pub open spec fn pid_text(pid: nat, start: nat) -> Seq<char> {
    text::decimal(pid) + seq!['\n'] + text::decimal(start) + seq!['\n']
}

/// `pid_text`, computed.
pub fn session_pid_text(pid: u32, start: u64) -> (r: String)
    ensures
        r@ == pid_text(pid as nat, start as nat),
{
    let mut s = text::decimal_of(pid as u64);
    s.push('\n');
    let d = text::decimal_of(start);
    s.append(d.as_str());
    s.push('\n');
    assert(s@ =~= pid_text(pid as nat, start as nat));
    s
}

/// What a session's pid file records: the leader's pid, and its start time (0
/// where the second line is no number).
pub open spec fn recorded_leader(body: Seq<char>) -> Option<(int, int)> {
    let ls = text::lines(body);
    if ls.len() == 0 {
        None
    } else {
        match text::signed_in(text::trimmed(ls[0]), i32::MAX as int) {
            Some(pid) => {
                let st = if ls.len() > 1 {
                    match text::unsigned_in(text::trimmed(ls[1]), u64::MAX as int) {
                        Some(n) => n,
                        None => 0,
                    }
                } else {
                    0
                };
                Some((pid, st))
            },
            None => None,
        }
    }
}

/// `recorded_leader`, computed.
pub fn parse_session_pid(body: &str) -> (r: Option<(i32, u64)>)
    ensures
        r is Some <==> recorded_leader(body@) is Some,
        r matches Some(p) ==> recorded_leader(body@) == Some((p.0 as int, p.1 as int)),
{
    let ls = text::split_lines(body);
    assert(text::texts(ls@).len() == ls@.len());
    if ls.len() == 0 {
        return None;
    }
    assert(text::texts(ls@)[0] == ls@[0]@);
    let first = text::trim(ls[0].as_str());
    let pid: i32 = match text::parse_signed(first.as_str(), i32::MAX as i64) {
        Some(p) => p as i32,
        None => {
            return None;
        },
    };
    let mut st: u64 = 0;
    if ls.len() > 1 {
        assert(text::texts(ls@)[1] == ls@[1]@);
        let second = text::trim(ls[1].as_str());
        if let Some(n) = text::parse_unsigned(second.as_str(), u64::MAX) {
            st = n;
        }
    }
    Some((pid, st))
}

/// The leader that is recorded, where it is still that process.
pub open spec fn leader_now(recorded: Option<(i32, u64)>, owned: bool, start: Option<u64>) -> Option<i32> {
    match recorded {
        Some(p) => if p.0 > 1 && owned && start == Some(p.1) { Some(p.0) } else { None },
        None => None,
    }
}

/// A recorded leader is taken for alive only where its process belongs to the vault's user
/// and started when it was recorded: a later process of the same number is another one.
pub proof fn law_a_leader_is_known_by_its_start(pid: i32, start: u64, other: u64)
    requires
        pid > 1,
        other != start,
    ensures
        leader_now(Some((pid, start)), true, Some(start)) == Some(pid),
        leader_now(Some((pid, start)), false, Some(start)) is None,
        leader_now(Some((pid, start)), true, Some(other)) is None,
        leader_now(Some((pid, start)), true, None) is None,
        leader_now(Some((1i32, start)), true, Some(start)) is None,
        leader_now(None, true, Some(start)) is None,
{
}

/// The leader that a pid file records, if it is still that process: its pid is
/// owned by the vault user, and it started when the file says it did.
pub fn verify_session_leader(recorded: Option<(i32, u64)>, owned: bool, start: Option<u64>) -> (r:
    Option<i32>)
    ensures
        r == leader_now(recorded, owned, start),
        r == match recorded {
            Some(p) => if p.0 > 1 && owned && start == Some(p.1) { Some(p.0) } else { None },
            None => None,
        },
{
    match recorded {
        Some((pid, want)) => match start {
            Some(st) => if pid > 1 && owned && st == want {
                Some(pid)
            } else {
                None
            },
            None => None,
        },
        None => None,
    }
}

/// A leader that was recorded is the one that is read back.
pub proof fn law_a_recorded_leader_reads_back(pid: nat, start: nat)
    requires
        pid <= i32::MAX,
        start <= u64::MAX,
    ensures
        recorded_leader(pid_text(pid, start)) == Some((pid as int, start as int)),
{
    let a = text::decimal(pid);
    let b = text::decimal(start);
    lemma_decimal_plain(pid);
    lemma_decimal_plain(start);
    text::lemma_one_line(a);
    text::lemma_one_line(b);
    text::lemma_lines_concat(a + seq!['\n'], b + seq!['\n']);
    assert(pid_text(pid, start) =~= (a + seq!['\n']) + (b + seq!['\n']));
    assert(text::lines(pid_text(pid, start)) =~= seq![a, b]);
    text::lemma_decimal_parses(pid, i32::MAX as int);
    text::lemma_decimal_parses(start, u64::MAX as int);
}

/// A decimal number is one line with nothing to trim.
pub proof fn lemma_decimal_plain(n: nat)
    ensures
        text::is_line(text::decimal(n)),
        text::trimmed(text::decimal(n)) == text::decimal(n),
{
    text::lemma_decimal_reads_back(n);
    let d = text::decimal(n);
    assert(text::is_digit(d[0]));
    assert(text::is_digit(d[d.len() - 1]));
    text::lemma_trimmed_is(d);
    if d.contains('\n') {
        let k = choose|k: int| 0 <= k < d.len() && d[k] == '\n';
        assert(text::is_digit(d[k]));
    }
}

/// Does the pid file `body` still name the process `pid`?
pub fn pidfile_names(body: &str, pid: u32) -> (r: bool)
    ensures
        r == ({
            let w = text::words(body@);
            w.len() > 0 && w[0] == text::decimal(pid as nat)
        }),
{
    let w = text::split_words(body);
    assert(text::texts(w@).len() == w@.len());
    if w.len() == 0 {
        return false;
    }
    assert(text::texts(w@)[0] == w@[0]@);
    let d = text::decimal_of(pid as u64);
    text::same(w[0].as_str(), d.as_str())
}

// ------------------------------------------------------- who holds a volume ---

/// The block device of the first mount at `mp` in the text of a mountinfo file:
/// of a line's fields the fifth is the mount point and the third the device.
pub open spec fn mount_device(ls: Seq<Seq<char>>, mp: Seq<char>) -> Option<Seq<char>>
    decreases ls.len(),
{
    if ls.len() == 0 {
        None
    } else {
        let f = text::fields(ls[0], ' ');
        if f.len() > 4 && f[4] == mp { Some(f[2]) } else { mount_device(ls.skip(1), mp) }
    }
}

/// `mount_device` of a mountinfo text, computed.
pub fn device_at(mountinfo: &str, mp: &str) -> (r: Option<String>)
    ensures
        text::opt(r) == mount_device(text::lines(mountinfo@), mp@),
{
    let ls = text::split_lines(mountinfo);
    let ghost t = text::texts(ls@);
    let mut i: usize = 0;
    assert(t.skip(0) =~= t);
    while i < ls.len()
        invariant
            i <= ls@.len(),
            t == text::texts(ls@),
            t == text::lines(mountinfo@),
            mount_device(t.skip(i as int), mp@) == mount_device(t, mp@),
        decreases ls@.len() - i,
    {
        assert(t.skip(i as int)[0] == ls@[i as int]@);
        assert(t.skip(i as int).skip(1) =~= t.skip(i + 1));
        let f = text::split(ls[i].as_str(), ' ');
        assert(text::texts(f@).len() == f@.len());
        if f.len() > 4 {
            assert(text::texts(f@)[4] == f@[4]@);
            assert(text::texts(f@)[2] == f@[2]@);
            if text::same(f[4].as_str(), mp) {
                return Some(f[2].clone());
            }
        }
        i = i + 1;
    }
    None
}

/// The device name in a `dm/name` file, where it is one of this project.
pub fn own_device(name: &str) -> (r: Option<String>)
    ensures
        text::opt(r) == if names::is_dm(text::trimmed(name@)) { Some(text::trimmed(name@)) } else { None },
{
    let n = text::trim(name);
    if names::is_veracage_dm(n.as_str()) {
        Some(n)
    } else {
        None
    }
}

/// Is a name under `/proc` that of a process?
pub fn is_pid(name: &str) -> (r: bool)
    ensures
        r == (name@.len() > 0 && text::all_digits(name@)),
{
    let v = text::chars_of(name);
    if v.len() == 0 {
        return false;
    }
    let mut i: usize = 0;
    while i < v.len()
        invariant
            i <= v@.len(),
            v@ == name@,
            forall|k: int| 0 <= k < i ==> text::is_digit(#[trigger] v@[k]),
        decreases v@.len() - i,
    {
        if !text::digit(v[i]) {
            assert(!text::is_digit(name@[i as int]));
            return false;
        }
        i = i + 1;
    }
    true
}

/// What is read of one process: its mounts, its mount namespace and its name.
pub struct Process {
    pub mountinfo: String,
    pub namespace: String,
    pub comm: Option<String>,
}

/// A value of an outside program made safe to carry on a line: trimmed and
/// without control characters. Nothing where nothing is left.
pub open spec fn clean(raw: Seq<char>) -> Option<Seq<char>> {
    let s = text::without_controls(text::trimmed(raw));
    if s.len() > 0 { Some(s) } else { None }
}

/// `clean`, computed.
pub fn sanitized(raw: &str) -> (r: Option<String>)
    ensures
        text::opt(r) == clean(raw@),
{
    let t = text::trim(raw);
    let s = text::drop_controls(t.as_str());
    if s.as_str().is_empty() {
        None
    } else {
        Some(s)
    }
}

/// What a mountinfo line of the device `dm` holds.
pub open spec fn device_field(dm: Seq<char>) -> Seq<char> {
    " /dev/mapper/"@ + dm + " "@
}

/// Does the process hold `dm` mounted, outside the namespace `own`?
pub open spec fn holds(p: Process, dm: Seq<char>, own: Seq<char>) -> bool {
    text::occurs(device_field(dm), p.mountinfo@) && p.namespace@ != own
}

/// The name that a holder is reported under.
pub open spec fn holder_name(p: Process) -> Seq<char> {
    match p.comm {
        Some(c) => match clean(c@) {
            Some(n) => n,
            None => "a process"@,
        },
        None => "a process"@,
    }
}

/// The names of the processes that hold `dm` mounted outside the namespace
/// `own`: sorted, each once.
pub fn foreign_holders(procs: &Vec<Process>, dm: &str, own: &str) -> (r: Vec<String>)
    ensures
        text::rising(text::texts(r@)),
        forall|n: Seq<char>| #[trigger]
            text::texts(r@).contains(n) <==> exists|i: int|
                0 <= i < procs@.len() && holds(#[trigger] procs@[i], dm@, own@) && holder_name(procs@[i])
                    == n,
        r@.len() == 0 <==> forall|i: int|
            0 <= i < procs@.len() ==> !holds(#[trigger] procs@[i], dm@, own@),
{
    let mut needle = String::new();
    needle.append(" /dev/mapper/");
    needle.append(dm);
    needle.append(" ");
    assert(needle@ =~= device_field(dm@));
    let mut out: Vec<String> = Vec::new();
    let mut i: usize = 0;
    while i < procs.len()
        invariant
            i <= procs@.len(),
            needle@ == device_field(dm@),
            text::rising(text::texts(out@)),
            forall|n: Seq<char>| #[trigger]
                text::texts(out@).contains(n) <==> exists|k: int|
                    0 <= k < i && holds(#[trigger] procs@[k], dm@, own@) && holder_name(procs@[k]) == n,
            out@.len() == 0 <==> forall|k: int|
                0 <= k < i ==> !holds(#[trigger] procs@[k], dm@, own@),
        decreases procs@.len() - i,
    {
        let p = &procs[i];
        if text::contains(p.mountinfo.as_str(), needle.as_str()) && !text::same(
            p.namespace.as_str(),
            own,
        ) {
            let name = match &p.comm {
                Some(c) => match sanitized(c.as_str()) {
                    Some(n) => n,
                    None => "a process".to_owned(),
                },
                None => "a process".to_owned(),
            };
            let ghost n0 = name@;
            let ghost before = text::texts(out@);
            text::insert_rising(&mut out, name);
            proof {
                assert(n0 == holder_name(procs@[i as int]));
                assert(holds(procs@[i as int], dm@, own@));
                assert(text::texts(out@).contains(n0));
                assert(out@.len() == text::texts(out@).len());
                assert forall|n: Seq<char>| #[trigger]
                    text::texts(out@).contains(n) <==> exists|k: int|
                        0 <= k < i + 1 && holds(#[trigger] procs@[k], dm@, own@) && holder_name(
                            procs@[k],
                        ) == n by {
                    if before.contains(n) {
                        let k = choose|k: int|
                            0 <= k < i && holds(#[trigger] procs@[k], dm@, own@) && holder_name(
                                procs@[k],
                            ) == n;
                        assert(holds(procs@[k], dm@, own@));
                    }
                    if exists|k: int|
                        0 <= k < i + 1 && holds(#[trigger] procs@[k], dm@, own@) && holder_name(
                            procs@[k],
                        ) == n {
                        let k = choose|k: int|
                            0 <= k < i + 1 && holds(#[trigger] procs@[k], dm@, own@) && holder_name(
                                procs@[k],
                            ) == n;
                        if k < i {
                            assert(before.contains(n));
                        }
                    }
                }
            }
        } else {
            assert(!holds(procs@[i as int], dm@, own@));
        }
        i = i + 1;
    }
    out
}

/// Process names of the sandbox's own plumbing.
pub open spec fn wrappers() -> Seq<Seq<char>> {
    seq![
        "bwrap"@,
        "dbus-run-session"@,
        "dbus-daemon"@,
        "veracage-reaper"@,
        "sh"@,
        "bash"@,
    ]
}

/// Is `comm` the name `w`, or `w` as the kernel cuts it at 15 characters?
pub open spec fn is_wrapper(comm: Seq<char>, w: Seq<char>) -> bool {
    w == comm || (comm.is_prefix_of(w) && comm.len() >= 15)
}

pub open spec fn is_plumbing(comm: Seq<char>) -> bool {
    exists|i: int| 0 <= i < wrappers().len() && is_wrapper(comm, #[trigger] wrappers()[i])
}

/// `is_wrapper`, computed.
fn is_named(comm: &str, w: &str) -> (r: bool)
    ensures
        r == is_wrapper(comm@, w@),
{
    text::same(w, comm) || (text::starts_with(w, comm) && comm.unicode_len() >= 15)
}

/// `is_plumbing`, computed.
pub fn is_sandbox_wrapper(comm: &str) -> (r: bool)
    ensures
        r == is_plumbing(comm@),
{
    let r = is_named(comm, "bwrap") || is_named(comm, "dbus-run-session") || is_named(
        comm,
        "dbus-daemon",
    ) || is_named(comm, "veracage-reaper") || is_named(comm, "sh") || is_named(comm, "bash");
    proof {
        let w = wrappers();
        assert(w.len() == 6);
        assert(w[0] == "bwrap"@ && w[1] == "dbus-run-session"@ && w[2] == "dbus-daemon"@ && w[3]
            == "veracage-reaper"@ && w[4] == "sh"@ && w[5] == "bash"@);
    }
    r
}

/// The holders as they are named to the user: without the plumbing.
pub open spec fn named_holders(holders: Seq<Seq<char>>) -> Seq<char> {
    let named = holders.filter(|c: Seq<char>| !is_plumbing(c));
    if named.len() == 0 { "Apps inside Veracage"@ } else { text::joined(named, ", "@) }
}

/// `named_holders`, computed.
pub fn holder_names(holders: &Vec<String>) -> (r: String)
    ensures
        r@ == named_holders(text::texts(holders@)),
{
    let ghost t = text::texts(holders@);
    let ghost p = |c: Seq<char>| !is_plumbing(c);
    let mut named: Vec<String> = Vec::new();
    let mut i: usize = 0;
    reveal(Seq::filter);
    assert(text::texts(named@) =~= t.take(0).filter(p));
    while i < holders.len()
        invariant
            i <= holders@.len(),
            t == text::texts(holders@),
            p == (|c: Seq<char>| !is_plumbing(c)),
            text::texts(named@) == t.take(i as int).filter(p),
        decreases holders@.len() - i,
    {
        let ghost before = text::texts(named@);
        proof {
            reveal(Seq::filter);
            assert(t.take(i + 1).drop_last() =~= t.take(i as int));
            assert(t.take(i + 1).last() == holders@[i as int]@);
        }
        if !is_sandbox_wrapper(holders[i].as_str()) {
            let s = holders[i].clone();
            named.push(s);
            assert(text::texts(named@) =~= before.push(s@));
        }
        i = i + 1;
    }
    assert(t.take(i as int) =~= t);
    assert(text::texts(named@).len() == named@.len());
    if named.len() == 0 {
        "Apps inside Veracage".to_owned()
    } else {
        text::join(&named, ", ")
    }
}

/// A process that ended by itself reports its own code, and one that a signal ended 128 and
/// the signal.
pub proof fn law_an_ended_process_reports_how(code: i32, signal: i32)
    requires
        0 <= code <= 255,
        1 <= signal <= 126,
    ensures
        exit_code(code << 8) == code,
        exit_code(signal) == 128 + signal,
{
    assert((code << 8) & 0x7f == 0 && ((code << 8) >> 8) & 0xff == code) by (bit_vector)
        requires
            0 <= code <= 255,
    ;
    assert(signal & 0x7f == signal) by (bit_vector)
        requires
            1 <= signal <= 126,
    ;
}

/// The start of a process is read whatever its name holds: behind the last bracket, the
/// twentieth word.
pub proof fn law_the_start_is_read_behind_any_name(before: Seq<char>, tail: Seq<char>, n: nat)
    requires
        !tail.contains(')'),
        text::words(tail).len() > 19,
        text::words(tail)[19] == text::decimal(n),
        n <= u64::MAX,
    ensures
        start_time(before + seq![')'] + tail) == Some(n as int),
        start_time(tail) is None,
{
    let s = before + seq![')'] + tail;
    lemma_last_bracket(before, tail);
    assert(s.skip(before.len() as int + 1) =~= tail);
    text::lemma_decimal_parses(n, u64::MAX as int);
    lemma_no_bracket(tail);
}

proof fn lemma_no_bracket(s: Seq<char>)
    requires
        !s.contains(')'),
    ensures
        last_of(s, ')') == -1,
    decreases s.len(),
{
    if s.len() > 0 {
        let d = s.drop_last();
        assert(s.contains(s[s.len() - 1]));
        assert(!d.contains(')')) by {
            if d.contains(')') {
                let k = choose|k: int| 0 <= k < d.len() && d[k] == ')';
                assert(s[k] == ')');
            }
        }
        lemma_no_bracket(d);
    }
}

proof fn lemma_last_bracket(before: Seq<char>, tail: Seq<char>)
    requires
        !tail.contains(')'),
    ensures
        last_of(before + seq![')'] + tail, ')') == before.len(),
    decreases tail.len(),
{
    let s = before + seq![')'] + tail;
    if tail.len() == 0 {
        assert(s.last() == ')');
    } else {
        let d = tail.drop_last();
        assert(tail.contains(tail[tail.len() - 1]));
        assert(!d.contains(')')) by {
            if d.contains(')') {
                let k = choose|k: int| 0 <= k < d.len() && d[k] == ')';
                assert(tail[k] == ')');
            }
        }
        assert(s.last() == tail.last());
        assert(s.drop_last() =~= before + seq![')'] + d);
        lemma_last_bracket(before, d);
    }
}

/// The device at a mount point is that of the first mount there: the third field of the
/// first line whose fifth field is the mount point.
pub proof fn law_the_device_of_a_mount_is_found(
    before: Seq<Seq<char>>,
    id: Seq<char>,
    parent: Seq<char>,
    dev: Seq<char>,
    root: Seq<char>,
    mp: Seq<char>,
    options: Seq<char>,
    behind: Seq<Seq<char>>,
)
    requires
        !id.contains(' '),
        !parent.contains(' '),
        !dev.contains(' '),
        !root.contains(' '),
        !mp.contains(' '),
        forall|i: int|
            0 <= i < before.len() ==> text::fields(#[trigger] before[i], ' ').len() <= 4 || text::fields(
                before[i],
                ' ',
            )[4] != mp,
    ensures
        mount_device(
            before + seq![
                id + seq![' '] + (parent + seq![' '] + (dev + seq![' '] + (root + seq![' '] + (mp + seq![
                    ' ',
                ] + options)))),
            ] + behind,
            mp,
        ) == Some(dev),
        mount_device(before, mp) is None,
    decreases before.len(),
{
    let e = mp + seq![' '] + options;
    let d = root + seq![' '] + e;
    let c = dev + seq![' '] + d;
    let b = parent + seq![' '] + c;
    let l = id + seq![' '] + b;
    let all = before + seq![l] + behind;
    if before.len() == 0 {
        text::lemma_fields_cons(id, b, ' ');
        text::lemma_fields_cons(parent, c, ' ');
        text::lemma_fields_cons(dev, d, ' ');
        text::lemma_fields_cons(root, e, ' ');
        text::lemma_fields_cons(mp, options, ' ');
        text::lemma_fields_nonempty(options, ' ');
        assert(all[0] == l);
    } else {
        let t = before.skip(1);
        assert forall|i: int| 0 <= i < t.len() implies text::fields(#[trigger] t[i], ' ').len() <= 4
            || text::fields(t[i], ' ')[4] != mp by {
            assert(t[i] == before[i + 1]);
        }
        law_the_device_of_a_mount_is_found(t, id, parent, dev, root, mp, options, behind);
        assert(all[0] == before[0]);
        assert(all.skip(1) =~= t + seq![l] + behind);
    }
}

/// A process holds a volume where its mounts name the device as a word of its own, outside
/// the helper's namespace, and only there.
pub proof fn law_a_holder_has_the_device_mounted(
    p: Process,
    dm: Seq<char>,
    own: Seq<char>,
    before: Seq<char>,
    behind: Seq<char>,
)
    ensures
        p.mountinfo@ == before + (" /dev/mapper/"@ + dm + " "@) + behind && p.namespace@ != own ==> holds(
            p,
            dm,
            own,
        ),
        p.namespace@ == own ==> !holds(p, dm, own),
        holds(p, dm, own) ==> exists|i: int|
            0 <= i && i + dm.len() + 14 <= p.mountinfo@.len() && #[trigger] p.mountinfo@.subrange(
                i,
                i + dm.len() + 14,
            ) == " /dev/mapper/"@ + dm + " "@,
{
    reveal_strlit(" /dev/mapper/");
    reveal_strlit(" ");
    let f = " /dev/mapper/"@ + dm + " "@;
    assert(f.len() == dm.len() + 14);
    let m = p.mountinfo@;
    if m == before + f + behind {
        let i = before.len() as int;
        assert(m.subrange(i, i + f.len()) =~= f);
    }
    if holds(p, dm, own) {
        let i = choose|i: int|
            0 <= i <= m.len() - device_field(dm).len() && #[trigger] m.subrange(
                i,
                i + device_field(dm).len(),
            ) == device_field(dm);
        assert(m.subrange(i, i + dm.len() + 14) == f);
    }
}

/// What another program says is carried on without control characters and white space
/// around it, and is otherwise as it was.
pub proof fn law_a_clean_value_is_kept(s: Seq<char>)
    ensures
        s.len() > 0 && !text::is_space(s[0]) && !text::is_space(s.last()) && (forall|i: int|
            0 <= i < s.len() ==> !text::is_control(#[trigger] s[i])) ==> clean(s) == Some(s),
        clean(s) matches Some(c) ==> c.len() > 0 && forall|i: int|
            0 <= i < c.len() ==> !text::is_control(#[trigger] c[i]),
        clean(s) is None ==> forall|i: int|
            0 <= i < text::trimmed(s).len() ==> text::is_control(#[trigger] text::trimmed(s)[i]),
{
    lemma_without_controls(text::trimmed(s));
    if s.len() > 0 && !text::is_space(s[0]) && !text::is_space(s.last()) {
        text::lemma_trimmed_is(s);
    }
}

proof fn lemma_without_controls(s: Seq<char>)
    ensures
        ({
            let c = text::without_controls(s);
            &&& forall|i: int| 0 <= i < c.len() ==> !text::is_control(#[trigger] c[i])
            &&& (forall|i: int| 0 <= i < s.len() ==> !text::is_control(#[trigger] s[i])) ==> c == s
            &&& c.len() == 0 ==> forall|i: int| 0 <= i < s.len() ==> text::is_control(#[trigger] s[i])
        }),
    decreases s.len(),
{
    reveal(Seq::filter);
    let c = text::without_controls(s);
    if s.len() > 0 {
        let d = s.drop_last();
        let e = text::without_controls(d);
        lemma_without_controls(d);
        assert(e == d.filter(|c: char| !text::is_control(c)));
        if forall|i: int| 0 <= i < s.len() ==> !text::is_control(#[trigger] s[i]) {
            assert forall|i: int| 0 <= i < d.len() implies !text::is_control(#[trigger] d[i]) by {
                assert(d[i] == s[i]);
            }
            assert(!text::is_control(s[s.len() - 1]));
            assert(c =~= s);
        }
        assert forall|i: int| 0 <= i < c.len() implies !text::is_control(#[trigger] c[i]) by {
            if i < e.len() {
                assert(c[i] == e[i]);
            }
        }
        if c.len() == 0 {
            assert forall|i: int| 0 <= i < s.len() implies text::is_control(#[trigger] s[i]) by {
                if i < d.len() {
                    assert(d[i] == s[i]);
                }
            }
        }
    } else {
        assert(c =~= s);
    }
}

/// Every application among the holders is named to the user, in order and separated by
/// commas; the sandbox's own plumbing is not, and where nothing else holds the volume the
/// user is told so in general.
pub proof fn law_every_application_is_named(hs: Seq<Seq<char>>, h: Seq<char>)
    ensures
        is_plumbing(h) ==> named_holders(hs.push(h)) == named_holders(hs),
        !is_plumbing(h) && (forall|i: int| 0 <= i < hs.len() ==> is_plumbing(#[trigger] hs[i]))
            ==> named_holders(hs.push(h)) == h,
        !is_plumbing(h) && (exists|i: int| 0 <= i < hs.len() && !is_plumbing(#[trigger] hs[i]))
            ==> named_holders(hs.push(h)) == named_holders(hs) + ", "@ + h,
        (forall|i: int| 0 <= i < hs.len() ==> is_plumbing(#[trigger] hs[i])) ==> named_holders(hs)
            == "Apps inside Veracage"@,
{
    let p = |c: Seq<char>| !is_plumbing(c);
    reveal(Seq::filter);
    let f = hs.filter(p);
    let g = hs.push(h).filter(p);
    assert(hs.push(h).drop_last() =~= hs);
    lemma_filtered_apps(hs);
    if !is_plumbing(h) {
        assert(g == f.push(h));
        if f.len() == 0 {
            assert(g =~= seq![h]);
        } else {
            assert(g.drop_last() =~= f);
        }
    } else {
        assert(g == f);
    }
}

proof fn lemma_filtered_apps(hs: Seq<Seq<char>>)
    ensures
        hs.filter(|c: Seq<char>| !is_plumbing(c)).len() == 0 <==> forall|i: int|
            0 <= i < hs.len() ==> is_plumbing(#[trigger] hs[i]),
    decreases hs.len(),
{
    reveal(Seq::filter);
    if hs.len() > 0 {
        let d = hs.drop_last();
        lemma_filtered_apps(d);
        if forall|i: int| 0 <= i < hs.len() ==> is_plumbing(#[trigger] hs[i]) {
            assert forall|i: int| 0 <= i < d.len() implies is_plumbing(#[trigger] d[i]) by {
                assert(d[i] == hs[i]);
            }
            assert(is_plumbing(hs[hs.len() - 1]));
        }
        if hs.filter(|c: Seq<char>| !is_plumbing(c)).len() == 0 {
            assert forall|i: int| 0 <= i < hs.len() implies is_plumbing(#[trigger] hs[i]) by {
                if i < d.len() {
                    assert(d[i] == hs[i]);
                }
            }
        }
    }
}

/// A name is taken for plumbing only where it is that of a wrapper: in full, or cut at the
/// fifteen characters that the kernel keeps.
pub proof fn law_only_wrappers_are_plumbing(comm: Seq<char>)
    ensures
        comm.len() < 15 ==> (is_plumbing(comm) <==> comm == "bwrap"@ || comm == "dbus-daemon"@ || comm
            == "sh"@ || comm == "bash"@),
        is_plumbing("dbus-run-session"@),
        is_plumbing("dbus-run-sessio"@),
        is_plumbing("veracage-reaper"@),
        comm.len() > 16 ==> !is_plumbing(comm),
{
    reveal_strlit("bwrap");
    reveal_strlit("dbus-run-session");
    reveal_strlit("dbus-run-sessio");
    reveal_strlit("dbus-daemon");
    reveal_strlit("veracage-reaper");
    reveal_strlit("sh");
    reveal_strlit("bash");
    let w = wrappers();
    assert(w[0] == "bwrap"@ && w[1] == "dbus-run-session"@ && w[2] == "dbus-daemon"@ && w[3]
        == "veracage-reaper"@ && w[4] == "sh"@ && w[5] == "bash"@);
    assert("dbus-run-session"@.take(15) =~= "dbus-run-sessio"@);
    assert("dbus-run-sessio"@.is_prefix_of("dbus-run-session"@));
    assert(is_wrapper("dbus-run-sessio"@, w[1]));
    assert(is_wrapper("dbus-run-session"@, w[1]));
    assert(is_wrapper("veracage-reaper"@, w[3]));
    assert("dbus-run-session"@.len() == 16);
    assert("veracage-reaper"@.len() == 15);
    if comm == "bwrap"@ {
        assert(is_wrapper(comm, w[0]));
    }
    if comm == "dbus-daemon"@ {
        assert(is_wrapper(comm, w[2]));
    }
    if comm == "sh"@ {
        assert(is_wrapper(comm, w[4]));
    }
    if comm == "bash"@ {
        assert(is_wrapper(comm, w[5]));
    }
}

} // verus!
