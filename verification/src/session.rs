//! A session: who may run one, how it is recorded and torn down, and how one
//! volume of it is closed.

use vstd::prelude::*;

use crate::lock;
use crate::names;
use crate::process;
use crate::text;

verus! {

// -------------------------------------------------------------- identities ---

/// Why the helper does not know its caller.
#[derive(Clone, Copy, PartialEq, Eq, Debug, Structural)]
pub enum CallerError {
    NotSet,
    NotNumeric,
    Root,
}

/// The caller's uid that a value gives, or why it gives none.
pub open spec fn caller_of(raw: Option<Seq<char>>) -> Result<u32, CallerError> {
    match raw {
        None => Err(CallerError::NotSet),
        Some(s) => match text::unsigned_in(s, u32::MAX as int) {
            None => Err(CallerError::NotNumeric),
            Some(n) => if n == 0 { Err(CallerError::Root) } else { Ok(n as u32) },
        },
    }
}

/// Every user but root is known by the number of its id; root and what is no number are
/// refused, each for its reason.
pub proof fn law_a_caller_is_known_by_its_number(uid: u32, s: Seq<char>)
    ensures
        uid > 0 ==> caller_of(Some(text::decimal(uid as nat))) == Ok::<u32, CallerError>(uid),
        caller_of(Some(text::decimal(0))) == Err::<u32, CallerError>(CallerError::Root),
        caller_of(None) == Err::<u32, CallerError>(CallerError::NotSet),
        s.len() == 0 || (s[0] != '+' && !text::is_digit(s[0])) ==> caller_of(Some(s)) == Err::<
            u32,
            CallerError,
        >(CallerError::NotNumeric),
        caller_of(Some(s)) matches Ok(n) ==> n != 0,
{
    text::lemma_decimal_parses(uid as nat, u32::MAX as int);
    text::lemma_decimal_parses(0, u32::MAX as int);
    if s.len() > 0 && s[0] != '+' && !text::is_digit(s[0]) {
        assert(!text::all_digits(s));
    }
}

/// The caller's uid, from what `pkexec` says of it.
pub fn caller_uid(raw: Option<&str>) -> (r: Result<u32, CallerError>)
    ensures
        r == caller_of(text::opt_str(raw)),
        r == match raw {
            None => Err(CallerError::NotSet),
            Some(s) => match text::unsigned_in(s@, u32::MAX as int) {
                None => Err(CallerError::NotNumeric),
                Some(n) => if n == 0 { Err(CallerError::Root) } else { Ok(n as u32) },
            },
        },
{
    match raw {
        None => Err(CallerError::NotSet),
        Some(s) => match text::parse_unsigned(s, u32::MAX as u64) {
            None => Err(CallerError::NotNumeric),
            Some(n) => if n == 0 {
                Err(CallerError::Root)
            } else {
                Ok(n as u32)
            },
        },
    }
}

/// Why the vault user cannot be run as.
#[derive(Clone, Copy, PartialEq, Eq, Debug, Structural)]
pub enum VaultUserError {
    NotFound,
    Root,
    SameAsCaller,
}

/// The vault user of an entry, or why it cannot be run as.
pub open spec fn vault_user_of(entry: Option<(u32, u32)>, human_uid: u32) -> Result<
    (u32, u32),
    VaultUserError,
> {
    match entry {
        None => Err(VaultUserError::NotFound),
        Some(e) => if e.0 == 0 {
            Err(VaultUserError::Root)
        } else if e.0 == human_uid {
            Err(VaultUserError::SameAsCaller)
        } else {
            Ok(e)
        },
    }
}

/// The vault is run as its own user: as the one of the entry, which is neither root nor the
/// caller, and as no other.
pub proof fn law_the_vault_has_a_user_of_its_own(uid: u32, gid: u32, human_uid: u32)
    ensures
        uid != 0 && uid != human_uid ==> vault_user_of(Some((uid, gid)), human_uid) == Ok::<
            (u32, u32),
            VaultUserError,
        >((uid, gid)),
        uid == 0 ==> vault_user_of(Some((uid, gid)), human_uid) == Err::<(u32, u32), VaultUserError>(
            VaultUserError::Root,
        ),
        uid != 0 && uid == human_uid ==> vault_user_of(Some((uid, gid)), human_uid) == Err::<
            (u32, u32),
            VaultUserError,
        >(VaultUserError::SameAsCaller),
        vault_user_of(None, human_uid) == Err::<(u32, u32), VaultUserError>(VaultUserError::NotFound),
{
}

/// The vault user, from its entry in the user database: neither root nor the
/// caller.
pub fn resolve_vault_user(entry: Option<(u32, u32)>, human_uid: u32) -> (r: Result<
    (u32, u32),
    VaultUserError,
>)
    ensures
        r == vault_user_of(entry, human_uid),
        r == match entry {
            None => Err(VaultUserError::NotFound),
            Some(e) => if e.0 == 0 {
                Err(VaultUserError::Root)
            } else if e.0 == human_uid {
                Err(VaultUserError::SameAsCaller)
            } else {
                Ok(e)
            },
        },
{
    match entry {
        None => Err(VaultUserError::NotFound),
        Some((uid, gid)) => if uid == 0 {
            Err(VaultUserError::Root)
        } else if uid == human_uid {
            Err(VaultUserError::SameAsCaller)
        } else {
            Ok((uid, gid))
        },
    }
}

// ------------------------------------------------------------------- files ---

/// A file of the session `sid`.
pub open spec fn file_path(sid: Seq<char>, ext: Seq<char>) -> Seq<char> {
    "/run/veracage/session-"@ + sid + "."@ + ext
}

/// `file_path`, computed.
pub fn session_file(sid: &str, ext: &str) -> (r: String)
    ensures
        r@ == file_path(sid@, ext@),
{
    let mut s = String::new();
    s.append("/run/veracage/session-");
    s.append(sid);
    s.append(".");
    s.append(ext);
    assert(s@ =~= file_path(sid@, ext@));
    s
}

/// The name of a session's control socket: by the hash of the volume it started
/// with, or by its id where it started with none.
pub open spec fn control_name(hash: Option<Seq<char>>, sid: Seq<char>) -> Seq<char> {
    match hash {
        Some(h) => h + ".sock"@,
        None => "session-"@ + sid + ".sock"@,
    }
}

/// A session's files and sockets are its own: two sessions share none, nor do two kinds of
/// file of one session.
pub proof fn law_a_session_has_its_own_files(
    sid: Seq<char>,
    other: Seq<char>,
    ext: Seq<char>,
    other_ext: Seq<char>,
)
    requires
        names::is_session_id(sid),
        names::is_session_id(other),
    ensures
        file_path(sid, ext) == file_path(other, other_ext) ==> sid == other && ext == other_ext,
        control_name(None, sid) == control_name(None, other) ==> sid == other,
        control_name(Some(sid), other) == sid + ".sock"@,
        file_path(sid, ext).len() == 23 + sid.len() + ext.len(),
{
    reveal_strlit("/run/veracage/session-");
    reveal_strlit(".");
    reveal_strlit("session-");
    reveal_strlit(".sock");
    let p = "/run/veracage/session-"@;
    let a = file_path(sid, ext);
    let b = file_path(other, other_ext);
    if a == b {
        assert(a.skip(p.len() as int) =~= sid + "."@ + ext);
        assert(b.skip(p.len() as int) =~= other + "."@ + other_ext);
        let x = sid + "."@ + ext;
        let y = other + "."@ + other_ext;
        assert(x == y);
        if sid.len() < other.len() {
            assert(x[sid.len() as int] == '.');
            assert(y[sid.len() as int] == other[sid.len() as int]);
            assert(text::is_digit(other[sid.len() as int]));
        }
        if other.len() < sid.len() {
            assert(y[other.len() as int] == '.');
            assert(x[other.len() as int] == sid[other.len() as int]);
            assert(text::is_digit(sid[other.len() as int]));
        }
        assert(x.take(sid.len() as int) =~= sid);
        assert(y.take(sid.len() as int) =~= other);
        assert(x.skip(sid.len() as int + 1) =~= ext);
        assert(y.skip(sid.len() as int + 1) =~= other_ext);
    }
    let c = control_name(None, sid);
    let d = control_name(None, other);
    if c == d {
        assert(c.len() == 8 + sid.len() + 5);
        assert(d.len() == 8 + other.len() + 5);
        assert(c.subrange(8, 8 + sid.len() as int) =~= sid);
        assert(d.subrange(8, 8 + sid.len() as int) =~= other);
    }
}

/// The path of a session's control socket under the caller's runtime directory.
pub fn control_socket(runtime: &str, hash: Option<&str>, sid: &str) -> (r: String)
    ensures
        r@ == names::path_join(
            names::path_join(runtime@, "veracage/sessions"@),
            control_name(
                match hash {
                    Some(h) => Some(h@),
                    None => None,
                },
                sid@,
            ),
        ),
{
    let dir = names::join_path(runtime, "veracage/sessions");
    let mut name = String::new();
    match hash {
        Some(h) => {
            name.append(h);
            name.append(".sock");
            assert(name@ =~= control_name(Some(h@), sid@));
        },
        None => {
            name.append("session-");
            name.append(sid);
            name.append(".sock");
            assert(name@ =~= control_name(None, sid@));
        },
    }
    names::join_path(dir.as_str(), name.as_str())
}

// --------------------------------------------------------------- bootstrap ---

/// The volume that a session starts with.
pub struct FirstVolume {
    pub dm: String,
    pub vhash: String,
    pub skey: String,
}

/// The lock of a session that starts: its header, the volumes of its predecessor
/// that are still open, and its own first volume.
pub open spec fn first_lock(
    uid: nat,
    gen: Seq<char>,
    carried: Seq<Seq<char>>,
    volume: Option<(Seq<char>, Seq<char>, Seq<char>)>,
) -> Seq<char> {
    let base = lock::header_text(uid, gen) + text::unlines(carried);
    match volume {
        Some(v) => base + lock::append_text(false, uid, v.0, seq![], v.1, v.2),
        None => base,
    }
}

/// `first_lock`, computed.
pub fn bootstrap_lock(
    uid: u32,
    gen: &str,
    carried: &Vec<String>,
    volume: &Option<FirstVolume>,
) -> (r: String)
    ensures
        r@ == first_lock(
            uid as nat,
            gen@,
            text::texts(carried@),
            match *volume {
                Some(v) => Some((v.dm@, v.vhash@, v.skey@)),
                None => None,
            },
        ),
{
    let mut s = lock::lock_header(uid, gen);
    let c = lock::lock_lines(carried);
    s.append(c.as_str());
    if let Some(v) = volume {
        let a = lock::lock_append(
            false,
            uid,
            v.dm.as_str(),
            "",
            v.vhash.as_str(),
            v.skey.as_str(),
        );
        proof {
            reveal_strlit("");
            assert(""@ =~= seq![]);
        }
        s.append(a.as_str());
    }
    s
}

/// A session's lock carries its generation, and records the devices that were
/// carried over and then its own.
pub proof fn law_a_session_records_its_devices(
    uid: nat,
    gen: Seq<char>,
    old_body: Seq<char>,
    open: Seq<Seq<char>>,
    dm: Seq<char>,
    vhash: Seq<char>,
    skey: Seq<char>,
)
    requires
        text::is_line(gen),
        text::trimmed(gen) == gen,
        lock::rewritable(old_body),
        lock::is_field(dm),
        lock::is_field(vhash),
        lock::is_field(skey),
        names::is_dm(dm),
    ensures
        ({
            let carried = text::lines(old_body).filter(|l: Seq<char>| lock::survives(l, open));
            let body = first_lock(uid, gen, carried, Some((dm, vhash, skey)));
            &&& lock::generation_of(text::lines(body)) == Some(gen)
            &&& lock::own_dms(body) == lock::own_dms(old_body).filter(|d: Seq<char>| open.contains(d)).push(dm)
        }),
{
    let p = |l: Seq<char>| lock::survives(l, open);
    let ls = text::lines(old_body);
    let carried = ls.filter(p);
    let base = lock::header_text(uid, gen) + text::unlines(carried);
    let add = lock::append_text(false, uid, dm, seq![], vhash, skey);
    lock::law_open_devices_are_carried(old_body, open, uid, gen);
    lock::lemma_filter_keeps_lines(ls, p);
    text::lemma_lines_unlines(carried);
    lock::law_the_generation_reads_back(uid, gen, text::unlines(carried) + add);
    assert(base + add =~= lock::header_text(uid, gen) + (text::unlines(carried) + add));
    if text::unlines(carried).len() > 0 {
        assert(base.last() == text::unlines(carried).last());
    } else {
        assert(base =~= lock::header_text(uid, gen));
    }
    assert(lock::is_field(seq![])) by {
        text::lemma_trimmed_is(seq![]);
    }
    lock::law_a_recorded_volume_is_found(base, uid, dm, seq![], vhash, skey);
}

/// May a session that ended touch the session's files? Only where the lock is
/// still the one that it wrote.
pub fn lock_is_ours(lock_body: Option<&str>, gen: &str) -> (r: bool)
    ensures
        r == match lock_body {
            Some(b) => lock::generation_of(text::lines(b@)) == Some(gen@),
            None => false,
        },
{
    match lock_body {
        Some(b) => match lock::lock_generation(b) {
            Some(g) => text::same(g.as_str(), gen),
            None => false,
        },
        None => false,
    }
}

/// A lock that a successor wrote is not taken for one's own.
pub proof fn law_a_successor_is_left_alone(uid: nat, gen: Seq<char>, rest: Seq<char>, other: Seq<char>)
    requires
        text::is_line(other),
        text::trimmed(other) == other,
        gen != other,
    ensures
        lock::generation_of(text::lines(lock::header_text(uid, other) + rest)) != Some(gen),
{
    lock::law_the_generation_reads_back(uid, other, rest);
}

// ---------------------------------------------------- the same volume twice ---

/// The devices that would show that a source is open already: those recorded for
/// the file it is, and those recorded for the path it is named by.
pub open spec fn guard_dms(body: Seq<char>, skey: Seq<char>, vhash: Seq<char>) -> Seq<Seq<char>> {
    lock::dms_for_source(body, skey) + lock::dms_for_vhash(body, vhash)
}

/// `guard_dms`, computed.
pub fn open_dms(body: &str, skey: &str, vhash: &str) -> (r: Vec<String>)
    ensures
        text::texts(r@) == guard_dms(body@, skey@, vhash@),
{
    let mut a = lock::lock_dms_for_source(body, skey);
    let mut b = lock::lock_dms_for_vhash(body, vhash);
    let ghost x = a@;
    let ghost y = b@;
    a.append(&mut b);
    assert(text::texts(a@) =~= text::texts(x) + text::texts(y));
    a
}

/// Is any of the devices there?
pub open spec fn any_present(candidates: Seq<Seq<char>>, present: Seq<Seq<char>>) -> bool {
    exists|i: int| 0 <= i < candidates.len() && present.contains(#[trigger] candidates[i])
}

/// A volume counts as open where the device of any of its lines is there, and as closed
/// where that of none is.
pub proof fn law_an_open_device_is_enough(candidates: Seq<Seq<char>>, present: Seq<Seq<char>>, dm: Seq<char>)
    ensures
        candidates.contains(dm) && present.contains(dm) ==> any_present(candidates, present),
        any_present(candidates, present) ==> exists|d: Seq<char>| #[trigger]
            candidates.contains(d) && present.contains(d),
        candidates.len() == 0 || present.len() == 0 ==> !any_present(candidates, present),
{
    if candidates.contains(dm) && present.contains(dm) {
        let i = choose|i: int| 0 <= i < candidates.len() && candidates[i] == dm;
        assert(present.contains(candidates[i]));
    }
    if any_present(candidates, present) {
        let i = choose|i: int| 0 <= i < candidates.len() && present.contains(#[trigger] candidates[i]);
        assert(candidates.contains(candidates[i]));
    }
}

/// Is a source open already, where the devices `present` exist?
pub fn already_open(candidates: &Vec<String>, present: &Vec<String>) -> (r: bool)
    ensures
        r == any_present(text::texts(candidates@), text::texts(present@)),
        r == exists|i: int|
            0 <= i < candidates@.len() && text::texts(present@).contains(
                (#[trigger] candidates@[i])@,
            ),
{
    let mut i: usize = 0;
    while i < candidates.len()
        invariant
            i <= candidates@.len(),
            forall|k: int|
                0 <= k < i ==> !text::texts(present@).contains((#[trigger] candidates@[k])@),
        decreases candidates@.len() - i,
    {
        if names::among(present, candidates[i].as_str()) {
            assert(text::texts(present@).contains(text::texts(candidates@)[i as int]));
            return true;
        }
        i = i + 1;
    }
    false
}

/// A volume that was recorded is found by the guard, under another name of the
/// same file as well as under its own path.
pub proof fn law_an_open_volume_is_not_opened_twice(
    body: Seq<char>,
    uid: nat,
    dm: Seq<char>,
    vhash: Seq<char>,
    skey: Seq<char>,
    other_hash: Seq<char>,
    other_key: Seq<char>,
)
    requires
        text::ends_a_line(body),
        lock::is_field(dm),
        lock::is_field(vhash),
        lock::is_field(skey),
        names::is_dm(dm),
        skey.len() > 0,
    ensures
        ({
            let new = body + lock::append_text(false, uid, dm, seq![], vhash, skey);
            &&& guard_dms(new, skey, other_hash).contains(dm)
            &&& guard_dms(new, other_key, vhash).contains(dm)
        }),
{
    assert(lock::is_field(seq![])) by {
        text::lemma_trimmed_is(seq![]);
    }
    lock::law_a_recorded_volume_is_found(body, uid, dm, seq![], vhash, skey);
    let new = body + lock::append_text(false, uid, dm, seq![], vhash, skey);
    let a = lock::dms_for_source(new, skey);
    assert(a[a.len() - 1] == dm);
    assert(guard_dms(new, skey, other_hash)[a.len() - 1] == dm);
    let b = lock::dms_for_vhash(new, vhash);
    let c = lock::dms_for_source(new, other_key);
    assert(guard_dms(new, other_key, vhash)[c.len() + b.len() - 1] == dm);
}

/// A volume that was closed can be opened again: the guard finds none of its
/// lines.
pub proof fn law_a_closed_volume_can_be_reopened(
    body: Seq<char>,
    dm: Seq<char>,
    vhash: Seq<char>,
    skey: Seq<char>,
)
    requires
        lock::rewritable(body),
    ensures
        !guard_dms(lock::without_dm(body, dm), skey, vhash).contains(dm),
{
    lock::law_a_closed_volume_is_forgotten(body, dm, vhash, skey);
    let q = |d: Seq<char>| d != dm;
    let a = lock::dms_for_source(body, skey);
    let b = lock::dms_for_vhash(body, vhash);
    lemma_filtered_out(a, dm);
    lemma_filtered_out(b, dm);
    let g = guard_dms(lock::without_dm(body, dm), skey, vhash);
    if g.contains(dm) {
        let k = choose|k: int| 0 <= k < g.len() && g[k] == dm;
        if k < a.filter(q).len() {
            assert(a.filter(q)[k] == dm);
        } else {
            assert(b.filter(q)[k - a.filter(q).len()] == dm);
        }
    }
}

proof fn lemma_filtered_out(s: Seq<Seq<char>>, dm: Seq<char>)
    ensures
        !s.filter(|d: Seq<char>| d != dm).contains(dm),
    decreases s.len(),
{
    reveal(Seq::filter);
    let q = |d: Seq<char>| d != dm;
    if s.len() > 0 {
        lemma_filtered_out(s.drop_last(), dm);
        let h = s.drop_last().filter(q);
        if s.filter(q).contains(dm) {
            let k = choose|k: int| 0 <= k < s.filter(q).len() && s.filter(q)[k] == dm;
            if k < h.len() {
                assert(h[k] == dm);
            }
        }
    }
}

// ------------------------------------------------------- closing one volume ---

/// The exit code for a decryption that failed.
pub const EXIT_CRYPT_FAILED: i32 = 4;

/// The exit code for a filesystem that needs a repair.
pub const EXIT_FSCK_FAILED: i32 = 5;

/// The exit code for a volume that is still in use.
pub const EXIT_VOLUME_BUSY: i32 = 6;

/// How far the closing of a volume has come.
#[derive(Clone, Copy, PartialEq, Eq, Debug, Structural)]
pub enum Closing {
    /// Its holders are being listed.
    Listing,
    /// The user was told who holds it.
    Asked,
    /// Its holders are being listed again.
    Relisting,
    /// It is being unmounted.
    Unmounting,
    /// Its device is being closed.
    Detaching,
    /// Its device would not close, and it is being mounted again.
    Remounting,
}

/// What happened.
pub enum CloseEvent {
    Holders(Vec<String>),
    /// The caller's answer: go on, or leave it.
    Answer(bool),
    /// Whether the unmount worked.
    Unmounted(bool),
    /// Whether the device is gone.
    Detached(bool),
    /// Whether the volume is mounted where it was.
    Remounted(bool),
}

/// What is done next.
pub enum CloseAction {
    /// Print this, and wait for the caller's answer.
    Report(String),
    List,
    Unmount,
    Detach,
    /// Take the device out of the lock: the volume is closed.
    Forget,
    /// Mount the volume again, where it was.
    Remount,
    /// Print this, and end: the volume is mounted and open, as it was before.
    Busy(String),
    /// Print this, and end: the volume is still open, and no longer mounted.
    Stranded(String),
}

/// The event that a `CloseEvent` stands for.
pub ghost enum News {
    Holders(Seq<Seq<char>>),
    Answer(bool),
    Unmounted(bool),
    Detached(bool),
    Remounted(bool),
}

/// The action that a `CloseAction` stands for.
pub ghost enum Next {
    Report(Seq<char>),
    List,
    Unmount,
    Detach,
    Forget,
    Remount,
    Busy(Seq<char>),
    Stranded(Seq<char>),
}

pub open spec fn news(e: CloseEvent) -> News {
    match e {
        CloseEvent::Holders(h) => News::Holders(text::texts(h@)),
        CloseEvent::Answer(go) => News::Answer(go),
        CloseEvent::Unmounted(ok) => News::Unmounted(ok),
        CloseEvent::Detached(ok) => News::Detached(ok),
        CloseEvent::Remounted(ok) => News::Remounted(ok),
    }
}

pub open spec fn next_of(a: CloseAction) -> Next {
    match a {
        CloseAction::Report(s) => Next::Report(s@),
        CloseAction::List => Next::List,
        CloseAction::Unmount => Next::Unmount,
        CloseAction::Detach => Next::Detach,
        CloseAction::Forget => Next::Forget,
        CloseAction::Remount => Next::Remount,
        CloseAction::Busy(s) => Next::Busy(s@),
        CloseAction::Stranded(s) => Next::Stranded(s@),
    }
}

/// Is the event one that the state waits for?
pub open spec fn awaited(state: Closing, n: News) -> bool {
    match n {
        News::Holders(_) => state == Closing::Listing || state == Closing::Relisting,
        News::Answer(_) => state == Closing::Asked,
        News::Unmounted(_) => state == Closing::Unmounting,
        News::Detached(_) => state == Closing::Detaching,
        News::Remounted(_) => state == Closing::Remounting,
    }
}

/// `awaited`, computed.
pub fn awaits(state: Closing, event: &CloseEvent) -> (r: bool)
    ensures
        r == awaited(state, news(*event)),
{
    match event {
        CloseEvent::Holders(_) => state == Closing::Listing || state == Closing::Relisting,
        CloseEvent::Answer(_) => state == Closing::Asked,
        CloseEvent::Unmounted(_) => state == Closing::Unmounting,
        CloseEvent::Detached(_) => state == Closing::Detaching,
        CloseEvent::Remounted(_) => state == Closing::Remounting,
    }
}

/// The step that follows an event. A volume that nothing holds is unmounted and
/// its device closed; holders are reported once, and the volume is left alone
/// where they stay. Where the device will not close, the volume is mounted again.
pub open spec fn close_next(state: Closing, n: News) -> (Closing, Next) {
    match n {
        News::Holders(h) => if h.len() == 0 {
            (Closing::Unmounting, Next::Unmount)
        } else if state == Closing::Listing {
            (Closing::Asked, Next::Report("holders\t"@ + process::named_holders(h)))
        } else {
            (state, Next::Busy("busy\tan app is still running"@))
        },
        News::Answer(go) => if go {
            (Closing::Relisting, Next::List)
        } else {
            (state, Next::Busy("busy\tcancelled"@))
        },
        News::Unmounted(ok) => if ok {
            (Closing::Detaching, Next::Detach)
        } else {
            (state, Next::Busy("busy\tthe volume is still in use"@))
        },
        News::Detached(ok) => if ok {
            (state, Next::Forget)
        } else {
            (Closing::Remounting, Next::Remount)
        },
        News::Remounted(ok) => if ok {
            (state, Next::Busy("busy\tits device is still in use, so it is still decrypted"@))
        } else {
            (
                state,
                Next::Stranded("busy\tits device is still in use, so it is still decrypted"@),
            )
        },
    }
}

/// `close_next`, computed.
pub fn close_step(state: Closing, event: CloseEvent) -> (r: (Closing, CloseAction))
    requires
        awaited(state, news(event)),
    ensures
        (r.0, next_of(r.1)) == close_next(state, news(event)),
{
    match event {
        CloseEvent::Holders(h) => {
            if h.len() == 0 {
                (Closing::Unmounting, CloseAction::Unmount)
            } else if state == Closing::Listing {
                let mut s = String::new();
                s.append("holders\t");
                let n = process::holder_names(&h);
                s.append(n.as_str());
                assert(s@ =~= "holders\t"@ + process::named_holders(text::texts(h@)));
                (Closing::Asked, CloseAction::Report(s))
            } else {
                (state, CloseAction::Busy("busy\tan app is still running".to_owned()))
            }
        },
        CloseEvent::Answer(go) => {
            if go {
                (Closing::Relisting, CloseAction::List)
            } else {
                (state, CloseAction::Busy("busy\tcancelled".to_owned()))
            }
        },
        CloseEvent::Unmounted(ok) => {
            if ok {
                (Closing::Detaching, CloseAction::Detach)
            } else {
                (state, CloseAction::Busy("busy\tthe volume is still in use".to_owned()))
            }
        },
        CloseEvent::Detached(ok) => {
            if ok {
                (state, CloseAction::Forget)
            } else {
                (Closing::Remounting, CloseAction::Remount)
            }
        },
        CloseEvent::Remounted(ok) => {
            if ok {
                (
                    state,
                    CloseAction::Busy(
                        "busy\tits device is still in use, so it is still decrypted".to_owned(),
                    ),
                )
            } else {
                (
                    state,
                    CloseAction::Stranded(
                        "busy\tits device is still in use, so it is still decrypted".to_owned(),
                    ),
                )
            }
        },
    }
}

/// The exit code that an action ends the close with; none where the close goes on. A
/// volume that stays open is busy, mounted or not.
pub fn close_code(action: &CloseAction) -> (r: Option<i32>)
    ensures
        r == match next_of(*action) {
            Next::Forget => Some(0i32),
            Next::Busy(_) => Some(EXIT_VOLUME_BUSY),
            Next::Stranded(_) => Some(EXIT_VOLUME_BUSY),
            _ => None,
        },
        r is Some <==> is_end(next_of(*action)),
{
    match action {
        CloseAction::Forget => Some(0),
        CloseAction::Busy(_) => Some(EXIT_VOLUME_BUSY),
        CloseAction::Stranded(_) => Some(EXIT_VOLUME_BUSY),
        _ => None,
    }
}

/// A look at the holders decides alone whether a close goes on: in every state that waits
/// for it, a volume that nothing holds is unmounted, and one that is held is not. Holders
/// are named to the user after the first look, and end the close after the second.
pub proof fn law_a_free_volume_is_unmounted(state: Closing, h: Seq<Seq<char>>)
    requires
        awaited(state, News::Holders(h)),
    ensures
        state == Closing::Listing || state == Closing::Relisting,
        h.len() == 0 ==> close_next(state, News::Holders(h)) == (Closing::Unmounting, Next::Unmount),
        h.len() > 0 && state == Closing::Listing ==> {
            let n = close_next(state, News::Holders(h));
            &&& n.0 == Closing::Asked
            &&& n.1 matches Next::Report(s) && text::after_prefix(s, "holders\t"@) == Some(
                process::named_holders(h),
            )
        },
        h.len() > 0 && state == Closing::Relisting ==> {
            let n = close_next(state, News::Holders(h)).1;
            n matches Next::Busy(s) && text::after_prefix(s, "busy\t"@) == Some("an app is still running"@)
        },
{
    reveal_strlit("holders\t");
    reveal_strlit("busy\t");
    reveal_strlit("busy\tan app is still running");
    reveal_strlit("an app is still running");
    let p = "holders\t"@;
    let s = p + process::named_holders(h);
    assert(s.take(p.len() as int) =~= p);
    assert(s.skip(p.len() as int) =~= process::named_holders(h));
    let b = "busy\tan app is still running"@;
    assert(b.take(5) =~= "busy\t"@);
    assert(b.skip(5) =~= "an app is still running"@);
}

/// What a step came to decides how a close goes on: a yes lists the holders again, an
/// unmount is followed by the closing of the device, a closed device ends the close well,
/// and one that stays is followed by the remount. Whatever was refused ends it as busy,
/// with the reason that the caller reads behind `busy`.
pub proof fn law_every_step_is_followed_by_its_own(ok: bool)
    ensures
        ok ==> close_next(Closing::Asked, News::Answer(ok)) == (Closing::Relisting, Next::List),
        ok ==> close_next(Closing::Unmounting, News::Unmounted(ok)) == (
            Closing::Detaching,
            Next::Detach,
        ),
        ok ==> close_next(Closing::Detaching, News::Detached(ok)).1 is Forget,
        !ok ==> close_next(Closing::Detaching, News::Detached(ok)) == (
            Closing::Remounting,
            Next::Remount,
        ),
        !ok ==> busy_because(close_next(Closing::Asked, News::Answer(ok)).1, "cancelled"@),
        !ok ==> busy_because(
            close_next(Closing::Unmounting, News::Unmounted(ok)).1,
            "the volume is still in use"@,
        ),
        busy_because(
            close_next(Closing::Remounting, News::Remounted(ok)).1,
            "its device is still in use, so it is still decrypted"@,
        ),
        close_next(Closing::Remounting, News::Remounted(ok)).1 is Busy <==> ok,
{
    reveal_strlit("busy\t");
    reveal_strlit("busy\tcancelled");
    reveal_strlit("cancelled");
    reveal_strlit("busy\tthe volume is still in use");
    reveal_strlit("the volume is still in use");
    reveal_strlit("busy\tits device is still in use, so it is still decrypted");
    reveal_strlit("its device is still in use, so it is still decrypted");
    let a = "busy\tcancelled"@;
    assert(a.take(5) =~= "busy\t"@);
    assert(a.skip(5) =~= "cancelled"@);
    let b = "busy\tthe volume is still in use"@;
    assert(b.take(5) =~= "busy\t"@);
    assert(b.skip(5) =~= "the volume is still in use"@);
    let c = "busy\tits device is still in use, so it is still decrypted"@;
    assert(c.take(5) =~= "busy\t"@);
    assert(c.skip(5) =~= "its device is still in use, so it is still decrypted"@);
}

/// The action ends the close and gives the caller this reason.
pub open spec fn busy_because(n: Next, why: Seq<char>) -> bool {
    match n {
        Next::Busy(s) => text::after_prefix(s, "busy\t"@) == Some(why),
        Next::Stranded(s) => text::after_prefix(s, "busy\t"@) == Some(why),
        _ => false,
    }
}

/// A volume that was held is closed once its holders are gone: whoever held it at first,
/// a yes and a second look that finds nobody lead to the unmount, and from there to the
/// end, as for a volume that nobody held.
pub proof fn law_a_held_volume_can_be_closed(h: Seq<Seq<char>>)
    requires
        h.len() > 0,
    ensures
        ({
            let free = News::Holders(seq![]);
            let done = seq![News::Unmounted(true), News::Detached(true)];
            let held = seq![News::Holders(h), News::Answer(true), free];
            &&& is_run(seq![free] + done)
            &&& next_after(seq![free] + done) is Forget
            &&& is_run(held)
            &&& next_after(held) is Unmount
            &&& is_run(held + done)
            &&& next_after(held + done) is Forget
        }),
{
    let free = News::Holders(seq![]);
    let e: Seq<News> = seq![];
    lemma_run_step(e, free);
    let f1 = e.push(free);
    lemma_run_step(f1, News::Unmounted(true));
    let f2 = f1.push(News::Unmounted(true));
    lemma_run_step(f2, News::Detached(true));
    let done = seq![News::Unmounted(true), News::Detached(true)];
    assert(seq![free] + done =~= f2.push(News::Detached(true)));
    lemma_run_step(e, News::Holders(h));
    let h1 = e.push(News::Holders(h));
    lemma_run_step(h1, News::Answer(true));
    let h2 = h1.push(News::Answer(true));
    lemma_run_step(h2, free);
    let h3 = h2.push(free);
    assert(seq![News::Holders(h), News::Answer(true), free] =~= h3);
    lemma_run_step(h3, News::Unmounted(true));
    let h4 = h3.push(News::Unmounted(true));
    lemma_run_step(h4, News::Detached(true));
    assert(h3 + done =~= h4.push(News::Detached(true)));
}

proof fn lemma_run_step(ev: Seq<News>, n: News)
    ensures
        state_after(ev.push(n)) == close_next(state_after(ev), n).0,
        next_after(ev.push(n)) == close_next(state_after(ev), n).1,
        is_run(ev) && awaited(state_after(ev), n) && !is_end(next_after(ev)) ==> is_run(ev.push(n)),
        ev.len() == 0 ==> is_run(ev) && state_after(ev) == Closing::Listing,
{
    assert(ev.push(n).drop_last() =~= ev);
}

/// A look at the holders that found none.
pub open spec fn found_free(n: News) -> bool {
    match n {
        News::Holders(h) => h.len() == 0,
        _ => false,
    }
}

/// The state after the events `ev`, one of which every state waited for.
pub open spec fn state_after(ev: Seq<News>) -> Closing
    decreases ev.len(),
{
    if ev.len() == 0 {
        Closing::Listing
    } else {
        close_next(state_after(ev.drop_last()), ev.last()).0
    }
}

/// What is done after the events `ev`.
pub open spec fn next_after(ev: Seq<News>) -> Next {
    if ev.len() == 0 {
        Next::List
    } else {
        close_next(state_after(ev.drop_last()), ev.last()).1
    }
}

/// Nothing follows this action.
pub open spec fn is_end(n: Next) -> bool {
    n is Forget || n is Busy || n is Stranded
}

/// Every event came to a state that waited for it, and none after the end.
pub open spec fn is_run(ev: Seq<News>) -> bool
    decreases ev.len(),
{
    ev.len() > 0 ==> {
        &&& is_run(ev.drop_last())
        &&& awaited(state_after(ev.drop_last()), ev.last())
        &&& !is_end(next_after(ev.drop_last()))
    }
}

/// Is the volume mounted after `ev`? It is when the close begins.
pub open spec fn is_mounted(ev: Seq<News>) -> bool
    decreases ev.len(),
{
    if ev.len() == 0 {
        true
    } else {
        match ev.last() {
            News::Unmounted(ok) => if ok {
                false
            } else {
                is_mounted(ev.drop_last())
            },
            News::Remounted(ok) => if ok {
                true
            } else {
                is_mounted(ev.drop_last())
            },
            _ => is_mounted(ev.drop_last()),
        }
    }
}

/// Is its device closed after `ev`?
pub open spec fn is_detached(ev: Seq<News>) -> bool {
    exists|k: int| 0 <= k < ev.len() && #[trigger] ev[k] == News::Detached(true)
}

/// A volume is either closed or untouched. A close that ends as refused leaves it mounted
/// and its device open; one that ends well leaves it unmounted and its device closed. The
/// one other end is that the device would not close and the volume could not be mounted
/// again, and that end has its own name.
pub proof fn law_a_volume_is_closed_or_untouched(ev: Seq<News>)
    requires
        is_run(ev),
    ensures
        next_after(ev) is Busy ==> is_mounted(ev) && !is_detached(ev),
        next_after(ev) is Forget ==> !is_mounted(ev) && is_detached(ev),
        next_after(ev) is Stranded ==> !is_mounted(ev) && !is_detached(ev),
        next_after(ev) is Stranded <==> ev.len() > 0 && ev.last() == News::Remounted(false),
        !is_mounted(ev) && !is_end(next_after(ev)) ==> next_after(ev) is Detach || next_after(ev) is Remount,
{
    lemma_mounted(ev);
}

proof fn lemma_mounted(ev: Seq<News>)
    requires
        is_run(ev),
    ensures
        is_detached(ev) == (ev.len() > 0 && ev.last() == News::Detached(true)),
        match state_after(ev) {
            Closing::Detaching => !is_mounted(ev),
            Closing::Remounting => is_mounted(ev) == (ev.last() == News::Remounted(true)),
            _ => is_mounted(ev),
        },
        state_after(ev) == Closing::Detaching ==> ev.len() > 0 && (ev.last() == News::Unmounted(true)
            || ev.last() == News::Detached(true)),
        state_after(ev) == Closing::Remounting ==> ev.len() > 0 && (ev.last() == News::Detached(false)
            || ev.last() is Remounted),
        state_after(ev) == Closing::Listing ==> ev.len() == 0,
    decreases ev.len(),
{
    if ev.len() > 0 {
        let d = ev.drop_last();
        lemma_mounted(d);
        if ev.last() == News::Detached(true) {
            assert(ev[ev.len() - 1] == News::Detached(true));
        }
        if is_detached(ev) {
            let k = choose|k: int| 0 <= k < ev.len() && #[trigger] ev[k] == News::Detached(true);
            if k < d.len() {
                assert(d[k] == News::Detached(true));
            }
        }
        if is_detached(d) {
            assert(next_after(d) is Forget);
        }
    }
}

/// A volume is unmounted only right after a look that found no holder, and its
/// device closed only after that. So a close that gives up earlier has touched
/// nothing, and one that ends well has unmounted the volume and closed its device.
pub proof fn law_a_close_touches_only_a_free_volume(ev: Seq<News>)
    requires
        is_run(ev),
        ev.len() > 0,
    ensures
        ({
            let n = close_next(state_after(ev.drop_last()), ev.last()).1;
            &&& n is Unmount ==> found_free(ev.last())
            &&& n is Detach || n is Forget ==> exists|k: int|
                0 < k < ev.len() && #[trigger] ev[k] == News::Unmounted(true) && found_free(ev[k - 1])
            &&& n is Forget ==> ev.last() == News::Detached(true)
        }),
{
    lemma_run_state(ev.drop_last());
    let s = state_after(ev.drop_last());
    let d = ev.drop_last();
    if s == Closing::Unmounting && ev.last() == News::Unmounted(true) {
        assert(ev[ev.len() - 1] == News::Unmounted(true));
        assert(ev[ev.len() - 2] == d.last());
    }
    if s == Closing::Detaching {
        let k = choose|k: int|
            0 < k < d.len() && #[trigger] d[k] == News::Unmounted(true) && found_free(d[k - 1]);
        assert(ev[k] == d[k] && ev[k - 1] == d[k - 1]);
    }
}

proof fn lemma_run_state(ev: Seq<News>)
    requires
        is_run(ev),
    ensures
        state_after(ev) == Closing::Unmounting ==> ev.len() > 0 && found_free(ev.last()) || ev.len() > 0 && ev.last() == News::Unmounted(false),
        state_after(ev) == Closing::Detaching ==> exists|k: int|
            0 < k < ev.len() && #[trigger] ev[k] == News::Unmounted(true) && found_free(ev[k - 1]),
    decreases ev.len(),
{
    if ev.len() > 0 {
        let d = ev.drop_last();
        lemma_run_state(d);
        if state_after(ev) == Closing::Detaching {
            if ev.last() == News::Unmounted(true) {
                assert(d.last() == ev[ev.len() - 2]);
                assert(ev[ev.len() - 1] == News::Unmounted(true));
            } else {
                let k = choose|k: int|
                    0 < k < d.len() && #[trigger] d[k] == News::Unmounted(true) && found_free(d[k - 1]);
                assert(ev[k] == d[k] && ev[k - 1] == d[k - 1]);
            }
        }
    }
}

// ------------------------------------------------------------ the answer `go` ---

/// How much of an answer is read before it is given up.
pub const GO_LIMIT: usize = 32;

/// What the bytes read so far come to.
#[derive(Clone, Copy, PartialEq, Eq, Debug, Structural)]
pub enum Answer {
    /// No line yet.
    Wait,
    /// The line `go`.
    Go,
    /// Anything else.
    Refuse,
}

/// The index of the first line feed in `b`, or its length.
pub open spec fn first_line_feed(b: Seq<u8>) -> int
    decreases b.len(),
{
    if b.len() == 0 {
        0
    } else if b[0] == 10 {
        0
    } else {
        1 + first_line_feed(b.skip(1))
    }
}

/// What the bytes `b` come to, of which the last `n` were read just now.
pub open spec fn answer(b: Seq<u8>, n: nat) -> Answer {
    if n == 0 {
        Answer::Refuse
    } else if first_line_feed(b) < b.len() {
        if b.take(first_line_feed(b)) == seq![103u8, 111u8] { Answer::Go } else { Answer::Refuse }
    } else if b.len() >= GO_LIMIT {
        Answer::Refuse
    } else {
        Answer::Wait
    }
}

proof fn lemma_first_line_feed(b: Seq<u8>, i: int)
    requires
        0 <= i <= b.len(),
        forall|k: int| 0 <= k < i ==> #[trigger] b[k] != 10,
        i < b.len() ==> b[i] == 10,
    ensures
        first_line_feed(b) == i,
    decreases b.len(),
{
    if i > 0 {
        assert(b[0] != 10);
        lemma_first_line_feed(b.skip(1), i - 1);
    }
}

/// Adds the bytes just read (none: the end of the input) to the answer.
pub fn take_answer(line: &mut Vec<u8>, chunk: &Vec<u8>) -> (r: Answer)
    ensures
        final(line)@ == old(line)@ + chunk@,
        r == answer(old(line)@ + chunk@, chunk@.len()),
{
    let mut j: usize = 0;
    while j < chunk.len()
        invariant
            j <= chunk@.len(),
            line@ =~= old(line)@ + chunk@.take(j as int),
        decreases chunk@.len() - j,
    {
        line.push(chunk[j]);
        j = j + 1;
    }
    assert(line@ =~= old(line)@ + chunk@);
    if chunk.len() == 0 {
        return Answer::Refuse;
    }
    let mut i: usize = 0;
    while i < line.len() && line[i] != 10
        invariant
            i <= line@.len(),
            forall|k: int| 0 <= k < i ==> #[trigger] line@[k] != 10,
        decreases line@.len() - i,
    {
        i = i + 1;
    }
    proof {
        lemma_first_line_feed(line@, i as int);
    }
    if i < line.len() {
        if i == 2 && line[0] == 103 && line[1] == 111 {
            assert(line@.take(2) =~= seq![103u8, 111u8]);
            Answer::Go
        } else {
            proof {
                if line@.take(i as int) == seq![103u8, 111u8] {
                    assert(line@.take(i as int).len() == seq![103u8, 111u8].len());
                    assert(line@.take(i as int)[0] == line@[0]);
                    assert(line@.take(i as int)[1] == line@[1]);
                }
            }
            Answer::Refuse
        }
    } else if line.len() >= GO_LIMIT {
        Answer::Refuse
    } else {
        Answer::Wait
    }
}

/// How long an answer is polled for, in milliseconds.
pub open spec fn slice_of(left_ms: int, session_gone: bool) -> Option<int> {
    if left_ms == 0 || session_gone {
        None
    } else if left_ms < 1000 {
        Some(left_ms)
    } else {
        Some(1000)
    }
}

/// An answer is waited for as long as there is time and a session, and the session is
/// looked at once a second: never later, and never past the end of the time.
pub proof fn law_an_answer_is_waited_for_in_slices(left_ms: int, gone: bool)
    requires
        left_ms >= 0,
    ensures
        slice_of(left_ms, gone) is Some <==> left_ms > 0 && !gone,
        slice_of(left_ms, gone) matches Some(n) ==> 0 < n <= 1000 && n <= left_ms && (n == left_ms || n == 1000),
{
}

/// How long to poll for the answer, in milliseconds: nothing where the time is
/// up or the session is gone, and never more than a second.
pub fn poll_slice(left_ms: u64, session_gone: bool) -> (r: Option<i32>)
    ensures
        match r { Some(n) => slice_of(left_ms as int, session_gone) == Some(n as int), None => slice_of(left_ms as int, session_gone) is None },
        r == if left_ms == 0 || session_gone {
            None
        } else if left_ms < 1000 {
            Some(left_ms as i32)
        } else {
            Some(1000i32)
        },
{
    if left_ms == 0 || session_gone {
        None
    } else if left_ms < 1000 {
        Some(left_ms as i32)
    } else {
        Some(1000)
    }
}

/// Only the line `go` lets a close go on: whatever else was sent, and however it
/// was cut into pieces, the answer is a refusal or still open.
pub proof fn law_only_go_goes_on(b: Seq<u8>, n: nat)
    ensures
        answer(b, n) == Answer::Go ==> b.len() >= 3 && b[0] == 103 && b[1] == 111 && b[2] == 10,
        b.len() >= 3 && b[0] == 103 && b[1] == 111 && b[2] == 10 && n > 0 ==> answer(b, n) == Answer::Go,
        answer(b, n) == Answer::Wait ==> b.len() < GO_LIMIT,
{
    let i = first_line_feed(b);
    lemma_first_line_feed_bounds(b);
    if answer(b, n) == Answer::Go {
        let l = b.take(i);
        assert(l.len() == 2);
        assert(l[0] == b[0] && l[1] == b[1]);
    }
    if b.len() >= 3 && b[0] == 103 && b[1] == 111 && b[2] == 10 {
        lemma_first_line_feed(b, 2);
        assert(b.take(2) =~= seq![103u8, 111u8]);
    }
}

proof fn lemma_first_line_feed_bounds(b: Seq<u8>)
    ensures
        0 <= first_line_feed(b) <= b.len(),
        first_line_feed(b) < b.len() ==> b[first_line_feed(b)] == 10,
    decreases b.len(),
{
    if b.len() > 0 && b[0] != 10 {
        lemma_first_line_feed_bounds(b.skip(1));
    }
}

/// How long the closing of a device is tried, and how often, in milliseconds.
pub const CLOSE_RETRY_FOR_MS: u64 = 5000;

pub const CLOSE_RETRY_EVERY_MS: u64 = 200;

/// What a try to close a device came to.
pub open spec fn try_of(gone: bool, elapsed_ms: int) -> Option<bool> {
    if gone {
        Some(true)
    } else if elapsed_ms >= CLOSE_RETRY_FOR_MS {
        Some(false)
    } else {
        None
    }
}

/// A device that is gone is closed, however long it took; one that stays is given up after
/// five seconds, and not before.
pub proof fn law_a_device_is_tried_for_five_seconds(elapsed_ms: int)
    ensures
        try_of(true, elapsed_ms) == Some(true),
        try_of(false, elapsed_ms) == Some(false) <==> elapsed_ms >= 5000,
        try_of(false, elapsed_ms) is None <==> elapsed_ms < 5000,
{
}

/// What a try to close a device came to: done, given up, or none of these yet.
pub fn close_tried(gone: bool, elapsed_ms: u64) -> (r: Option<bool>)
    ensures
        r == try_of(gone, elapsed_ms as int),
        r == if gone {
            Some(true)
        } else if elapsed_ms >= CLOSE_RETRY_FOR_MS {
            Some(false)
        } else {
            None
        },
{
    if gone {
        Some(true)
    } else if elapsed_ms >= CLOSE_RETRY_FOR_MS {
        Some(false)
    } else {
        None
    }
}

/// What is removed when a session ends: its directories and its socket, its pid file, and
/// its lock.
#[derive(Clone, Copy, PartialEq, Eq, Structural, Debug)]
pub struct Teardown {
    pub runtime: bool,
    pub pid_file: bool,
    pub lock: bool,
}

/// Where another session took over the lock, nothing is touched. A lock stays while any
/// of its devices is open, and a pid file that names another process.
pub open spec fn teardown_of(ours: bool, pid_is_ours: bool, all_closed: bool) -> Teardown {
    Teardown { runtime: ours, pid_file: ours && pid_is_ours, lock: ours && all_closed }
}

/// A session that ends removes what is its own, and only that: its directories and socket
/// where the lock is still its own, the pid file where that names it too, and the lock
/// once every device is closed.
pub proof fn law_a_session_cleans_up_after_itself(ours: bool, pid_is_ours: bool, all_closed: bool)
    ensures
        ({
            let t = teardown_of(ours, pid_is_ours, all_closed);
            &&& t.runtime <==> ours
            &&& t.pid_file <==> ours && pid_is_ours
            &&& t.lock <==> ours && all_closed
        }),
{
}

/// `teardown_of`, computed.
pub fn teardown(ours: bool, pid_is_ours: bool, all_closed: bool) -> (r: Teardown)
    ensures
        r == teardown_of(ours, pid_is_ours, all_closed),
{
    Teardown { runtime: ours, pid_file: ours && pid_is_ours, lock: ours && all_closed }
}

/// The record of an open device is never lost: a lock is removed only by the session that
/// wrote it, and only when all its devices are closed.
pub proof fn law_a_lock_outlives_open_devices(ours: bool, pid_is_ours: bool, all_closed: bool)
    ensures
        teardown_of(ours, pid_is_ours, all_closed).lock ==> ours && all_closed,
{
}

/// Every event and every action stands for itself.
pub proof fn law_an_action_stands_for_itself(a: CloseAction, e: CloseEvent)
    ensures
        a is List <==> next_of(a) is List,
        a is Unmount <==> next_of(a) is Unmount,
        a is Detach <==> next_of(a) is Detach,
        a is Forget <==> next_of(a) is Forget,
        a is Remount <==> next_of(a) is Remount,
        a matches CloseAction::Report(s) ==> next_of(a) == Next::Report(s@),
        a matches CloseAction::Busy(s) ==> next_of(a) == Next::Busy(s@),
        a matches CloseAction::Stranded(s) ==> next_of(a) == Next::Stranded(s@),
        e matches CloseEvent::Holders(h) ==> news(e) == News::Holders(text::texts(h@)),
        e matches CloseEvent::Answer(b) ==> news(e) == News::Answer(b),
        e matches CloseEvent::Unmounted(b) ==> news(e) == News::Unmounted(b),
        e matches CloseEvent::Detached(b) ==> news(e) == News::Detached(b),
        e matches CloseEvent::Remounted(b) ==> news(e) == News::Remounted(b),
{
}

} // verus!
