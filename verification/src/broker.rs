//! What the session's broker decides: what a menu command starts, how a dismount goes
//! on, and when the session is over.

use vstd::prelude::*;

use crate::apps;
use crate::apps::{app_texts, App, AppText};
use crate::names;
use crate::path;
use crate::session;
use crate::text;
use crate::volume;

verus! {

// -------------------------------------------------------------- commands ---

/// What a command of the menu asks for.
pub enum Action {
    CloseVolume(String),
    Open,
    Dialog(String),
    Exchange,
    Unknown,
}

/// What a command of the menu asks for, as values.
pub ghost enum Deed {
    CloseVolume(Seq<char>),
    Open,
    Dialog(Seq<char>),
    Exchange,
    Unknown,
}

impl View for Action {
    type V = Deed;

    open spec fn view(&self) -> Deed {
        match self {
            Action::CloseVolume(l) => Deed::CloseVolume(l@),
            Action::Open => Deed::Open,
            Action::Dialog(d) => Deed::Dialog(d@),
            Action::Exchange => Deed::Exchange,
            Action::Unknown => Deed::Unknown,
        }
    }
}

/// The dialog that a verb opens.
pub open spec fn dialog_of(verb: Seq<char>) -> Option<Seq<char>> {
    if verb == "configure"@ {
        Some("configure"@)
    } else if verb == "settings"@ {
        Some("_settings"@)
    } else if verb == "appearance"@ {
        Some("_appearance"@)
    } else if verb == "shortcuts"@ {
        Some("_shortcuts"@)
    } else if verb == "about"@ {
        Some("_about"@)
    } else if verb == "help"@ {
        Some("_help"@)
    } else {
        None
    }
}

/// What a verb asks for.
pub open spec fn deed_of(verb: Seq<char>) -> Deed {
    match text::after_prefix(verb, "close-volume:"@) {
        Some(label) => Deed::CloseVolume(label),
        None => if verb == "open"@ {
            Deed::Open
        } else if verb == "exchange"@ {
            Deed::Exchange
        } else {
            match dialog_of(verb) {
                Some(d) => Deed::Dialog(d),
                None => Deed::Unknown,
            }
        },
    }
}

/// `deed_of`, computed.
pub fn dispatch(verb: &str) -> (r: Action)
    ensures
        r@ == deed_of(verb@),
{
    if let Some(label) = text::strip(verb, "close-volume:") {
        return Action::CloseVolume(label);
    }
    if text::same(verb, "open") {
        Action::Open
    } else if text::same(verb, "exchange") {
        Action::Exchange
    } else if text::same(verb, "configure") {
        Action::Dialog("configure".to_owned())
    } else if text::same(verb, "settings") {
        Action::Dialog("_settings".to_owned())
    } else if text::same(verb, "appearance") {
        Action::Dialog("_appearance".to_owned())
    } else if text::same(verb, "shortcuts") {
        Action::Dialog("_shortcuts".to_owned())
    } else if text::same(verb, "about") {
        Action::Dialog("_about".to_owned())
    } else if text::same(verb, "help") {
        Action::Dialog("_help".to_owned())
    } else {
        Action::Unknown
    }
}

/// Is a dialog opened? Not where one of its kind is open: each writes the whole
/// configuration, so two of them would undo each other.
pub fn dialog_opens(open: &Vec<String>, kind: &str) -> (r: bool)
    ensures
        r == !text::texts(open@).contains(kind@),
{
    !names::among(open, kind)
}

/// The arguments that open a volume, with the passphrase on standard input.
pub fn open_args(volume: &str, app: Option<&str>) -> (r: Vec<String>)
    ensures
        text::texts(r@) == match app {
            Some(a) => seq!["open"@, volume@, a@, "--passphrase-stdin"@],
            None => seq!["open"@, volume@, "--passphrase-stdin"@],
        },
{
    let mut v: Vec<String> = Vec::new();
    v.push("open".to_owned());
    v.push(volume.to_owned());
    if let Some(a) = app {
        v.push(a.to_owned());
    }
    v.push("--passphrase-stdin".to_owned());
    assert(text::texts(v@) =~= match app {
        Some(a) => seq!["open"@, volume@, a@, "--passphrase-stdin"@],
        None => seq!["open"@, volume@, "--passphrase-stdin"@],
    });
    v
}

/// The note of progress while a volume is unlocked.
pub fn unlocking_note(volume: &str) -> (r: String)
    ensures
        r@ == "Unlocking "@ + path::base_name(volume@),
{
    let mut s = "Unlocking ".to_owned();
    let b = path::basename(volume);
    s.append(b.as_str());
    s
}

// ----------------------------------------------------------- the children ---

/// How the opening of a volume ended.
pub enum Opened {
    Done,
    Retry,
    Failed(String),
}

/// How the opening of a volume ended, as values.
pub ghost enum Ending {
    Done,
    Retry,
    Failed(Seq<char>),
}

impl View for Opened {
    type V = Ending;

    open spec fn view(&self) -> Ending {
        match self {
            Opened::Done => Ending::Done,
            Opened::Retry => Ending::Retry,
            Opened::Failed(m) => Ending::Failed(m@),
        }
    }
}

/// What the exit code of an opening means: a wrong passphrase is asked for again, a
/// cancelled authentication is no news, and any other failure is reported.
pub open spec fn ending(code: Option<i32>, volume: Seq<char>) -> Ending {
    match code {
        None => Ending::Done,
        Some(c) => if c == 0 || c == 126 || c == 127 {
            Ending::Done
        } else if c == session::EXIT_CRYPT_FAILED {
            Ending::Retry
        } else if c == session::EXIT_FSCK_FAILED {
            Ending::Failed(
                path::base_name(volume) + " was not opened: its filesystem needs a repair."@,
            )
        } else {
            Ending::Failed(
                "Could not open "@ + path::base_name(volume) + " (exit "@ + volume::signed_decimal(
                    c as int,
                ) + ")."@,
            )
        },
    }
}

/// `ending`, computed.
pub fn open_outcome(code: Option<i32>, volume: &str) -> (r: Opened)
    ensures
        r@ == ending(code, volume@),
{
    match code {
        None => Opened::Done,
        Some(c) => {
            if c == 0 || c == 126 || c == 127 {
                Opened::Done
            } else if c == session::EXIT_CRYPT_FAILED {
                Opened::Retry
            } else if c == session::EXIT_FSCK_FAILED {
                let mut s = path::basename(volume);
                s.append(" was not opened: its filesystem needs a repair.");
                Opened::Failed(s)
            } else {
                let mut s = "Could not open ".to_owned();
                let b = path::basename(volume);
                s.append(b.as_str());
                s.append(" (exit ");
                let d = volume::signed_decimal_of(c);
                s.append(d.as_str());
                s.append(").");
                Opened::Failed(s)
            }
        },
    }
}

/// The report of a volume that stayed open.
pub open spec fn not_closed(label: Seq<char>, why: Option<Seq<char>>) -> Seq<char> {
    label + " was not closed: "@ + (match why {
        Some(w) => w,
        None => "it is still in use"@,
    }) + seq!['.']
}

// ------------------------------------------------------------- dismounts ---

/// Waiting for the applications that hold a volume to be gone.
pub struct AppsWait {
    /// When the signal for it last came before it was asked for.
    pub asked_at: Option<u128>,
    /// When the waiting ends, in milliseconds.
    pub deadline: u128,
}

/// How far the closing of a volume has got.
pub struct Dismount {
    pub label: String,
    /// Set while the applications are being closed.
    pub waiting: Option<AppsWait>,
    /// The question whether to close them is on screen.
    pub asking: bool,
    /// The helper can still be answered.
    pub answerable: bool,
    /// The human does not want the volume closed.
    pub cancelled: bool,
    /// Why the helper last gave up.
    pub refusal: Option<String>,
}

/// How far the closing of a volume has got, as values.
pub ghost struct Progress {
    pub label: Seq<char>,
    pub waiting: Option<(Option<u128>, int)>,
    pub asking: bool,
    pub answerable: bool,
    pub cancelled: bool,
    pub refusal: Option<Seq<char>>,
}

impl View for Dismount {
    type V = Progress;

    open spec fn view(&self) -> Progress {
        Progress {
            label: self.label@,
            waiting: match self.waiting {
                Some(w) => Some((w.asked_at, w.deadline as int)),
                None => None,
            },
            asking: self.asking,
            answerable: self.answerable,
            cancelled: self.cancelled,
            refusal: text::opt(self.refusal),
        }
    }
}

/// How long the applications are waited for, in milliseconds.
pub const APPS_CLOSED_WAIT: u128 = 180_000;

/// How a question that was on screen ended.
#[derive(Clone, Copy, PartialEq, Eq, Structural, Debug)]
pub enum Reply {
    Yes,
    No,
    /// The tool failed; nobody answered.
    ToolFailed,
}

/// How a question ended, by the exit of the tool that asked it.
pub open spec fn reply_for(success: bool, code: Option<i32>) -> Reply {
    if success {
        Reply::Yes
    } else if code == Some(1i32) {
        Reply::No
    } else {
        Reply::ToolFailed
    }
}

/// Only a tool that ended well says yes; only the code that both tools use for it says no;
/// a tool that failed or was killed says neither.
pub proof fn law_only_an_answer_is_an_answer(success: bool, code: Option<i32>)
    ensures
        reply_for(success, code) == Reply::Yes <==> success,
        reply_for(success, code) == Reply::No <==> !success && code == Some(1i32),
{
}

/// What the exit of the tool that asks says: both tools answer no with 1.
pub fn reply_of(success: bool, code: Option<i32>) -> (r: Reply)
    ensures
        r == reply_for(success, code),
        r == if success {
            Reply::Yes
        } else if code == Some(1i32) {
            Reply::No
        } else {
            Reply::ToolFailed
        },
{
    if success {
        return Reply::Yes;
    }
    match code {
        Some(c) => if c == 1 {
            Reply::No
        } else {
            Reply::ToolFailed
        },
        None => Reply::ToolFailed,
    }
}

/// What the broker has to do for a dismount.
#[derive(Clone, Copy, PartialEq, Eq, Structural, Debug)]
pub enum Move {
    /// Nothing.
    Rest,
    /// Ask the session to close the applications.
    CloseApps,
    /// Put the question up with the next tool.
    AskAgain,
    /// Tell the helper to go on.
    Go,
    /// Hang up on the helper, which then leaves the volume as it is.
    HangUp,
}

/// The closing of a volume that has just begun.
pub open spec fn begun(label: Seq<char>) -> Progress {
    Progress {
        label,
        waiting: None,
        asking: false,
        answerable: true,
        cancelled: false,
        refusal: None,
    }
}

/// What happens to a dismount.
pub ghost enum Happening {
    /// The helper wrote a line.
    Line(Seq<char>),
    /// The helper is gone, and a line of it was still to be read.
    LastWord(Seq<char>),
    /// The question is on screen, or cannot be put there.
    Asked(bool),
    /// The tool that asks has ended. With it comes when the signal that the applications
    /// are gone last came, and the time.
    Answered(Reply, Option<u128>, int),
    /// The question is taken down.
    Aborted,
    /// Some time has passed: when the signal last came, and the time.
    Tick(Option<u128>, int),
}

/// After a line that gives a reason, which is kept.
pub open spec fn with_reason(p: Progress, line: Seq<char>) -> Progress {
    match text::after_prefix(line, "busy\t"@) {
        Some(why) => Progress { refusal: Some(why), ..p },
        None => p,
    }
}

/// Is there a signal that was not there when it was asked for?
pub open spec fn signalled(asked_at: Option<u128>, signal: Option<u128>) -> bool {
    signal is Some && signal != asked_at
}

/// What the waiting for the applications comes to. A helper that cannot be answered any
/// more is told nothing.
pub open spec fn waited(p: Progress, signal: Option<u128>, now_ms: int) -> (Progress, Move) {
    match p.waiting {
        None => (p, Move::Rest),
        Some((asked_at, deadline)) => if signalled(asked_at, signal) {
            (
                Progress { waiting: None, answerable: false, ..p },
                if p.answerable { Move::Go } else { Move::Rest },
            )
        } else if now_ms >= deadline {
            (Progress { waiting: None, answerable: false, ..p }, Move::HangUp)
        } else {
            (p, Move::Rest)
        },
    }
}

/// What an answer comes to, where one was waited for. After a yes the applications are
/// closed and waited for.
pub open spec fn replied(p: Progress, reply: Reply, signal: Option<u128>, now_ms: int) -> (
    Progress,
    Move,
) {
    if !p.asking {
        (p, Move::Rest)
    } else {
        match reply {
            Reply::Yes => (
                Progress {
                    asking: false,
                    waiting: Some((signal, now_ms + APPS_CLOSED_WAIT)),
                    ..p
                },
                Move::CloseApps,
            ),
            Reply::No => (
                Progress { asking: false, cancelled: true, answerable: false, ..p },
                Move::HangUp,
            ),
            Reply::ToolFailed => (Progress { asking: false, ..p }, Move::AskAgain),
        }
    }
}

/// What follows something that happened: how far the dismount has got then, and what the
/// broker has to do.
pub open spec fn follows(p: Progress, h: Happening) -> (Progress, Move) {
    match h {
        Happening::Line(l) => (
            if text::after_prefix(l, "holders\t"@) is Some { p } else { with_reason(p, l) },
            Move::Rest,
        ),
        Happening::LastWord(l) => (with_reason(p, l), Move::Rest),
        Happening::Asked(on_screen) => if on_screen {
            (Progress { asking: true, ..p }, Move::Rest)
        } else {
            (Progress { cancelled: true, answerable: false, ..p }, Move::HangUp)
        },
        Happening::Answered(reply, signal, now_ms) => replied(p, reply, signal, now_ms),
        Happening::Aborted => (Progress { asking: false, ..p }, Move::Rest),
        Happening::Tick(signal, now_ms) => waited(p, signal, now_ms),
    }
}

/// What is reported of a dismount that ended with this code.
pub open spec fn reported(p: Progress, code: Option<i32>) -> Option<Seq<char>> {
    if code == Some(session::EXIT_VOLUME_BUSY) && !p.cancelled {
        Some(not_closed(p.label, p.refusal))
    } else {
        None
    }
}

/// A volume that stayed open is reported by its label, unless the human wanted it so; a
/// close that ended otherwise is not.
pub proof fn law_a_volume_that_stayed_open_is_reported(p: Progress, code: Option<i32>)
    ensures
        code == Some(6i32) && !p.cancelled ==> reported(p, code) is Some && p.label.is_prefix_of(
            reported(p, code)->0,
        ),
        code == Some(6i32) && !p.cancelled && p.refusal is Some ==> text::occurs(
            p.refusal->0,
            reported(p, code)->0,
        ),
        p.cancelled ==> reported(p, code) is None,
        code != Some(6i32) ==> reported(p, code) is None,
{
    if code == Some(6i32) && !p.cancelled {
        let r = reported(p, code)->0;
        assert(r.take(p.label.len() as int) =~= p.label);
        if let Some(w) = p.refusal {
            let k = p.label.len() + " was not closed: "@.len();
            assert(r.subrange(k as int, k + w.len() as int) =~= w);
        }
    }
}

impl Dismount {
    /// `begun`, computed.
    pub fn begin(label: &str) -> (r: Dismount)
        ensures
            r@ == begun(label@),
    {
        Dismount {
            label: label.to_owned(),
            waiting: None,
            asking: false,
            answerable: true,
            cancelled: false,
            refusal: None,
        }
    }

    /// A line of the helper. It waits for the applications that it names to be
    /// cleared, which is asked of the human in the words that come back; or it gave up,
    /// and the reason is kept.
    pub fn handle(&mut self, line: &str, configured: &Vec<App>) -> (r: Option<String>)
        ensures
            text::opt(r) == match text::after_prefix(line@, "holders\t"@) {
                Some(holders) => Some(question(app_texts(configured@), holders)),
                None => None,
            },
            final(self)@ == follows(old(self)@, Happening::Line(line@)).0,
    {
        if let Some(holders) = text::strip(line, "holders\t") {
            return Some(ask_text(holders.as_str(), configured));
        }
        if let Some(why) = text::strip(line, "busy\t") {
            self.refusal = Some(why);
        }
        None
    }

    /// A last line of a helper that is gone: only a reason still counts.
    pub fn last_word(&mut self, line: &str)
        ensures
            final(self)@ == follows(old(self)@, Happening::LastWord(line@)).0,
    {
        if let Some(why) = text::strip(line, "busy\t") {
            self.refusal = Some(why);
        }
    }

    /// The question is on screen, or there is no tool left to put it up with: nobody
    /// can then answer, and the volume is left as it is.
    pub fn asked(&mut self, on_screen: bool) -> (r: Move)
        ensures
            (final(self)@, r) == follows(old(self)@, Happening::Asked(on_screen)),
    {
        if on_screen {
            self.asking = true;
            Move::Rest
        } else {
            self.cancelled = true;
            self.answerable = false;
            Move::HangUp
        }
    }

    /// The question was answered, or its tool failed. `signal` is when the signal that
    /// the applications are gone last came.
    pub fn answered(&mut self, reply: Reply, signal: Option<u128>, now_ms: u64) -> (r: Move)
        ensures
            (final(self)@, r) == follows(
                old(self)@,
                Happening::Answered(reply, signal, now_ms as int),
            ),
    {
        if !self.asking {
            return Move::Rest;
        }
        self.asking = false;
        match reply {
            Reply::Yes => {
                self.waiting = Some(
                    AppsWait { asked_at: signal, deadline: now_ms as u128 + APPS_CLOSED_WAIT },
                );
                Move::CloseApps
            },
            Reply::No => {
                self.cancelled = true;
                self.answerable = false;
                Move::HangUp
            },
            Reply::ToolFailed => Move::AskAgain,
        }
    }

    /// Takes the question down; says whether it was on screen.
    pub fn abort_ask(&mut self) -> (r: bool)
        ensures
            r == old(self)@.asking,
            final(self)@ == follows(old(self)@, Happening::Aborted).0,
    {
        let r = self.asking;
        self.asking = false;
        r
    }

    /// Lets the helper go on when a new signal says that the applications are gone, and
    /// hangs up when they were waited for long enough.
    pub fn drive_apps_wait(&mut self, signal: Option<u128>, now_ms: u64) -> (r: Move)
        ensures
            (final(self)@, r) == follows(old(self)@, Happening::Tick(signal, now_ms as int)),
    {
        let (fresh, late) = match &self.waiting {
            None => {
                return Move::Rest;
            },
            Some(w) => {
                let fresh = match signal {
                    Some(s) => match w.asked_at {
                        Some(a) => s != a,
                        None => true,
                    },
                    None => false,
                };
                (fresh, now_ms as u128 >= w.deadline)
            },
        };
        if !fresh && !late {
            return Move::Rest;
        }
        let answerable = self.answerable;
        self.waiting = None;
        self.answerable = false;
        if !fresh {
            Move::HangUp
        } else if answerable {
            Move::Go
        } else {
            Move::Rest
        }
    }

    /// The report of a dismount that ended: a refusal that the human did not cause.
    pub fn report(&self, code: Option<i32>) -> (r: Option<String>)
        ensures
            text::opt(r) == reported(self@, code),
            text::opt(r) == if code == Some(session::EXIT_VOLUME_BUSY) && !self@.cancelled {
                Some(not_closed(self@.label, self@.refusal))
            } else {
                None
            },
    {
        let busy = match code {
            Some(c) => c == session::EXIT_VOLUME_BUSY,
            None => false,
        };
        if !busy || self.cancelled {
            return None;
        }
        let mut s = self.label.clone();
        s.append(" was not closed: ");
        match &self.refusal {
            Some(w) => {
                s.append(w.as_str());
            },
            None => {
                s.append("it is still in use");
            },
        }
        s.push('.');
        assert(s@ =~= not_closed(self@.label, self@.refusal));
        Some(s)
    }
}

/// How far a dismount has got after all of `hs`.
pub open spec fn after_all(label: Seq<char>, hs: Seq<Happening>) -> Progress
    decreases hs.len(),
{
    if hs.len() == 0 {
        begun(label)
    } else {
        follows(after_all(label, hs.drop_last()), hs.last()).0
    }
}

/// What the broker had to do for the happening at `k`.
pub open spec fn move_at(label: Seq<char>, hs: Seq<Happening>, k: int) -> Move {
    follows(after_all(label, hs.take(k)), hs[k]).1
}

/// Is the happening at `k` a yes to the question that was on screen, at a time when the
/// signal had last come at `asked_at`?
pub open spec fn says_yes(
    label: Seq<char>,
    hs: Seq<Happening>,
    k: int,
    asked_at: Option<u128>,
) -> bool {
    &&& after_all(label, hs.take(k)).asking
    &&& hs[k] matches Happening::Answered(reply, signal, _) && reply == Reply::Yes && signal
        == asked_at
}

/// A helper is told to go on only after the human said yes to the question, and only by a
/// signal that came after that.
pub proof fn law_a_dismount_goes_on_only_after_yes(label: Seq<char>, hs: Seq<Happening>, k: int)
    requires
        0 <= k < hs.len(),
        move_at(label, hs, k) == Move::Go,
    ensures
        exists|i: int, asked_at: Option<u128>|
            0 <= i < k && #[trigger] says_yes(label, hs, i, asked_at) && (hs[k] matches Happening::Tick(
                signal,
                _,
            ) && signalled(asked_at, signal)),
{
    let asked_at = (after_all(label, hs.take(k)).waiting->0).0;
    lemma_waiting_after_yes(label, hs.take(k));
    let i = choose|i: int|
        0 <= i < k && #[trigger] says_yes(label, hs.take(k), i, asked_at);
    assert(hs.take(k).take(i) =~= hs.take(i));
    assert(says_yes(label, hs, i, asked_at));
}

proof fn lemma_waiting_after_yes(label: Seq<char>, hs: Seq<Happening>)
    ensures
        after_all(label, hs).waiting matches Some((asked_at, _)) ==> exists|i: int|
            0 <= i < hs.len() && #[trigger] says_yes(label, hs, i, asked_at),
    decreases hs.len(),
{
    if hs.len() > 0 && after_all(label, hs).waiting is Some {
        let h = hs.drop_last();
        let n: int = h.len() as int;
        let asked_at = (after_all(label, hs).waiting->0).0;
        assert(hs.take(n) =~= h);
        lemma_waiting_after_yes(label, h);
        if after_all(label, h).waiting == after_all(label, hs).waiting && !says_yes(
            label,
            hs,
            n,
            asked_at,
        ) {
            let i = choose|i: int| 0 <= i < n && #[trigger] says_yes(label, h, i, asked_at);
            assert(h.take(i) =~= hs.take(i));
            assert(says_yes(label, hs, i, asked_at));
        } else {
            assert(says_yes(label, hs, n, asked_at));
        }
    }
}

/// A helper is answered once: after it was told to go on, or hung up on, it is never told
/// to go on.
pub proof fn law_a_helper_is_answered_once(label: Seq<char>, hs: Seq<Happening>, i: int, k: int)
    requires
        0 <= i < k < hs.len(),
        move_at(label, hs, i) == Move::Go || move_at(label, hs, i) == Move::HangUp,
    ensures
        move_at(label, hs, k) != Move::Go,
{
    let t = hs.take(i + 1);
    assert(t.drop_last() =~= hs.take(i));
    assert(t.last() == hs[i]);
    lemma_stays_unanswerable(label, hs, i + 1, k);
}

proof fn lemma_stays_unanswerable(label: Seq<char>, hs: Seq<Happening>, i: int, k: int)
    requires
        0 <= i <= k <= hs.len(),
        !after_all(label, hs.take(i)).answerable,
    ensures
        !after_all(label, hs.take(k)).answerable,
    decreases k - i,
{
    if i < k {
        lemma_stays_unanswerable(label, hs, i, k - 1);
        assert(hs.take(k).drop_last() =~= hs.take(k - 1));
    }
}

// ------------------------------------------------- the holders of a volume ---

/// Does the name of a process, which is cut off at 15 bytes, name the program?
pub open spec fn is_comm_of(comm: Seq<char>, full: Seq<char>) -> bool {
    full == comm || (vstd::utf8::encode_utf8(comm).len() == 15 && text::after_prefix(
        full,
        comm,
    ) is Some)
}

/// `is_comm_of`, computed.
pub fn comm_matches(comm: &str, full: &str) -> (r: bool)
    ensures
        r == is_comm_of(comm@, full@),
{
    if text::same(full, comm) {
        return true;
    }
    let n = comm.as_bytes().len();
    n == 15 && text::starts_with(full, comm)
}

/// The name of the first application whose program the process is.
pub open spec fn app_of_comm(configured: Seq<AppText>, comm: Seq<char>) -> Option<Seq<char>>
    decreases configured.len(),
{
    if configured.len() == 0 {
        None
    } else if is_comm_of(comm, path::base_name(configured[0].command)) {
        Some(configured[0].name)
    } else {
        app_of_comm(configured.skip(1), comm)
    }
}

fn find_app(configured: &Vec<App>, comm: &str) -> (r: Option<String>)
    ensures
        text::opt(r) == app_of_comm(app_texts(configured@), comm@),
{
    let ghost t = app_texts(configured@);
    let mut i: usize = 0;
    assert(t.skip(0) =~= t);
    while i < configured.len()
        invariant
            i <= configured@.len(),
            t == app_texts(configured@),
            app_of_comm(t.skip(i as int), comm@) == app_of_comm(t, comm@),
        decreases configured@.len() - i,
    {
        assert(t.skip(i as int)[0] == configured@[i as int]@);
        assert(t.skip(i as int).skip(1) =~= t.skip(i + 1));
        let b = path::basename(configured[i].command.as_str());
        if comm_matches(comm, b.as_str()) {
            return Some(configured[i].name.clone());
        }
        i = i + 1;
    }
    None
}

/// The names of the applications among the processes, each once.
pub open spec fn names_of(configured: Seq<AppText>, comms: Seq<Seq<char>>) -> Seq<Seq<char>>
    decreases comms.len(),
{
    if comms.len() == 0 {
        seq![]
    } else {
        let before = names_of(configured, comms.drop_last());
        let c = text::trimmed(comms.last());
        match app_of_comm(configured, c) {
            Some(n) => if c.len() > 0 && !before.contains(n) {
                before.push(n)
            } else {
                before
            },
            None => before,
        }
    }
}

/// The applications that hold a volume, by the names that the human knows.
pub open spec fn holders_named(configured: Seq<AppText>, raw: Seq<char>) -> Seq<char> {
    let ns = names_of(configured, text::fields(raw, ','));
    if ns.len() == 0 { "Apps inside Veracage"@ } else { text::joined(ns, ", "@) }
}

/// `holders_named`, computed.
pub fn holder_app_names(raw: &str, configured: &Vec<App>) -> (r: String)
    ensures
        r@ == holders_named(app_texts(configured@), raw@),
{
    let cs = text::split(raw, ',');
    let ghost t = text::fields(raw@, ',');
    let ghost at = app_texts(configured@);
    let mut out: Vec<String> = Vec::new();
    let mut i: usize = 0;
    assert(text::texts(out@) =~= names_of(at, t.take(0)));
    while i < cs.len()
        invariant
            i <= cs@.len(),
            text::texts(cs@) == t,
            at == app_texts(configured@),
            text::texts(out@) == names_of(at, t.take(i as int)),
        decreases cs@.len() - i,
    {
        let ghost before = text::texts(out@);
        assert(text::texts(cs@)[i as int] == cs@[i as int]@);
        assert(t.take(i + 1).drop_last() =~= t.take(i as int));
        assert(t.take(i + 1).last() == cs@[i as int]@);
        let c = text::trim(cs[i].as_str());
        if let Some(n) = find_app(configured, c.as_str()) {
            if !c.as_str().is_empty() && !names::among(&out, n.as_str()) {
                let ghost nv = n@;
                out.push(n);
                assert(text::texts(out@) =~= before.push(nv));
            }
        }
        i = i + 1;
    }
    assert(text::texts(cs@).len() == cs@.len());
    assert(t.take(i as int) =~= t);
    assert(text::texts(out@).len() == out@.len());
    if out.len() == 0 {
        "Apps inside Veracage".to_owned()
    } else {
        text::join(&out, ", ")
    }
}

/// The question whether to close the applications.
pub open spec fn question(configured: Seq<AppText>, raw: Seq<char>) -> Seq<char> {
    "Close "@ + holders_named(configured, raw) + " to continue."@
}

/// `question`, computed.
pub fn ask_text(raw: &str, configured: &Vec<App>) -> (r: String)
    ensures
        r@ == question(app_texts(configured@), raw@),
{
    let mut s = "Close ".to_owned();
    let n = holder_app_names(raw, configured);
    s.append(n.as_str());
    s.append(" to continue.");
    s
}

// ----------------------------------------------------------------- tools ---

/// Where a tool that is handed secrets may be: in a directory of the system, and
/// never by the search path.
pub open spec fn trusted_places(name: Seq<char>) -> Seq<Seq<char>> {
    seq![names::path_join("/usr/bin"@, name), names::path_join("/bin"@, name)]
}

/// `trusted_places`, computed.
pub fn trusted_candidates(name: &str) -> (r: Vec<String>)
    ensures
        text::texts(r@) == trusted_places(name@),
{
    let mut v: Vec<String> = Vec::new();
    v.push(names::join_path("/usr/bin", name));
    v.push(names::join_path("/bin", name));
    assert(text::texts(v@) =~= trusted_places(name@));
    v
}

/// The tool's path, where the files `present` exist.
pub fn trusted_tool(name: &str, present: &Vec<String>) -> (r: Option<String>)
    ensures
        text::opt(r) == apps::first_present(trusted_places(name@), text::texts(present@)),
{
    let v = trusted_candidates(name);
    let ghost t = text::texts(v@);
    assert(t.len() == v@.len());
    assert(t[0] == v@[0]@);
    assert(t[1] == v@[1]@);
    proof {
        reveal_with_fuel(apps::first_present, 3);
        assert(t.skip(1)[0] == t[1]);
        assert(t.skip(1).skip(1).len() == 0);
    }
    if names::among(present, v[0].as_str()) {
        Some(v[0].clone())
    } else if names::among(present, v[1].as_str()) {
        Some(v[1].clone())
    } else {
        None
    }
}

/// The texts of a program and its arguments.
pub open spec fn call_text(c: (String, Vec<String>)) -> (Seq<char>, Seq<Seq<char>>) {
    (c.0@, text::texts(c.1@))
}

/// The texts of a list of calls.
pub open spec fn call_texts(v: Seq<(String, Vec<String>)>) -> Seq<(Seq<char>, Seq<Seq<char>>)> {
    v.map_values(|c: (String, Vec<String>)| call_text(c))
}

/// The calls, in order, of the tools that are there.
pub open spec fn calls(
    kdialog: Option<Seq<char>>,
    kdialog_args: Seq<Seq<char>>,
    zenity: Option<Seq<char>>,
    zenity_args: Seq<Seq<char>>,
) -> Seq<(Seq<char>, Seq<Seq<char>>)> {
    let first = match kdialog {
        Some(k) => seq![(k, kdialog_args)],
        None => seq![],
    };
    match zenity {
        Some(z) => first.push((z, zenity_args)),
        None => first,
    }
}

/// The calls that ask a question with two captioned buttons.
pub fn ask_candidates(
    msg: &str,
    yes: &str,
    no: &str,
    kdialog: Option<String>,
    zenity: Option<String>,
) -> (r: Vec<(String, Vec<String>)>)
    ensures
        call_texts(r@) == calls(
            text::opt(kdialog),
            seq!["--yesno"@, msg@, "--yes-label"@, yes@, "--no-label"@, no@],
            text::opt(zenity),
            seq!["--question"@, "--text"@, msg@, "--ok-label"@, yes@, "--cancel-label"@, no@],
        ),
{
    let mut out: Vec<(String, Vec<String>)> = Vec::new();
    let ghost ka = seq!["--yesno"@, msg@, "--yes-label"@, yes@, "--no-label"@, no@];
    let ghost za = seq![
        "--question"@,
        "--text"@,
        msg@,
        "--ok-label"@,
        yes@,
        "--cancel-label"@,
        no@,
    ];
    let ghost kt = text::opt(kdialog);
    if let Some(k) = kdialog {
        let mut a: Vec<String> = Vec::new();
        a.push("--yesno".to_owned());
        a.push(msg.to_owned());
        a.push("--yes-label".to_owned());
        a.push(yes.to_owned());
        a.push("--no-label".to_owned());
        a.push(no.to_owned());
        assert(text::texts(a@) =~= ka);
        out.push((k, a));
    }
    let ghost first = call_texts(out@);
    assert(first =~= match kt {
        Some(k) => seq![(k, ka)],
        None => seq![],
    });
    if let Some(z) = zenity {
        let mut a: Vec<String> = Vec::new();
        a.push("--question".to_owned());
        a.push("--text".to_owned());
        a.push(msg.to_owned());
        a.push("--ok-label".to_owned());
        a.push(yes.to_owned());
        a.push("--cancel-label".to_owned());
        a.push(no.to_owned());
        assert(text::texts(a@) =~= za);
        let ghost zv = z@;
        out.push((z, a));
        assert(call_texts(out@) =~= first.push((zv, za)));
    }
    out
}

/// The calls that show an error.
pub fn error_candidates(msg: &str, kdialog: Option<String>, zenity: Option<String>) -> (r: Vec<
    (String, Vec<String>),
>)
    ensures
        call_texts(r@) == calls(
            text::opt(kdialog),
            seq!["--error"@, msg@],
            text::opt(zenity),
            seq!["--error"@, "--text"@, msg@],
        ),
{
    let mut out: Vec<(String, Vec<String>)> = Vec::new();
    let ghost ka = seq!["--error"@, msg@];
    let ghost za = seq!["--error"@, "--text"@, msg@];
    let ghost kt = text::opt(kdialog);
    if let Some(k) = kdialog {
        let mut a: Vec<String> = Vec::new();
        a.push("--error".to_owned());
        a.push(msg.to_owned());
        assert(text::texts(a@) =~= ka);
        out.push((k, a));
    }
    let ghost first = call_texts(out@);
    assert(first =~= match kt {
        Some(k) => seq![(k, ka)],
        None => seq![],
    });
    if let Some(z) = zenity {
        let mut a: Vec<String> = Vec::new();
        a.push("--error".to_owned());
        a.push("--text".to_owned());
        a.push(msg.to_owned());
        assert(text::texts(a@) =~= za);
        let ghost zv = z@;
        out.push((z, a));
        assert(call_texts(out@) =~= first.push((zv, za)));
    }
    out
}

// ------------------------------------------------------------ passphrases ---

/// What the human is asked for.
pub fn passphrase_prompt(name: &str, wrong_pass: bool) -> (r: String)
    ensures
        r@ == (if wrong_pass {
            "Wrong passphrase. Enter the passphrase for "@
        } else {
            "Enter the passphrase for "@
        }) + name@,
{
    let mut s = if wrong_pass {
        "Wrong passphrase. Enter the passphrase for ".to_owned()
    } else {
        "Enter the passphrase for ".to_owned()
    };
    s.append(name);
    s
}

/// The arguments of the own passphrase dialog.
pub fn passphrase_args(name: &str, wrong_pass: bool) -> (r: Vec<String>)
    ensures
        text::texts(r@) == if wrong_pass {
            seq!["_passphrase"@, name@, "Wrong passphrase, try again"@]
        } else {
            seq!["_passphrase"@, name@]
        },
{
    let mut v: Vec<String> = Vec::new();
    v.push("_passphrase".to_owned());
    v.push(name.to_owned());
    if wrong_pass {
        v.push("Wrong passphrase, try again".to_owned());
    }
    assert(text::texts(v@) =~= if wrong_pass {
        seq!["_passphrase"@, name@, "Wrong passphrase, try again"@]
    } else {
        seq!["_passphrase"@, name@]
    });
    v
}

// ------------------------------------------------------------ the session ---

/// How long the compositor is waited for when it was never up, in milliseconds.
pub const COMPOSITOR_FIRST_WAIT: u64 = 180_000;

/// What is decided at the end of a round.
#[derive(Clone, Copy, PartialEq, Eq, Structural, Debug)]
pub struct Round {
    /// The compositor was up at some time.
    pub seen: bool,
    /// Dialogs and questions are taken down.
    pub close_dialogs: bool,
    /// The broker ends.
    pub exit: bool,
}

/// What is decided at the end of a round.
pub open spec fn round_of(up: bool, seen: bool, idle: bool, waited_ms: int) -> Round {
    Round {
        seen: seen || up,
        close_dialogs: seen && !up,
        exit: idle && !up && (seen || waited_ms > COMPOSITOR_FIRST_WAIT),
    }
}

/// The broker stays while the compositor is up or anything is running; it ends when the
/// compositor went away, or did not come in three minutes.
pub proof fn law_the_broker_ends_with_the_compositor(seen: bool, idle: bool, waited_ms: int)
    ensures
        !round_of(true, seen, idle, waited_ms).exit,
        !round_of(true, seen, idle, waited_ms).close_dialogs,
        round_of(true, seen, idle, waited_ms).seen,
        !round_of(false, seen, false, waited_ms).exit,
        round_of(false, true, true, waited_ms).exit,
        round_of(false, true, idle, waited_ms).close_dialogs,
        !round_of(false, false, idle, waited_ms).close_dialogs,
        round_of(false, false, true, waited_ms).exit <==> waited_ms > 180_000,
        round_of(false, seen, idle, waited_ms).seen == seen,
{
}

/// What is decided at the end of a round: a compositor that went away is the end of
/// the session, and one that never came is waited for.
pub fn round_end(up: bool, seen: bool, idle: bool, waited_ms: u64) -> (r: Round)
    ensures
        r == round_of(up, seen, idle, waited_ms as int),
        r.seen == (seen || up),
        r.close_dialogs == (seen && !up),
        r.exit == (idle && !up && (seen || waited_ms > COMPOSITOR_FIRST_WAIT)),
{
    Round {
        seen: seen || up,
        close_dialogs: seen && !up,
        exit: idle && !up && (seen || waited_ms > COMPOSITOR_FIRST_WAIT),
    }
}

/// Was a request made since the last one that was seen?
pub fn request_is_new(now: Option<u128>, seen: Option<u128>) -> (r: bool)
    ensures
        r == (now is Some && now != seen),
{
    match now {
        Some(n) => match seen {
            Some(s) => n != s,
            None => true,
        },
        None => false,
    }
}

/// Did a file change, appear or go away since it was last seen?
pub fn file_changed(now: Option<u128>, seen: Option<u128>) -> (r: bool)
    ensures
        r == (now != seen),
{
    match (now, seen) {
        (Some(n), Some(s)) => n != s,
        (None, None) => false,
        _ => true,
    }
}

/// The broker's own directory; none without a runtime directory.
pub fn human_runtime_dir(runtime: Option<&str>) -> (r: Option<String>)
    ensures
        text::opt(r) == match runtime {
            Some(d) => Some(names::path_join(d@, "veracage-agent"@)),
            None => None,
        },
{
    match runtime {
        Some(d) => Some(names::join_path(d, "veracage-agent")),
        None => None,
    }
}

/// The process that a pid file names.
pub open spec fn pid_named(body: Seq<char>) -> Option<int> {
    match text::signed_in(text::trimmed(body), i32::MAX as int) {
        Some(n) => if n > 0 { Some(n) } else { None },
        None => None,
    }
}

/// `pid_named`, computed.
pub fn compositor_pid(body: &str) -> (r: Option<u32>)
    ensures
        r is Some <==> pid_named(body@) is Some,
        r matches Some(n) ==> pid_named(body@) == Some(n as int),
{
    let t = text::trim(body);
    match text::parse_signed(t.as_str(), i32::MAX as i64) {
        Some(n) => if n > 0 {
            Some(n as u32)
        } else {
            None
        },
        None => None,
    }
}

// ------------------------------------------------------------------- laws ---

/// Every verb of the menus asks for its own: a volume is closed by its label, whatever that
/// is, each window is opened by its name, and a verb that is none of these does nothing.
pub proof fn law_every_verb_asks_for_its_own(label: Seq<char>, verb: Seq<char>)
    ensures
        deed_of("close-volume:"@ + label) == Deed::CloseVolume(label),
        deed_of("open"@) == Deed::Open,
        deed_of("exchange"@) == Deed::Exchange,
        deed_of("configure"@) == Deed::Dialog("configure"@),
        deed_of("settings"@) == Deed::Dialog("_settings"@),
        deed_of("appearance"@) == Deed::Dialog("_appearance"@),
        deed_of("shortcuts"@) == Deed::Dialog("_shortcuts"@),
        deed_of("about"@) == Deed::Dialog("_about"@),
        deed_of("help"@) == Deed::Dialog("_help"@),
        !"close-volume:"@.is_prefix_of(verb) && !set![
            "open"@,
            "exchange"@,
            "configure"@,
            "settings"@,
            "appearance"@,
            "shortcuts"@,
            "about"@,
            "help"@,
        ].contains(verb) ==> deed_of(verb) == Deed::Unknown,
{
    reveal_strlit("close-volume:");
    reveal_strlit("open");
    reveal_strlit("exchange");
    reveal_strlit("configure");
    reveal_strlit("settings");
    reveal_strlit("appearance");
    reveal_strlit("shortcuts");
    reveal_strlit("about");
    reveal_strlit("help");
    let p = "close-volume:"@;
    let s = p + label;
    assert(p.len() == 13);
    assert(s.take(13) =~= p);
    assert(p.is_prefix_of(s));
    assert(s.skip(13) =~= label);
    assert("open"@.len() == 4 && "exchange"@.len() == 8 && "configure"@.len() == 9 && "settings"@.len()
        == 8 && "appearance"@.len() == 10 && "shortcuts"@.len() == 9 && "about"@.len() == 5
        && "help"@.len() == 4);
    assert("open"@[0] == 'o' && "help"@[0] == 'h');
    assert("exchange"@[0] == 'e' && "settings"@[0] == 's');
    assert("configure"@[0] == 'c' && "shortcuts"@[0] == 's');
}

/// A volume that opened, one whose opening was cancelled and one that a signal ended are no
/// news; a wrong passphrase is asked for again; and every other failure is reported with the
/// name of the volume's file.
pub proof fn law_only_a_failure_is_reported(code: Option<i32>, volume: Seq<char>)
    ensures
        ending(code, volume) is Done <==> code is None || code == Some(0i32) || code == Some(126i32)
            || code == Some(127i32),
        ending(code, volume) is Retry <==> code == Some(4i32),
        ending(code, volume) matches Ending::Failed(m) ==> text::occurs(path::base_name(volume), m),
        code == Some(5i32) ==> ending(code, volume) == Ending::Failed(
            path::base_name(volume) + " was not opened: its filesystem needs a repair."@,
        ),
        code matches Some(c) ==> (5 < c < 126 ==> ending(code, volume) == Ending::Failed(
            "Could not open "@ + path::base_name(volume) + " (exit "@ + text::decimal(c as nat) + ")."@,
        )),
{
    let b = path::base_name(volume);
    if let Ending::Failed(m) = ending(code, volume) {
        if code == Some(5i32) {
            assert(m.subrange(0int, 0int + b.len()) =~= b);
        } else {
            let k = "Could not open "@.len() as int;
            assert(m.subrange(k, k + b.len()) =~= b);
        }
    }
}

/// A volume that stayed open is reported by its label, with the reason that the helper
/// gave.
pub proof fn law_a_refusal_is_reported_with_its_reason(label: Seq<char>, why: Seq<char>)
    ensures
        not_closed(label, Some(why)) == label + " was not closed: "@ + why + "."@,
        not_closed(label, None) == label + " was not closed: it is still in use."@,
{
    reveal_strlit(".");
    reveal_strlit(" was not closed: ");
    reveal_strlit("it is still in use");
    reveal_strlit(" was not closed: it is still in use.");
    assert(not_closed(label, Some(why)) =~= label + " was not closed: "@ + why + "."@);
    assert(not_closed(label, None) =~= label + " was not closed: it is still in use."@);
}

/// What a yes leads to: the applications are asked to close, and the helper is told to go on
/// by the first signal that is new, whenever in the waiting time it comes.
pub proof fn law_a_yes_leads_to_the_close(
    label: Seq<char>,
    asked_at: Option<u128>,
    asked: int,
    early: Option<u128>,
    soon: int,
    signal: u128,
    now: int,
)
    requires
        early is None || early == asked_at,
        soon < asked + 180_000,
        Some(signal) != asked_at,
    ensures
        ({
            let on = follows(begun(label), Happening::Asked(true));
            let yes = follows(on.0, Happening::Answered(Reply::Yes, asked_at, asked));
            let wait = follows(yes.0, Happening::Tick(early, soon));
            let go = follows(wait.0, Happening::Tick(Some(signal), now));
            &&& on.1 == Move::Rest
            &&& yes.1 == Move::CloseApps
            &&& wait.1 == Move::Rest
            &&& go.1 == Move::Go
            &&& !go.0.cancelled
        }),
{
}

/// Where the applications do not close in time, the helper is hung up on and the volume
/// stays as it is.
pub proof fn law_a_close_is_not_waited_for_for_ever(
    label: Seq<char>,
    asked_at: Option<u128>,
    asked: int,
    signal: Option<u128>,
    now: int,
)
    requires
        signal is None || signal == asked_at,
        now >= asked + 180_000,
    ensures
        ({
            let on = follows(begun(label), Happening::Asked(true));
            let yes = follows(on.0, Happening::Answered(Reply::Yes, asked_at, asked));
            let late = follows(yes.0, Happening::Tick(signal, now));
            late.1 == Move::HangUp && late.0.waiting is None && !late.0.cancelled
        }),
{
}

/// A no ends the close by the human's own wish, and so does a question that nobody can be
/// asked; a tool that failed is no answer, and the question is put again.
pub proof fn law_a_no_ends_the_close(label: Seq<char>, signal: Option<u128>, now: int)
    ensures
        ({
            let on = follows(begun(label), Happening::Asked(true));
            let no = follows(on.0, Happening::Answered(Reply::No, signal, now));
            let failed = follows(on.0, Happening::Answered(Reply::ToolFailed, signal, now));
            let nobody = follows(begun(label), Happening::Asked(false));
            let again = follows(failed.0, Happening::Asked(true));
            &&& no.1 == Move::HangUp && no.0.cancelled && !no.0.asking
            &&& nobody.1 == Move::HangUp && nobody.0.cancelled
            &&& failed.1 == Move::AskAgain && !failed.0.cancelled && !failed.0.asking
            &&& again.0.asking && again.0.answerable && again.1 == Move::Rest
        }),
{
}

/// An answer counts only while the question is on screen, and a question that was taken
/// down is answered by nothing.
pub proof fn law_only_a_question_is_answered(p: Progress, reply: Reply, signal: Option<u128>, now: int)
    ensures
        !p.asking ==> follows(p, Happening::Answered(reply, signal, now)) == (p, Move::Rest),
        ({
            let down = follows(p, Happening::Aborted);
            &&& down.1 == Move::Rest
            &&& follows(down.0, Happening::Answered(reply, signal, now)).1 == Move::Rest
            &&& down.0 == (Progress { asking: false, ..p })
        }),
{
}

/// The last reason that the helper gives is the one that is kept; what it says of the
/// holders is none.
pub proof fn law_the_last_reason_is_kept(p: Progress, why: Seq<char>, names: Seq<char>)
    ensures
        follows(p, Happening::Line("busy\t"@ + why)) == (
            (Progress { refusal: Some(why), ..p }),
            Move::Rest,
        ),
        follows(p, Happening::LastWord("busy\t"@ + why)) == (
            (Progress { refusal: Some(why), ..p }),
            Move::Rest,
        ),
        follows(p, Happening::Line("holders\t"@ + names)) == (p, Move::Rest),
{
    reveal_strlit("busy\t");
    reveal_strlit("holders\t");
    let b = "busy\t"@;
    let s = b + why;
    assert(s.take(5) =~= b);
    assert(b.is_prefix_of(s));
    assert(s.skip(5) =~= why);
    let h = "holders\t"@;
    let t = h + names;
    assert(t.take(8) =~= h);
    assert(h.is_prefix_of(t));
    assert(!h.is_prefix_of(s)) by {
        assert(s[0] == 'b' && h[0] == 'h');
    }
}

/// The name of a process is that of its program, in full or cut at fifteen bytes, and of no
/// other program.
pub proof fn law_a_process_is_known_by_its_name(comm: Seq<char>, rest: Seq<char>)
    ensures
        is_comm_of(comm, comm),
        vstd::utf8::encode_utf8(comm).len() == 15 ==> is_comm_of(comm, comm + rest),
        vstd::utf8::encode_utf8(comm).len() != 15 && rest.len() > 0 ==> !is_comm_of(comm, comm + rest),
{
    let s = comm + rest;
    assert(s.take(comm.len() as int) =~= comm);
    assert(comm.is_prefix_of(s));
    assert(s.skip(comm.len() as int) =~= rest);
    if rest.len() > 0 {
        assert(s.len() != comm.len());
    }
}

/// A holder goes by the name of the first configured application whose program it is.
pub proof fn law_a_holder_goes_by_its_application(
    before: Seq<AppText>,
    a: AppText,
    behind: Seq<AppText>,
    comm: Seq<char>,
)
    requires
        is_comm_of(comm, path::base_name(a.command)),
        forall|i: int|
            0 <= i < before.len() ==> !is_comm_of(comm, path::base_name((#[trigger] before[i]).command)),
    ensures
        app_of_comm(before + seq![a] + behind, comm) == Some(a.name),
        app_of_comm(before, comm) is None,
    decreases before.len(),
{
    let all = before + seq![a] + behind;
    if before.len() == 0 {
        assert(all[0] == a);
    } else {
        let t = before.skip(1);
        assert forall|i: int| 0 <= i < t.len() implies !is_comm_of(
            comm,
            path::base_name((#[trigger] t[i]).command),
        ) by {
            assert(t[i] == before[i + 1]);
        }
        law_a_holder_goes_by_its_application(t, a, behind, comm);
        assert(all[0] == before[0]);
        assert(all.skip(1) =~= t + seq![a] + behind);
    }
}

/// Every application that holds a volume is named in the question, each once and no other:
/// those of the processes that the helper named.
pub proof fn law_every_holder_is_named_once(
    configured: Seq<AppText>,
    comms: Seq<Seq<char>>,
    comm: Seq<char>,
)
    ensures
        ({
            let before = names_of(configured, comms);
            let now = names_of(configured, comms.push(comm));
            let c = text::trimmed(comm);
            match app_of_comm(configured, c) {
                Some(n) => if c.len() > 0 {
                    &&& now.contains(n)
                    &&& before.contains(n) ==> now == before
                    &&& !before.contains(n) ==> now == before.push(n)
                } else {
                    now == before
                },
                None => now == before,
            }
        }),
        names_of(configured, seq![]).len() == 0,
{
    assert(comms.push(comm).drop_last() =~= comms);
    let before = names_of(configured, comms);
    let c = text::trimmed(comm);
    if let Some(n) = app_of_comm(configured, c) {
        assert(before.push(n)[before.len() as int] == n);
    }
}

/// The question names the application where one holds the volume, and asks in general where
/// none is known.
pub proof fn law_the_question_names_the_application(configured: Seq<AppText>, comm: Seq<char>, name: Seq<char>)
    requires
        !comm.contains(','),
        text::trimmed(comm) == comm,
        comm.len() > 0,
    ensures
        app_of_comm(configured, comm) == Some(name) ==> question(configured, comm) == "Close "@ + name
            + " to continue."@,
        app_of_comm(configured, comm) is None ==> question(configured, comm)
            == "Close Apps inside Veracage to continue."@,
{
    text::lemma_fields_one(comm, ',');
    let e: Seq<Seq<char>> = seq![];
    assert(seq![comm].drop_last() =~= e);
    assert(names_of(configured, e) =~= seq![]);
    if app_of_comm(configured, comm) == Some(name) {
        assert(names_of(configured, seq![comm]) =~= seq![name]);
    }
    reveal_strlit("Close ");
    reveal_strlit("Apps inside Veracage");
    reveal_strlit(" to continue.");
    reveal_strlit("Close Apps inside Veracage to continue.");
    assert("Close "@ + "Apps inside Veracage"@ + " to continue."@
        =~= "Close Apps inside Veracage to continue."@);
}

/// A tool that is handed secrets comes from a directory of the system.
pub proof fn law_a_trusted_tool_is_the_systems(name: Seq<char>)
    requires
        name.len() > 0,
        name[0] != '/',
    ensures
        trusted_places(name) == seq!["/usr/bin/"@ + name, "/bin/"@ + name],
{
    reveal_strlit("/usr/bin");
    reveal_strlit("/bin");
    reveal_strlit("/usr/bin/");
    reveal_strlit("/bin/");
    assert(names::path_join("/usr/bin"@, name) =~= "/usr/bin/"@ + name);
    assert(names::path_join("/bin"@, name) =~= "/bin/"@ + name);
    assert(trusted_places(name) =~= seq!["/usr/bin/"@ + name, "/bin/"@ + name]);
}

/// The compositor that a pid file names is the process of that number; no process has the
/// number nought or a negative one.
pub proof fn law_a_pid_file_names_its_process(n: nat)
    requires
        n <= i32::MAX,
    ensures
        n > 0 ==> pid_named(text::decimal(n) + seq!['\n']) == Some(n as int),
        n == 0 ==> pid_named(text::decimal(n) + seq!['\n']) is None,
        pid_named(seq!['-'] + text::decimal(n)) is None,
{
    let d = text::decimal(n);
    let e: Seq<char> = seq![];
    text::lemma_decimal_reads_back(n);
    text::lemma_decimal_parses(n, i32::MAX as int);
    assert(text::is_digit(d[0]));
    assert(text::is_digit(d[d.len() - 1]));
    text::law_trimming_takes_white_space_only(e, d, seq!['\n']);
    assert(e + d + seq!['\n'] =~= d + seq!['\n']);
    let m = seq!['-'] + d;
    assert(m.last() == d.last());
    text::lemma_trimmed_is(m);
    assert(m.skip(1) =~= d);
}

/// Both tools that ask are tried, the one of the desktop first, each with its own arguments.
pub proof fn law_both_tools_are_tried(
    k: Seq<char>,
    ka: Seq<Seq<char>>,
    z: Seq<char>,
    za: Seq<Seq<char>>,
)
    ensures
        calls(Some(k), ka, Some(z), za) == seq![(k, ka), (z, za)],
        calls(Some(k), ka, None, za) == seq![(k, ka)],
        calls(None, ka, Some(z), za) == seq![(z, za)],
        calls(None, ka, None, za).len() == 0,
{
    assert(calls(Some(k), ka, Some(z), za) =~= seq![(k, ka), (z, za)]);
    assert(calls(None, ka, Some(z), za) =~= seq![(z, za)]);
}

/// Several applications that hold a volume are named one behind the other, each once.
pub proof fn law_several_holders_are_listed(
    configured: Seq<AppText>,
    a: Seq<char>,
    b: Seq<char>,
    x: Seq<char>,
    y: Seq<char>,
)
    requires
        !a.contains(','),
        !b.contains(','),
        app_of_comm(configured, text::trimmed(a)) == Some(x),
        app_of_comm(configured, text::trimmed(b)) == Some(y),
        text::trimmed(a).len() > 0,
        text::trimmed(b).len() > 0,
    ensures
        x != y ==> holders_named(configured, a + seq![','] + b) == x + ", "@ + y,
        x == y ==> holders_named(configured, a + seq![','] + b) == x,
        holders_named(configured, a) == x,
{
    text::lemma_fields_cons(a, b, ',');
    text::lemma_fields_one(a, ',');
    text::lemma_fields_one(b, ',');
    let fs = text::fields(a + seq![','] + b, ',');
    assert(fs =~= seq![a, b]);
    let e: Seq<Seq<char>> = seq![];
    assert(seq![a].drop_last() =~= e);
    assert(fs.drop_last() =~= seq![a]);
    assert(names_of(configured, e) =~= e);
    assert(names_of(configured, seq![a]) =~= seq![x]);
    assert(seq![x][0] == x);
    if x != y {
        assert(names_of(configured, fs) =~= seq![x, y]);
        assert(seq![x, y].drop_last() =~= seq![x]);
        assert(text::joined(seq![x], ", "@) == x);
    } else {
        assert(seq![x].contains(y));
        assert(names_of(configured, fs) =~= seq![x]);
    }
}

} // verus!
