//! The window of the session: its size, when it is drawn, and where the windows of the
//! applications stand in it.

use vstd::prelude::*;

use crate::config;
use crate::names;
use crate::text;
use crate::toolbar::{all_volumes, leaders_of, open_volumes, LeaderApps, TOOLBAR_HEIGHT};

verus! {

// ------------------------------------------------------------------- size ---

/// What is done to the window.
#[derive(Clone, Copy, PartialEq, Eq, Structural, Debug)]
pub enum Resize {
    Maximize,
    Restore,
    To(u32, u32),
    Keep,
}

/// What a size of the window asks for.
pub open spec fn resize_of(s: Seq<char>) -> Resize {
    if s == "max"@ {
        Resize::Maximize
    } else if s == "default"@ {
        Resize::Restore
    } else {
        match config::sane_size(s) {
            Some((w, h)) => Resize::To(w as u32, h as u32),
            None => Resize::Keep,
        }
    }
}

/// `resize_of`, computed.
pub fn resize(size: &str) -> (r: Resize)
    ensures
        r == resize_of(size@),
{
    if text::same(size, "max") {
        Resize::Maximize
    } else if text::same(size, "default") {
        Resize::Restore
    } else {
        match config::parse_sane_size(size) {
            Some((w, h)) => Resize::To(w, h),
            None => Resize::Keep,
        }
    }
}

/// How the window opens.
pub open spec fn opening(asked: Option<Seq<char>>) -> Resize {
    match asked {
        Some(s) => if resize_of(s) == Resize::Restore { Resize::Keep } else { resize_of(s) },
        None => Resize::Keep,
    }
}

/// The window opens in the size that is configured, and as the host likes it where none is.
pub proof fn law_the_window_opens_as_configured(w: nat, h: nat)
    requires
        320 <= w <= 16384,
        240 <= h <= 16384,
    ensures
        opening(Some(text::decimal(w) + seq!['x'] + text::decimal(h))) == Resize::To(w as u32, h as u32),
        opening(Some("max"@)) == Resize::Maximize,
        opening(Some("default"@)) == Resize::Keep,
        opening(None) == Resize::Keep,
{
    law_a_size_is_what_the_window_gets(w, h);
}

/// How the window opens: as it was asked for, and as the host likes it otherwise.
pub fn first_size(asked: Option<&str>) -> (r: Resize)
    ensures
        r == opening(text::opt_str(asked)),
        r == match text::opt_str(asked) {
            Some(s) => if resize_of(s) == Resize::Restore {
                Resize::Keep
            } else {
                resize_of(s)
            },
            None => Resize::Keep,
        },
{
    match asked {
        Some(s) => match resize(s) {
            Resize::Restore => Resize::Keep,
            other => other,
        },
        None => Resize::Keep,
    }
}

/// Every size that can be configured changes the window or leaves it on purpose: none is
/// passed over.
pub proof fn law_every_configured_size_is_understood(s: Seq<char>)
    ensures
        config::window_size_ok(s) <==> resize_of(s) != Resize::Keep,
{
}

/// A size in numbers resizes the window to just that, and the two words do what they say.
pub proof fn law_a_size_is_what_the_window_gets(w: nat, h: nat)
    requires
        320 <= w <= 16384,
        240 <= h <= 16384,
    ensures
        resize_of(text::decimal(w) + seq!['x'] + text::decimal(h)) == Resize::To(w as u32, h as u32),
        resize_of("max"@) == Resize::Maximize,
        resize_of("default"@) == Resize::Restore,
        resize_of(seq![]) == Resize::Keep,
{
    reveal_strlit("max");
    reveal_strlit("default");
    config::law_a_size_is_two_numbers(w, h);
    let s = text::decimal(w) + seq!['x'] + text::decimal(h);
    text::lemma_decimal_reads_back(w);
    assert(s[0] == text::decimal(w)[0]);
    assert(text::is_digit(s[0]));
    assert("max"@[0] == 'm' && "default"@[0] == 'd');
    assert(!seq![].contains('x'));
}

// ----------------------------------------------------------------- frames ---

/// What decides over the next frame: whether anything changed, and whether the strip
/// did; how many frames are still drawn whole; whether the pointer is on the strip;
/// whether the strip is there or cannot be; and when the files were last looked at.
pub struct Frames {
    pub dirty: bool,
    pub strip_changed: bool,
    pub whole: u8,
    pub strip_hot: bool,
    pub has_strip: bool,
    pub strip_failed: bool,
    pub scanned_at: u64,
}

/// The time between two looks at the files, and the shortest between two frames, in
/// milliseconds.
pub const SCAN_MS: u64 = 1000;

pub const FRAME_MS: u64 = 16;

/// How many frames are drawn whole after the window changed its size.
pub const WHOLE_FRAMES: u8 = 4;

/// Is it time to look at the files again?
pub open spec fn scan_is_due(f: Frames, now: int) -> bool {
    now - f.scanned_at >= SCAN_MS
}

/// After the window changed its size.
pub open spec fn after_resize(f: Frames) -> Frames {
    Frames { dirty: true, strip_changed: true, whole: WHOLE_FRAMES, ..f }
}

/// After an input: what the pointer does on the strip is drawn, and that it left.
pub open spec fn after_input(f: Frames, hot: bool) -> Frames {
    if hot || f.strip_hot {
        Frames { dirty: true, strip_changed: true, strip_hot: hot, ..f }
    } else {
        Frames { strip_hot: hot, ..f }
    }
}

/// At the start of a frame: what changed is drawn by it, and the files are looked at when
/// it is time.
pub open spec fn at_frame(f: Frames, now: int) -> Frames {
    if scan_is_due(f, now) {
        Frames { dirty: false, strip_changed: true, scanned_at: now as u64, ..f }
    } else {
        Frames { dirty: false, ..f }
    }
}

/// After a frame that could not be drawn: it is drawn again.
pub open spec fn after_failure(f: Frames) -> Frames {
    Frames { dirty: true, strip_changed: true, ..f }
}

/// After the strip was made, or could not be.
pub open spec fn after_making(f: Frames, made: bool) -> Frames {
    if made {
        Frames { has_strip: true, dirty: true, ..f }
    } else {
        Frames { strip_failed: true, ..f }
    }
}

/// Whether a frame is asked for, and after how many milliseconds the timer comes again.
pub open spec fn tick_of(f: Frames, now: int) -> (bool, int) {
    let since = if now >= f.scanned_at { now - f.scanned_at } else { 0 };
    (
        f.dirty || scan_is_due(f, now),
        if f.dirty || SCAN_MS - since < FRAME_MS { FRAME_MS as int } else { SCAN_MS - since },
    )
}

/// A frame is asked for where anything changed or the files are to be looked at; else the
/// timer waits for the next look, and no longer.
pub proof fn law_a_frame_is_asked_for_when_it_is_needed(f: Frames, now: int)
    ensures
        f.dirty ==> tick_of(f, now) == (true, 16int),
        !f.dirty ==> (tick_of(f, now).0 <==> now >= f.scanned_at + 1000),
        16 <= tick_of(f, now).1 <= 1000,
        !f.dirty && f.scanned_at <= now <= f.scanned_at + 984 ==> now + tick_of(f, now).1 == f.scanned_at + 1000,
{
}

impl Frames {
    /// Before the first frame, which is drawn.
    pub fn new() -> (r: Frames)
        ensures
            r == (Frames {
                dirty: true,
                strip_changed: true,
                whole: 0,
                strip_hot: false,
                has_strip: false,
                strip_failed: false,
                scanned_at: 0,
            }),
    {
        Frames {
            dirty: true,
            strip_changed: true,
            whole: 0,
            strip_hot: false,
            has_strip: false,
            strip_failed: false,
            scanned_at: 0,
        }
    }

    /// The window changed its size.
    pub fn resized(&mut self)
        ensures
            *final(self) == after_resize(*old(self)),
    {
        self.dirty = true;
        self.strip_changed = true;
        self.whole = WHOLE_FRAMES;
    }

    /// There was an input; says whether a frame is asked for at once.
    pub fn input(&mut self, hot: bool) -> (r: bool)
        ensures
            *final(self) == after_input(*old(self), hot),
            r == (hot || old(self).strip_hot),
    {
        let wake = hot || self.strip_hot;
        if wake {
            self.dirty = true;
            self.strip_changed = true;
        }
        self.strip_hot = hot;
        wake
    }

    /// A frame begins; says whether the files are looked at.
    pub fn begin(&mut self, now: u64) -> (r: bool)
        ensures
            *final(self) == at_frame(*old(self), now as int),
            r == scan_is_due(*old(self), now as int),
    {
        self.dirty = false;
        if now >= self.scanned_at && now - self.scanned_at >= SCAN_MS {
            self.scanned_at = now;
            self.strip_changed = true;
            true
        } else {
            false
        }
    }

    /// Is the strip reported as changed? Once for every change.
    pub fn take_strip_change(&mut self) -> (r: bool)
        ensures
            r == old(self).strip_changed,
            *final(self) == (Frames { strip_changed: false, ..*old(self) }),
    {
        let r = self.strip_changed;
        self.strip_changed = false;
        r
    }

    /// The age of the buffer that is drawn into: that of one without content right after
    /// the window changed its size.
    pub fn age(&mut self, reported: Option<usize>) -> (r: usize)
        ensures
            old(self).whole > 0 ==> r == 0 && *final(self) == (Frames {
                whole: (old(self).whole - 1) as u8,
                ..*old(self)
            }),
            old(self).whole == 0 ==> *final(self) == *old(self) && r == match reported {
                Some(n) => n,
                None => 0,
            },
    {
        if self.whole > 0 {
            self.whole = self.whole - 1;
            0
        } else {
            match reported {
                Some(n) => n,
                None => 0,
            }
        }
    }

    /// The frame could not be drawn.
    pub fn failed(&mut self)
        ensures
            *final(self) == after_failure(*old(self)),
    {
        self.dirty = true;
        self.strip_changed = true;
    }

    /// The frame was drawn and could not be shown.
    pub fn not_shown(&mut self)
        ensures
            *final(self) == (Frames { dirty: true, ..*old(self) }),
    {
        self.dirty = true;
    }

    /// Is the strip to be made? It is tried once.
    pub fn wants_strip(&self) -> (r: bool)
        ensures
            r == (!self.has_strip && !self.strip_failed),
    {
        !self.has_strip && !self.strip_failed
    }

    /// The strip was made, or could not be.
    pub fn strip_made(&mut self, made: bool)
        ensures
            *final(self) == after_making(*old(self), made),
    {
        if made {
            self.has_strip = true;
            self.dirty = true;
        } else {
            self.strip_failed = true;
        }
    }

    /// The strip moves on: it is drawn again.
    pub fn animates(&mut self, wants: bool)
        ensures
            *final(self) == if wants { after_failure(*old(self)) } else { *old(self) },
    {
        if wants {
            self.dirty = true;
            self.strip_changed = true;
        }
    }

    /// The timer: whether a frame is asked for, and after how many milliseconds it comes
    /// again.
    pub fn tick(&self, now: u64) -> (r: (bool, u64))
        ensures
            (r.0, r.1 as int) == tick_of(*self, now as int),
            r.0 == (self.dirty || scan_is_due(*self, now as int)),
            r.1 == ({
                let since = if now >= self.scanned_at { now - self.scanned_at } else { 0 };
                if self.dirty || SCAN_MS - since < FRAME_MS {
                    FRAME_MS as int
                } else {
                    SCAN_MS - since
                }
            }),
    {
        let since: u64 = if now >= self.scanned_at {
            now - self.scanned_at
        } else {
            0
        };
        let due = since >= SCAN_MS;
        if self.dirty || due {
            return (true, FRAME_MS);
        }
        let left: u64 = SCAN_MS - since;
        (false, if left < FRAME_MS {
            FRAME_MS
        } else {
            left
        })
    }
}

/// A frame that failed is drawn again: the next tick asks for it, and the strip is
/// reported as changed.
pub proof fn law_a_failed_frame_is_drawn_again(f: Frames)
    ensures
        after_failure(f).dirty,
        after_failure(f).strip_changed,
{
}

/// The pointer that leaves the strip is drawn once more, and not again.
pub proof fn law_leaving_the_strip_is_drawn_once(f: Frames, now: int)
    ensures
        after_input(after_input(f, true), false).dirty,
        ({
            let left = at_frame(after_input(after_input(f, true), false), now);
            after_input(left, false) == left
        }),
{
}

/// After a look at the files the next one comes a second later, and not before.
pub proof fn law_the_files_are_looked_at_once_a_second(f: Frames, now: u64, later: int)
    requires
        scan_is_due(f, now as int),
    ensures
        scan_is_due(at_frame(f, now as int), later) <==> later - now >= SCAN_MS,
{
}

/// A window that changed its size is drawn, whole, for as many frames as it has buffers;
/// nothing else is touched.
pub proof fn law_a_resized_window_is_drawn_whole(f: Frames)
    ensures
        ({
            let r = after_resize(f);
            &&& r.dirty && r.strip_changed && r.whole == 4
            &&& r.strip_hot == f.strip_hot && r.has_strip == f.has_strip
            &&& r.strip_failed == f.strip_failed && r.scanned_at == f.scanned_at
        }),
{
}

/// A frame draws what changed, and nothing is asked for until something changes again; the
/// strip that changed is still reported.
pub proof fn law_a_drawn_frame_rests(f: Frames, now: int)
    requires
        0 <= now <= u64::MAX,
    ensures
        ({
            let r = at_frame(f, now);
            &&& !r.dirty
            &&& f.strip_changed ==> r.strip_changed
            &&& now - f.scanned_at < 1000 ==> r.strip_changed == f.strip_changed && r.scanned_at
                == f.scanned_at
            &&& now - f.scanned_at >= 1000 ==> r.strip_changed && r.scanned_at == now
            &&& r.whole == f.whole && r.strip_hot == f.strip_hot
            &&& r.has_strip == f.has_strip && r.strip_failed == f.strip_failed
        }),
{
}

/// An input is drawn exactly where the pointer is on the strip or was: elsewhere the
/// windows draw themselves.
pub proof fn law_an_input_on_the_strip_is_drawn(f: Frames, hot: bool)
    ensures
        ({
            let r = after_input(f, hot);
            &&& r.strip_hot == hot
            &&& hot || f.strip_hot ==> r.dirty && r.strip_changed
            &&& !hot && !f.strip_hot ==> r == f
            &&& r.scanned_at == f.scanned_at && r.whole == f.whole
        }),
{
}

/// The strip is made once: where it was made it is drawn, and where it could not be it is
/// not tried again.
pub proof fn law_the_strip_is_made_once(f: Frames)
    requires
        !f.has_strip,
        !f.strip_failed,
    ensures
        after_making(f, true).has_strip,
        after_making(f, true).dirty,
        !after_making(f, true).strip_failed,
        after_making(f, false).strip_failed,
        !after_making(f, false).has_strip,
        after_making(f, false).dirty == f.dirty,
        after_failure(f).scanned_at == f.scanned_at,
        after_failure(f).whole == f.whole,
{
}

// ---------------------------------------------------------- what is in force ---

/// What was last taken over from the files: the size of the window, the policy for the
/// clipboard and the number of the notice.
pub struct InForce {
    pub window_size: String,
    pub policy: (bool, u32),
    pub notice: u64,
}

impl InForce {
    /// The size of the window that is newly asked for; none where it is in force.
    pub fn new_size(&mut self, read: Option<String>) -> (r: Option<String>)
        ensures
            ({
                let fresh = read is Some && (read->0)@ != old(self).window_size@;
                &&& text::opt(r) == if fresh { text::opt(read) } else { None }
                &&& final(self).window_size@ == if fresh {
                    (read->0)@
                } else {
                    old(self).window_size@
                }
                &&& final(self).policy == old(self).policy
                &&& final(self).notice == old(self).notice
            }),
    {
        match read {
            Some(s) => {
                if text::same(s.as_str(), self.window_size.as_str()) {
                    None
                } else {
                    self.window_size = s.clone();
                    Some(s)
                }
            },
            None => None,
        }
    }

    /// The policy that is newly asked for; none where it is in force.
    pub fn new_policy(&mut self, read: Option<(bool, u32)>) -> (r: Option<(bool, u32)>)
        ensures
            r == if read is Some && read->0 != old(self).policy { read } else { None },
            final(self).policy == if read is Some { read->0 } else { old(self).policy },
            final(self).window_size@ == old(self).window_size@,
            final(self).notice == old(self).notice,
    {
        match read {
            Some((on, secs)) => {
                let (was_on, was_secs) = self.policy;
                if on == was_on && secs == was_secs {
                    None
                } else {
                    self.policy = (on, secs);
                    Some((on, secs))
                }
            },
            None => None,
        }
    }

    /// The notice that has not been shown yet; each is shown once.
    pub fn new_notice(&mut self, read: Option<(u64, String)>) -> (r: Option<String>)
        ensures
            text::opt(r) == match read {
                Some((n, s)) => if n != old(self).notice { Some(s@) } else { None },
                None => None,
            },
            final(self).notice == match read {
                Some((n, _)) => n,
                None => old(self).notice,
            },
            final(self).window_size@ == old(self).window_size@,
            final(self).policy == old(self).policy,
    {
        match read {
            Some((n, s)) => {
                if n == self.notice {
                    None
                } else {
                    self.notice = n;
                    Some(s)
                }
            },
            None => None,
        }
    }
}

/// Was the last volume closed? What was pasted for it is then taken back.
pub fn last_volume_closed(known: &Vec<LeaderApps>, fresh: &Vec<LeaderApps>) -> (r: bool)
    ensures
        r == (all_volumes(leaders_of(known@)).len() > 0 && all_volumes(leaders_of(fresh@)).len()
            == 0),
{
    let a = open_volumes(known);
    let b = open_volumes(fresh);
    assert(text::texts(a@).len() == a@.len());
    assert(text::texts(b@).len() == b@.len());
    a.len() > 0 && b.len() == 0
}

// -------------------------------------------------------------- placement ---

pub open spec fn lesser(a: int, b: int) -> int {
    if a < b { a } else { b }
}

pub open spec fn greater(a: int, b: int) -> int {
    if a < b { b } else { a }
}

/// The height below the strip.
pub open spec fn work_height(h: int) -> int {
    greater(h - TOOLBAR_HEIGHT, 1)
}

/// `work_height`, computed.
pub fn work_area(h: i32) -> (r: i32)
    requires
        h - TOOLBAR_HEIGHT >= i32::MIN,
    ensures
        r == work_height(h as int),
{
    let d: i32 = h - TOOLBAR_HEIGHT;
    if d < 1 {
        1
    } else {
        d
    }
}

/// Where a new window stands among `count` others: each a step further than the last, in
/// rounds of eight, and so that it can be reached.
pub open spec fn place_at(size: Option<(int, int)>, count: int) -> (int, int) {
    match size {
        Some((w, h)) => {
            let step = 32 * (count % 8);
            (
                lesser(step, greater(w - 200, 0)),
                TOOLBAR_HEIGHT + lesser(step, greater(work_height(h) - 200, 0)),
            )
        },
        None => (0, TOOLBAR_HEIGHT as int),
    }
}

/// `place_at`, computed.
pub fn place(size: Option<(i32, i32)>, count: usize) -> (r: (i32, i32))
    requires
        size matches Some((w, h)) ==> w - 200 >= i32::MIN && h - TOOLBAR_HEIGHT >= i32::MIN,
    ensures
        (r.0 as int, r.1 as int) == place_at(
            match size {
                Some((w, h)) => Some((w as int, h as int)),
                None => None,
            },
            count as int,
        ),
{
    match size {
        Some((w, h)) => {
            let step: i32 = 32 * (count % 8) as i32;
            let across: i32 = if w - 200 > 0 {
                w - 200
            } else {
                0
            };
            let wh: i32 = work_area(h);
            let down: i32 = if wh - 200 > 0 {
                wh - 200
            } else {
                0
            };
            let x: i32 = if step < across {
                step
            } else {
                across
            };
            let y: i32 = if step < down {
                step
            } else {
                down
            };
            (x, TOOLBAR_HEIGHT + y)
        },
        None => (0, TOOLBAR_HEIGHT),
    }
}

/// A new window never hides under the strip, and its corner is in sight.
pub proof fn law_a_new_window_is_in_sight(w: int, h: int, count: int)
    requires
        count >= 0,
        w > 0,
        h > TOOLBAR_HEIGHT,
    ensures
        ({
            let p = place_at(Some((w, h)), count);
            &&& 0 <= p.0 < w
            &&& TOOLBAR_HEIGHT <= p.1 < h
        }),
{
}

/// Two windows that open one after the other do not stand on each other, where there is
/// room.
pub proof fn law_windows_cascade(w: int, h: int, count: int)
    requires
        count >= 0,
        w >= 424,
        h >= 424 + TOOLBAR_HEIGHT,
    ensures
        place_at(Some((w, h)), count) != place_at(Some((w, h)), count + 1),
{
}

/// New windows cascade: each stands a step to the right and below the one before, in
/// rounds of eight, below the strip. A small output holds them back, so that a part of
/// each stays in sight.
pub proof fn law_a_window_stands_at_its_step(w: int, h: int, count: int)
    requires
        count >= 0,
    ensures
        ({
            let p = place_at(Some((w, h)), count);
            let s = 32 * (count % 8);
            &&& w >= 424 ==> p.0 == s
            &&& h >= 424 + TOOLBAR_HEIGHT ==> p.1 == TOOLBAR_HEIGHT + s
            &&& w >= 200 ==> p.0 + 200 <= w
            &&& w < 200 ==> p.0 == 0
            &&& h >= 200 + TOOLBAR_HEIGHT ==> p.1 + 200 <= h
            &&& h < 200 + TOOLBAR_HEIGHT ==> p.1 == TOOLBAR_HEIGHT
            &&& p == place_at(Some((w, h)), count + 8)
        }),
        place_at(None, count) == (0int, TOOLBAR_HEIGHT as int),
        h > TOOLBAR_HEIGHT ==> work_height(h) == h - TOOLBAR_HEIGHT,
        h <= TOOLBAR_HEIGHT ==> work_height(h) == 1,
{
}

/// Where a maximised window stands, and its size: all of the output but the strip.
pub fn maximized(x: i32, y: i32, w: i32, h: i32) -> (r: (i32, i32, i32, i32))
    requires
        y + TOOLBAR_HEIGHT <= i32::MAX,
        h - TOOLBAR_HEIGHT >= i32::MIN,
    ensures
        r.0 == x,
        r.1 == y + TOOLBAR_HEIGHT,
        r.2 == w,
        r.3 == work_height(h as int),
{
    (x, y + TOOLBAR_HEIGHT, w, work_area(h))
}

/// How far a shadow reaches, in points.
pub const SHADOW_SPREAD: i32 = 18;

/// The area of the shadow of a window.
pub fn shadow_area(x: i32, y: i32, w: i32, h: i32) -> (r: (i32, i32, i32, i32))
    requires
        x - SHADOW_SPREAD >= i32::MIN,
        y - SHADOW_SPREAD >= i32::MIN,
        w + 2 * SHADOW_SPREAD <= i32::MAX,
        h + 2 * SHADOW_SPREAD <= i32::MAX,
    ensures
        r.0 == x - SHADOW_SPREAD,
        r.1 == y - SHADOW_SPREAD,
        r.2 == w + 2 * SHADOW_SPREAD,
        r.3 == h + 2 * SHADOW_SPREAD,
{
    (x - SHADOW_SPREAD, y - SHADOW_SPREAD, w + 2 * SHADOW_SPREAD, h + 2 * SHADOW_SPREAD)
}

// ------------------------------------------------------------- the process ---

/// The names of the socket that the arguments ask for, the last one, and the arguments
/// that are passed over.
pub open spec fn socket_args(args: Seq<Seq<char>>) -> (Option<Seq<char>>, Seq<Seq<char>>)
    decreases args.len(),
{
    if args.len() == 0 {
        (None, seq![])
    } else if args[0] == "--socket"@ {
        if args.len() == 1 {
            (None, seq![])
        } else {
            let rest = socket_args(args.skip(2));
            (if asks_again(args.skip(2)) { rest.0 } else { Some(args[1]) }, rest.1)
        }
    } else {
        let rest = socket_args(args.skip(1));
        (rest.0, seq![args[0]] + rest.1)
    }
}

/// Do the arguments ask for a socket once more?
pub open spec fn asks_again(args: Seq<Seq<char>>) -> bool
    decreases args.len(),
{
    if args.len() == 0 {
        false
    } else {
        args[0] == "--socket"@ || asks_again(args.skip(1))
    }
}

/// `socket_args`, computed.
pub fn compositor_args(args: &Vec<String>) -> (r: (Option<String>, Vec<String>))
    ensures
        (text::opt(r.0), text::texts(r.1@)) == socket_args(text::texts(args@)),
{
    let ghost t = text::texts(args@);
    assert(t.len() == args@.len());
    let mut socket: Option<String> = None;
    let mut ignored: Vec<String> = Vec::new();
    let n: usize = args.len();
    let mut i: usize = 0;
    proof {
        lemma_no_more(t);
    }
    assert(t.skip(0) =~= t);
    assert(text::texts(ignored@) =~= seq![]);
    assert(text::texts(ignored@) + socket_args(t).1 =~= socket_args(t).1);
    while i < n
        invariant
            i <= n,
            n == args@.len(),
            t == text::texts(args@),
            t.len() == n,
            socket_args(t).0 == if asks_again(t.skip(i as int)) {
                socket_args(t.skip(i as int)).0
            } else {
                text::opt(socket)
            },
            socket_args(t).1 == text::texts(ignored@) + socket_args(t.skip(i as int)).1,
        decreases n - i,
    {
        let ghost here = t.skip(i as int);
        assert(here[0] == args@[i as int]@);
        assert(here.skip(1) =~= t.skip(i + 1));
        proof {
            lemma_no_more(here);
            lemma_no_more(here.skip(1));
        }
        if text::same(args[i].as_str(), "--socket") {
            if i + 1 < n {
                assert(here.skip(2) =~= t.skip(i + 2));
                assert(here[1] == args@[i + 1]@);
                proof {
                    lemma_no_more(here.skip(2));
                }
                socket = Some(args[i + 1].clone());
                i = i + 2;
            } else {
                assert(here.len() == 1);
                socket = None;
                i = i + 1;
                assert(t.skip(i as int) =~= seq![]);
                assert(text::texts(ignored@) + socket_args(t.skip(i as int)).1 =~= text::texts(
                    ignored@,
                ) + socket_args(here).1);
            }
        } else {
            let ghost before = text::texts(ignored@);
            let s = args[i].clone();
            ignored.push(s);
            assert(text::texts(ignored@) =~= before.push(s@));
            i = i + 1;
            assert(before + (seq![s@] + socket_args(t.skip(i as int)).1) =~= text::texts(ignored@)
                + socket_args(t.skip(i as int)).1);
        }
    }
    assert(t.skip(i as int) =~= seq![]);
    assert(text::texts(ignored@) + socket_args(t.skip(i as int)).1 =~= text::texts(ignored@));
    (socket, ignored)
}

proof fn lemma_no_more(args: Seq<Seq<char>>)
    ensures
        !asks_again(args) ==> socket_args(args).0 is None,
    decreases args.len(),
{
    if args.len() > 0 && args[0] != "--socket"@ {
        lemma_no_more(args.skip(1));
    }
}

/// Is a client let in? Only one of the same user.
pub fn accepts_client(peer: Option<u32>, own: u32) -> (r: bool)
    ensures
        r == (peer == Some(own)),
{
    match peer {
        Some(uid) => uid == own,
        None => false,
    }
}

/// The file that is logged to: in the directory that was set, or in that of the session.
pub fn log_file(dir: Option<&str>) -> (r: String)
    ensures
        r@ == names::path_join(
            match text::opt_str(dir) {
                Some(d) => d,
                None => "/run/veracage/rt"@,
            },
            "compositor.log"@,
        ),
{
    match dir {
        Some(d) => names::join_path(d, "compositor.log"),
        None => names::join_path("/run/veracage/rt", "compositor.log"),
    }
}

/// The status that the compositor exits with.
pub fn exit_status(failed: bool) -> (r: i32)
    ensures
        r == if failed { 1int } else { 0 },
{
    if failed {
        1
    } else {
        0
    }
}

/// What a client asks the cursor to be: hidden, a shape by its name, or a surface with
/// its number, the version of its content, and whether it is alive and mapped.
pub enum Cursor {
    Hidden,
    Named(String),
    Surface { id: u32, version: Option<String>, alive: bool, mapped: Option<bool> },
}

pub open spec fn truth(b: bool) -> Seq<char> {
    if b { "true"@ } else { "false"@ }
}

/// What is logged of a cursor.
pub open spec fn cursor_text(c: Cursor) -> Seq<char> {
    match c {
        Cursor::Hidden => "hidden"@,
        Cursor::Named(n) => "named "@ + n@,
        Cursor::Surface { id, version, alive, mapped } => {
            let v = match version {
                Some(v) => v@,
                None => "-"@,
            };
            let m = match mapped {
                Some(b) => "Some("@ + truth(b) + ")"@,
                None => "None"@,
            };
            "client surface "@ + text::decimal(id as nat) + " v"@ + v + " (alive "@ + truth(alive)
                + ", mapped "@ + m + ")"@
        },
    }
}

fn push_truth(s: &mut String, b: bool)
    ensures
        final(s)@ == old(s)@ + truth(b),
{
    if b {
        s.append("true");
    } else {
        s.append("false");
    }
}

/// `cursor_text`, computed.
pub fn describe_cursor(c: &Cursor) -> (r: String)
    ensures
        r@ == cursor_text(*c),
{
    match c {
        Cursor::Hidden => "hidden".to_owned(),
        Cursor::Named(n) => {
            let mut s = "named ".to_owned();
            s.append(n.as_str());
            s
        },
        Cursor::Surface { id, version, alive, mapped } => {
            let mut s = "client surface ".to_owned();
            let d = text::decimal_of(*id as u64);
            s.append(d.as_str());
            s.append(" v");
            match version {
                Some(v) => {
                    s.append(v.as_str());
                },
                None => {
                    s.append("-");
                },
            }
            s.append(" (alive ");
            push_truth(&mut s, *alive);
            s.append(", mapped ");
            match mapped {
                Some(b) => {
                    let ghost before = s@;
                    s.append("Some(");
                    push_truth(&mut s, *b);
                    s.append(")");
                    assert(s@ =~= before + ("Some("@ + truth(*b) + ")"@));
                },
                None => {
                    s.append("None");
                },
            }
            s.append(")");
            assert(s@ =~= cursor_text(*c));
            s
        },
    }
}

/// The last socket that is asked for is the one that is used, and every other argument is
/// passed over and named.
pub proof fn law_the_last_socket_counts(before: Seq<Seq<char>>, v: Seq<char>, behind: Seq<Seq<char>>)
    requires
        !before.contains("--socket"@),
        !behind.contains("--socket"@),
    ensures
        socket_args(before) == (None::<Seq<char>>, before),
        socket_args(before + seq!["--socket"@, v] + behind) == (Some(v), before + behind),
    decreases before.len(),
{
    let all = before + seq!["--socket"@, v] + behind;
    if before.len() == 0 {
        assert(all[0] == "--socket"@ && all[1] == v);
        assert(all.skip(2) =~= behind);
        lemma_not_asked(behind);
        assert(before + behind =~= behind);
        assert(socket_args(before).1 =~= before);
    } else {
        let t = before.skip(1);
        assert(before.contains(before[0]));
        assert(!t.contains("--socket"@)) by {
            if t.contains("--socket"@) {
                let k = choose|k: int| 0 <= k < t.len() && t[k] == "--socket"@;
                assert(before[k + 1] == "--socket"@);
            }
        }
        law_the_last_socket_counts(t, v, behind);
        assert(all[0] == before[0]);
        assert(all.skip(1) =~= t + seq!["--socket"@, v] + behind);
        assert(seq![before[0]] + (t + behind) =~= before + behind);
        assert(seq![before[0]] + t =~= before);
    }
}

proof fn lemma_not_asked(args: Seq<Seq<char>>)
    requires
        !args.contains("--socket"@),
    ensures
        !asks_again(args),
        socket_args(args) == (None::<Seq<char>>, args),
    decreases args.len(),
{
    if args.len() > 0 {
        let t = args.skip(1);
        assert(args.contains(args[0]));
        assert(!t.contains("--socket"@)) by {
            if t.contains("--socket"@) {
                let k = choose|k: int| 0 <= k < t.len() && t[k] == "--socket"@;
                assert(args[k + 1] == "--socket"@);
            }
        }
        lemma_not_asked(t);
        assert(seq![args[0]] + t =~= args);
    } else {
        assert(socket_args(args).1 =~= args);
    }
}

/// What is logged of a cursor says which it is: a hidden one, one by its name, or the
/// surface of a client by its number, with what is known of it.
pub proof fn law_a_cursor_is_described(c: Cursor)
    ensures
        c is Hidden ==> cursor_text(c) == "hidden"@,
        c matches Cursor::Named(n) ==> cursor_text(c) == "named "@ + n@,
        c matches Cursor::Surface { id, version: Some(v), alive, mapped: None } ==> cursor_text(c)
            == "client surface "@ + text::decimal(id as nat) + " v"@ + v@ + " (alive "@ + (if alive {
            "true"@
        } else {
            "false"@
        }) + ", mapped None)"@,
        c matches Cursor::Surface { id, version: None, alive, mapped: Some(m) } ==> cursor_text(c)
            == "client surface "@ + text::decimal(id as nat) + " v- (alive "@ + (if alive {
            "true"@
        } else {
            "false"@
        }) + ", mapped Some("@ + (if m {
            "true"@
        } else {
            "false"@
        }) + "))"@,
{
    reveal_strlit(", mapped ");
    reveal_strlit("None");
    reveal_strlit(")");
    reveal_strlit("))");
    reveal_strlit(", mapped None)");
    reveal_strlit("Some(");
    reveal_strlit(", mapped Some(");
    reveal_strlit("-");
    reveal_strlit(" v");
    reveal_strlit(" (alive ");
    reveal_strlit(" v- (alive ");
    assert(", mapped "@ + "None"@ + ")"@ =~= ", mapped None)"@);
    assert(", mapped "@ + "Some("@ =~= ", mapped Some("@);
    assert(")"@ + ")"@ =~= "))"@);
    assert(" v"@ + "-"@ + " (alive "@ =~= " v- (alive "@);
    match c {
        Cursor::Surface { id, version, alive, mapped } => {
            let d = "client surface "@ + text::decimal(id as nat);
            let t = truth(alive);
            if version is Some && mapped is None {
                assert(cursor_text(c) =~= d + " v"@ + version->0@ + " (alive "@ + t + (", mapped "@ + "None"@ + ")"@));
            }
            if version is None && mapped is Some {
                assert(cursor_text(c) =~= d + (" v"@ + "-"@ + " (alive "@) + t + (", mapped "@ + "Some("@) + truth(
                    mapped->0,
                ) + (")"@ + ")"@));
            }
        },
        _ => {},
    }
}

} // verus!
