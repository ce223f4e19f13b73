//! The host's clipboard: what is offered and accepted, and when what was copied out of
//! the sandbox is cleared again.

use vstd::prelude::*;

use crate::text;

verus! {

/// The types that are offered and accepted, the best first.
pub open spec fn mime_list() -> Seq<Seq<char>> {
    seq![
        "text/plain;charset=utf-8"@,
        "text/plain;charset=UTF-8"@,
        "UTF8_STRING"@,
        "text/plain"@,
        "STRING"@,
        "TEXT"@,
    ]
}

/// `mime_list`, computed.
pub fn mimes() -> (r: Vec<String>)
    ensures
        text::texts(r@) == mime_list(),
{
    let mut v: Vec<String> = Vec::new();
    v.push("text/plain;charset=utf-8".to_owned());
    v.push("text/plain;charset=UTF-8".to_owned());
    v.push("UTF8_STRING".to_owned());
    v.push("text/plain".to_owned());
    v.push("STRING".to_owned());
    v.push("TEXT".to_owned());
    assert(text::texts(v@) =~= mime_list());
    v
}

/// The first of the wanted types that is offered.
pub open spec fn best_mime(
    wanted: Seq<Seq<char>>,
    offered: Seq<Seq<char>>,
) -> Option<Seq<char>>
    decreases wanted.len(),
{
    if wanted.len() == 0 {
        None
    } else if offered.contains(wanted[0]) {
        Some(wanted[0])
    } else {
        best_mime(wanted.skip(1), offered)
    }
}

/// The type in which a selection is read.
pub fn pick_mime(offered: &Vec<String>) -> (r: Option<String>)
    ensures
        text::opt(r) == best_mime(mime_list(), text::texts(offered@)),
{
    let ms = mimes();
    let ghost t = mime_list();
    let ghost o = text::texts(offered@);
    let mut i: usize = 0;
    assert(t.skip(0) =~= t);
    while i < ms.len()
        invariant
            i <= ms@.len(),
            t == mime_list(),
            t == text::texts(ms@),
            o == text::texts(offered@),
            best_mime(t.skip(i as int), o) == best_mime(t, o),
        decreases ms@.len() - i,
    {
        assert(t.skip(i as int)[0] == ms@[i as int]@);
        assert(t.skip(i as int).skip(1) =~= t.skip(i + 1));
        if crate::names::among(offered, ms[i].as_str()) {
            return Some(ms[i].clone());
        }
        i = i + 1;
    }
    None
}

/// The policy before any is published: to clear, after so many seconds.
pub const DEFAULT_CLEAR: bool = true;

pub const DEFAULT_CLEAR_SECS: u32 = 30;

/// The most types that are kept of one offer.
pub const MAX_OFFER_MIMES: usize = 64;

/// The most pastes that are served at a time.
pub const MAX_SERVE_THREADS: usize = 16;

/// The time, in milliseconds, to read the host's selection, to wait for it, to serve a
/// paste, and to wait for the clearing at the end.
pub const READ_BUDGET_MS: u64 = 900;

pub const LOAD_WAIT_MS: u64 = 1000;

pub const SERVE_BUDGET_MS: u64 = 2000;

pub const EXIT_CLEAR_WAIT_MS: u64 = 1500;

fn same_bytes(a: &[u8], b: &[u8]) -> (r: bool)
    ensures
        r == (a@ == b@),
{
    if a.len() != b.len() {
        return false;
    }
    let mut i: usize = 0;
    while i < a.len()
        invariant
            i <= a@.len(),
            a@.len() == b@.len(),
            forall|k: int| 0 <= k < i ==> a@[k] == b@[k],
        decreases a@.len() - i,
    {
        if a[i] != b[i] {
            return false;
        }
        i = i + 1;
    }
    assert(a@ =~= b@);
    true
}

/// The bytes of a selection that was read.
pub open spec fn opt_bytes(o: Option<&[u8]>) -> Option<Seq<u8>> {
    match o {
        Some(b) => Some(b@),
        None => None,
    }
}

/// `String::from_utf8`: the text that the bytes encode, where they encode one.
#[verifier::external_body]
fn text_of_utf8(bytes: Vec<u8>) -> (r: Option<String>)
    ensures
        r is Some <==> vstd::utf8::valid_utf8(bytes@),
        r matches Some(s) ==> s@ == vstd::utf8::decode_utf8(bytes@),
{
    String::from_utf8(bytes).ok()
}

/// The text of a selection that was read; none where it is no text, which is then not
/// passed on.
pub fn selection_text(bytes: Vec<u8>) -> (r: Option<String>)
    ensures
        text::opt(r) == if vstd::utf8::valid_utf8(bytes@) {
            Some(vstd::utf8::decode_utf8(bytes@))
        } else {
            None
        },
{
    text_of_utf8(bytes)
}

/// A text that is copied out is the text that is pasted.
pub proof fn law_a_selection_keeps_its_text(s: Seq<char>)
    ensures
        vstd::utf8::valid_utf8(vstd::utf8::encode_utf8(s)),
        vstd::utf8::decode_utf8(vstd::utf8::encode_utf8(s)) == s,
{
    vstd::utf8::encode_utf8_valid_utf8(s);
    vstd::utf8::encode_utf8_decode_utf8(s);
}

/// Which selections are cleared: the clipboard while it is still ours, and the primary
/// selection where it holds exactly what was copied out.
pub open spec fn clear_plan(
    owns_clip: bool,
    has_primary: bool,
    pushed: Seq<u8>,
    current: Option<Seq<u8>>,
) -> (bool, bool) {
    (owns_clip, has_primary && current == Some(pushed))
}

/// `clear_plan`, computed.
pub fn plan_clear(
    owns_clip: bool,
    has_primary: bool,
    pushed: &[u8],
    current_primary: Option<&[u8]>,
) -> (r: (bool, bool))
    ensures
        r == clear_plan(owns_clip, has_primary, pushed@, opt_bytes(current_primary)),
{
    let primary = match current_primary {
        Some(c) => same_bytes(c, pushed),
        None => false,
    };
    (owns_clip, has_primary && primary)
}

/// What is known of the host's clipboard: the policy, what was copied out and not
/// cleared yet, whether the clipboard still holds it, and when it is cleared.
pub struct ClipState {
    pub has_primary: bool,
    pub enabled: bool,
    pub secs: u32,
    pub pushed: Option<Vec<u8>>,
    pub owns_clip: bool,
    pub deadline: Option<u64>,
}

/// `ClipState`, as values.
pub ghost struct Clip {
    pub has_primary: bool,
    pub enabled: bool,
    pub secs: u32,
    pub pushed: Option<Seq<u8>>,
    pub owns_clip: bool,
    pub deadline: Option<int>,
}

impl View for ClipState {
    type V = Clip;

    open spec fn view(&self) -> Clip {
        Clip {
            has_primary: self.has_primary,
            enabled: self.enabled,
            secs: self.secs,
            pushed: match self.pushed {
                Some(b) => Some(b@),
                None => None,
            },
            owns_clip: self.owns_clip,
            deadline: match self.deadline {
                Some(d) => Some(d as int),
                None => None,
            },
        }
    }
}

/// After something was copied out: it is remembered, and the countdown starts where the
/// policy asks for it.
pub open spec fn stored(c: Clip, bytes: Seq<u8>, now: int) -> Clip {
    Clip {
        pushed: Some(bytes),
        owns_clip: true,
        deadline: if c.enabled { Some(now + c.secs * 1000) } else { None },
        ..c
    }
}

/// After a new policy: one that does not clear stops the countdown, and one that does
/// starts it while the clipboard still holds what was copied out.
pub open spec fn under_policy(c: Clip, enabled: bool, secs: u32, now: int) -> Clip {
    Clip {
        enabled,
        secs,
        deadline: if !enabled {
            None
        } else if c.deadline is None && c.owns_clip && c.pushed is Some {
            Some(now + secs * 1000)
        } else {
            c.deadline
        },
        ..c
    }
}

/// After the host replaced the selection that was ours.
pub open spec fn replaced(c: Clip) -> Clip {
    Clip { owns_clip: false, ..c }
}

/// After a clearing: nothing is remembered, and nothing counts down. What was cleared is
/// the plan for what had been copied out.
pub open spec fn cleared(c: Clip) -> Clip {
    Clip {
        deadline: None,
        pushed: None,
        owns_clip: if c.pushed is Some { false } else { c.owns_clip },
        ..c
    }
}

/// Which selections a clearing takes back; none where nothing had been copied out.
pub open spec fn clears(c: Clip, current: Option<Seq<u8>>) -> Option<(bool, bool)> {
    match c.pushed {
        Some(b) => Some(clear_plan(c.owns_clip, c.has_primary, b, current)),
        None => None,
    }
}

/// Has the countdown run out?
pub open spec fn is_due(c: Clip, now: int) -> bool {
    c.deadline is Some && now >= c.deadline->0
}

/// How long to wait for the next event, in milliseconds; -1 is for ever.
pub open spec fn wait_of(c: Clip, now: int) -> int {
    match c.deadline {
        None => -1,
        Some(d) => if now >= d {
            0
        } else if d - now < 1000 {
            d - now
        } else {
            1000
        },
    }
}

/// What was copied out is due after the configured time, and not a moment before; until
/// then it is looked at once a second, and never later than that.
pub proof fn law_a_copy_is_cleared_on_time(c: Clip, bytes: Seq<u8>, now: int, later: int)
    requires
        c.enabled,
    ensures
        ({
            let s = stored(c, bytes, now);
            let end = now + 1000 * c.secs;
            &&& is_due(s, later) <==> later >= end
            &&& later >= end ==> wait_of(s, later) == 0
            &&& later < end ==> 0 < wait_of(s, later) <= 1000 && later + wait_of(s, later) <= end
            &&& later < end ==> (wait_of(s, later) == 1000 || later + wait_of(s, later) == end)
        }),
        !is_due(cleared(c), later),
        wait_of(cleared(c), later) == -1,
{
}

impl ClipState {
    /// Before anything was copied out.
    pub fn new(has_primary: bool) -> (r: ClipState)
        ensures
            r@ == (Clip {
                has_primary,
                enabled: DEFAULT_CLEAR,
                secs: DEFAULT_CLEAR_SECS,
                pushed: None,
                owns_clip: false,
                deadline: None,
            }),
            is_sound(r@),
    {
        ClipState {
            has_primary,
            enabled: DEFAULT_CLEAR,
            secs: DEFAULT_CLEAR_SECS,
            pushed: None,
            owns_clip: false,
            deadline: None,
        }
    }

    /// Something was copied out, at `now` milliseconds.
    pub fn store(&mut self, bytes: Vec<u8>, now: u64)
        requires
            now + old(self).secs * 1000 <= u64::MAX,
        ensures
            final(self)@ == stored(old(self)@, bytes@, now as int),
    {
        self.deadline = if self.enabled {
            Some(now + self.secs as u64 * 1000)
        } else {
            None
        };
        self.pushed = Some(bytes);
        self.owns_clip = true;
    }

    /// A new policy was published.
    pub fn set_policy(&mut self, enabled: bool, secs: u32, now: u64)
        requires
            now + secs * 1000 <= u64::MAX,
        ensures
            final(self)@ == under_policy(old(self)@, enabled, secs, now as int),
    {
        self.enabled = enabled;
        self.secs = secs;
        if !enabled {
            self.deadline = None;
        } else if self.deadline.is_none() && self.owns_clip && self.pushed.is_some() {
            self.deadline = Some(now + secs as u64 * 1000);
        }
    }

    /// A source was cancelled: only that of the current selection means that the host
    /// replaced it.
    pub fn cancelled(&mut self, is_current: bool)
        ensures
            final(self)@ == if is_current { replaced(old(self)@) } else { old(self)@ },
    {
        if is_current {
            self.owns_clip = false;
        }
    }

    /// Has the countdown run out?
    pub fn due(&self, now: u64) -> (r: bool)
        ensures
            r == is_due(self@, now as int),
            r == (self@.deadline is Some && now >= self@.deadline->0),
    {
        match self.deadline {
            Some(d) => now >= d,
            None => false,
        }
    }

    /// Is the primary selection read before a clearing?
    pub fn reads_primary(&self) -> (r: bool)
        ensures
            r == (self@.pushed is Some && self@.has_primary),
    {
        self.pushed.is_some() && self.has_primary
    }

    /// The clearing: which of the two selections are taken back.
    pub fn clear(&mut self, current_primary: Option<&[u8]>) -> (r: Option<(bool, bool)>)
        ensures
            r == clears(old(self)@, opt_bytes(current_primary)),
            final(self)@ == cleared(old(self)@),
    {
        self.deadline = None;
        let plan = match &self.pushed {
            Some(b) => Some(
                plan_clear(self.owns_clip, self.has_primary, b.as_slice(), current_primary),
            ),
            None => None,
        };
        if plan.is_some() {
            self.owns_clip = false;
        }
        self.pushed = None;
        plan
    }

    /// How long to wait for the next event, in milliseconds: for ever without a countdown,
    /// else at most a second, and never past its end.
    pub fn poll_timeout(&self, now: u64) -> (r: i32)
        ensures
            r == wait_of(self@, now as int),
            self@.deadline is None ==> r == -1,
            self@.deadline matches Some(d) ==> r == if now >= d {
                0
            } else if d - now < 1000 {
                d - now
            } else {
                1000
            },
    {
        match self.deadline {
            None => -1,
            Some(d) => if now >= d {
                0
            } else if d - now < 1000 {
                (d - now) as i32
            } else {
                1000
            },
        }
    }
}

/// What the host put on the clipboard meanwhile is never cleared.
pub proof fn law_newer_content_is_kept(
    c: Clip,
    bytes: Seq<u8>,
    now: int,
    current: Option<Seq<u8>>,
)
    requires
        current != Some(bytes),
    ensures
        clears(replaced(stored(c, bytes, now)), current) == Some((false, false)),
{
}

/// What was copied out is cleared while it is still there, whether by the countdown or at
/// the end, and whatever the policy is by then; a second clearing touches nothing.
pub proof fn law_what_was_copied_out_is_cleared_once(
    c: Clip,
    bytes: Seq<u8>,
    now: int,
    enabled: bool,
    secs: u32,
    later: int,
    current: Option<Seq<u8>>,
    again: Option<Seq<u8>>,
)
    ensures
        ({
            let s = under_policy(stored(c, bytes, now), enabled, secs, later);
            &&& clears(s, current) is Some
            &&& (clears(s, current)->0).0
            &&& clears(cleared(s), again) is None
            &&& cleared(s).pushed is None
        }),
{
}

/// Only what was copied out counts down or is taken for ours, and nothing counts down under
/// a policy that does not clear.
pub open spec fn is_sound(c: Clip) -> bool {
    &&& c.deadline is Some ==> c.pushed is Some && c.enabled
    &&& c.owns_clip ==> c.pushed is Some
}

/// Whatever happens to the clipboard of the host, only what was copied out counts down: a
/// clearing that falls due always has something to clear, and after it nothing is due.
pub proof fn law_only_what_was_copied_out_counts_down(
    c: Clip,
    bytes: Seq<u8>,
    enabled: bool,
    secs: u32,
    now: int,
    current: Option<Seq<u8>>,
)
    requires
        is_sound(c),
    ensures
        is_sound(stored(c, bytes, now)),
        is_sound(under_policy(c, enabled, secs, now)),
        is_sound(replaced(c)),
        is_sound(cleared(c)),
        c.deadline is Some ==> clears(c, current) is Some,
        cleared(c).deadline is None,
{
}

/// Under a policy that clears, what was copied out always counts down; under one that
/// does not, nothing does.
pub proof fn law_the_policy_decides_the_countdown(
    c: Clip,
    bytes: Seq<u8>,
    now: int,
    enabled: bool,
    secs: u32,
    later: int,
)
    ensures
        stored(c, bytes, now).deadline is Some <==> c.enabled,
        under_policy(stored(c, bytes, now), enabled, secs, later).deadline is Some <==> enabled,
{
}

/// What a clearing takes back of what was copied out: the clipboard unless the host
/// replaced it, and, whoever owns the clipboard, the primary selection where the device
/// has one and it reads back as exactly those bytes. A new policy changes neither.
pub proof fn law_a_clearing_takes_back_what_was_copied_out(
    c: Clip,
    bytes: Seq<u8>,
    now: int,
    enabled: bool,
    secs: u32,
    later: int,
    current: Option<Seq<u8>>,
)
    ensures
        ({
            let ours = stored(c, bytes, now);
            let theirs = replaced(ours);
            let primary = c.has_primary && current == Some(bytes);
            &&& clears(ours, current) == Some((true, primary))
            &&& clears(theirs, current) == Some((false, primary))
            &&& clears(under_policy(ours, enabled, secs, later), current) == Some((true, primary))
            &&& clears(under_policy(theirs, enabled, secs, later), current) == Some((false, primary))
            &&& clears(replaced(under_policy(ours, enabled, secs, later)), current) == Some(
                (false, primary),
            )
        }),
{
}

/// What is cleared is one plan: each selection is decided by itself.
pub proof fn law_each_selection_is_cleared_by_itself(
    owns_clip: bool,
    has_primary: bool,
    pushed: Seq<u8>,
    current: Option<Seq<u8>>,
)
    ensures
        clear_plan(owns_clip, has_primary, pushed, current).0 <==> owns_clip,
        clear_plan(owns_clip, has_primary, pushed, current).1 <==> has_primary && current == Some(
            pushed,
        ),
{
}

/// The countdown lasts as long as the policy says, from the copy or from the policy that
/// asks for it; a later copy starts it anew, and a new time alone does not move it.
pub proof fn law_the_countdown_lasts_as_configured(
    c: Clip,
    bytes: Seq<u8>,
    now: int,
    secs: u32,
    later: int,
    next: Seq<u8>,
    next_at: int,
)
    ensures
        c.enabled ==> stored(c, bytes, now).deadline == Some(now + 1000 * c.secs),
        c.enabled ==> under_policy(stored(c, bytes, now), true, secs, later).deadline == Some(
            now + 1000 * c.secs,
        ),
        !c.enabled ==> under_policy(stored(c, bytes, now), true, secs, later).deadline == Some(
            later + 1000 * secs,
        ),
        c.enabled ==> stored(stored(c, bytes, now), next, next_at).deadline == Some(
            next_at + 1000 * c.secs,
        ),
        under_policy(c, true, secs, later).secs == secs,
        under_policy(c, true, secs, later).enabled,
        !under_policy(c, false, secs, later).enabled,
        stored(c, bytes, now).enabled == c.enabled,
        stored(c, bytes, now).secs == c.secs,
{
}

/// Once the host replaced what was copied out, no new policy starts a countdown for it.
pub proof fn law_replaced_content_starts_no_countdown(
    c: Clip,
    bytes: Seq<u8>,
    now: int,
    secs: u32,
    later: int,
)
    requires
        !c.enabled,
    ensures
        under_policy(replaced(stored(c, bytes, now)), true, secs, later).deadline is None,
        replaced(stored(c, bytes, now)).pushed == Some(bytes),
{
}

/// A selection is read in the best of the wanted types that it is offered in: none that is
/// wanted more is offered, and where nothing is chosen none of them is offered at all.
pub proof fn law_the_best_offered_type_is_read(wanted: Seq<Seq<char>>, offered: Seq<Seq<char>>)
    ensures
        best_mime(wanted, offered) matches Some(m) ==> offered.contains(m) && exists|i: int|
            0 <= i < wanted.len() && #[trigger] wanted[i] == m && forall|k: int|
                0 <= k < i ==> !offered.contains(#[trigger] wanted[k]),
        best_mime(wanted, offered) is None <==> forall|k: int|
            0 <= k < wanted.len() ==> !offered.contains(#[trigger] wanted[k]),
    decreases wanted.len(),
{
    if wanted.len() > 0 {
        if offered.contains(wanted[0]) {
            assert(wanted[0] == wanted[0]);
        } else {
            let t = wanted.skip(1);
            law_the_best_offered_type_is_read(t, offered);
            assert forall|k: int| 0 <= k < t.len() implies #[trigger] t[k] == wanted[k + 1] by {}
            if let Some(m) = best_mime(t, offered) {
                let i = choose|i: int|
                    0 <= i < t.len() && #[trigger] t[i] == m && forall|k: int|
                        0 <= k < i ==> !offered.contains(#[trigger] t[k]);
                assert(wanted[i + 1] == m);
                assert forall|k: int| 0 <= k < i + 1 implies !offered.contains(#[trigger] wanted[k]) by {
                    if k > 0 {
                        assert(t[k - 1] == wanted[k]);
                    }
                }
            } else {
                assert forall|k: int| 0 <= k < wanted.len() implies !offered.contains(
                    #[trigger] wanted[k],
                ) by {
                    if k > 0 {
                        assert(t[k - 1] == wanted[k]);
                    }
                }
            }
            if forall|k: int| 0 <= k < wanted.len() ==> !offered.contains(#[trigger] wanted[k]) {
                assert forall|k: int| 0 <= k < t.len() implies !offered.contains(#[trigger] t[k]) by {
                    assert(t[k] == wanted[k + 1]);
                }
            }
        }
    }
}

/// Text is read in every type that text is offered in: a selection offered in any of them
/// is read, UTF-8 before the rest.
pub proof fn law_text_is_read_in_every_type(offered: Seq<Seq<char>>)
    requires
        offered.contains("text/plain;charset=utf-8"@) || offered.contains("text/plain;charset=UTF-8"@)
            || offered.contains("UTF8_STRING"@) || offered.contains("text/plain"@) || offered.contains(
            "STRING"@,
        ) || offered.contains("TEXT"@),
    ensures
        best_mime(mime_list(), offered) is Some,
        offered.contains("text/plain;charset=utf-8"@) ==> best_mime(mime_list(), offered) == Some(
            "text/plain;charset=utf-8"@,
        ),
        best_mime(mime_list(), offered) == Some("STRING"@) ==> !offered.contains("text/plain"@)
            && !offered.contains("UTF8_STRING"@),
{
    let l = mime_list();
    law_the_best_offered_type_is_read(l, offered);
    reveal_strlit("text/plain;charset=utf-8");
    reveal_strlit("text/plain;charset=UTF-8");
    reveal_strlit("UTF8_STRING");
    reveal_strlit("text/plain");
    reveal_strlit("STRING");
    reveal_strlit("TEXT");
    assert(l[0] == "text/plain;charset=utf-8"@);
    assert(l[1] == "text/plain;charset=UTF-8"@);
    assert(l[2] == "UTF8_STRING"@);
    assert(l[3] == "text/plain"@);
    assert(l[4] == "STRING"@);
    assert(l[5] == "TEXT"@);
    assert("STRING"@.len() == 6);
    assert("TEXT"@.len() == 4);
    assert("text/plain"@.len() == 10);
    assert("UTF8_STRING"@.len() == 11);
    assert("text/plain;charset=utf-8"@.len() == 24);
    assert("text/plain;charset=UTF-8"@.len() == 24);
}

// ----------------------------------------------------------------- offers ---

/// The types of the selections: of the offer that is being announced, of the clipboard
/// and of the primary selection.
pub struct Offers {
    pub building: Vec<String>,
    pub clip: Vec<String>,
    pub primary: Vec<String>,
}

/// `Offers`, as values.
pub ghost struct OfferTexts {
    pub building: Seq<Seq<char>>,
    pub clip: Seq<Seq<char>>,
    pub primary: Seq<Seq<char>>,
}

impl View for Offers {
    type V = OfferTexts;

    open spec fn view(&self) -> OfferTexts {
        OfferTexts {
            building: text::texts(self.building@),
            clip: text::texts(self.clip@),
            primary: text::texts(self.primary@),
        }
    }
}

impl Offers {
    /// No list is longer than is kept of one offer.
    pub open spec fn wf(&self) -> bool {
        &&& self.building@.len() <= MAX_OFFER_MIMES
        &&& self.clip@.len() <= MAX_OFFER_MIMES
        &&& self.primary@.len() <= MAX_OFFER_MIMES
    }

    /// Before any selection.
    pub fn new() -> (r: Offers)
        ensures
            r.wf(),
            r@ == (OfferTexts { building: seq![], clip: seq![], primary: seq![] }),
    {
        let r = Offers { building: Vec::new(), clip: Vec::new(), primary: Vec::new() };
        assert(r@.building =~= seq![]);
        assert(r@.clip =~= seq![]);
        assert(r@.primary =~= seq![]);
        r
    }

    /// A new offer is announced.
    pub fn announced(&mut self)
        requires
            old(self).wf(),
        ensures
            final(self).wf(),
            final(self)@ == (OfferTexts { building: seq![], ..old(self)@ }),
    {
        self.building = Vec::new();
        assert(self@.building =~= seq![]);
    }

    /// The announced offer has a type; past the most that are kept it is dropped.
    pub fn has_type(&mut self, mime: String)
        requires
            old(self).wf(),
        ensures
            final(self).wf(),
            final(self)@ == if old(self)@.building.len() < MAX_OFFER_MIMES {
                OfferTexts { building: old(self)@.building.push(mime@), ..old(self)@ }
            } else {
                old(self)@
            },
    {
        assert(self@.building.len() == self.building@.len());
        if self.building.len() < MAX_OFFER_MIMES {
            let ghost before = self@.building;
            self.building.push(mime);
            assert(self@.building =~= before.push(mime@));
        }
    }

    /// The announced offer becomes the clipboard, or the primary selection; or there is
    /// none any more.
    pub fn selected(&mut self, primary: bool, some: bool)
        requires
            old(self).wf(),
        ensures
            final(self).wf(),
            final(self)@ == ({
                let b = old(self)@.building;
                let list = if some { b } else { seq![] };
                let rest = if some { seq![] } else { b };
                if primary {
                    OfferTexts { building: rest, primary: list, ..old(self)@ }
                } else {
                    OfferTexts { building: rest, clip: list, ..old(self)@ }
                }
            }),
    {
        let mut list: Vec<String> = Vec::new();
        assert(text::texts(list@) =~= seq![]);
        if some {
            std::mem::swap(&mut list, &mut self.building);
        }
        if primary {
            self.primary = list;
        } else {
            self.clip = list;
        }
    }
}

} // verus!
