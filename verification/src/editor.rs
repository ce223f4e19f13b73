//! The window in which the keyboard shortcuts are edited: a click starts the capture
//! of new keys.

use vstd::prelude::*;

use crate::config;
use crate::config::Config;
use crate::pairs;
use crate::text;

verus! {

/// The character of a key that can be bound: a letter or a digit, by the key's name.
pub open spec fn bound_char(name: Seq<char>) -> Option<char> {
    if name.len() == 1 && text::is_alnum(name[0]) { Some(text::lower(name[0])) } else { None }
}

/// `bound_char`, computed.
pub fn key_char(name: &str) -> (r: Option<char>)
    ensures
        r == bound_char(name@),
{
    let v = text::chars_of(name);
    if v.len() == 1 && text::alnum(v[0]) {
        Some(text::to_lower(v[0]))
    } else {
        None
    }
}

/// The modifiers that are held.
#[derive(Clone, Copy, PartialEq, Eq, Structural, Debug)]
pub struct Held {
    pub ctrl: bool,
    pub alt: bool,
    pub shift: bool,
}

/// The modifiers as a bind writes them.
pub open spec fn held_text(m: Held) -> Seq<char> {
    (if m.ctrl { "Ctrl+"@ } else { seq![] }) + (if m.alt { "Alt+"@ } else { seq![] }) + (
    if m.shift { "Shift+"@ } else { seq![] })
}

/// The bind of a key with modifiers; none without one, or for a key that cannot be
/// bound.
pub open spec fn combo(m: Held, name: Seq<char>) -> Option<Seq<char>> {
    match bound_char(name) {
        Some(c) => if m.ctrl || m.alt || m.shift {
            Some(held_text(m) + seq![text::upper(c)])
        } else {
            None
        },
        None => None,
    }
}

/// `combo`, computed.
pub fn combo_from(m: Held, name: &str) -> (r: Option<String>)
    ensures
        text::opt(r) == combo(m, name@),
{
    match key_char(name) {
        Some(c) => {
            if !(m.ctrl || m.alt || m.shift) {
                return None;
            }
            let mut s = String::new();
            if m.ctrl {
                s.append("Ctrl+");
            }
            if m.alt {
                s.append("Alt+");
            }
            if m.shift {
                s.append("Shift+");
            }
            assert(s@ =~= held_text(m));
            s.push(text::to_upper(c));
            assert(s@ =~= held_text(m) + seq![text::upper(c)]);
            Some(s)
        },
        None => None,
    }
}

/// An event of the window. Copying, cutting and pasting arrive as such, without the
/// key that asked for them.
pub enum InputEvent {
    Key(String, bool, Held),
    Copy,
    Cut,
    Paste,
    Other,
}

/// What the events of a frame come to while keys are captured.
pub enum Captured {
    Nothing,
    Cancelled,
    Combo(String),
}

/// What the events of a frame come to, as values.
pub ghost enum Capture {
    Nothing,
    Cancelled,
    Combo(Seq<char>),
}

impl View for Captured {
    type V = Capture;

    open spec fn view(&self) -> Capture {
        match self {
            Captured::Nothing => Capture::Nothing,
            Captured::Cancelled => Capture::Cancelled,
            Captured::Combo(s) => Capture::Combo(s@),
        }
    }
}

/// What one event comes to; `held` are the modifiers held now.
pub open spec fn captured_by(e: InputEvent, held: Held) -> Capture {
    match e {
        InputEvent::Key(name, pressed, mods) => if pressed {
            if name@ == "Escape"@ {
                Capture::Cancelled
            } else {
                of_combo(combo(mods, name@))
            }
        } else {
            Capture::Nothing
        },
        InputEvent::Copy => of_combo(combo(held, "C"@)),
        InputEvent::Cut => of_combo(combo(held, "X"@)),
        InputEvent::Paste => of_combo(combo(held, "V"@)),
        InputEvent::Other => Capture::Nothing,
    }
}

/// The capture of a bind.
pub open spec fn of_combo(c: Option<Seq<char>>) -> Capture {
    match c {
        Some(s) => Capture::Combo(s),
        None => Capture::Nothing,
    }
}

/// What the first event that comes to anything comes to.
pub open spec fn captured_in(es: Seq<InputEvent>, held: Held) -> Capture
    decreases es.len(),
{
    if es.len() == 0 {
        Capture::Nothing
    } else if captured_by(es[0], held) != Capture::Nothing {
        captured_by(es[0], held)
    } else {
        captured_in(es.skip(1), held)
    }
}

fn capture_event(e: &InputEvent, held: Held) -> (r: Captured)
    ensures
        r@ == captured_by(*e, held),
{
    let c = match e {
        InputEvent::Key(name, pressed, mods) => {
            if !*pressed {
                return Captured::Nothing;
            }
            if text::same(name.as_str(), "Escape") {
                return Captured::Cancelled;
            }
            combo_from(*mods, name.as_str())
        },
        InputEvent::Copy => combo_from(held, "C"),
        InputEvent::Cut => combo_from(held, "X"),
        InputEvent::Paste => combo_from(held, "V"),
        InputEvent::Other => {
            return Captured::Nothing;
        },
    };
    match c {
        Some(s) => Captured::Combo(s),
        None => Captured::Nothing,
    }
}

/// The keys that the events of a frame capture; Escape cancels.
pub fn capture(escape: bool, events: &Vec<InputEvent>, held: Held) -> (r: Captured)
    ensures
        r@ == if escape { Capture::Cancelled } else { captured_in(events@, held) },
{
    if escape {
        return Captured::Cancelled;
    }
    let mut i: usize = 0;
    assert(events@.skip(0) =~= events@);
    while i < events.len()
        invariant
            i <= events@.len(),
            !escape,
            captured_in(events@.skip(i as int), held) == captured_in(events@, held),
        decreases events@.len() - i,
    {
        assert(events@.skip(i as int)[0] == events@[i as int]);
        assert(events@.skip(i as int).skip(1) =~= events@.skip(i + 1));
        let c = capture_event(&events[i], held);
        match c {
            Captured::Nothing => {},
            other => {
                return other;
            },
        }
        i = i + 1;
    }
    Captured::Nothing
}

/// The action whose keys are being captured, and whether the own placeholder is on the
/// host's clipboard.
pub struct Editor {
    pub capturing: Option<String>,
    pub seeded: bool,
}

impl Editor {
    /// The placeholder is on the clipboard only while keys are captured.
    pub open spec fn wf(self) -> bool {
        self.seeded ==> self.capturing is Some
    }

    pub fn new() -> (r: Editor)
        ensures
            r.wf(),
            r.capturing is None,
            !r.seeded,
    {
        Editor { capturing: None, seeded: false }
    }

    /// A click on the bind of an action starts a capture. True where the placeholder has
    /// to be put on the clipboard: it holds no text of the user's, and without any no
    /// event carries the pasting key.
    pub fn click(&mut self, action: &str, clipboard_has_text: bool) -> (r: bool)
        ensures
            final(self).wf(),
            text::opt(final(self).capturing) == Some(action@),
            r == !clipboard_has_text,
            final(self).seeded == (old(self).seeded || r),
    {
        self.capturing = Some(action.to_owned());
        if !clipboard_has_text {
            self.seeded = true;
            true
        } else {
            false
        }
    }

    /// Takes what was captured. True where the placeholder has to be taken off the
    /// clipboard.
    pub fn take(&mut self, c: Captured, cfg: &mut Config) -> (r: bool)
        requires
            old(self).wf(),
            old(cfg).shortcuts.wf(),
        ensures
            final(self).wf(),
            final(cfg).shortcuts.wf(),
            r == (old(self).seeded && old(self).capturing is Some && c@ != Capture::Nothing),
            final(self).capturing == if c@ == Capture::Nothing { old(self).capturing } else { None },
            final(self).seeded == (old(self).seeded && !r),
            final(cfg)@ == match (old(self).capturing, c@) {
                (Some(a), Capture::Combo(s)) => config::Settings {
                    shortcuts: old(cfg)@.shortcuts.insert(a@, s),
                    ..old(cfg)@
                },
                _ => old(cfg)@,
            },
    {
        let action = match &self.capturing {
            Some(a) => a.clone(),
            None => {
                return false;
            },
        };
        match c {
            Captured::Nothing => false,
            Captured::Cancelled => {
                self.capturing = None;
                self.leave()
            },
            Captured::Combo(s) => {
                cfg.shortcuts.set(action, s);
                self.capturing = None;
                self.leave()
            },
        }
    }

    /// Leaves the capture, or the window. True where the placeholder has to be taken off
    /// the clipboard.
    pub fn leave(&mut self) -> (r: bool)
        ensures
            r == old(self).seeded,
            !final(self).seeded,
            final(self).wf(),
            final(self).capturing == old(self).capturing,
    {
        let r = self.seeded;
        self.seeded = false;
        r
    }
}

/// The bind that a row shows: the configured one, else the default.
pub fn bind(cfg: &Config, action: &str) -> (r: String)
    ensures
        r@ == if cfg@.shortcuts.dom().contains(action@) {
            cfg@.shortcuts[action@]
        } else {
            match pairs::lookup(config::shortcut_defaults(), action@) {
                Some(b) => b,
                None => seq![],
            }
        },
{
    match cfg.shortcuts.get(action) {
        Some(b) => b,
        None => config::default_shortcut(action),
    }
}

/// A letter or a digit with a modifier is a bind, written with its modifiers in order;
/// without a modifier, and for any other key, there is none.
pub proof fn law_keys_with_a_modifier_are_a_bind(m: Held, c: char, name: Seq<char>)
    ensures
        m.ctrl && m.alt && !m.shift && 'a' <= c <= 'z' ==> combo(m, seq![c]) == Some(
            "Ctrl+Alt+"@ + seq![text::upper(c)],
        ),
        text::is_alnum(c) && (m.ctrl || m.alt || m.shift) ==> combo(m, seq![c]) is Some,
        !m.ctrl && !m.alt && !m.shift ==> combo(m, name) is None,
        name.len() != 1 ==> combo(m, name) is None,
        !text::is_alnum(c) ==> combo(m, seq![c]) is None,
        'A' <= c <= 'Z' ==> combo(m, seq![c]) == combo(m, seq![text::lower(c)]),
{
    reveal_strlit("Ctrl+");
    reveal_strlit("Alt+");
    reveal_strlit("Ctrl+Alt+");
    if m.ctrl && m.alt && !m.shift && 'a' <= c <= 'z' {
        assert(held_text(m) + seq![text::upper(c)] =~= "Ctrl+Alt+"@ + seq![text::upper(c)]);
    }
}

/// The first event that comes to anything decides: a press of keys that are a bind is
/// captured, Escape cancels, and a release never counts.
pub proof fn law_the_first_keys_are_captured(
    before: Seq<InputEvent>,
    e: InputEvent,
    behind: Seq<InputEvent>,
    held: Held,
)
    requires
        forall|i: int| 0 <= i < before.len() ==> captured_by(#[trigger] before[i], held) is Nothing,
        !(captured_by(e, held) is Nothing),
    ensures
        captured_in(before + seq![e] + behind, held) == captured_by(e, held),
        captured_in(before, held) is Nothing,
    decreases before.len(),
{
    let all = before + seq![e] + behind;
    if before.len() == 0 {
        assert(all[0] == e);
    } else {
        let t = before.skip(1);
        assert forall|i: int| 0 <= i < t.len() implies captured_by(#[trigger] t[i], held) is Nothing by {
            assert(t[i] == before[i + 1]);
        }
        law_the_first_keys_are_captured(t, e, behind, held);
        assert(all[0] == before[0]);
        assert(all.skip(1) =~= t + seq![e] + behind);
        assert(captured_by(before[0], held) is Nothing);
    }
}

/// What one event comes to: Escape cancels, a press is the bind of its own modifiers, what
/// arrives as a copy, a cut or a paste is the key that asked for it, and a release is
/// nothing.
pub proof fn law_an_event_is_what_was_pressed(e: InputEvent, held: Held)
    ensures
        e matches InputEvent::Key(n, pressed, mods) ==> {
            &&& !pressed ==> captured_by(e, held) is Nothing
            &&& pressed && n@ == "Escape"@ ==> captured_by(e, held) is Cancelled
            &&& pressed && n@ != "Escape"@ ==> (captured_by(e, held) matches Capture::Combo(s)
                ==> combo(mods, n@) == Some(s))
            &&& pressed && n@ != "Escape"@ && combo(mods, n@) is Some ==> captured_by(e, held) is Combo
        },
        e is Copy && held.ctrl && !held.alt && !held.shift ==> captured_by(e, held) == Capture::Combo(
            "Ctrl+C"@,
        ),
        e is Cut && held.ctrl && !held.alt && !held.shift ==> captured_by(e, held) == Capture::Combo(
            "Ctrl+X"@,
        ),
        e is Paste && held.ctrl && !held.alt && !held.shift ==> captured_by(e, held) == Capture::Combo(
            "Ctrl+V"@,
        ),
        e is Other ==> captured_by(e, held) is Nothing,
{
    reveal_strlit("Ctrl+");
    reveal_strlit("C");
    reveal_strlit("X");
    reveal_strlit("V");
    reveal_strlit("Ctrl+C");
    reveal_strlit("Ctrl+X");
    reveal_strlit("Ctrl+V");
    if held.ctrl && !held.alt && !held.shift {
        assert(held_text(held) + seq!['C'] =~= "Ctrl+C"@);
        assert(held_text(held) + seq!['X'] =~= "Ctrl+X"@);
        assert(held_text(held) + seq!['V'] =~= "Ctrl+V"@);
        assert("C"@[0] == 'C' && "X"@[0] == 'X' && "V"@[0] == 'V');
        assert(text::upper(text::lower('C')) == 'C');
        assert(text::upper(text::lower('X')) == 'X');
        assert(text::upper(text::lower('V')) == 'V');
    }
}

} // verus!
