//! Who gets an input: the shortcuts, the strip, or the applications.

use vstd::prelude::*;

use crate::keybind::{Keybind, Modifiers};
use crate::text;

verus! {

/// What a key does.
#[derive(Clone, Copy, PartialEq, Eq, Structural, Debug)]
pub enum KeyDeed {
    CopyOut,
    PasteIn,
    Forward,
}

/// Does the key meet the bind?
pub open spec fn meets(b: Option<Keybind>, mods: Modifiers, sym: u32) -> bool {
    b is Some && crate::keybind::bind_matches(b->0, mods, sym)
}

/// What a key does: pressed, it is taken by the shortcut it meets, to copy out first;
/// otherwise it is the application's.
pub open spec fn key_deed(
    pressed: bool,
    copy_out: Option<Keybind>,
    paste_in: Option<Keybind>,
    mods: Modifiers,
    sym: u32,
) -> KeyDeed {
    if pressed && meets(copy_out, mods, sym) {
        KeyDeed::CopyOut
    } else if pressed && meets(paste_in, mods, sym) {
        KeyDeed::PasteIn
    } else {
        KeyDeed::Forward
    }
}

/// `key_deed`, computed.
pub fn route_key(
    pressed: bool,
    copy_out: &Option<Keybind>,
    paste_in: &Option<Keybind>,
    mods: &Modifiers,
    sym: u32,
) -> (r: KeyDeed)
    ensures
        r == key_deed(pressed, *copy_out, *paste_in, *mods, sym),
{
    if pressed {
        if let Some(b) = copy_out {
            if b.matches(mods, sym) {
                return KeyDeed::CopyOut;
            }
        }
        if let Some(b) = paste_in {
            if b.matches(mods, sym) {
                return KeyDeed::PasteIn;
            }
        }
    }
    KeyDeed::Forward
}

/// A release is never taken: an application gets the release of every key that it got the
/// press of.
pub proof fn law_a_release_reaches_the_application(
    copy_out: Option<Keybind>,
    paste_in: Option<Keybind>,
    mods: Modifiers,
    sym: u32,
)
    ensures
        key_deed(false, copy_out, paste_in, mods, sym) == KeyDeed::Forward,
{
}

/// What the strip makes of the pointer: whether it is there, and whether the pointer is on
/// it or in an open menu.
pub struct Strip {
    pub there: bool,
    pub over: bool,
    pub wants: bool,
}

/// Does the strip hear of the pointer? Not while a window holds it.
pub fn strip_hears(grabbed: bool, strip: &Strip) -> (r: bool)
    ensures
        r == (!grabbed && strip.there),
{
    !grabbed && strip.there
}

/// Is the pointer the strip's alone?
pub open spec fn strips_own(grabbed: bool, strip: Strip) -> bool {
    !grabbed && strip.there && (strip.over || strip.wants)
}

/// `strips_own`, computed.
pub fn strip_takes(grabbed: bool, strip: &Strip) -> (r: bool)
    ensures
        r == strips_own(grabbed, *strip),
{
    !grabbed && strip.there && (strip.over || strip.wants)
}

/// While a window holds the pointer, every event reaches it: it can always be let go.
pub proof fn law_a_held_pointer_can_be_let_go(strip: Strip)
    ensures
        !strips_own(true, strip),
{
}

/// Does what the pointer does show? On the strip, in a menu, and while something is
/// dragged.
pub fn pointer_shows(dragging: bool, strip: &Strip) -> (r: bool)
    ensures
        r == (dragging || (strip.there && (strip.over || strip.wants))),
{
    dragging || (strip.there && (strip.over || strip.wants))
}

/// What a press of a button does to the windows.
#[derive(Clone, Copy, PartialEq, Eq, Structural, Debug)]
pub enum Click {
    Raise,
    Leave,
    Nothing,
}

/// What a press of a button does.
pub open spec fn click_of(pressed: bool, grabbed: bool, on_window: bool) -> Click {
    if !pressed || grabbed {
        Click::Nothing
    } else if on_window {
        Click::Raise
    } else {
        Click::Leave
    }
}

/// A press raises the window it is on, and leaves all of them where it is on none; a
/// release, and whatever happens while something is held, does neither.
pub proof fn law_a_press_raises_its_window(on_window: bool, grabbed: bool)
    ensures
        click_of(true, false, true) == Click::Raise,
        click_of(true, false, false) == Click::Leave,
        click_of(false, grabbed, on_window) == Click::Nothing,
        click_of(true, true, on_window) == Click::Nothing,
{
}

/// A press raises the window under the pointer, or leaves all of them.
pub fn click(pressed: bool, grabbed: bool, on_window: bool) -> (r: Click)
    ensures
        r == click_of(pressed, grabbed, on_window),
        r == if !pressed || grabbed {
            Click::Nothing
        } else if on_window {
            Click::Raise
        } else {
            Click::Leave
        },
{
    if !pressed || grabbed {
        Click::Nothing
    } else if on_window {
        Click::Raise
    } else {
        Click::Leave
    }
}

/// Does a new window get the keyboard? Only where nothing has it: what is typed goes
/// where it went.
pub fn focuses_new_window(grabbed: bool, focused: bool) -> (r: bool)
    ensures
        r == (!grabbed && !focused),
{
    !grabbed && !focused
}

/// May a window be moved or resized? Where the pointer was pressed on the same
/// application, and is still held.
pub fn may_hold(held: bool, pressed_on: Option<bool>) -> (r: bool)
    ensures
        r == (held && pressed_on == Some(true)),
{
    held && match pressed_on {
        Some(same) => same,
        None => false,
    }
}

/// Is a menu of an application dismissed at once? Where another one has the input.
pub fn menu_is_refused(grabbed: bool, by_this: bool, by_its_parent: bool) -> (r: bool)
    ensures
        r == (grabbed && !by_this && !by_its_parent),
{
    grabbed && !(by_this || by_its_parent)
}

/// The part of the output that a menu may use, seen from its window.
pub fn menu_area(x: i32, y: i32, menu: (i32, i32), window: (i32, i32)) -> (r: (i32, i32))
    requires
        i32::MIN <= x - menu.0 <= i32::MAX,
        i32::MIN <= y - menu.1 <= i32::MAX,
        i32::MIN <= x - menu.0 - window.0 <= i32::MAX,
        i32::MIN <= y - menu.1 - window.1 <= i32::MAX,
    ensures
        r.0 == x - menu.0 - window.0,
        r.1 == y - menu.1 - window.1,
{
    (x - menu.0 - window.0, y - menu.1 - window.1)
}

/// The keys of a shortcut are taken when they are pressed: with exactly its modifiers and
/// its key, in either case. Whatever differs in one modifier is the application's.
pub proof fn law_a_shortcut_is_taken_by_its_keys(
    k: Keybind,
    other: Option<Keybind>,
    mods: Modifiers,
    sym: u32,
)
    requires
        'a' <= k.key <= 'z',
    ensures
        ({
            let held = Modifiers { ctrl: k.ctrl, alt: k.alt, shift: k.shift, logo: k.logo };
            let low = k.key as u32;
            let up = (k.key as u32 - 32) as u32;
            &&& mods == held && (sym == low || sym == up) ==> key_deed(true, Some(k), other, mods, sym)
                == KeyDeed::CopyOut
            &&& mods == held && (sym == low || sym == up) && !meets(other, mods, sym) ==> key_deed(
                true,
                other,
                Some(k),
                mods,
                sym,
            ) == KeyDeed::PasteIn
            &&& mods != held || (sym != low && sym != up) ==> key_deed(true, Some(k), None, mods, sym)
                == KeyDeed::Forward && key_deed(true, None, Some(k), mods, sym) == KeyDeed::Forward
        }),
        key_deed(true, None, None, mods, sym) == KeyDeed::Forward,
{
    let low = k.key as u32;
    let up = (k.key as u32 - 32) as u32;
    if sym == low {
        assert(text::lower(k.key) == k.key);
        assert(crate::keybind::is_key(sym, k.key));
    }
    if sym == up {
        let c = up as char;
        assert('A' <= c <= 'Z');
        assert(text::lower(c) == k.key);
        assert(crate::keybind::is_key(sym, k.key));
    }
    if crate::keybind::is_key(sym, k.key) {
        let c = choose|c: char| c as int == sym && #[trigger] text::lower(c) == k.key;
        assert(sym == low || sym == up);
    }
}

/// The strip has the pointer while it is there and the pointer is on it or in its menu,
/// and no window holds it.
pub proof fn law_the_strip_has_its_own_pointer(strip: Strip)
    ensures
        strip.there && (strip.over || strip.wants) ==> strips_own(false, strip),
        !strip.there ==> !strips_own(false, strip),
        !strip.over && !strip.wants ==> !strips_own(false, strip),
{
}

} // verus!
