//! The keyboard shortcuts of the session: how they are written, and when one is met.

use vstd::prelude::*;

use crate::config;
use crate::editor;
use crate::editor::Held;
use crate::publish;
use crate::text;

verus! {

/// Modifiers, and one key by its character.
#[derive(Clone, Copy, PartialEq, Eq, Structural, Debug)]
pub struct Keybind {
    pub ctrl: bool,
    pub alt: bool,
    pub shift: bool,
    pub logo: bool,
    pub key: char,
}

/// The modifiers that are held.
#[derive(Clone, Copy, PartialEq, Eq, Structural, Debug)]
pub struct Modifiers {
    pub ctrl: bool,
    pub alt: bool,
    pub shift: bool,
    pub logo: bool,
}

/// A word where it is wanted.
pub open spec fn word_if(on: bool, word: Seq<char>) -> Seq<char> {
    if on { word } else { seq![] }
}

/// A bind as it is shown: the modifiers in a fixed order, and the key in upper case.
pub open spec fn label_of(k: Keybind) -> Seq<char> {
    word_if(k.ctrl, "Ctrl+"@) + word_if(k.alt, "Alt+"@) + word_if(k.shift, "Shift+"@) + word_if(
        k.logo,
        "Super+"@,
    ) + seq![text::upper(k.key)]
}

/// Is the key symbol the key, whatever its case?
pub open spec fn is_key(sym: u32, key: char) -> bool {
    exists|c: char| c as int == sym && #[trigger] text::lower(c) == key
}

/// Is the bind met: exactly its modifiers are held, and its key is pressed?
pub open spec fn bind_matches(k: Keybind, mods: Modifiers, sym: u32) -> bool {
    &&& k.ctrl == mods.ctrl
    &&& k.alt == mods.alt
    &&& k.shift == mods.shift
    &&& k.logo == mods.logo
    &&& is_key(sym, k.key)
}

impl Keybind {
    /// `label_of`, computed.
    pub fn label(&self) -> (r: String)
        ensures
            r@ == label_of(*self),
    {
        let mut s = String::new();
        if self.ctrl {
            s.append("Ctrl+");
        }
        if self.alt {
            s.append("Alt+");
        }
        if self.shift {
            s.append("Shift+");
        }
        if self.logo {
            s.append("Super+");
        }
        s.push(text::to_upper(self.key));
        assert(s@ =~= label_of(*self));
        s
    }

    /// `bind_matches`, computed.
    pub fn matches(&self, mods: &Modifiers, sym: u32) -> (r: bool)
        ensures
            r == bind_matches(*self, *mods, sym),
    {
        let low: u32 = if sym >= 65 && sym <= 90 {
            sym + 32
        } else {
            sym
        };
        proof {
            let key = self.key;
            if low == key as u32 {
                let c = if 65 <= sym <= 90 { sym as char } else { key };
                assert(c as int == sym);
                assert(text::lower(c) == key);
                assert(is_key(sym, key));
            }
            if is_key(sym, key) {
                let c = choose|c: char| c as int == sym && #[trigger] text::lower(c) == key;
                assert(low == key as u32);
            }
        }
        self.ctrl == mods.ctrl && self.alt == mods.alt && self.shift == mods.shift && self.logo
            == mods.logo && low == self.key as u32
    }
}

/// The parts of a bind: what stands between the plus signs, blank parts left out.
pub open spec fn bind_parts(s: Seq<char>) -> Seq<Seq<char>> {
    text::fields(s, '+').map_values(|p: Seq<char>| text::trimmed(p)).filter(
        |p: Seq<char>| p.len() > 0,
    )
}

/// Which modifier a word names: 0 to 3 for Ctrl, Alt, Shift and Super.
pub open spec fn modifier(word: Seq<char>) -> Option<int> {
    let w = text::low_text(word);
    if w == "ctrl"@ || w == "control"@ {
        Some(0)
    } else if w == "alt"@ {
        Some(1)
    } else if w == "shift"@ {
        Some(2)
    } else if w == "super"@ || w == "meta"@ || w == "logo"@ || w == "win"@ {
        Some(3)
    } else {
        None
    }
}

/// Is the modifier among the words?
pub open spec fn held_in(words: Seq<Seq<char>>, m: int) -> bool {
    exists|i: int| 0 <= i < words.len() && modifier(#[trigger] words[i]) == Some(m)
}

/// Does every word name a modifier?
pub open spec fn all_modifiers(words: Seq<Seq<char>>) -> bool {
    forall|i: int| 0 <= i < words.len() ==> modifier(#[trigger] words[i]) is Some
}

/// The bind that a text writes: modifiers, and one letter or digit behind them.
pub open spec fn bind_of(s: Seq<char>) -> Option<Keybind> {
    let ps = bind_parts(s);
    if ps.len() == 0 {
        None
    } else {
        let mods = ps.drop_last();
        let k = ps.last();
        if all_modifiers(mods) && k.len() == 1 && text::is_alnum(k[0]) {
            Some(
                Keybind {
                    ctrl: held_in(mods, 0),
                    alt: held_in(mods, 1),
                    shift: held_in(mods, 2),
                    logo: held_in(mods, 3),
                    key: text::lower(k[0]),
                },
            )
        } else {
            None
        }
    }
}

fn modifier_of(word: &str) -> (r: Option<u8>)
    ensures
        r is Some <==> modifier(word@) is Some,
        r matches Some(m) ==> modifier(word@) == Some(m as int),
{
    let w = text::lower_text(word);
    let s = w.as_str();
    if text::same(s, "ctrl") || text::same(s, "control") {
        Some(0)
    } else if text::same(s, "alt") {
        Some(1)
    } else if text::same(s, "shift") {
        Some(2)
    } else if text::same(s, "super") || text::same(s, "meta") || text::same(s, "logo")
        || text::same(s, "win") {
        Some(3)
    } else {
        None
    }
}

fn split_bind(s: &str) -> (r: Vec<String>)
    ensures
        text::texts(r@) == bind_parts(s@),
{
    let fs = text::split(s, '+');
    let ghost t = text::fields(s@, '+').map_values(|p: Seq<char>| text::trimmed(p));
    let ghost p = |p: Seq<char>| p.len() > 0;
    let mut out: Vec<String> = Vec::new();
    let mut i: usize = 0;
    reveal(Seq::filter);
    assert(text::texts(out@) =~= t.take(0).filter(p));
    while i < fs.len()
        invariant
            i <= fs@.len(),
            text::texts(fs@) == text::fields(s@, '+'),
            t == text::fields(s@, '+').map_values(|p: Seq<char>| text::trimmed(p)),
            p == (|p: Seq<char>| p.len() > 0),
            text::texts(out@) == t.take(i as int).filter(p),
        decreases fs@.len() - i,
    {
        let ghost before = text::texts(out@);
        let w = text::trim(fs[i].as_str());
        proof {
            reveal(Seq::filter);
            assert(text::texts(fs@)[i as int] == fs@[i as int]@);
            assert(t.take(i + 1).drop_last() =~= t.take(i as int));
            assert(t.take(i + 1).last() == w@);
        }
        if !w.as_str().is_empty() {
            let ghost wv = w@;
            out.push(w);
            assert(text::texts(out@) =~= before.push(wv));
        }
        i = i + 1;
    }
    assert(text::texts(fs@).len() == fs@.len());
    assert(t.take(i as int) =~= t);
    out
}

/// `bind_of`, computed.
pub fn parse(s: &str) -> (r: Option<Keybind>)
    ensures
        r == bind_of(s@),
{
    let ps = split_bind(s);
    let ghost t = bind_parts(s@);
    assert(text::texts(ps@).len() == ps@.len());
    if ps.len() == 0 {
        return None;
    }
    let n: usize = ps.len() - 1;
    let ghost mods = t.drop_last();
    let mut kb = Keybind { ctrl: false, alt: false, shift: false, logo: false, key: ' ' };
    let mut i: usize = 0;
    while i < n
        invariant
            i <= n,
            n == ps@.len() - 1,
            text::texts(ps@) == t,
            t == bind_parts(s@),
            t.len() == ps@.len(),
            mods == t.drop_last(),
            all_modifiers(mods.take(i as int)),
            kb.ctrl == held_in(mods.take(i as int), 0),
            kb.alt == held_in(mods.take(i as int), 1),
            kb.shift == held_in(mods.take(i as int), 2),
            kb.logo == held_in(mods.take(i as int), 3),
        decreases n - i,
    {
        assert(text::texts(ps@)[i as int] == ps@[i as int]@);
        let ghost a = mods.take(i as int);
        let ghost b = mods.take(i + 1);
        assert(b =~= a.push(ps@[i as int]@));
        match modifier_of(ps[i].as_str()) {
            Some(m) => {
                proof {
                    lemma_held_push(a, ps@[i as int]@, m as int, 0);
                    lemma_held_push(a, ps@[i as int]@, m as int, 1);
                    lemma_held_push(a, ps@[i as int]@, m as int, 2);
                    lemma_held_push(a, ps@[i as int]@, m as int, 3);
                }
                if m == 0 {
                    kb.ctrl = true;
                } else if m == 1 {
                    kb.alt = true;
                } else if m == 2 {
                    kb.shift = true;
                } else {
                    kb.logo = true;
                }
            },
            None => {
                assert(mods[i as int] == ps@[i as int]@);
                assert(!all_modifiers(mods));
                return None;
            },
        }
        i = i + 1;
    }
    assert(mods.take(i as int) =~= mods);
    assert(text::texts(ps@)[n as int] == ps@[n as int]@);
    let k = text::chars_of(ps[n].as_str());
    if k.len() != 1 || !text::alnum(k[0]) {
        return None;
    }
    kb.key = text::to_lower(k[0]);
    Some(kb)
}

proof fn lemma_held_push(a: Seq<Seq<char>>, w: Seq<char>, m: int, q: int)
    requires
        modifier(w) == Some(m),
    ensures
        held_in(a.push(w), q) == (held_in(a, q) || m == q),
        all_modifiers(a) ==> all_modifiers(a.push(w)),
{
    let b = a.push(w);
    if held_in(a, q) {
        let i = choose|i: int| 0 <= i < a.len() && modifier(#[trigger] a[i]) == Some(q);
        assert(b[i] == a[i]);
    }
    if m == q {
        assert(b[a.len() as int] == w);
    }
    if held_in(b, q) {
        let i = choose|i: int| 0 <= i < b.len() && modifier(#[trigger] b[i]) == Some(q);
        if i < a.len() {
            assert(a[i] == b[i]);
        }
    }
    if all_modifiers(a) {
        assert forall|i: int| 0 <= i < b.len() implies modifier(#[trigger] b[i]) is Some by {
            if i < a.len() {
                assert(b[i] == a[i]);
            }
        }
    }
}

/// The binds in force.
#[derive(Clone, Copy, PartialEq, Eq, Structural, Debug)]
pub struct Binds {
    pub copy_out: Option<Keybind>,
    pub paste_in: Option<Keybind>,
}

/// The bind of `Ctrl+Alt` and a key.
pub open spec fn ctrl_alt(key: char) -> Keybind {
    Keybind { ctrl: true, alt: true, shift: false, logo: false, key }
}

impl Default for Binds {
    /// The binds until others are published.
    fn default() -> (r: Binds)
        ensures
            r.copy_out == Some(ctrl_alt('c')),
            r.paste_in == Some(ctrl_alt('v')),
    {
        Binds {
            copy_out: Some(Keybind { ctrl: true, alt: true, shift: false, logo: false, key: 'c' }),
            paste_in: Some(Keybind { ctrl: true, alt: true, shift: false, logo: false, key: 'v' }),
        }
    }
}

/// The binds that the lines of a file give; the last line of an action counts.
pub open spec fn binds_in(ls: Seq<Seq<char>>) -> Binds
    decreases ls.len(),
{
    if ls.len() == 0 {
        Binds { copy_out: None, paste_in: None }
    } else {
        let b = binds_in(ls.drop_last());
        match text::split_once(ls.last(), '\t') {
            Some((action, bind)) => {
                let k = bind_of(text::trimmed(bind));
                if text::trimmed(action) == "copy_out"@ {
                    Binds { copy_out: k, ..b }
                } else if text::trimmed(action) == "paste_in"@ {
                    Binds { paste_in: k, ..b }
                } else {
                    b
                }
            },
            None => b,
        }
    }
}

/// The published binds.
pub fn scan(body: &str) -> (r: Binds)
    ensures
        r == binds_in(text::lines(body@)),
{
    let ls = text::split_lines(body);
    let ghost t = text::lines(body@);
    let mut b = Binds { copy_out: None, paste_in: None };
    let mut i: usize = 0;
    assert(t.take(0).len() == 0);
    while i < ls.len()
        invariant
            i <= ls@.len(),
            text::texts(ls@) == t,
            b == binds_in(t.take(i as int)),
        decreases ls@.len() - i,
    {
        assert(text::texts(ls@)[i as int] == ls@[i as int]@);
        assert(t.take(i + 1).drop_last() =~= t.take(i as int));
        assert(t.take(i + 1).last() == ls@[i as int]@);
        if let Some((action, bind)) = text::cut(ls[i].as_str(), '\t') {
            let v = text::trim(bind.as_str());
            let k = parse(v.as_str());
            let a = text::trim(action.as_str());
            if text::same(a.as_str(), "copy_out") {
                b.copy_out = k;
            } else if text::same(a.as_str(), "paste_in") {
                b.paste_in = k;
            }
        }
        i = i + 1;
    }
    assert(text::texts(ls@).len() == ls@.len());
    assert(t.take(i as int) =~= t);
    b
}

/// The label of a bind in the menu.
pub fn shown(b: &Option<Keybind>) -> (r: String)
    ensures
        r@ == match b {
            Some(k) => label_of(*k),
            None => "unset"@,
        },
{
    match b {
        Some(k) => k.label(),
        None => "unset".to_owned(),
    }
}

// ------------------------------------------------------------------ laws ---

/// The words of a bind's modifiers.
pub open spec fn modifier_words(k: Keybind) -> Seq<Seq<char>> {
    (if k.ctrl { seq!["Ctrl"@] } else { seq![] }) + (if k.alt { seq!["Alt"@] } else { seq![] }) + (
    if k.shift { seq!["Shift"@] } else { seq![] }) + (if k.logo { seq!["Super"@] } else { seq![] })
}

proof fn lemma_words()
    ensures
        modifier("Ctrl"@) == Some(0int),
        modifier("Alt"@) == Some(1int),
        modifier("Shift"@) == Some(2int),
        modifier("Super"@) == Some(3int),
        "Ctrl+"@ == "Ctrl"@ + seq!['+'],
        "Alt+"@ == "Alt"@ + seq!['+'],
        "Shift+"@ == "Shift"@ + seq!['+'],
        "Super+"@ == "Super"@ + seq!['+'],
        is_word("Ctrl"@),
        is_word("Alt"@),
        is_word("Shift"@),
        is_word("Super"@),
{
    reveal_strlit("Ctrl");
    reveal_strlit("Alt");
    reveal_strlit("Shift");
    reveal_strlit("Super");
    reveal_strlit("Ctrl+");
    reveal_strlit("Alt+");
    reveal_strlit("Shift+");
    reveal_strlit("Super+");
    reveal_strlit("ctrl");
    reveal_strlit("control");
    reveal_strlit("alt");
    reveal_strlit("shift");
    reveal_strlit("super");
    reveal_strlit("meta");
    reveal_strlit("logo");
    reveal_strlit("win");
    assert("Ctrl+"@ =~= "Ctrl"@ + seq!['+']);
    assert("Alt+"@ =~= "Alt"@ + seq!['+']);
    assert("Shift+"@ =~= "Shift"@ + seq!['+']);
    assert("Super+"@ =~= "Super"@ + seq!['+']);
    assert(text::low_text("Ctrl"@) =~= "ctrl"@);
    assert(text::low_text("Alt"@) =~= "alt"@);
    assert(text::low_text("Shift"@) =~= "shift"@);
    assert(text::low_text("Super"@) =~= "super"@);
    assert("alt"@.len() == 3 && "ctrl"@.len() == 4 && "control"@.len() == 7 && "shift"@.len() == 5
        && "super"@.len() == 5 && "win"@.len() == 3);
    assert("alt"@[0] != "win"@[0]);
    assert("shift"@[1] != "super"@[1]);
}

/// A word that is a part of a bind as it stands.
pub open spec fn is_word(w: Seq<char>) -> bool {
    w.len() > 0 && !w.contains('+') && !text::is_space(w[0]) && !text::is_space(w.last())
}

/// Words, each with a plus sign behind it.
pub open spec fn plussed(ws: Seq<Seq<char>>) -> Seq<char>
    decreases ws.len(),
{
    if ws.len() == 0 { seq![] } else { ws[0] + seq!['+'] + plussed(ws.skip(1)) }
}

proof fn lemma_parts(ws: Seq<Seq<char>>, k: Seq<char>)
    requires
        forall|i: int| 0 <= i < ws.len() ==> is_word(#[trigger] ws[i]),
        is_word(k),
    ensures
        text::fields(plussed(ws) + k, '+') == ws.push(k),
    decreases ws.len(),
{
    if ws.len() == 0 {
        assert(plussed(ws) + k =~= k);
        text::lemma_fields_one(k, '+');
        assert(ws.push(k) =~= seq![k]);
    } else {
        let t = ws.skip(1);
        assert forall|i: int| 0 <= i < t.len() implies is_word(#[trigger] t[i]) by {
            assert(is_word(ws[i + 1]));
        }
        lemma_parts(t, k);
        assert(is_word(ws[0]));
        let rest = plussed(t) + k;
        assert(plussed(ws) + k =~= ws[0] + seq!['+'] + rest);
        text::lemma_fields_cons(ws[0], rest, '+');
        assert(seq![ws[0]] + t.push(k) =~= ws.push(k));
    }
}

proof fn lemma_bind_parts(ws: Seq<Seq<char>>)
    requires
        forall|i: int| 0 <= i < ws.len() ==> is_word(#[trigger] ws[i]),
    ensures
        ws.map_values(|p: Seq<char>| text::trimmed(p)) == ws,
        ws.filter(|p: Seq<char>| p.len() > 0) == ws,
    decreases ws.len(),
{
    reveal(Seq::filter);
    let m = ws.map_values(|p: Seq<char>| text::trimmed(p));
    assert forall|i: int| 0 <= i < ws.len() implies m[i] == ws[i] by {
        assert(is_word(ws[i]));
        text::lemma_trimmed_is(ws[i]);
    }
    assert(m =~= ws);
    if ws.len() > 0 {
        let d = ws.drop_last();
        assert forall|i: int| 0 <= i < d.len() implies is_word(#[trigger] d[i]) by {
            assert(is_word(ws[i]));
        }
        lemma_bind_parts(d);
        assert(is_word(ws[ws.len() - 1]));
        assert(ws =~= d.push(ws.last()));
    } else {
        assert(ws.filter(|p: Seq<char>| p.len() > 0) =~= ws);
    }
}

/// A bind whose key is a letter in lower case or a digit reads back from its label.
pub proof fn law_a_label_reads_back(k: Keybind)
    requires
        text::is_alnum(k.key),
        text::lower(k.key) == k.key,
    ensures
        bind_of(label_of(k)) == Some(k),
{
    lemma_modifier_words(k);
    lemma_reads_back(k, modifier_words(k), label_of(k));
}

proof fn lemma_reads_back(k: Keybind, ws: Seq<Seq<char>>, label: Seq<char>)
    requires
        text::is_alnum(k.key),
        text::lower(k.key) == k.key,
        forall|i: int| 0 <= i < ws.len() ==> is_word(#[trigger] ws[i]),
        all_modifiers(ws),
        held_in(ws, 0) == k.ctrl,
        held_in(ws, 1) == k.alt,
        held_in(ws, 2) == k.shift,
        held_in(ws, 3) == k.logo,
        label == plussed(ws) + seq![text::upper(k.key)],
    ensures
        bind_of(label) == Some(k),
{
    let key = seq![text::upper(k.key)];
    let all = ws.push(key);
    assert(text::is_alnum(key[0]));
    assert(text::lower(key[0]) == k.key);
    assert(is_word(key)) by {
        if key.contains('+') {
            assert(key[0] == '+');
        }
    }
    lemma_parts(ws, key);
    assert forall|i: int| 0 <= i < all.len() implies is_word(#[trigger] all[i]) by {
        if i < ws.len() {
            assert(is_word(ws[i]));
        }
    }
    lemma_bind_parts(all);
    assert(bind_parts(label) == all);
    assert(all.drop_last() =~= ws);
    assert(all.last() == key);
}

proof fn lemma_modifier_words(k: Keybind)
    ensures
        ({
            let ws = modifier_words(k);
            &&& forall|i: int| 0 <= i < ws.len() ==> is_word(#[trigger] ws[i])
            &&& all_modifiers(ws)
            &&& held_in(ws, 0) == k.ctrl
            &&& held_in(ws, 1) == k.alt
            &&& held_in(ws, 2) == k.shift
            &&& held_in(ws, 3) == k.logo
            &&& plussed(ws) == word_if(k.ctrl, "Ctrl+"@) + word_if(k.alt, "Alt+"@) + word_if(
                k.shift,
                "Shift+"@,
            ) + word_if(k.logo, "Super+"@)
        }),
{
    lemma_words();
    let ws = modifier_words(k);
    let a = if k.ctrl { 1int } else { 0int };
    let b = a + if k.alt { 1int } else { 0int };
    let c = b + if k.shift { 1int } else { 0int };
    if k.ctrl {
        assert(ws[0] == "Ctrl"@);
    }
    if k.alt {
        assert(ws[a] == "Alt"@);
    }
    if k.shift {
        assert(ws[b] == "Shift"@);
    }
    if k.logo {
        assert(ws[c] == "Super"@);
    }
    reveal_with_fuel(plussed, 5);
    let p = word_if(k.ctrl, "Ctrl+"@) + word_if(k.alt, "Alt+"@) + word_if(k.shift, "Shift+"@)
        + word_if(k.logo, "Super+"@);
    let w1 = ws.skip(1);
    let w2 = w1.skip(1);
    let w3 = w2.skip(1);
    if ws.len() > 1 {
        assert(w1[0] == ws[1]);
    }
    if ws.len() > 2 {
        assert(w2[0] == ws[2]);
    }
    if ws.len() > 3 {
        assert(w3[0] == ws[3]);
    }
    assert(plussed(ws) =~= p);
}

/// Keys that were captured are a bind: the one that holds exactly those modifiers and
/// that key.
pub proof fn law_captured_keys_are_a_bind(m: Held, name: Seq<char>)
    requires
        editor::combo(m, name) is Some,
    ensures
        bind_of(editor::combo(m, name)->0) == Some(
            Keybind {
                ctrl: m.ctrl,
                alt: m.alt,
                shift: m.shift,
                logo: false,
                key: text::lower(name[0]),
            },
        ),
{
    let k = Keybind {
        ctrl: m.ctrl,
        alt: m.alt,
        shift: m.shift,
        logo: false,
        key: text::lower(name[0]),
    };
    assert(editor::combo(m, name)->0 =~= label_of(k));
    law_a_label_reads_back(k);
}

/// A published bind: it reads as one, and can stand on a line of the file.
pub open spec fn is_published_bind(s: Seq<char>) -> bool {
    text::is_line(s) && text::trimmed(s) == s
}

/// The published shortcuts are read back as the binds that were configured.
pub proof fn law_published_shortcuts_are_read(m: Map<Seq<char>, Seq<char>>)
    requires
        m.dom().contains("copy_out"@),
        m.dom().contains("paste_in"@),
        is_published_bind(m["copy_out"@]),
        is_published_bind(m["paste_in"@]),
    ensures
        binds_in(text::lines(publish::bind_lines(config::shortcut_defaults(), m))) == (Binds {
            copy_out: bind_of(m["copy_out"@]),
            paste_in: bind_of(m["paste_in"@]),
        }),
{
    reveal_strlit("copy_out");
    reveal_strlit("paste_in");
    let a = "copy_out"@;
    let b = "paste_in"@;
    assert(a[0] != b[0]);
    let la = a + seq!['\t'] + m[a];
    let lb = b + seq!['\t'] + m[b];
    let d = config::shortcut_defaults();
    reveal_with_fuel(publish::bind_lines, 3);
    assert(d.drop_last() =~= seq![d[0]]);
    assert(d.drop_last().drop_last() =~= seq![]);
    let body = publish::bind_lines(d, m);
    assert(body =~= (la + seq!['\n']) + (lb + seq!['\n']));
    lemma_action_line(a, m[a]);
    lemma_action_line(b, m[b]);
    text::lemma_one_line(la);
    text::lemma_one_line(lb);
    text::lemma_lines_concat(la + seq!['\n'], lb + seq!['\n']);
    let ls = text::lines(body);
    assert(ls =~= seq![la, lb]);
    reveal_with_fuel(binds_in, 3);
    assert(ls.drop_last() =~= seq![la]);
    assert(ls.drop_last().drop_last() =~= seq![]);
}

proof fn lemma_action_line(a: Seq<char>, v: Seq<char>)
    requires
        a == "copy_out"@ || a == "paste_in"@,
        is_published_bind(v),
    ensures
        text::is_line(a + seq!['\t'] + v),
        text::split_once(a + seq!['\t'] + v, '\t') == Some((a, v)),
        text::trimmed(a) == a,
{
    reveal_strlit("copy_out");
    reveal_strlit("paste_in");
    let l = a + seq!['\t'] + v;
    assert(!a.contains('\t')) by {
        if a.contains('\t') {
            let k = choose|k: int| 0 <= k < a.len() && a[k] == '\t';
            assert(0 <= k < 8);
        }
    }
    text::lemma_split_once_at(a, v, '\t');
    text::lemma_trimmed_is(a);
    assert(!l.contains('\n')) by {
        if l.contains('\n') {
            let k = choose|k: int| 0 <= k < l.len() && l[k] == '\n';
            if k < 8 {
                assert(a[k] == '\n');
            } else if k > 8 {
                assert(v.contains(v[k - 9]));
            }
        }
    }
    if v.len() > 0 {
        assert(l.last() == v.last());
    }
}

/// A bind is shown with its modifiers in a fixed order and its key in upper case.
pub proof fn law_a_label_has_a_fixed_order(k: Keybind)
    ensures
        !k.shift && !k.logo && k.ctrl && k.alt ==> label_of(k) == "Ctrl+Alt+"@ + seq![text::upper(k.key)],
        k.ctrl && k.alt && k.shift && k.logo ==> label_of(k) == "Ctrl+Alt+Shift+Super+"@ + seq![
            text::upper(k.key),
        ],
        !k.ctrl && !k.alt && !k.shift && !k.logo ==> label_of(k) == seq![text::upper(k.key)],
        label_of(k).last() == text::upper(k.key),
{
    reveal_strlit("Ctrl+");
    reveal_strlit("Alt+");
    reveal_strlit("Shift+");
    reveal_strlit("Super+");
    reveal_strlit("Ctrl+Alt+");
    reveal_strlit("Ctrl+Alt+Shift+Super+");
    let u = seq![text::upper(k.key)];
    if !k.shift && !k.logo && k.ctrl && k.alt {
        assert(label_of(k) =~= "Ctrl+Alt+"@ + u);
    }
    if k.ctrl && k.alt && k.shift && k.logo {
        assert(label_of(k) =~= "Ctrl+Alt+Shift+Super+"@ + u);
    }
    if !k.ctrl && !k.alt && !k.shift && !k.logo {
        assert(label_of(k) =~= u);
    }
}

/// A text is a bind where a letter or a digit stands behind words that are all modifiers;
/// any other word, and any longer key, makes it none.
pub proof fn law_only_modifiers_and_a_key_are_a_bind(ws: Seq<Seq<char>>, k: Seq<char>)
    requires
        forall|i: int| 0 <= i < ws.len() ==> is_word(#[trigger] ws[i]),
        is_word(k),
    ensures
        bind_of(plussed(ws) + k) is Some <==> all_modifiers(ws) && k.len() == 1 && text::is_alnum(k[0]),
        bind_of(plussed(ws) + k) matches Some(b) ==> {
            &&& b.key == text::lower(k[0])
            &&& b.ctrl <==> held_in(ws, 0)
            &&& b.alt <==> held_in(ws, 1)
            &&& b.shift <==> held_in(ws, 2)
            &&& b.logo <==> held_in(ws, 3)
        },
{
    lemma_parts(ws, k);
    let all = ws.push(k);
    assert forall|i: int| 0 <= i < all.len() implies is_word(#[trigger] all[i]) by {
        if i < ws.len() {
            assert(all[i] == ws[i]);
        }
    }
    lemma_bind_parts(all);
    assert(bind_parts(plussed(ws) + k) == all);
    assert(all.drop_last() =~= ws);
    assert(all.last() == k);
}

/// Nothing is no bind.
pub proof fn law_nothing_is_no_bind()
    ensures
        bind_of(seq![]) is None,
{
    let e: Seq<char> = seq![];
    assert(!e.contains('+'));
    text::lemma_fields_one(e, '+');
    reveal(Seq::filter);
    let m = seq![e].map_values(|p: Seq<char>| text::trimmed(p));
    let q = |p: Seq<char>| p.len() > 0;
    text::lemma_trimmed_is(e);
    assert(m =~= seq![e]);
    let none: Seq<Seq<char>> = seq![];
    assert(m.drop_last() =~= none);
    assert(none.filter(q) =~= none);
    assert(m.filter(q) =~= none);
}

/// The words that name a modifier.
pub proof fn law_the_modifiers_are_known_by_name()
    ensures
        modifier("ctrl"@) == Some(0int),
        modifier("control"@) == Some(0int),
        modifier("alt"@) == Some(1int),
        modifier("shift"@) == Some(2int),
        modifier("super"@) == Some(3int),
        modifier("meta"@) == Some(3int),
        modifier("logo"@) == Some(3int),
        modifier("win"@) == Some(3int),
{
    reveal_strlit("ctrl");
    reveal_strlit("control");
    reveal_strlit("alt");
    reveal_strlit("shift");
    reveal_strlit("super");
    reveal_strlit("meta");
    reveal_strlit("logo");
    reveal_strlit("win");
    assert(text::low_text("ctrl"@) =~= "ctrl"@);
    assert(text::low_text("control"@) =~= "control"@);
    assert(text::low_text("alt"@) =~= "alt"@);
    assert(text::low_text("shift"@) =~= "shift"@);
    assert(text::low_text("super"@) =~= "super"@);
    assert(text::low_text("meta"@) =~= "meta"@);
    assert(text::low_text("logo"@) =~= "logo"@);
    assert(text::low_text("win"@) =~= "win"@);
    assert("ctrl"@.len() == 4 && "control"@.len() == 7 && "alt"@.len() == 3 && "shift"@.len() == 5
        && "super"@.len() == 5 && "meta"@.len() == 4 && "logo"@.len() == 4 && "win"@.len() == 3);
    assert("ctrl"@[0] == 'c' && "meta"@[0] == 'm' && "logo"@[0] == 'l');
    assert("alt"@[0] == 'a' && "win"@[0] == 'w');
    assert("shift"@[1] == 'h' && "super"@[1] == 'u');
}

/// A bind is met by exactly its modifiers and its key, pressed with or without a capital.
pub proof fn law_a_bind_is_met_exactly(k: Keybind, mods: Modifiers, sym: u32)
    requires
        'a' <= k.key <= 'z' || '0' <= k.key <= '9',
    ensures
        bind_matches(k, mods, sym) <==> mods == (Modifiers {
            ctrl: k.ctrl,
            alt: k.alt,
            shift: k.shift,
            logo: k.logo,
        }) && (sym == k.key as u32 || ('a' <= k.key <= 'z' && sym + 32 == k.key as u32)),
{
    if sym == k.key as u32 {
        assert(text::lower(k.key) == k.key);
        assert(is_key(sym, k.key));
    }
    if 'a' <= k.key <= 'z' && sym + 32 == k.key as u32 {
        let c = sym as char;
        assert('A' <= c <= 'Z');
        assert(text::lower(c) == k.key);
        assert(is_key(sym, k.key));
    }
    if is_key(sym, k.key) {
        let c = choose|c: char| c as int == sym && #[trigger] text::lower(c) == k.key;
        assert(sym == k.key as u32 || sym + 32 == k.key as u32);
    }
}

/// Until others are published the two shortcuts are Control, Alt and a letter, and they
/// read so.
pub proof fn law_the_first_shortcuts_are_control_and_alt(c: char)
    ensures
        ({
            let k = ctrl_alt(c);
            k.ctrl && k.alt && !k.shift && !k.logo && k.key == c
        }),
{
}

} // verus!
