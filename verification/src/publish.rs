//! The files through which the configuration reaches the running session.

use vstd::prelude::*;

use crate::apps::{app_texts, App, AppText};
use crate::config;
use crate::config::Config;
use crate::pairs::pair_texts;
use crate::text;

verus! {

/// The file that is written before it takes the place of a published one.
pub fn temp_name(name: &str, pid: u32) -> (r: String)
    ensures
        r@ == name@ + seq!['.'] + text::decimal(pid as nat) + ".tmp"@,
{
    config::temp_path(name, pid)
}

/// The bind of an action, else its default.
pub open spec fn bind_or(m: Map<Seq<char>, Seq<char>>, p: (Seq<char>, Seq<char>)) -> Seq<char> {
    if m.dom().contains(p.0) { m[p.0] } else { p.1 }
}

/// One action and its bind to a line.
pub open spec fn bind_lines(
    ps: Seq<(Seq<char>, Seq<char>)>,
    m: Map<Seq<char>, Seq<char>>,
) -> Seq<char>
    decreases ps.len(),
{
    if ps.len() == 0 {
        seq![]
    } else {
        bind_lines(ps.drop_last(), m) + ps.last().0 + seq!['\t'] + bind_or(m, ps.last()) + seq![
            '\n',
        ]
    }
}

/// The published shortcuts: one action and its bind to a line.
pub fn shortcuts_text(cfg: &Config) -> (r: String)
    ensures
        r@ == bind_lines(config::shortcut_defaults(), cfg@.shortcuts),
{
    let ps = config::shortcut_default_list();
    let ghost t = pair_texts(ps@);
    let mut s = String::new();
    let mut i: usize = 0;
    assert(s@ =~= bind_lines(t.take(0), cfg@.shortcuts));
    while i < ps.len()
        invariant
            i <= ps@.len(),
            t == pair_texts(ps@),
            s@ == bind_lines(t.take(i as int), cfg@.shortcuts),
        decreases ps@.len() - i,
    {
        let ghost before = s@;
        assert(t.take(i + 1).drop_last() =~= t.take(i as int));
        assert(t.take(i + 1).last() == (ps@[i as int].0@, ps@[i as int].1@));
        let b = match cfg.shortcuts.get(ps[i].0.as_str()) {
            Some(b) => b,
            None => ps[i].1.clone(),
        };
        s.append(ps[i].0.as_str());
        s.push('\t');
        s.append(b.as_str());
        s.push('\n');
        i = i + 1;
        assert(s@ =~= bind_lines(t.take(i as int), cfg@.shortcuts));
    }
    assert(t.take(i as int) =~= t);
    s
}

/// A note of progress as it is published: one line of at most 80 characters.
pub open spec fn status_body(s: Seq<char>) -> Seq<char> {
    text::at_most(text::without_controls(s), 80)
}

/// The published note of progress; none where it is taken back.
pub fn status_text(note: &str) -> (r: Option<String>)
    ensures
        text::opt(r) == if note@.len() == 0 { None } else { Some(status_body(note@) + seq!['\n']) },
{
    if note.is_empty() {
        return None;
    }
    let plain = text::drop_controls(note);
    let mut s = text::shorten(plain.as_str(), 80);
    s.push('\n');
    assert(s@ =~= status_body(note@) + seq!['\n']);
    Some(s)
}

/// The published policy for clearing the host's clipboard.
pub open spec fn clipclear_body(on: bool, secs: nat) -> Seq<char> {
    seq![if on { '1' } else { '0' }, '\n'] + text::decimal(secs) + seq!['\n']
}

/// `clipclear_body`, computed.
pub fn clipclear_text(cfg: &Config) -> (r: String)
    ensures
        r@ == clipclear_body(cfg.clip_clear, cfg.clip_clear_timeout as nat),
{
    let mut s = String::new();
    if cfg.clip_clear {
        s.push('1');
    } else {
        s.push('0');
    }
    s.push('\n');
    let d = text::decimal_of(cfg.clip_clear_timeout as u64);
    s.append(d.as_str());
    s.push('\n');
    assert(s@ =~= clipclear_body(cfg.clip_clear, cfg.clip_clear_timeout as nat));
    s
}

/// Two lines: of the font for the applications its family and its points, of that for
/// the menu its file and its size.
pub fn font_text(first: &str, second: &str) -> (r: String)
    ensures
        r@ == first@ + seq!['\n'] + second@ + seq!['\n'],
{
    let mut s = first.to_owned();
    s.push('\n');
    s.append(second);
    s.push('\n');
    assert(s@ =~= first@ + seq!['\n'] + second@ + seq!['\n']);
    s
}

/// The published idle time before the volumes are dismounted, in minutes.
pub fn autodismount_text(cfg: &Config) -> (r: String)
    ensures
        r@ == text::decimal(cfg.auto_dismount as nat) + seq!['\n'],
{
    let mut s = text::decimal_of(cfg.auto_dismount as u64);
    s.push('\n');
    assert(s@ =~= text::decimal(cfg.auto_dismount as nat) + seq!['\n']);
    s
}

/// The published theme.
pub fn theme_text(cfg: &Config) -> (r: String)
    ensures
        r@ == cfg.theme@ + seq!['\n'],
{
    let mut s = cfg.theme.clone();
    s.push('\n');
    assert(s@ =~= cfg.theme@ + seq!['\n']);
    s
}

/// A key that can be the name of a file and a part of a command.
pub open spec fn is_sane_key(k: Seq<char>) -> bool {
    k.len() > 0 && vstd::utf8::encode_utf8(k).len() <= 64 && !k.contains('/') && k != ".."@
}

/// `is_sane_key`, computed.
pub fn sane_key(k: &str) -> (r: bool)
    ensures
        r == is_sane_key(k@),
{
    let n = k.as_bytes().len();
    !k.is_empty() && n <= 64 && !text::has_char(k, '/') && !text::same(k, "..")
}

/// A name as it is published: on one line, and not too long.
pub open spec fn plain_name(n: Seq<char>) -> Seq<char> {
    text::at_most(text::without_controls(n), 128)
}

/// One application to a line: its key and its name.
pub open spec fn app_lines(apps: Seq<AppText>) -> Seq<char>
    decreases apps.len(),
{
    if apps.len() == 0 {
        seq![]
    } else {
        let a = apps.last();
        if is_sane_key(a.key) {
            app_lines(apps.drop_last()) + a.key + seq!['\t'] + plain_name(a.name) + seq!['\n']
        } else {
            app_lines(apps.drop_last())
        }
    }
}

/// `app_lines`, computed.
pub fn apps_text(apps: &Vec<App>) -> (r: String)
    ensures
        r@ == app_lines(app_texts(apps@)),
{
    let ghost t = app_texts(apps@);
    let mut s = String::new();
    let mut i: usize = 0;
    assert(s@ =~= app_lines(t.take(0)));
    while i < apps.len()
        invariant
            i <= apps@.len(),
            t == app_texts(apps@),
            s@ == app_lines(t.take(i as int)),
        decreases apps@.len() - i,
    {
        let ghost before = s@;
        assert(t.take(i + 1).drop_last() =~= t.take(i as int));
        assert(t.take(i + 1).last() == apps@[i as int]@);
        if sane_key(apps[i].key.as_str()) {
            let plain = text::drop_controls(apps[i].name.as_str());
            let name = text::shorten(plain.as_str(), 128);
            s.append(apps[i].key.as_str());
            s.push('\t');
            s.append(name.as_str());
            s.push('\n');
            assert(s@ =~= before + apps@[i as int].key@ + seq!['\t'] + name@ + seq!['\n']);
        }
        i = i + 1;
    }
    assert(t.take(i as int) =~= t);
    s
}

/// Is `key` that of an application?
pub open spec fn key_known(apps: Seq<AppText>, key: Seq<char>) -> bool {
    exists|i: int| 0 <= i < apps.len() && #[trigger] apps[i].key == key
}

/// The key that an icon file is named by.
pub open spec fn icon_key(name: Seq<char>) -> Option<Seq<char>> {
    if text::has_suffix(name, ".rgba"@) { Some(name.take(name.len() - 5)) } else { None }
}

/// Is the file the icon of an application that is no longer configured?
pub fn icon_is_stale(name: &str, apps: &Vec<App>) -> (r: bool)
    ensures
        r == (icon_key(name@) is Some && !key_known(app_texts(apps@), icon_key(name@)->0)),
{
    proof {
        reveal_strlit(".rgba");
    }
    if !text::ends_with(name, ".rgba") {
        return false;
    }
    let v = text::chars_of(name);
    let key = text::string_of(&v, 0, v.len() - 5);
    assert(key@ =~= name@.take(name@.len() - 5));
    let mut i: usize = 0;
    while i < apps.len()
        invariant
            i <= apps@.len(),
            icon_key(name@) == Some(key@),
            forall|k: int| 0 <= k < i ==> (#[trigger] app_texts(apps@)[k]).key != key@,
        decreases apps@.len() - i,
    {
        assert(app_texts(apps@)[i as int].key == apps@[i as int].key@);
        if text::same(apps[i].key.as_str(), key.as_str()) {
            return false;
        }
        i = i + 1;
    }
    true
}

/// Is the icon of an application to be made? Not where a file that is not empty is
/// there already.
pub fn icon_is_wanted(key: &str, file_len: Option<u64>) -> (r: bool)
    ensures
        r == (is_sane_key(key@) && !(file_len is Some && file_len->0 > 0)),
{
    let kept = match file_len {
        Some(n) => n > 0,
        None => false,
    };
    sane_key(key) && !kept
}

/// The four bytes of a number, the lower ones first.
pub open spec fn le32(n: int) -> Seq<u8> {
    seq![
        (n % 256) as u8,
        ((n / 256) % 256) as u8,
        ((n / 65536) % 256) as u8,
        ((n / 16777216) % 256) as u8,
    ]
}

fn push_le32(b: &mut Vec<u8>, n: u32)
    ensures
        final(b)@ == old(b)@ + le32(n as int),
{
    b.push((n % 256) as u8);
    b.push(((n / 256) % 256) as u8);
    b.push(((n / 65536) % 256) as u8);
    b.push(((n / 16777216) % 256) as u8);
    assert(b@ =~= old(b)@ + le32(n as int));
}

/// A published icon: its width, its height and its bytes; nothing where there is none.
pub open spec fn icon_bytes(icon: Option<(u32, u32, Seq<u8>)>) -> Seq<u8> {
    match icon {
        Some((w, h, p)) => le32(w as int) + le32(h as int) + p,
        None => seq![],
    }
}

/// `icon_bytes`, computed.
pub fn icon_blob(icon: Option<(u32, u32, Vec<u8>)>) -> (r: Vec<u8>)
    ensures
        r@ == icon_bytes(crate::detect::picture_bytes(icon)),
{
    let mut b: Vec<u8> = Vec::new();
    match icon {
        Some((w, h, p)) => {
            push_le32(&mut b, w);
            push_le32(&mut b, h);
            let mut i: usize = 0;
            let ghost head = b@;
            assert(head =~= le32(w as int) + le32(h as int));
            while i < p.len()
                invariant
                    i <= p@.len(),
                    b@ == head + p@.take(i as int),
                decreases p@.len() - i,
            {
                b.push(p[i]);
                i = i + 1;
                assert(b@ =~= head + p@.take(i as int));
            }
            assert(p@.take(i as int) =~= p@);
        },
        None => {
            assert(b@ =~= seq![]);
        },
    }
    b
}

/// A note of progress is published as it is, up to the longest that is shown, and without
/// what could break its line.
pub proof fn law_a_note_is_published_on_one_line(s: Seq<char>)
    ensures
        status_body(s).len() <= 80,
        (forall|i: int| 0 <= i < s.len() ==> !text::is_control(#[trigger] s[i])) ==> status_body(s)
            == if s.len() <= 80 {
            s
        } else {
            s.take(80)
        },
        (forall|i: int| 0 <= i < s.len() ==> !text::is_control(#[trigger] s[i])) ==> plain_name(s)
            == if s.len() <= 128 {
            s
        } else {
            s.take(128)
        },
{
    if forall|i: int| 0 <= i < s.len() ==> !text::is_control(#[trigger] s[i]) {
        lemma_no_controls(s);
    }
}

proof fn lemma_no_controls(s: Seq<char>)
    requires
        forall|i: int| 0 <= i < s.len() ==> !text::is_control(#[trigger] s[i]),
    ensures
        text::without_controls(s) == s,
    decreases s.len(),
{
    reveal(Seq::filter);
    if s.len() > 0 {
        let d = s.drop_last();
        assert forall|i: int| 0 <= i < d.len() implies !text::is_control(#[trigger] d[i]) by {
            assert(d[i] == s[i]);
        }
        lemma_no_controls(d);
        assert(!text::is_control(s[s.len() - 1]));
        assert(d.push(s.last()) =~= s);
    } else {
        assert(text::without_controls(s) =~= s);
    }
}

/// A key that is published is one name of a file: every short plain name is, and none that
/// leads elsewhere.
pub proof fn law_a_published_key_is_one_name(k: Seq<char>)
    ensures
        is_sane_key(k) ==> k.len() > 0 && !k.contains('/') && k != ".."@,
        k.len() > 0 && !k.contains('/') && k != ".."@ && vstd::utf8::encode_utf8(k).len() <= 64 ==> is_sane_key(k),
        vstd::utf8::encode_utf8(k).len() > 64 ==> !is_sane_key(k),
{
}

/// The icon of an application is named by its key.
pub proof fn law_an_icon_is_named_by_its_key(key: Seq<char>, name: Seq<char>)
    ensures
        icon_key(key + ".rgba"@) == Some(key),
        icon_key(name) matches Some(k) ==> name == k + ".rgba"@,
{
    reveal_strlit(".rgba");
    let n = key + ".rgba"@;
    assert(n.skip(n.len() - 5) =~= ".rgba"@);
    assert(n.take(n.len() - 5) =~= key);
    if let Some(k) = icon_key(name) {
        assert(name =~= name.take(name.len() - 5) + name.skip(name.len() - 5));
    }
}

/// The bind that is published for an action is the configured one, else its default.
pub proof fn law_the_configured_bind_is_published(m: Map<Seq<char>, Seq<char>>, action: Seq<char>, default: Seq<char>)
    ensures
        m.dom().contains(action) ==> bind_or(m, (action, default)) == m[action],
        !m.dom().contains(action) ==> bind_or(m, (action, default)) == default,
{
}

/// An icon stays while its application is configured.
pub proof fn law_an_icon_stays_with_its_application(apps: Seq<AppText>, i: int, key: Seq<char>)
    ensures
        0 <= i < apps.len() ==> key_known(apps, apps[i].key),
        (forall|k: int| 0 <= k < apps.len() ==> (#[trigger] apps[k]).key != key) ==> !key_known(apps, key),
{
    if 0 <= i < apps.len() {
        assert(apps[i].key == apps[i].key);
    }
}

/// A number is written as four bytes, the lowest first.
pub proof fn law_the_lowest_byte_comes_first(n: int)
    requires
        0 <= n <= u32::MAX,
    ensures
        le32(n).len() == 4,
        le32(n)[0] + 256 * le32(n)[1] + 65536 * le32(n)[2] + 16777216 * le32(n)[3] == n,
{
}

} // verus!
