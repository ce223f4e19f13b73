//! What one side publishes is what the other side reads.

use vstd::prelude::*;

use crate::apps::AppText;
use crate::keyboard;
use crate::publish;
use crate::text;
use crate::toolbar;

verus! {

/// The longest side of an icon that is read.
pub const ICON_MAX_SIDE: u32 = 128;

/// The number that four bytes make, the lower ones first.
pub open spec fn number_at(b: Seq<u8>, i: int) -> int {
    b[i] + b[i + 1] * 256 + b[i + 2] * 65536 + b[i + 3] * 16777216
}

/// The icon in a file: its width, its height and its bytes.
pub open spec fn icon_in(b: Seq<u8>) -> Option<(int, int, Seq<u8>)> {
    if b.len() < 8 {
        None
    } else {
        let w = number_at(b, 0);
        let h = number_at(b, 4);
        if 1 <= w <= ICON_MAX_SIDE && 1 <= h <= ICON_MAX_SIDE && b.len() == 8 + w * h * 4 {
            Some((w, h, b.skip(8)))
        } else {
            None
        }
    }
}

fn read_number(b: &Vec<u8>, i: usize) -> (r: u32)
    requires
        i + 4 <= b@.len(),
    ensures
        r == number_at(b@, i as int),
{
    let n: usize = b.len();
    assert(i + 4 <= n);
    b[i] as u32 + b[i + 1] as u32 * 256 + b[i + 2] as u32 * 65536 + b[i + 3] as u32 * 16777216
}

/// `icon_in`, computed.
pub fn load_icon(b: &Vec<u8>) -> (r: Option<(u32, u32, Vec<u8>)>)
    ensures
        r is Some <==> icon_in(b@) is Some,
        r matches Some((w, h, p)) ==> icon_in(b@) == Some((w as int, h as int, p@)),
{
    if b.len() < 8 {
        return None;
    }
    let w = read_number(b, 0);
    let h = read_number(b, 4);
    if w == 0 || h == 0 || w > ICON_MAX_SIDE || h > ICON_MAX_SIDE {
        return None;
    }
    assert(0 < w * h <= 16384) by (nonlinear_arith)
        requires
            1 <= w <= 128,
            1 <= h <= 128,
    ;
    let need: u32 = w * h * 4 + 8;
    if b.len() != need as usize {
        return None;
    }
    let mut p: Vec<u8> = Vec::new();
    let mut i: usize = 8;
    while i < b.len()
        invariant
            8 <= i <= b@.len(),
            p@ == b@.subrange(8, i as int),
        decreases b@.len() - i,
    {
        p.push(b[i]);
        i = i + 1;
        assert(p@ =~= b@.subrange(8, i as int));
    }
    assert(p@ =~= b@.skip(8));
    Some((w, h, p))
}

/// The longest file that an icon is read from.
pub const ICON_FILE_MAX: u64 = 65544;

/// A published icon is read as it was: one with sides that fit, and all its bytes.
pub proof fn law_a_published_icon_is_read(w: u32, h: u32, p: Seq<u8>)
    requires
        1 <= w <= ICON_MAX_SIDE,
        1 <= h <= ICON_MAX_SIDE,
        p.len() == w * h * 4,
    ensures
        icon_in(publish::icon_bytes(Some((w, h, p)))) == Some((w as int, h as int, p)),
        publish::icon_bytes(Some((w, h, p))).len() <= ICON_FILE_MAX,
{
    let b = publish::icon_bytes(Some((w, h, p)));
    assert(b.skip(8) =~= p);
    lemma_le32(w);
    lemma_le32(h);
    assert(b.subrange(0, 4) =~= publish::le32(w as int));
    assert(b.subrange(4, 8) =~= publish::le32(h as int));
    let x = publish::le32(w as int);
    let y = publish::le32(h as int);
    assert(b[0] == x[0] && b[1] == x[1] && b[2] == x[2] && b[3] == x[3]);
    assert(b[4] == y[0] && b[5] == y[1] && b[6] == y[2] && b[7] == y[3]);
    assert(number_at(b, 0) == w);
    assert(number_at(b, 4) == h);
    assert(w * h <= 16384) by (nonlinear_arith)
        requires
            1 <= w <= 128,
            1 <= h <= 128,
    ;
}

/// No file is read as an icon that an absent one is published as.
pub proof fn law_an_absent_icon_is_not_read()
    ensures
        icon_in(publish::icon_bytes(None)) is None,
{
}

proof fn lemma_le32(n: u32)
    ensures
        number_at(publish::le32(n as int), 0) == n,
{
}

proof fn lemma_no_controls(s: Seq<char>)
    ensures
        forall|i: int|
            0 <= i < text::without_controls(s).len() ==> !text::is_control(
                #[trigger] text::without_controls(s)[i],
            ),
{
    let p = |c: char| !text::is_control(c);
    assert forall|i: int| 0 <= i < text::without_controls(s).len() implies !text::is_control(
        #[trigger] text::without_controls(s)[i],
    ) by {
        s.lemma_filter_pred(p, i);
    }
}

proof fn lemma_keep_all(s: Seq<char>)
    requires
        forall|i: int| 0 <= i < s.len() ==> !text::is_control(#[trigger] s[i]),
    ensures
        text::without_controls(s) == s,
    decreases s.len(),
{
    reveal(Seq::filter);
    if s.len() > 0 {
        lemma_keep_all(s.drop_last());
        assert(s.drop_last().push(s.last()) =~= s);
    }
}

proof fn lemma_plain(s: Seq<char>)
    requires
        forall|i: int| 0 <= i < s.len() ==> !text::is_control(#[trigger] s[i]),
    ensures
        text::is_line(s),
        !s.contains('\t'),
{
}

/// A published note of progress is the note that is shown.
pub proof fn law_a_published_note_is_read(s: Seq<char>)
    requires
        publish::status_body(s).len() > 0,
    ensures
        toolbar::note_of(publish::status_body(s) + seq!['\n']) == Some(publish::status_body(s)),
{
    let t = publish::status_body(s);
    lemma_no_controls(s);
    assert forall|i: int| 0 <= i < t.len() implies !text::is_control(#[trigger] t[i]) by {
        assert(t[i] == text::without_controls(s)[i]);
    }
    lemma_plain(t);
    lemma_keep_all(t);
    text::lemma_one_line(t);
    text::lemma_first_of(t, '\t');
}

/// The published policy for clearing the clipboard is the one that is kept to, for every
/// time that can be configured.
pub proof fn law_the_published_policy_is_read(on: bool, secs: nat)
    requires
        1 <= secs <= 3600,
    ensures
        toolbar::policy_of(publish::clipclear_body(on, secs)) == Some((on, secs as int)),
{
    let first = seq![if on { '1' } else { '0' }];
    let second = text::decimal(secs);
    reveal_strlit("1");
    lemma_number_line(secs);
    text::lemma_decimal_parses(secs, u32::MAX as int);
    let ls = seq![first, second];
    text::lemma_one_line(first);
    text::lemma_one_line(second);
    text::lemma_lines_concat(first + seq!['\n'], second + seq!['\n']);
    assert((first + seq!['\n']) + (second + seq!['\n']) =~= publish::clipclear_body(on, secs));
    assert(text::lines(publish::clipclear_body(on, secs)) =~= ls);
    text::lemma_trimmed_is(first);
    assert(first =~= "1"@ <==> on);
    assert(text::trimmed(ls[0]) == "1"@ <==> on) by {
        if !on {
            assert(first[0] != "1"@[0]);
        }
    }
}

proof fn lemma_number_line(n: nat)
    ensures
        text::is_line(text::decimal(n)),
        text::trimmed(text::decimal(n)) == text::decimal(n),
{
    text::lemma_decimal_reads_back(n);
    let d = text::decimal(n);
    assert(forall|i: int| 0 <= i < d.len() ==> text::is_digit(#[trigger] d[i]));
    assert(text::is_digit(d[0]) && text::is_digit(d.last()));
    text::lemma_trimmed_is(d);
}

proof fn lemma_trimmed_line(t: Seq<char>)
    requires
        t.len() > 0,
        !text::is_space(t[0]),
        !text::is_space(t.last()),
    ensures
        text::trimmed(t + seq!['\n']) == t,
{
    let s = t + seq!['\n'];
    text::lemma_trim_start(s, 0);
    assert(s.skip(0) =~= s);
    text::lemma_trim_end(s, t.len() as int);
    assert(s.take(t.len() as int) =~= t);
}

/// The published idle time is the one that is kept to.
pub proof fn law_the_published_idle_time_is_read(n: u32)
    ensures
        toolbar::minutes_of(text::decimal(n as nat) + seq!['\n']) == Some(n as int),
{
    text::lemma_decimal_reads_back(n as nat);
    let d = text::decimal(n as nat);
    assert(text::is_digit(d[0]) && text::is_digit(d.last()));
    lemma_trimmed_line(d);
    text::lemma_decimal_parses(n as nat, u32::MAX as int);
}

/// A published word (a theme, a size) is read as it was, where no white space is at its
/// ends.
pub proof fn law_a_published_word_is_read(t: Seq<char>)
    requires
        t.len() > 0,
        !text::is_space(t[0]),
        !text::is_space(t.last()),
    ensures
        text::trimmed(t + seq!['\n']) == t,
{
    lemma_trimmed_line(t);
}

/// The published keyboard is the one that is set, where each part is one line.
pub proof fn law_the_published_keyboard_is_read(
    model: Seq<char>,
    layout: Seq<char>,
    variant: Seq<char>,
    options: Seq<char>,
)
    requires
        text::is_line(model),
        text::is_line(layout),
        text::is_line(variant),
        text::is_line(options),
    ensures
        text::lines(keyboard::keyboard_text(model, layout, variant, options)) == seq![
            model,
            layout,
            variant,
            options,
        ],
{
    let nl = seq!['\n'];
    text::lemma_one_line(model);
    text::lemma_one_line(layout);
    text::lemma_one_line(variant);
    text::lemma_one_line(options);
    let a = model + nl;
    let b = layout + nl;
    let c = variant + nl;
    let d = options + nl;
    text::lemma_lines_concat(c, d);
    text::lemma_lines_concat(b, c + d);
    text::lemma_lines_concat(a, b + (c + d));
    assert(a + (b + (c + d)) =~= keyboard::keyboard_text(model, layout, variant, options));
    assert(text::lines(a + (b + (c + d))) =~= seq![model, layout, variant, options]);
}

/// The published font of the menu is the one that is set, where no white space is at the
/// ends of its parts.
pub proof fn law_the_published_font_is_read(file: Seq<char>, size: Seq<char>)
    requires
        text::is_line(file),
        text::is_line(size),
        file.len() > 0 ==> !text::is_space(file[0]) && !text::is_space(file.last()),
        size.len() > 0 ==> !text::is_space(size[0]) && !text::is_space(size.last()),
    ensures
        ({
            let body = file + seq!['\n'] + size + seq!['\n'];
            &&& text::trimmed(toolbar::line_at(text::lines(body), 0)) == file
            &&& text::trimmed(toolbar::line_at(text::lines(body), 1)) == size
        }),
{
    let nl = seq!['\n'];
    text::lemma_one_line(file);
    text::lemma_one_line(size);
    text::lemma_lines_concat(file + nl, size + nl);
    assert((file + nl) + (size + nl) =~= file + nl + size + nl);
    assert(text::lines(file + nl + size + nl) =~= seq![file, size]);
    text::lemma_trimmed_is(file);
    text::lemma_trimmed_is(size);
}

/// The name that an application is shown under: its own, or its key.
pub open spec fn shown_name(a: AppText) -> Seq<char> {
    if publish::plain_name(a.name).len() == 0 { a.key } else { publish::plain_name(a.name) }
}

/// The applications that are shown: those whose key can be published.
pub open spec fn shown_apps(apps: Seq<AppText>) -> Seq<(Seq<char>, Seq<char>)>
    decreases apps.len(),
{
    if apps.len() == 0 {
        seq![]
    } else if publish::is_sane_key(apps.last().key) {
        shown_apps(apps.drop_last()).push((apps.last().key, shown_name(apps.last())))
    } else {
        shown_apps(apps.drop_last())
    }
}

/// Does an application fit on its line? Its key holds no control character, and its name
/// is not too long in bytes.
pub open spec fn fits_on_a_line(a: AppText) -> bool {
    &&& forall|i: int| 0 <= i < a.key.len() ==> !text::is_control(#[trigger] a.key[i])
    &&& vstd::utf8::encode_utf8(publish::plain_name(a.name)).len() <= 128
}

proof fn lemma_app_lines(apps: Seq<AppText>)
    requires
        forall|i: int| 0 <= i < apps.len() ==> fits_on_a_line(#[trigger] apps[i]),
    ensures
        text::ends_a_line(publish::app_lines(apps)),
        text::lines(publish::app_lines(apps)).len() == shown_apps(apps).len(),
        toolbar::config_apps_on(text::lines(publish::app_lines(apps))) == shown_apps(apps),
    decreases apps.len(),
{
    let body = publish::app_lines(apps);
    if apps.len() > 0 {
        let rest = apps.drop_last();
        let a = apps.last();
        assert(fits_on_a_line(apps[apps.len() - 1]));
        lemma_app_lines(rest);
        if publish::is_sane_key(a.key) {
            let name = publish::plain_name(a.name);
            let l = a.key + seq!['\t'] + name;
            lemma_no_controls(a.name);
            assert forall|i: int| 0 <= i < name.len() implies !text::is_control(
                #[trigger] name[i],
            ) by {
                assert(name[i] == text::without_controls(a.name)[i]);
            }
            lemma_plain(a.key);
            lemma_plain(name);
            assert(text::is_line(l)) by {
                assert forall|i: int| 0 <= i < l.len() implies l[i] != '\n' by {
                    if i < a.key.len() {
                        assert(l[i] == a.key[i]);
                    } else if i > a.key.len() {
                        assert(l[i] == name[i - a.key.len() - 1]);
                    }
                }
                if name.len() > 0 {
                    assert(l.last() == name.last());
                } else {
                    assert(l.last() == '\t');
                }
            }
            text::lemma_one_line(l);
            let head = publish::app_lines(rest);
            text::lemma_lines_concat(head, l + seq!['\n']);
            assert(head + (l + seq!['\n']) =~= body);
            let ls = text::lines(body);
            assert(ls =~= text::lines(head).push(l));
            assert(ls.drop_last() =~= text::lines(head));
            assert(ls.last() == l);
            text::lemma_split_once_at(a.key, name, '\t');
        }
    }
}

/// The published applications are the ones that the menu shows.
pub proof fn law_the_published_apps_are_read(apps: Seq<AppText>)
    requires
        shown_apps(apps).len() <= 64,
        forall|i: int| 0 <= i < apps.len() ==> fits_on_a_line(#[trigger] apps[i]),
    ensures
        toolbar::config_apps_on(
            toolbar::first_lines(text::lines(publish::app_lines(apps)), 64),
        ) == shown_apps(apps),
{
    lemma_app_lines(apps);
}

} // verus!
