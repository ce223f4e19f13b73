//! The font of the user interface: what may be chosen, and what the host uses.

use vstd::prelude::*;

use crate::pairs;
use crate::pairs::{pair, pair_texts};
use crate::process;
use crate::text;

verus! {

/// The fonts on offer: the configured value and its label.
pub open spec fn font_list() -> Seq<(Seq<char>, Seq<char>)> {
    seq![
        ("system"@, "Host system font"@),
        ("noto"@, "Noto Sans"@),
        ("liberation"@, "Liberation Sans"@),
        ("dejavu"@, "DejaVu Sans"@),
        ("dejavu-mono"@, "DejaVu Sans Mono"@),
    ]
}

/// `font_list`, computed.
pub fn choices() -> (r: Vec<(String, String)>)
    ensures
        pair_texts(r@) == font_list(),
{
    let mut v: Vec<(String, String)> = Vec::new();
    v.push(pair("system", "Host system font"));
    v.push(pair("noto", "Noto Sans"));
    v.push(pair("liberation", "Liberation Sans"));
    v.push(pair("dejavu", "DejaVu Sans"));
    v.push(pair("dejavu-mono", "DejaVu Sans Mono"));
    assert(pair_texts(v@) =~= font_list());
    v
}

/// The sizes on offer, in typographic points: the configured value and its label.
pub open spec fn size_list() -> Seq<(Seq<char>, Seq<char>)> {
    seq![
        ("system"@, "Host system size"@),
        ("10"@, "10 pt"@),
        ("11"@, "11 pt"@),
        ("12"@, "12 pt"@),
        ("13"@, "13 pt"@),
        ("14"@, "14 pt"@),
        ("16"@, "16 pt"@),
        ("18"@, "18 pt"@),
    ]
}

/// `size_list`, computed.
pub fn size_choices() -> (r: Vec<(String, String)>)
    ensures
        pair_texts(r@) == size_list(),
{
    let mut v: Vec<(String, String)> = Vec::new();
    v.push(pair("system", "Host system size"));
    v.push(pair("10", "10 pt"));
    v.push(pair("11", "11 pt"));
    v.push(pair("12", "12 pt"));
    v.push(pair("13", "13 pt"));
    v.push(pair("14", "14 pt"));
    v.push(pair("16", "16 pt"));
    v.push(pair("18", "18 pt"));
    assert(pair_texts(v@) =~= size_list());
    v
}

/// Is the value one of the fonts on offer?
pub open spec fn font_ok(key: Seq<char>) -> bool {
    pairs::lookup(font_list(), key) is Some
}

/// `font_ok`, computed.
pub fn is_valid_font(key: &str) -> (r: bool)
    ensures
        r == font_ok(key@),
{
    let cs = choices();
    pairs::find(&cs, key).is_some()
}

/// Is the value the host's size, or a whole number of points in a sane range?
pub open spec fn size_ok(s: Seq<char>) -> bool {
    ||| s == "system"@
    ||| match text::unsigned_in(s, u32::MAX as int) {
        Some(n) => 6 <= n <= 48,
        None => false,
    }
}

/// `size_ok`, computed.
pub fn is_valid_size(s: &str) -> (r: bool)
    ensures
        r == size_ok(s@),
{
    if text::same(s, "system") {
        return true;
    }
    match text::parse_unsigned(s, u32::MAX as u64) {
        Some(n) => n >= 6 && n <= 48,
        None => false,
    }
}

/// The family that a choice stands for; none for the host's.
pub open spec fn family(key: Seq<char>) -> Option<Seq<char>> {
    if key == "system"@ { None } else { pairs::lookup(font_list(), key) }
}

/// `family`, computed.
pub fn family_for(key: &str) -> (r: Option<String>)
    ensures
        text::opt(r) == family(key@),
{
    if text::same(key, "system") {
        return None;
    }
    let cs = choices();
    pairs::find(&cs, key)
}

/// The family for the applications.
pub open spec fn family_used(font_key: Seq<char>, host: Option<Seq<char>>) -> Seq<char> {
    match family(font_key) {
        Some(f) => f,
        None => match host {
            Some(f) => f,
            None => "Noto Sans"@,
        },
    }
}

/// The points for the applications, as they are written.
pub open spec fn points_used(size_key: Seq<char>, host: Option<Seq<char>>) -> Seq<char> {
    if size_key != "system"@ && is_number(size_key) {
        size_key
    } else if size_key == "system"@ && host is Some {
        host->0
    } else {
        "10"@
    }
}

/// The applications get the font that is chosen; where the choice is the host's they get
/// what the host has, and without that a common one.
pub proof fn law_the_applications_get_the_chosen_font(host: Seq<char>, n: nat)
    ensures
        family_used("noto"@, Some(host)) == "Noto Sans"@,
        family_used("dejavu"@, Some(host)) == "DejaVu Sans"@,
        family_used("system"@, Some(host)) == host,
        family_used("system"@, None) == "Noto Sans"@,
        points_used(text::decimal(n), Some(host)) == text::decimal(n),
        points_used("system"@, Some(host)) == host,
        points_used("system"@, None) == "10"@,
{
    law_a_font_stands_for_its_family("noto"@);
    law_a_number_is_digits_and_a_fraction(n, n, seq![]);
    text::lemma_decimal_reads_back(n);
    reveal_strlit("system");
    assert(text::is_digit(text::decimal(n)[0]));
    assert("system"@[0] == 's');
}

/// The family and the number of points, as it is written, for the applications:
/// the chosen ones, else the host's, else a fallback.
pub fn app_font(
    font_key: &str,
    size_key: &str,
    host_family: Option<String>,
    host_points: Option<String>,
) -> (r: (String, String))
    ensures
        r.0@ == family_used(font_key@, text::opt(host_family)), r.1@ == points_used(size_key@, text::opt(host_points)),
        r.0@ == match family(font_key@) {
            Some(f) => f,
            None => match text::opt(host_family) {
                Some(f) => f,
                None => "Noto Sans"@,
            },
        },
        r.1@ == if size_key@ != "system"@ && is_number(size_key@) {
            size_key@
        } else if size_key@ == "system"@ && host_points is Some {
            host_points->0@
        } else {
            "10"@
        },
{
    let f = match family_for(font_key) {
        Some(f) => f,
        None => match host_family {
            Some(f) => f,
            None => "Noto Sans".to_owned(),
        },
    };
    let p = if text::same(size_key, "system") {
        match host_points {
            Some(p) => p,
            None => "10".to_owned(),
        }
    } else if number(size_key) {
        size_key.to_owned()
    } else {
        "10".to_owned()
    };
    (f, p)
}

// ------------------------------------------------- numbers with a fraction ---

/// How many digits a text starts with.
pub open spec fn leading(s: Seq<char>) -> int
    decreases s.len(),
{
    if s.len() > 0 && text::is_digit(s[0]) { 1 + leading(s.skip(1)) } else { 0 }
}

/// A text without one sign in front.
pub open spec fn unsigned_part(s: Seq<char>) -> Seq<char> {
    if s.len() > 0 && (s[0] == '+' || s[0] == '-') { s.skip(1) } else { s }
}

/// Nothing, or an exponent.
pub open spec fn is_exponent(s: Seq<char>) -> bool {
    s.len() > 0 ==> {
        let t = unsigned_part(s.skip(1));
        (s[0] == 'e' || s[0] == 'E') && t.len() > 0 && leading(t) == t.len()
    }
}

/// Digits with an optional fraction and an optional exponent.
pub open spec fn is_decimal_number(s: Seq<char>) -> bool {
    let a = leading(s);
    let r = s.skip(a);
    if r.len() > 0 && r[0] == '.' {
        let t = r.skip(1);
        a + leading(t) > 0 && is_exponent(t.skip(leading(t)))
    } else {
        a > 0 && is_exponent(r)
    }
}

/// A number as a floating-point number is written.
pub open spec fn is_number(s: Seq<char>) -> bool {
    let u = unsigned_part(s);
    let w = text::lowered(u);
    w == "inf"@ || w == "infinity"@ || w == "nan"@ || is_decimal_number(u)
}

/// How many digits stand at `from`.
fn digits_at(v: &Vec<char>, from: usize) -> (n: usize)
    requires
        from <= v@.len(),
    ensures
        n == leading(v@.skip(from as int)),
        from + n <= v@.len(),
{
    let mut i: usize = from;
    while i < v.len() && text::digit(v[i])
        invariant
            from <= i <= v@.len(),
            leading(v@.skip(from as int)) == i - from + leading(v@.skip(i as int)),
        decreases v@.len() - i,
    {
        assert(v@.skip(i as int)[0] == v@[i as int]);
        assert(v@.skip(i as int).skip(1) =~= v@.skip(i + 1));
        i = i + 1;
    }
    if i < v.len() {
        assert(v@.skip(i as int)[0] == v@[i as int]);
    }
    i - from
}

fn exponent_at(v: &Vec<char>, from: usize) -> (r: bool)
    requires
        from <= v@.len(),
    ensures
        r == is_exponent(v@.skip(from as int)),
{
    if from == v.len() {
        return true;
    }
    let ghost s = v@.skip(from as int);
    assert(s[0] == v@[from as int]);
    assert(s.skip(1) =~= v@.skip(from + 1));
    if v[from] != 'e' && v[from] != 'E' {
        return false;
    }
    let mut i: usize = from + 1;
    if i < v.len() {
        assert(s.skip(1)[0] == v@[i as int]);
        if v[i] == '+' || v[i] == '-' {
            i = i + 1;
            assert(s.skip(1).skip(1) =~= v@.skip(i as int));
        }
    }
    assert(unsigned_part(s.skip(1)) =~= v@.skip(i as int));
    i < v.len() && digits_at(v, i) == v.len() - i
}

/// `is_number`, computed.
pub fn number(s: &str) -> (r: bool)
    ensures
        r == is_number(s@),
{
    let v = text::chars_of(s);
    let mut i: usize = 0;
    if v.len() > 0 && (v[0] == '+' || v[0] == '-') {
        i = 1;
    }
    let ghost u = unsigned_part(s@);
    assert(u =~= v@.skip(i as int));
    let rest = text::string_of(&v, i, v.len());
    assert(rest@ =~= u);
    let low = text::lower_ascii(rest.as_str());
    if text::same(low.as_str(), "inf") || text::same(low.as_str(), "infinity") || text::same(
        low.as_str(),
        "nan",
    ) {
        return true;
    }
    let a = digits_at(&v, i);
    let j: usize = i + a;
    assert(u.skip(a as int) =~= v@.skip(j as int));
    if j < v.len() && v[j] == '.' {
        assert(v@.skip(j as int)[0] == v@[j as int]);
        assert(u.skip(a as int).skip(1) =~= v@.skip(j + 1));
        let b = digits_at(&v, j + 1);
        assert(v@.skip(j + 1).skip(b as int) =~= v@.skip(j + 1 + b));
        (a > 0 || b > 0) && exponent_at(&v, j + 1 + b)
    } else {
        if j < v.len() {
            assert(v@.skip(j as int)[0] == v@[j as int]);
        }
        a > 0 && exponent_at(&v, j)
    }
}

// ------------------------------------------------------ the host's font ---

/// A font as the host describes it: its family, and its size where it has one.
pub type Font = (Option<String>, Option<String>);

/// The texts of a font.
pub open spec fn font_texts(f: Font) -> (Option<Seq<char>>, Option<Seq<char>>) {
    (text::opt(f.0), text::opt(f.1))
}

/// A font written with commas: its family, its size, and what does not matter here.
pub open spec fn comma_font(v: Seq<char>) -> Option<(Option<Seq<char>>, Option<Seq<char>>)> {
    let fs = text::fields(v, ',');
    let fam = text::trimmed(fs[0]);
    if fam.len() == 0 {
        None
    } else if fs.len() > 1 && is_number(text::trimmed(fs[1])) {
        Some((Some(fam), Some(text::trimmed(fs[1]))))
    } else {
        Some((Some(fam), None))
    }
}

/// `comma_font`, computed.
pub fn parse_kde_font(v: &str) -> (r: Option<Font>)
    ensures
        r is Some <==> comma_font(v@) is Some,
        r matches Some(f) ==> comma_font(v@) == Some(font_texts(f)),
{
    let fs = text::split(v, ',');
    let ghost t = text::fields(v@, ',');
    proof {
        text::lemma_fields_nonempty(v@, ',');
    }
    assert(text::texts(fs@).len() == fs@.len());
    assert(text::texts(fs@)[0] == fs@[0]@);
    let fam = text::trim(fs[0].as_str());
    if fam.as_str().is_empty() {
        return None;
    }
    if fs.len() > 1 {
        assert(text::texts(fs@)[1] == fs@[1]@);
        let size = text::trim(fs[1].as_str());
        if number(size.as_str()) {
            return Some((Some(fam), Some(size)));
        }
    }
    Some((Some(fam), None))
}

proof fn lemma_last_space(s: Seq<char>, i: int)
    requires
        0 <= i <= s.len(),
        i > 0 ==> s[i - 1] == ' ',
        forall|k: int| i <= k < s.len() ==> s[k] != ' ',
    ensures
        process::last_of(s, ' ') == i - 1,
    decreases s.len(),
{
    if i < s.len() {
        lemma_last_space(s.drop_last(), i);
    }
}

/// A font written as a family and a size behind a space, or with commas.
pub open spec fn described_font(v: Seq<char>) -> Option<(Option<Seq<char>>, Option<Seq<char>>)> {
    if v.contains(',') {
        comma_font(v)
    } else {
        let t = text::trimmed(v);
        let i = process::last_of(t, ' ');
        if i >= 0 && is_number(t.skip(i + 1)) {
            Some((Some(text::trimmed(t.take(i))), Some(t.skip(i + 1))))
        } else if t.len() > 0 {
            Some((Some(t), None))
        } else {
            None
        }
    }
}

/// `described_font`, computed.
pub fn parse_desc_font(v: &str) -> (r: Option<Font>)
    ensures
        r is Some <==> described_font(v@) is Some,
        r matches Some(f) ==> described_font(v@) == Some(font_texts(f)),
{
    if text::has_char(v, ',') {
        return parse_kde_font(v);
    }
    let t = text::trim(v);
    let c = text::chars_of(t.as_str());
    let mut i: usize = c.len();
    while i > 0 && c[i - 1] != ' '
        invariant
            i <= c@.len(),
            forall|k: int| i <= k < c@.len() ==> c@[k] != ' ',
        decreases i,
    {
        i = i - 1;
    }
    proof {
        lemma_last_space(t@, i as int);
    }
    if i > 0 {
        let size = text::string_of(&c, i, c.len());
        assert(size@ =~= t@.skip(i as int));
        if number(size.as_str()) {
            let head = text::string_of(&c, 0, i - 1);
            assert(head@ =~= t@.take(i - 1));
            let fam = text::trim(head.as_str());
            return Some((Some(fam), Some(size)));
        }
    }
    if !t.as_str().is_empty() {
        Some((Some(t), None))
    } else {
        None
    }
}

/// A quotation mark.
pub open spec fn is_quote(c: char) -> bool {
    c == '\'' || c == '"'
}

/// A text without the quotation marks around it.
pub open spec fn unquoted(s: Seq<char>) -> Seq<char> {
    text::strip_ends(s, |c: char| is_quote(c))
}

/// `unquoted`, computed.
pub fn unquote(s: &str) -> (r: String)
    ensures
        r@ == unquoted(s@),
{
    let v = text::chars_of(s);
    let mut a: usize = 0;
    while a < v.len() && (v[a] == '\'' || v[a] == '"')
        invariant
            a <= v@.len(),
            forall|k: int| 0 <= k < a ==> is_quote(v@[k]),
        decreases v@.len() - a,
    {
        a = a + 1;
    }
    let mut b: usize = v.len();
    while b > a && (v[b - 1] == '\'' || v[b - 1] == '"')
        invariant
            a <= b <= v@.len(),
            forall|k: int| b <= k < v@.len() ==> is_quote(v@[k]),
        decreases b,
    {
        b = b - 1;
    }
    proof {
        let p = |c: char| is_quote(c);
        if a == b && a < v@.len() {
            assert(is_quote(v@[a as int]));
        }
        assert forall|k: int| 0 <= k < a implies p(#[trigger] v@[k]) by {
            assert(is_quote(v@[k]));
        }
        assert forall|k: int| b <= k < v@.len() implies p(#[trigger] v@[k]) by {
            assert(is_quote(v@[k]));
        }
        text::lemma_strip_ends(v@, p, a as int, b as int);
    }
    text::string_of(&v, a, b)
}

/// The font of the host: as the first of its settings that names one says it, else
/// the family that the font configuration gives.
pub open spec fn host_font(
    kde6: Option<Seq<char>>,
    kde5: Option<Seq<char>>,
    gnome: Option<Seq<char>>,
    fallback: Option<Seq<char>>,
) -> (Option<Seq<char>>, Option<Seq<char>>) {
    if kde6 is Some && comma_font(kde6->0) is Some {
        comma_font(kde6->0)->0
    } else if kde5 is Some && comma_font(kde5->0) is Some {
        comma_font(kde5->0)->0
    } else if gnome is Some && described_font(unquoted(gnome->0)) is Some {
        described_font(unquoted(gnome->0))->0
    } else if fallback is Some && text::trimmed(text::fields(fallback->0, ',')[0]).len() > 0 {
        (Some(text::trimmed(text::fields(fallback->0, ',')[0])), None)
    } else {
        (None, None)
    }
}

/// `host_font`, computed.
pub fn host_ui_font(
    kde6: Option<&str>,
    kde5: Option<&str>,
    gnome: Option<&str>,
    fallback: Option<&str>,
) -> (r: Font)
    ensures
        font_texts(r) == host_font(
            text::opt_str(kde6),
            text::opt_str(kde5),
            text::opt_str(gnome),
            text::opt_str(fallback),
        ),
{
    if let Some(v) = kde6 {
        if let Some(f) = parse_kde_font(v) {
            return f;
        }
    }
    if let Some(v) = kde5 {
        if let Some(f) = parse_kde_font(v) {
            return f;
        }
    }
    if let Some(v) = gnome {
        let u = unquote(v);
        if let Some(f) = parse_desc_font(u.as_str()) {
            return f;
        }
    }
    if let Some(v) = fallback {
        let fs = text::split(v, ',');
        proof {
            text::lemma_fields_nonempty(v@, ',');
        }
        assert(text::texts(fs@).len() == fs@.len());
        assert(text::texts(fs@)[0] == fs@[0]@);
        let fam = text::trim(fs[0].as_str());
        if !fam.as_str().is_empty() {
            return (Some(fam), None);
        }
    }
    (None, None)
}

/// What a program printed, where it ended well and printed anything.
pub fn output_text(success: bool, printed: &str) -> (r: Option<String>)
    ensures
        text::opt(r) == if success && text::trimmed(printed@).len() > 0 {
            Some(text::trimmed(printed@))
        } else {
            None
        },
{
    if !success {
        return None;
    }
    let t = text::trim(printed);
    if t.as_str().is_empty() {
        None
    } else {
        Some(t)
    }
}

/// The family whose file is to be found.
pub fn wanted_family(font_key: &str, host_family: Option<String>) -> (r: Option<String>)
    ensures
        text::opt(r) == if font_key@ == "system"@ {
            text::opt(host_family)
        } else {
            family(font_key@)
        },
{
    if text::same(font_key, "system") {
        host_family
    } else {
        family_for(font_key)
    }
}

/// The largest font file that is read.
pub const FONT_FILE_MAX: u64 = 20_000_000;

/// May the file be read as a font?
pub fn font_file_ok(is_file: bool, len: u64) -> (r: bool)
    ensures
        r == (is_file && len <= FONT_FILE_MAX),
{
    is_file && len <= FONT_FILE_MAX
}

/// The file of a matched font, unless an unrelated family was put in its place.
pub open spec fn matched_file(out: Seq<char>, family: Seq<char>) -> Option<Seq<char>> {
    match text::split_once(out, '|') {
        Some((matched, path)) => if text::occurs(text::low_text(family), text::low_text(matched)) {
            Some(text::trimmed(path))
        } else {
            None
        },
        None => None,
    }
}

/// `matched_file`, computed.
pub fn font_file(out: &str, family: &str) -> (r: Option<String>)
    ensures
        text::opt(r) == matched_file(out@, family@),
{
    match text::cut(out, '|') {
        Some((matched, path)) => {
            let m = text::lower_text(matched.as_str());
            let f = text::lower_text(family);
            if text::contains(m.as_str(), f.as_str()) {
                Some(text::trim(path.as_str()))
            } else {
                None
            }
        },
        None => None,
    }
}

// --------------------------------------------------- the tables of a font ---

/// Two bytes, the higher one first.
pub open spec fn be16(f: Seq<u8>, o: int) -> Option<int> {
    if 0 <= o && o + 2 <= f.len() { Some(f[o] * 256 + f[o + 1]) } else { None }
}

/// Four bytes, the higher ones first.
pub open spec fn be32(f: Seq<u8>, o: int) -> Option<int> {
    if 0 <= o && o + 4 <= f.len() {
        Some(((f[o] * 256 + f[o + 1]) * 256 + f[o + 2]) * 256 + f[o + 3])
    } else {
        None
    }
}

/// Do the four bytes `t` stand at `o`?
pub open spec fn tag_at(f: Seq<u8>, o: int, t: Seq<u8>) -> bool {
    0 <= o && o + 4 <= f.len() && f.subrange(o, o + 4) == t
}

pub open spec fn head_tag() -> Seq<u8> {
    seq![104u8, 101u8, 97u8, 100u8]
}

pub open spec fn hhea_tag() -> Seq<u8> {
    seq![104u8, 104u8, 101u8, 97u8]
}

pub open spec fn ttcf_tag() -> Seq<u8> {
    seq![116u8, 116u8, 99u8, 102u8]
}

/// Where the tables `head` and `hhea` are, by the first `n` entries of the directory.
pub open spec fn tables(f: Seq<u8>, base: int, n: nat) -> Option<(Option<int>, Option<int>)>
    decreases n,
{
    if n == 0 {
        Some((None, None))
    } else {
        let e = base + 12 + 16 * (n - 1);
        match tables(f, base, (n - 1) as nat) {
            None => None,
            Some((head, hhea)) => if e + 4 > f.len() {
                None
            } else if tag_at(f, e, head_tag()) {
                match be32(f, e + 8) {
                    None => None,
                    Some(o) => Some((Some(o), hhea)),
                }
            } else if tag_at(f, e, hhea_tag()) {
                match be32(f, e + 8) {
                    None => None,
                    Some(o) => Some((head, Some(o))),
                }
            } else {
                Some((head, hhea))
            },
        }
    }
}

/// Where the directory of the font starts: that of the first one in a collection.
pub open spec fn directory(f: Seq<u8>) -> Option<int> {
    if f.len() < 4 {
        None
    } else if tag_at(f, 0, ttcf_tag()) {
        be32(f, 12)
    } else {
        Some(0)
    }
}

/// The units in which a font is drawn: how many make up its size, and how many its
/// ascender. None where a table is missing or says nothing usable.
pub open spec fn font_units(f: Seq<u8>) -> Option<(int, int)> {
    match directory(f) {
        None => None,
        Some(base) => match be16(f, base + 4) {
            None => None,
            Some(num) => match tables(f, base, (if num < 64 { num } else { 64 }) as nat) {
                Some((Some(head), Some(hhea))) => match (be16(f, head + 18), be16(f, hhea + 4)) {
                    (Some(upem), Some(asc)) => if upem > 0 && 0 < asc < 0x8000 {
                        Some((upem, asc))
                    } else {
                        None
                    },
                    _ => None,
                },
                _ => None,
            },
        },
    }
}

fn read16(f: &[u8], o: u64) -> (r: Option<u64>)
    requires
        o < 0x2_0000_0000,
    ensures
        r is Some <==> be16(f@, o as int) is Some,
        r matches Some(n) ==> be16(f@, o as int) == Some(n as int) && n < 0x1_0000,
{
    let n: u64 = f.len() as u64;
    if n < 2 || o > n - 2 {
        return None;
    }
    let i: usize = o as usize;
    Some(f[i] as u64 * 256 + f[i + 1] as u64)
}

fn read32(f: &[u8], o: u64) -> (r: Option<u64>)
    requires
        o < 0x2_0000_0000,
    ensures
        r is Some <==> be32(f@, o as int) is Some,
        r matches Some(n) ==> be32(f@, o as int) == Some(n as int) && n < 0x1_0000_0000,
{
    let n: u64 = f.len() as u64;
    if n < 4 || o > n - 4 {
        return None;
    }
    let i: usize = o as usize;
    Some(
        ((f[i] as u64 * 256 + f[i + 1] as u64) * 256 + f[i + 2] as u64) * 256 + f[i + 3] as u64,
    )
}

fn has_tag(f: &[u8], o: u64, a: u8, b: u8, c: u8, d: u8) -> (r: bool)
    requires
        o + 4 <= f@.len(),
    ensures
        r == tag_at(f@, o as int, seq![a, b, c, d]),
{
    let i: usize = o as usize;
    let ghost s = f@.subrange(o as int, o + 4);
    let r = f[i] == a && f[i + 1] == b && f[i + 2] == c && f[i + 3] == d;
    proof {
        assert(s[0] == f@[i as int] && s[1] == f@[i + 1] && s[2] == f@[i + 2] && s[3] == f@[i + 3]);
        if r {
            assert(s =~= seq![a, b, c, d]);
        } else if s == seq![a, b, c, d] {
            assert(s[0] == a && s[1] == b && s[2] == c && s[3] == d);
        }
    }
    r
}

/// `font_units`, computed.
pub fn ascent_units(f: &[u8]) -> (r: Option<(u16, u16)>)
    ensures
        r is Some <==> font_units(f@) is Some,
        r matches Some((u, a)) ==> font_units(f@) == Some((u as int, a as int)) && u > 0 && 0 < a
            < 0x8000,
{
    if f.len() < 4 {
        return None;
    }
    let base: u64 = if has_tag(f, 0, 116, 116, 99, 102) {
        match read32(f, 12) {
            Some(b) => b,
            None => {
                return None;
            },
        }
    } else {
        0
    };
    let num: u64 = match read16(f, base + 4) {
        Some(n) => n,
        None => {
            return None;
        },
    };
    let count: u64 = if num < 64 { num } else { 64 };
    let mut head: Option<u64> = None;
    let mut hhea: Option<u64> = None;
    let mut i: u64 = 0;
    while i < count
        invariant
            i <= count <= 64,
            base < 0x1_0000_0000,
            directory(f@) == Some(base as int),
            be16(f@, base + 4) is Some,
            count == if be16(f@, base + 4)->0 < 64 { be16(f@, base + 4)->0 } else { 64 },
            head matches Some(h) ==> h < 0x1_0000_0000,
            hhea matches Some(h) ==> h < 0x1_0000_0000,
            tables(f@, base as int, i as nat) == Some((place(head), place(hhea))),
        decreases count - i,
    {
        let e: u64 = base + 12 + 16 * i;
        if f.len() < 4 || e > f.len() as u64 - 4 {
            proof {
                lemma_tables_none(f@, base as int, (i + 1) as nat, count as nat);
            }
            return None;
        }
        if has_tag(f, e, 104, 101, 97, 100) {
            match read32(f, e + 8) {
                Some(o) => {
                    head = Some(o);
                },
                None => {
                    proof {
                        lemma_tables_none(f@, base as int, (i + 1) as nat, count as nat);
                    }
                    return None;
                },
            }
        } else if has_tag(f, e, 104, 104, 101, 97) {
            match read32(f, e + 8) {
                Some(o) => {
                    hhea = Some(o);
                },
                None => {
                    proof {
                        lemma_tables_none(f@, base as int, (i + 1) as nat, count as nat);
                    }
                    return None;
                },
            }
        }
        i = i + 1;
    }
    match (head, hhea) {
        (Some(h), Some(a)) => {
            match (read16(f, h + 18), read16(f, a + 4)) {
                (Some(upem), Some(asc)) => {
                    if upem > 0 && asc > 0 && asc < 0x8000 {
                        Some((upem as u16, asc as u16))
                    } else {
                        None
                    }
                },
                _ => None,
            }
        },
        _ => None,
    }
}

/// A place as a number.
pub open spec fn place(o: Option<u64>) -> Option<int> {
    match o {
        Some(n) => Some(n as int),
        None => None,
    }
}

proof fn lemma_tables_none(f: Seq<u8>, base: int, m: nat, n: nat)
    requires
        m <= n,
        tables(f, base, m) is None,
    ensures
        tables(f, base, n) is None,
    decreases n,
{
    if m < n {
        lemma_tables_none(f, base, m, (n - 1) as nat);
    }
}

/// Do the bytes start as a scalable font does: TrueType, OpenType, a collection, or one
/// of the two web formats?
pub open spec fn scalable(b: Seq<u8>) -> bool {
    b.len() >= 4 && {
        let h = b.take(4);
        ||| h == seq![0u8, 1, 0, 0]
        ||| h == seq![116u8, 114, 117, 101]
        ||| h == seq![79u8, 84, 84, 79]
        ||| h == seq![116u8, 116, 99, 102]
        ||| h == seq![119u8, 79, 70, 70]
        ||| h == seq![119u8, 79, 70, 50]
    }
}

fn begins(b: &[u8], w: u8, x: u8, y: u8, z: u8) -> (r: bool)
    requires
        b@.len() >= 4,
    ensures
        r == (b@.take(4) == seq![w, x, y, z]),
{
    let r = b[0] == w && b[1] == x && b[2] == y && b[3] == z;
    proof {
        let h = b@.take(4);
        assert(h[0] == b@[0] && h[1] == b@[1] && h[2] == b@[2] && h[3] == b@[3]);
        if r {
            assert(h =~= seq![w, x, y, z]);
        }
    }
    r
}

/// `scalable`, computed.
pub fn is_scalable_font(bytes: &[u8]) -> (r: bool)
    ensures
        r == scalable(bytes@),
{
    if bytes.len() < 4 {
        return false;
    }
    begins(bytes, 0, 1, 0, 0) || begins(bytes, 116, 114, 117, 101) || begins(
        bytes,
        79,
        84,
        84,
        79,
    ) || begins(bytes, 116, 116, 99, 102) || begins(bytes, 119, 79, 70, 70) || begins(
        bytes,
        119,
        79,
        70,
        50,
    )
}

/// A size is a whole number of points from six to forty-eight, or the host's.
pub proof fn law_a_size_is_a_number_of_points(n: nat)
    requires
        n <= u32::MAX,
    ensures
        size_ok(text::decimal(n)) <==> 6 <= n <= 48,
        size_ok("system"@),
        !size_ok(seq![]),
{
    text::lemma_decimal_parses(n, u32::MAX as int);
    text::lemma_decimal_reads_back(n);
    reveal_strlit("system");
    assert(text::is_digit(text::decimal(n)[0]));
    assert("system"@[0] == 's');
    assert("system"@.len() == 6);
}

/// Every font on offer stands for its family, the host's own for none.
pub proof fn law_a_font_stands_for_its_family(key: Seq<char>)
    ensures
        family("noto"@) == Some("Noto Sans"@),
        family("liberation"@) == Some("Liberation Sans"@),
        family("dejavu"@) == Some("DejaVu Sans"@),
        family("dejavu-mono"@) == Some("DejaVu Sans Mono"@),
        family("system"@) is None,
        family(key) is Some ==> font_ok(key),
        font_ok("system"@),
        font_ok(key) ==> key == "system"@ || key == "noto"@ || key == "liberation"@ || key == "dejavu"@
            || key == "dejavu-mono"@,
{
    reveal_strlit("system");
    reveal_strlit("noto");
    reveal_strlit("liberation");
    reveal_strlit("dejavu");
    reveal_strlit("dejavu-mono");
    assert("system"@.len() == 6 && "noto"@.len() == 4 && "liberation"@.len() == 10 && "dejavu"@.len() == 6
        && "dejavu-mono"@.len() == 11);
    assert("system"@[0] == 's' && "dejavu"@[0] == 'd');
    let l = font_list();
    let l1 = l.skip(1);
    let l2 = l1.skip(1);
    let l3 = l2.skip(1);
    let l4 = l3.skip(1);
    assert(l[0].0 == "system"@ && l1[0].0 == "noto"@ && l2[0].0 == "liberation"@ && l3[0].0 == "dejavu"@
        && l4[0].0 == "dejavu-mono"@);
    assert(l4.skip(1).len() == 0);
    reveal_with_fuel(pairs::lookup, 7);
}

proof fn lemma_leading(s: Seq<char>, n: int)
    requires
        0 <= n <= s.len(),
        forall|i: int| 0 <= i < n ==> text::is_digit(#[trigger] s[i]),
        n < s.len() ==> !text::is_digit(s[n]),
    ensures
        leading(s) == n,
    decreases n,
{
    if n > 0 {
        let t = s.skip(1);
        assert(text::is_digit(s[0]));
        assert forall|i: int| 0 <= i < n - 1 implies text::is_digit(#[trigger] t[i]) by {
            assert(t[i] == s[i + 1]);
        }
        lemma_leading(t, n - 1);
    }
}

/// Digits are a number, with a fraction or without, and with a sign before them; nothing
/// and a word are none.
pub proof fn law_a_number_is_digits_and_a_fraction(a: nat, b: nat, s: Seq<char>)
    ensures
        is_number(text::decimal(a)),
        is_number(text::decimal(a) + seq!['.'] + text::decimal(b)),
        is_number(seq!['-'] + text::decimal(a)),
        !is_number(seq![]),
        s.len() > 0 && s[0] != '+' && s[0] != '-' && s[0] != '.' && s[0] != 'i' && s[0] != 'I' && s[0] != 'n'
            && s[0] != 'N' && !text::is_digit(s[0]) ==> !is_number(s),
{
    reveal_strlit("inf");
    reveal_strlit("infinity");
    reveal_strlit("nan");
    let x = text::decimal(a);
    let y = text::decimal(b);
    text::lemma_decimal_reads_back(a);
    text::lemma_decimal_reads_back(b);
    let e: Seq<char> = seq![];
    lemma_leading(x, x.len() as int);
    assert(x.skip(x.len() as int) =~= e);
    assert(is_decimal_number(x));
    assert(unsigned_part(x) == x);
    let f = x + seq!['.'] + y;
    assert forall|i: int| 0 <= i < x.len() implies text::is_digit(#[trigger] f[i]) by {
        assert(f[i] == x[i]);
    }
    assert(f[x.len() as int] == '.');
    lemma_leading(f, x.len() as int);
    let r = f.skip(x.len() as int);
    assert(r[0] == '.');
    assert(r.skip(1) =~= y);
    lemma_leading(y, y.len() as int);
    assert(y.skip(y.len() as int) =~= e);
    assert(is_decimal_number(f));
    assert(f[0] == x[0]);
    assert(unsigned_part(f) == f);
    let m = seq!['-'] + x;
    assert(m.skip(1) =~= x);
    assert(text::lowered(e) =~= e);
    assert("inf"@.len() == 3 && "infinity"@.len() == 8 && "nan"@.len() == 3);
    assert(leading(e) == 0);
    if s.len() > 0 && s[0] != '+' && s[0] != '-' && s[0] != '.' && s[0] != 'i' && s[0] != 'I' && s[0] != 'n'
        && s[0] != 'N' && !text::is_digit(s[0]) {
        let w = text::lowered(s);
        assert(w[0] == text::lower(s[0]));
        assert("inf"@[0] == 'i' && "infinity"@[0] == 'i' && "nan"@[0] == 'n');
        assert(leading(s) == 0);
        assert(s.skip(0) =~= s);
    }
}

/// A font that the desktop describes is its family and its size: with commas, or with the
/// size behind the last blank. Where no number stands there, the family is all there is.
pub proof fn law_a_described_font_is_family_and_size(fam: Seq<char>, size: Seq<char>, rest: Seq<char>)
    requires
        fam.len() > 0,
        !fam.contains(','),
        !text::is_space(fam[0]),
        !text::is_space(fam.last()),
        size.len() > 0,
        !size.contains(','),
        !size.contains(' '),
        !text::is_space(size[0]),
        !text::is_space(size.last()),
    ensures
        is_number(size) ==> comma_font(fam + seq![','] + size + seq![','] + rest) == Some(
            (Some(fam), Some(size)),
        ),
        !is_number(size) ==> comma_font(fam + seq![','] + size + seq![','] + rest) == Some(
            (Some(fam), None::<Seq<char>>),
        ),
        is_number(size) ==> described_font(fam + seq![' '] + size) == Some((Some(fam), Some(size))),
        !is_number(size) ==> described_font(fam + seq![' '] + size) == Some(
            (Some(fam + seq![' '] + size), None::<Seq<char>>),
        ),
        comma_font(fam) == Some((Some(fam), None::<Seq<char>>)),
        comma_font(seq![]) is None,
{
    let v = fam + seq![','] + (size + seq![','] + rest);
    assert(v =~= fam + seq![','] + size + seq![','] + rest);
    text::lemma_fields_cons(fam, size + seq![','] + rest, ',');
    text::lemma_fields_cons(size, rest, ',');
    text::lemma_fields_nonempty(rest, ',');
    text::lemma_trimmed_is(fam);
    text::lemma_trimmed_is(size);
    assert(text::fields(v, ',')[0] == fam);
    assert(text::fields(v, ',')[1] == size);
    text::lemma_fields_one(fam, ',');
    let e: Seq<char> = seq![];
    text::lemma_fields_one(e, ',');
    text::lemma_trimmed_is(e);
    let d = fam + seq![' '] + size;
    assert(!d.contains(',')) by {
        if d.contains(',') {
            let k = choose|k: int| 0 <= k < d.len() && d[k] == ',';
            if k < fam.len() {
                assert(fam[k] == ',');
            } else if k > fam.len() {
                assert(size[k - fam.len() - 1] == ',');
            }
        }
    }
    assert(d[0] == fam[0] && d.last() == size.last());
    text::lemma_trimmed_is(d);
    lemma_last_blank(fam, size);
    assert(d.skip(fam.len() as int + 1) =~= size);
    assert(d.take(fam.len() as int) =~= fam);
}

proof fn lemma_last_blank(a: Seq<char>, b: Seq<char>)
    requires
        !b.contains(' '),
    ensures
        process::last_of(a + seq![' '] + b, ' ') == a.len(),
    decreases b.len(),
{
    let s = a + seq![' '] + b;
    if b.len() == 0 {
        assert(s.last() == ' ');
    } else {
        let d = b.drop_last();
        assert(b.contains(b[b.len() - 1]));
        assert(!d.contains(' ')) by {
            if d.contains(' ') {
                let k = choose|k: int| 0 <= k < d.len() && d[k] == ' ';
                assert(b[k] == ' ');
            }
        }
        assert(s.last() == b.last());
        assert(s.drop_last() =~= a + seq![' '] + d);
        lemma_last_blank(a, d);
    }
}

/// The first of the host's settings that names a font counts; those of the other desktop
/// only where it has none, and the font configuration last, with a family alone.
pub proof fn law_the_first_setting_that_names_a_font_counts(
    kde6: Option<Seq<char>>,
    kde5: Option<Seq<char>>,
    gnome: Option<Seq<char>>,
    fallback: Option<Seq<char>>,
    v: Seq<char>,
    fam: Seq<char>,
)
    requires
        fam.len() > 0,
        !fam.contains(','),
        !text::is_space(fam[0]),
        !text::is_space(fam.last()),
    ensures
        comma_font(v) is Some ==> host_font(Some(v), kde5, gnome, fallback) == comma_font(v)->0,
        comma_font(v) is Some ==> host_font(None, Some(v), gnome, fallback) == comma_font(v)->0,
        described_font(unquoted(v)) is Some ==> host_font(None, None, Some(v), fallback)
            == described_font(unquoted(v))->0,
        host_font(None, None, None, Some(fam)) == (Some(fam), None::<Seq<char>>),
        host_font(None, None, None, None) == (None::<Seq<char>>, None::<Seq<char>>),
{
    text::lemma_fields_one(fam, ',');
    text::lemma_trimmed_is(fam);
}

/// Quotation marks around a text are taken off, and nothing inside.
pub proof fn law_quotation_marks_are_taken_off(s: Seq<char>, q: char)
    requires
        s.len() > 0,
        !is_quote(s[0]),
        !is_quote(s.last()),
        q == '\'' || q == '"',
    ensures
        unquoted(seq![q] + s + seq![q]) == s,
        unquoted(s) == s,
{
    let p = |c: char| is_quote(c);
    let t = seq![q] + s + seq![q];
    let n = t.len() as int;
    assert(t[0] == q && t[n - 1] == q && t[1] == s[0] && t[n - 2] == s.last());
    assert forall|k: int| 0 <= k < 1 implies p(#[trigger] t[k]) by {}
    assert forall|k: int| n - 1 <= k < n implies p(#[trigger] t[k]) by {}
    text::lemma_strip_ends(t, p, 1, n - 1);
    assert(t.subrange(1, n - 1) =~= s);
    text::lemma_strip_ends(s, p, 0, s.len() as int);
    assert(s.subrange(0, s.len() as int) =~= s);
}

/// The file of a font is taken where the family that was found is the one that was asked
/// for, and not where another was put in its place.
pub proof fn law_a_font_file_is_that_of_its_family(
    family: Seq<char>,
    found: Seq<char>,
    file: Seq<char>,
)
    requires
        !found.contains('|'),
        file.len() > 0,
        !text::is_space(file[0]),
        !text::is_space(file.last()),
    ensures
        matched_file(found + seq!['|'] + file, family) == if text::occurs(
            text::low_text(family),
            text::low_text(found),
        ) {
            Some(file)
        } else {
            None
        },
        found == family ==> matched_file(found + seq!['|'] + file, family) == Some(file),
        matched_file(found, family) is None,
{
    text::lemma_split_once_at(found, file, '|');
    text::lemma_trimmed_is(file);
    let l = text::low_text(family);
    if found == family {
        assert(l.subrange(0int, 0int + l.len()) =~= l);
        assert(text::occurs(l, l));
    }
}

/// The units of a font are read from its two tables, wherever the directory has them.
pub proof fn law_the_units_are_those_of_the_tables(
    f: Seq<u8>,
    base: int,
    n: int,
    i: int,
    j: int,
    head: int,
    hhea: int,
    upem: int,
    asc: int,
)
    requires
        directory(f) == Some(base),
        0 <= base,
        be16(f, base + 4) == Some(n),
        n <= 64,
        base + 12 + 16 * n <= f.len(),
        0 <= i < n,
        0 <= j < n,
        tag_at(f, base + 12 + 16 * i, head_tag()),
        tag_at(f, base + 12 + 16 * j, hhea_tag()),
        forall|k: int| 0 <= k < n && k != i ==> !#[trigger] tag_at(f, base + 12 + 16 * k, head_tag()),
        forall|k: int| 0 <= k < n && k != j ==> !#[trigger] tag_at(f, base + 12 + 16 * k, hhea_tag()),
        be32(f, base + 12 + 16 * i + 8) == Some(head),
        be32(f, base + 12 + 16 * j + 8) == Some(hhea),
        be16(f, head + 18) == Some(upem),
        be16(f, hhea + 4) == Some(asc),
        upem > 0,
        0 < asc < 0x8000,
    ensures
        font_units(f) == Some((upem, asc)),
{
    lemma_tables_found(f, base, n as nat, n, i, j, head, hhea);
}

proof fn lemma_tables_found(
    f: Seq<u8>,
    base: int,
    m: nat,
    n: int,
    i: int,
    j: int,
    head: int,
    hhea: int,
)
    requires
        0 <= base,
        m <= n <= 64,
        base + 12 + 16 * n <= f.len(),
        0 <= i < n,
        0 <= j < n,
        tag_at(f, base + 12 + 16 * i, head_tag()),
        tag_at(f, base + 12 + 16 * j, hhea_tag()),
        forall|k: int| 0 <= k < n && k != i ==> !#[trigger] tag_at(f, base + 12 + 16 * k, head_tag()),
        forall|k: int| 0 <= k < n && k != j ==> !#[trigger] tag_at(f, base + 12 + 16 * k, hhea_tag()),
        be32(f, base + 12 + 16 * i + 8) == Some(head),
        be32(f, base + 12 + 16 * j + 8) == Some(hhea),
    ensures
        tables(f, base, m) == Some(
            (if i < m { Some(head) } else { None }, if j < m { Some(hhea) } else { None }),
        ),
    decreases m,
{
    if m > 0 {
        let k = m - 1;
        lemma_tables_found(f, base, k as nat, n, i, j, head, hhea);
        let e = base + 12 + 16 * k;
        assert(head_tag()[1] == 101u8 && hhea_tag()[1] == 104u8);
        assert(tag_at(f, base + 12 + 16 * k, head_tag()) == (k == i));
        assert(tag_at(f, base + 12 + 16 * k, hhea_tag()) == (k == j));
    }
}

/// A number in a font has its higher bytes first, and the tags are their letters.
pub proof fn law_numbers_in_a_font_have_the_high_bytes_first(a: u8, b: u8, c: u8, d: u8, rest: Seq<u8>)
    ensures
        be16(seq![a, b] + rest, 0) == Some(256 * a + b),
        be32(seq![a, b, c, d] + rest, 0) == Some(16777216 * a + 65536 * b + 256 * c + d),
        be16(seq![a], 0) is None,
        be32(seq![a, b, c], 0) is None,
        head_tag() == seq!['h' as u8, 'e' as u8, 'a' as u8, 'd' as u8],
        hhea_tag() == seq!['h' as u8, 'h' as u8, 'e' as u8, 'a' as u8],
        ttcf_tag() == seq!['t' as u8, 't' as u8, 'c' as u8, 'f' as u8],
{
}

/// A single font has its directory at the start, and a collection that of its first font
/// where its header says.
pub proof fn law_a_collection_names_its_first_font(f: Seq<u8>, at: int)
    requires
        f.len() >= 16,
    ensures
        f.take(4) != ttcf_tag() ==> directory(f) == Some(0int),
        f.take(4) == ttcf_tag() && be32(f, 12) == Some(at) ==> directory(f) == Some(at),
{
    assert(f.subrange(0, 4) =~= f.take(4));
}

/// A scalable font is known by its first four bytes.
pub proof fn law_a_scalable_font_is_known_by_its_start(rest: Seq<u8>, b: Seq<u8>)
    ensures
        scalable(seq![0u8, 1u8, 0u8, 0u8] + rest),
        scalable(seq!['t' as u8, 'r' as u8, 'u' as u8, 'e' as u8] + rest),
        scalable(seq!['O' as u8, 'T' as u8, 'T' as u8, 'O' as u8] + rest),
        scalable(seq!['t' as u8, 't' as u8, 'c' as u8, 'f' as u8] + rest),
        scalable(seq!['w' as u8, 'O' as u8, 'F' as u8, 'F' as u8] + rest),
        scalable(seq!['w' as u8, 'O' as u8, 'F' as u8, '2' as u8] + rest),
        b.len() < 4 ==> !scalable(b),
        b.len() >= 4 && b[0] != 0 && b[0] != 't' as u8 && b[0] != 'O' as u8 && b[0] != 'w' as u8 ==> !scalable(b),
{
    assert((seq![0u8, 1u8, 0u8, 0u8] + rest).take(4) =~= seq![0u8, 1u8, 0u8, 0u8]);
    assert((seq!['t' as u8, 'r' as u8, 'u' as u8, 'e' as u8] + rest).take(4) =~= seq![116u8, 114u8, 117u8, 101u8]);
    assert((seq!['O' as u8, 'T' as u8, 'T' as u8, 'O' as u8] + rest).take(4) =~= seq![79u8, 84u8, 84u8, 79u8]);
    assert((seq!['t' as u8, 't' as u8, 'c' as u8, 'f' as u8] + rest).take(4) =~= seq![116u8, 116u8, 99u8, 102u8]);
    assert((seq!['w' as u8, 'O' as u8, 'F' as u8, 'F' as u8] + rest).take(4) =~= seq![119u8, 79u8, 70u8, 70u8]);
    assert((seq!['w' as u8, 'O' as u8, 'F' as u8, '2' as u8] + rest).take(4) =~= seq![119u8, 79u8, 70u8, 50u8]);
    if b.len() >= 4 {
        assert(b.take(4)[0] == b[0]);
    }
}

/// Every size on offer is one that is accepted, and its label says how many points it is.
pub proof fn law_every_size_on_offer_is_a_size(i: int)
    requires
        0 < i < size_list().len(),
    ensures
        size_list().len() == 8,
        size_list()[0].0 == "system"@,
        size_list()[i].1 == size_list()[i].0 + " pt"@,
        size_list()[i].0 == text::decimal(
            if i <= 5 {
                (9 + i) as nat
            } else {
                (4 + 2 * i) as nat
            },
        ),
{
    reveal_strlit(" pt");
    reveal_strlit("10");
    reveal_strlit("11");
    reveal_strlit("12");
    reveal_strlit("13");
    reveal_strlit("14");
    reveal_strlit("16");
    reveal_strlit("18");
    reveal_strlit("10 pt");
    reveal_strlit("11 pt");
    reveal_strlit("12 pt");
    reveal_strlit("13 pt");
    reveal_strlit("14 pt");
    reveal_strlit("16 pt");
    reveal_strlit("18 pt");
    let l = size_list();
    assert(l[i].1 =~= l[i].0 + " pt"@);
    reveal_with_fuel(text::decimal, 3);
    assert(l[i].0 =~= text::decimal(if i <= 5 { (9 + i) as nat } else { (4 + 2 * i) as nat }));
}

/// A number may have an exponent, with a sign or without, and the exponent has digits.
pub proof fn law_an_exponent_has_digits(a: nat, b: nat)
    ensures
        is_number(text::decimal(a) + seq!['e'] + text::decimal(b)),
        is_number(text::decimal(a) + seq!['E'] + (seq!['-'] + text::decimal(b))),
        !is_number(text::decimal(a) + seq!['e']),
        !is_number(text::decimal(a) + seq!['x'] + text::decimal(b)),
{
    lemma_behind_digits(a, seq!['e'] + text::decimal(b));
    lemma_behind_digits(a, seq!['E'] + (seq!['-'] + text::decimal(b)));
    lemma_behind_digits(a, seq!['e']);
    lemma_behind_digits(a, seq!['x'] + text::decimal(b));
    let x = text::decimal(a);
    let y = text::decimal(b);
    text::lemma_decimal_reads_back(b);
    lemma_leading(y, y.len() as int);
    let m = seq!['-'] + y;
    let e: Seq<char> = seq![];
    assert((seq!['e'] + y).skip(1) =~= y);
    assert((seq!['E'] + m).skip(1) =~= m);
    assert(m.skip(1) =~= y);
    assert(seq!['e'].skip(1) =~= e);
    assert(x + seq!['e'] + y =~= x + (seq!['e'] + y));
    assert(x + seq!['E'] + m =~= x + (seq!['E'] + m));
    assert(x + seq!['x'] + y =~= x + (seq!['x'] + y));
}

proof fn lemma_behind_digits(a: nat, t: Seq<char>)
    requires
        t.len() > 0,
        !text::is_digit(t[0]),
        t[0] != '.',
    ensures
        is_number(text::decimal(a) + t) <==> is_exponent(t),
{
    reveal_strlit("inf");
    reveal_strlit("infinity");
    reveal_strlit("nan");
    let x = text::decimal(a);
    let f = x + t;
    text::lemma_decimal_reads_back(a);
    assert forall|i: int| 0 <= i < x.len() implies text::is_digit(#[trigger] f[i]) by {
        assert(f[i] == x[i]);
    }
    assert(f[x.len() as int] == t[0]);
    lemma_leading(f, x.len() as int);
    assert(f.skip(x.len() as int) =~= t);
    assert(text::is_digit(f[0]));
    assert(unsigned_part(f) == f);
    let w = text::lowered(f);
    assert(w[0] == text::lower(f[0]));
    assert("inf"@[0] == 'i' && "infinity"@[0] == 'i' && "nan"@[0] == 'n');
}

} // verus!
