//! Text as sequences of characters: lines, fields, trimming and numbers.
//!
//! Every file and every line protocol of the project is text, so this module
//! states once what a line, a field or a decimal number is.

use vstd::prelude::*;
use vstd::utf8::encode_utf8;
use vstd::utf8::encode_utf8_decode_utf8;

verus! {

// ------------------------------------------------------------ characters ---

/// `String::push` appends one character.
pub assume_specification[ String::push ](s: &mut String, c: char)
    ensures
        final(s)@ == old(s)@.push(c),
;

/// The texts of a list of strings.
pub open spec fn texts(v: Seq<String>) -> Seq<Seq<char>> {
    v.map_values(|s: String| s@)
}

/// The text of a string that may be absent.
pub open spec fn opt(o: Option<String>) -> Option<Seq<char>> {
    match o {
        Some(s) => Some(s@),
        None => None,
    }
}

/// The text of an optional text.
pub open spec fn opt_str(o: Option<&str>) -> Option<Seq<char>> {
    match o {
        Some(s) => Some(s@),
        None => None,
    }
}

/// Control characters: Unicode category Cc.
pub open spec fn is_control(c: char) -> bool {
    c <= '\u{1f}' || '\u{7f}' <= c <= '\u{9f}'
}

/// White space: the Unicode property White_Space.
pub open spec fn is_space(c: char) -> bool {
    ||| '\u{9}' <= c <= '\u{d}'
    ||| c == ' ' || c == '\u{85}' || c == '\u{a0}' || c == '\u{1680}'
    ||| '\u{2000}' <= c <= '\u{200a}'
    ||| c == '\u{2028}' || c == '\u{2029}' || c == '\u{202f}' || c == '\u{205f}' || c == '\u{3000}'
}

pub open spec fn is_digit(c: char) -> bool {
    '0' <= c <= '9'
}

pub open spec fn is_lower(c: char) -> bool {
    'a' <= c <= 'z'
}

pub open spec fn is_upper(c: char) -> bool {
    'A' <= c <= 'Z'
}

/// ASCII letters and digits.
pub open spec fn is_alnum(c: char) -> bool {
    is_digit(c) || is_lower(c) || is_upper(c)
}

/// Lower-case hexadecimal digits.
pub open spec fn is_lower_hex(c: char) -> bool {
    is_digit(c) || 'a' <= c <= 'f'
}

/// The ASCII lower-case form; every other character is its own.
pub open spec fn lower(c: char) -> char {
    if is_upper(c) { (c as u32 + 32) as char } else { c }
}

/// The ASCII upper-case form; every other character is its own.
pub open spec fn upper(c: char) -> char {
    if is_lower(c) { (c as u32 - 32) as char } else { c }
}

/// A text with every ASCII letter in lower case.
pub open spec fn lowered(s: Seq<char>) -> Seq<char> {
    s.map_values(|c: char| lower(c))
}

pub fn control(c: char) -> (r: bool)
    ensures
        r == is_control(c),
{
    c <= '\u{1f}' || ('\u{7f}' <= c && c <= '\u{9f}')
}

pub fn space(c: char) -> (r: bool)
    ensures
        r == is_space(c),
{
    ('\u{9}' <= c && c <= '\u{d}') || c == ' ' || c == '\u{85}' || c == '\u{a0}' || c == '\u{1680}' || (
    '\u{2000}' <= c && c <= '\u{200a}') || c == '\u{2028}' || c == '\u{2029}' || c == '\u{202f}' || c
        == '\u{205f}' || c == '\u{3000}'
}

pub fn digit(c: char) -> (r: bool)
    ensures
        r == is_digit(c),
{
    '0' <= c && c <= '9'
}

pub fn alnum(c: char) -> (r: bool)
    ensures
        r == is_alnum(c),
{
    ('0' <= c && c <= '9') || ('a' <= c && c <= 'z') || ('A' <= c && c <= 'Z')
}

pub fn lower_hex(c: char) -> (r: bool)
    ensures
        r == is_lower_hex(c),
{
    ('0' <= c && c <= '9') || ('a' <= c && c <= 'f')
}

/// `lower`, computed.
pub fn to_lower(c: char) -> (r: char)
    ensures
        r == lower(c),
{
    if 'A' <= c && c <= 'Z' {
        ((c as u8) + 32) as char
    } else {
        c
    }
}

/// `upper`, computed.
pub fn to_upper(c: char) -> (r: char)
    ensures
        r == upper(c),
{
    if 'a' <= c && c <= 'z' {
        ((c as u8) - 32) as char
    } else {
        c
    }
}

// ------------------------------------------------------- whole strings -----

/// The characters of a string.
pub fn chars_of(s: &str) -> (v: Vec<char>)
    ensures
        v@ == s@,
{
    let mut v: Vec<char> = Vec::new();
    for c in it: s.chars()
        invariant
            v@ == it.seq().take(it.index() as int),
            it.seq() == s@,
    {
        v.push(c);
        assert(v@ =~= it.seq().take(it.index() + 1));
    }
    assert(v@ =~= s@);
    v
}

/// The string of the characters `from..to` of `v`.
pub fn string_of(v: &Vec<char>, from: usize, to: usize) -> (s: String)
    requires
        from <= to <= v@.len(),
    ensures
        s@ == v@.subrange(from as int, to as int),
{
    let mut s = String::new();
    let mut i: usize = from;
    while i < to
        invariant
            from <= i <= to <= v@.len(),
            s@ == v@.subrange(from as int, i as int),
        decreases to - i,
    {
        s.push(v[i]);
        i = i + 1;
        assert(s@ =~= v@.subrange(from as int, i as int));
    }
    s
}

/// Do the two strings hold the same text?
pub fn same(a: &str, b: &str) -> (r: bool)
    ensures
        r == (a@ == b@),
{
    let x = a.as_bytes();
    let y = b.as_bytes();
    proof {
        encode_utf8_decode_utf8(a@);
        encode_utf8_decode_utf8(b@);
    }
    if x.len() != y.len() {
        return false;
    }
    let mut i: usize = 0;
    while i < x.len()
        invariant
            i <= x@.len() == y@.len(),
            forall|k: int| 0 <= k < i ==> x@[k] == y@[k],
            x@ == encode_utf8(a@),
            y@ == encode_utf8(b@),
        decreases x@.len() - i,
    {
        if x[i] != y[i] {
            return false;
        }
        i = i + 1;
    }
    assert(x@ =~= y@);
    true
}

// ------------------------------------------------------ case of a text ---

/// The lower-case form of a text.
pub uninterp spec fn lowercase(s: Seq<char>) -> Seq<char>;

/// The upper-case form of a character.
pub uninterp spec fn uppercase(c: char) -> Seq<char>;

/// `str::to_lowercase`: the lower-case form is a function of the text alone, and
/// of an ASCII text it is the text with its ASCII letters in lower case.
#[verifier::external_body]
pub(crate) fn to_lowercase(s: &str) -> (r: String)
    ensures
        r@ == lowercase(s@),
        vstd::utf8::is_ascii_chars(s@) ==> r@ == lowered(s@),
{
    s.to_lowercase()
}

/// `char::to_uppercase`, collected: the upper-case form is a function of the
/// character alone, and of an ASCII character it is its ASCII upper-case form.
#[verifier::external_body]
pub(crate) fn to_uppercase(c: char) -> (r: String)
    ensures
        r@ == uppercase(c),
        c <= '\u{7f}' ==> r@ == seq![upper(c)],
{
    c.to_uppercase().collect()
}

/// `lowered`, computed.
pub fn lower_ascii(s: &str) -> (r: String)
    ensures
        r@ == lowered(s@),
{
    let v = chars_of(s);
    let mut out = String::new();
    let mut i: usize = 0;
    while i < v.len()
        invariant
            i <= v@.len(),
            v@ == s@,
            out@ =~= lowered(s@).take(i as int),
        decreases v@.len() - i,
    {
        out.push(to_lower(v[i]));
        i = i + 1;
    }
    assert(out@ =~= lowered(s@));
    out
}

/// A text in lower case.
pub open spec fn low_text(s: Seq<char>) -> Seq<char> {
    if vstd::utf8::is_ascii_chars(s) { lowered(s) } else { lowercase(s) }
}

/// A character in upper case.
pub open spec fn up_char(c: char) -> Seq<char> {
    if c <= '\u{7f}' { seq![upper(c)] } else { uppercase(c) }
}

/// `low_text`, computed.
pub fn lower_text(s: &str) -> (r: String)
    ensures
        r@ == low_text(s@),
{
    to_lowercase(s)
}

/// A text with its first character in upper case.
pub open spec fn capitalized(s: Seq<char>) -> Seq<char> {
    if s.len() == 0 { s } else { up_char(s[0]) + s.skip(1) }
}

/// `capitalized`, computed.
pub fn capitalize(s: &str) -> (r: String)
    ensures
        r@ == capitalized(s@),
{
    let v = chars_of(s);
    if v.len() == 0 {
        return s.to_owned();
    }
    let mut r = to_uppercase(v[0]);
    let rest = string_of(&v, 1, v.len());
    r.append(rest.as_str());
    assert(r@ =~= capitalized(s@));
    r
}

// ------------------------------------------------------------- searching ---

/// The index of the first `c` in `s`, or the length of `s` where there is none.
pub open spec fn first_of(s: Seq<char>, c: char) -> int
    decreases s.len(),
{
    if s.len() == 0 {
        0
    } else if s[0] == c {
        0
    } else {
        1 + first_of(s.skip(1), c)
    }
}

/// `first_of` is the end of the longest prefix without `c`.
pub proof fn lemma_first_of(s: Seq<char>, c: char)
    ensures
        0 <= first_of(s, c) <= s.len(),
        forall|k: int| 0 <= k < first_of(s, c) ==> s[k] != c,
        first_of(s, c) < s.len() ==> s[first_of(s, c)] == c,
        first_of(s, c) < s.len() <==> s.contains(c),
    decreases s.len(),
{
    if s.len() > 0 && s[0] != c {
        let t = s.skip(1);
        lemma_first_of(t, c);
        assert forall|k: int| 0 <= k < first_of(s, c) implies s[k] != c by {
            if k > 0 {
                assert(s[k] == t[k - 1]);
            }
        }
        if first_of(s, c) < s.len() {
            assert(t[first_of(t, c)] == s[first_of(s, c)]);
        }
        if s.contains(c) {
            let k = choose|k: int| 0 <= k < s.len() && s[k] == c;
            assert(t[k - 1] == c);
        }
    }
}

/// An index that stops at the first `c` is `first_of`.
pub proof fn lemma_first_of_is(s: Seq<char>, c: char, i: int)
    requires
        0 <= i <= s.len(),
        forall|k: int| 0 <= k < i ==> s[k] != c,
        i < s.len() ==> s[i] == c,
    ensures
        first_of(s, c) == i,
{
    lemma_first_of(s, c);
    let f = first_of(s, c);
    if f < i {
        assert(s[f] != c);
    }
    if i < f {
        assert(s[i] != c);
    }
}

/// The index of the first `c` at or after `from`.
pub fn find_from(v: &Vec<char>, from: usize, c: char) -> (i: usize)
    requires
        from <= v@.len(),
    ensures
        from <= i <= v@.len(),
        i - from == first_of(v@.skip(from as int), c),
{
    let mut i: usize = from;
    while i < v.len() && v[i] != c
        invariant
            from <= i <= v@.len(),
            forall|k: int| from <= k < i ==> v@[k] != c,
        decreases v@.len() - i,
    {
        i = i + 1;
    }
    proof {
        lemma_first_of_is(v@.skip(from as int), c, i - from);
    }
    i
}

/// Does `c` occur in `s`?
pub fn has_char(s: &str, c: char) -> (r: bool)
    ensures
        r == s@.contains(c),
{
    let v = chars_of(s);
    let i = find_from(&v, 0, c);
    proof {
        assert(v@.skip(0) =~= s@);
        lemma_first_of(s@, c);
    }
    i < v.len()
}

/// The two parts of `s` around its first `c`.
pub open spec fn split_once(s: Seq<char>, c: char) -> Option<(Seq<char>, Seq<char>)> {
    if s.contains(c) {
        Some((s.take(first_of(s, c)), s.skip(first_of(s, c) + 1)))
    } else {
        None
    }
}

/// `split_once`, computed.
pub fn cut(s: &str, c: char) -> (r: Option<(String, String)>)
    ensures
        r is Some <==> split_once(s@, c) is Some,
        r matches Some(p) ==> split_once(s@, c) == Some((p.0@, p.1@)),
{
    let v = chars_of(s);
    let i = find_from(&v, 0, c);
    proof {
        assert(v@.skip(0) =~= s@);
        lemma_first_of(s@, c);
    }
    if i < v.len() {
        let a = string_of(&v, 0, i);
        let b = string_of(&v, i + 1, v.len());
        proof {
            assert(a@ =~= s@.take(i as int));
            assert(b@ =~= s@.skip(i + 1));
        }
        Some((a, b))
    } else {
        None
    }
}

/// What follows `p` in `s`, where `s` begins with `p`.
pub open spec fn after_prefix(s: Seq<char>, p: Seq<char>) -> Option<Seq<char>> {
    if p.is_prefix_of(s) {
        Some(s.skip(p.len() as int))
    } else {
        None
    }
}

/// Does `s` begin with `p`?
pub fn starts_with(s: &str, p: &str) -> (r: bool)
    ensures
        r == p@.is_prefix_of(s@),
{
    let v = chars_of(s);
    let w = chars_of(p);
    if w.len() > v.len() {
        return false;
    }
    let mut i: usize = 0;
    while i < w.len()
        invariant
            i <= w@.len() <= v@.len(),
            v@ == s@,
            w@ == p@,
            forall|k: int| 0 <= k < i ==> w@[k] == v@[k],
        decreases w@.len() - i,
    {
        if v[i] != w[i] {
            assert(s@.subrange(0, p@.len() as int)[i as int] != p@[i as int]);
            return false;
        }
        i = i + 1;
    }
    assert(p@ =~= s@.subrange(0, p@.len() as int));
    true
}

/// `after_prefix`, computed.
pub fn strip(s: &str, p: &str) -> (r: Option<String>)
    ensures
        r is Some <==> after_prefix(s@, p@) is Some,
        r matches Some(t) ==> after_prefix(s@, p@) == Some(t@),
{
    if starts_with(s, p) {
        let v = chars_of(s);
        let n = p.unicode_len();
        let t = string_of(&v, n, v.len());
        assert(t@ =~= s@.skip(p@.len() as int));
        Some(t)
    } else {
        None
    }
}

// ------------------------------------------------------ lines and fields ---

/// Does `s` end with `p`?
pub open spec fn has_suffix(s: Seq<char>, p: Seq<char>) -> bool {
    p.len() <= s.len() && s.skip(s.len() - p.len()) == p
}

/// `has_suffix`, computed.
pub fn ends_with(s: &str, p: &str) -> (r: bool)
    ensures
        r == has_suffix(s@, p@),
{
    let a = chars_of(s);
    let b = chars_of(p);
    if b.len() > a.len() {
        return false;
    }
    let n: usize = a.len();
    let d: usize = n - b.len();
    let ghost t = a@.skip(d as int);
    let mut i: usize = 0;
    while i < b.len()
        invariant
            i <= b@.len(),
            n == a@.len(),
            d + b@.len() == n,
            t == a@.skip(d as int),
            a@ == s@,
            b@ == p@,
            forall|k: int| 0 <= k < i ==> t[k] == b@[k],
        decreases b@.len() - i,
    {
        assert(t[i as int] == a@[d + i]);
        if a[d + i] != b[i] {
            return false;
        }
        i = i + 1;
    }
    assert(t =~= b@);
    true
}

/// The parts of `s` between the occurrences of `c`: one more than there are
/// occurrences.
pub open spec fn fields(s: Seq<char>, c: char) -> Seq<Seq<char>>
    decreases s.len(),
{
    if s.contains(c) {
        let i = first_of(s, c);
        if 0 <= i < s.len() {
            seq![s.take(i)] + fields(s.skip(i + 1), c)
        } else {
            seq![s]
        }
    } else {
        seq![s]
    }
}

/// A line without the carriage return of its line ending.
pub open spec fn without_cr(s: Seq<char>) -> Seq<char> {
    if s.len() > 0 && s.last() == '\r' { s.drop_last() } else { s }
}

/// The lines of a text. A line ends at a line feed, or at a carriage return and
/// a line feed; the ending of the last line is optional.
pub open spec fn lines(s: Seq<char>) -> Seq<Seq<char>>
    decreases s.len(),
{
    if s.len() == 0 {
        seq![]
    } else {
        let i = first_of(s, '\n');
        if 0 <= i < s.len() {
            seq![without_cr(s.take(i))] + lines(s.skip(i + 1))
        } else {
            seq![s]
        }
    }
}

/// `fields`, computed.
pub fn split(s: &str, c: char) -> (r: Vec<String>)
    ensures
        texts(r@) == fields(s@, c),
{
    let v = chars_of(s);
    let mut out: Vec<String> = Vec::new();
    let mut pos: usize = 0;
    assert(v@.skip(0) =~= s@);
    assert(texts(out@) + fields(v@.skip(0), c) =~= fields(s@, c));
    loop
        invariant
            pos <= v@.len(),
            v@ == s@,
            texts(out@) + fields(v@.skip(pos as int), c) == fields(s@, c),
        decreases v@.len() - pos,
    {
        let i = find_from(&v, pos, c);
        let ghost rest = v@.skip(pos as int);
        let part = string_of(&v, pos, i);
        let ghost before = texts(out@);
        out.push(part);
        proof {
            lemma_first_of(rest, c);
            assert(texts(out@) =~= before.push(part@));
        }
        if i >= v.len() {
            proof {
                assert(part@ =~= rest);
                assert(texts(out@) =~= before + seq![rest]);
            }
            return out;
        }
        proof {
            assert(part@ =~= rest.take(i - pos));
            assert(rest.skip(i - pos + 1) =~= v@.skip(i + 1));
            assert(texts(out@) + fields(v@.skip(i + 1), c) =~= before + (seq![part@] + fields(v@.skip(i + 1), c)));
        }
        pos = i + 1;
    }
}

/// `lines`, computed.
pub fn split_lines(s: &str) -> (r: Vec<String>)
    ensures
        texts(r@) == lines(s@),
{
    let v = chars_of(s);
    let mut out: Vec<String> = Vec::new();
    let mut pos: usize = 0;
    assert(v@.skip(0) =~= s@);
    assert(texts(out@) + lines(v@.skip(0)) =~= lines(s@));
    while pos < v.len()
        invariant
            pos <= v@.len(),
            v@ == s@,
            texts(out@) + lines(v@.skip(pos as int)) == lines(s@),
        decreases v@.len() - pos,
    {
        let i = find_from(&v, pos, '\n');
        let ghost rest = v@.skip(pos as int);
        let ghost before = texts(out@);
        proof {
            lemma_first_of(rest, '\n');
        }
        if i >= v.len() {
            let part = string_of(&v, pos, i);
            out.push(part);
            proof {
                assert(part@ =~= rest);
                assert(texts(out@) =~= before + seq![rest]);
            }
            return out;
        }
        let end: usize = if i > pos && v[i - 1] == '\r' { i - 1 } else { i };
        let part = string_of(&v, pos, end);
        out.push(part);
        proof {
            assert(texts(out@) =~= before.push(part@));
            assert(part@ =~= without_cr(rest.take(i - pos)));
            assert(rest.skip(i - pos + 1) =~= v@.skip(i + 1));
            assert(texts(out@) + lines(v@.skip(i + 1)) =~= before + (seq![part@] + lines(v@.skip(i + 1))));
        }
        pos = i + 1;
    }
    assert(texts(out@) =~= texts(out@) + lines(v@.skip(pos as int)));
    out
}

// -------------------------------------------------------------- trimming ---

pub open spec fn trim_start(s: Seq<char>) -> Seq<char>
    decreases s.len(),
{
    if s.len() > 0 && is_space(s[0]) { trim_start(s.skip(1)) } else { s }
}

pub open spec fn trim_end(s: Seq<char>) -> Seq<char>
    decreases s.len(),
{
    if s.len() > 0 && is_space(s.last()) { trim_end(s.drop_last()) } else { s }
}

/// A text without the white space at its two ends.
pub open spec fn trimmed(s: Seq<char>) -> Seq<char> {
    trim_end(trim_start(s))
}

/// `trim_start` drops a prefix of white space and stops at anything else.
pub proof fn lemma_trim_start(s: Seq<char>, i: int)
    requires
        0 <= i <= s.len(),
        forall|k: int| 0 <= k < i ==> is_space(s[k]),
        i < s.len() ==> !is_space(s[i]),
    ensures
        trim_start(s) == s.skip(i),
    decreases s.len(),
{
    if i == 0 {
        assert(s.skip(0) =~= s);
    } else {
        lemma_trim_start(s.skip(1), i - 1);
        assert(s.skip(1).skip(i - 1) =~= s.skip(i));
    }
}

/// `trim_end` drops a suffix of white space and stops at anything else.
pub proof fn lemma_trim_end(s: Seq<char>, i: int)
    requires
        0 <= i <= s.len(),
        forall|k: int| i <= k < s.len() ==> is_space(s[k]),
        i > 0 ==> !is_space(s[i - 1]),
    ensures
        trim_end(s) == s.take(i),
    decreases s.len(),
{
    if i == s.len() {
        assert(s.take(i) =~= s);
    } else {
        lemma_trim_end(s.drop_last(), i);
        assert(s.drop_last().take(i) =~= s.take(i));
    }
}

/// The bounds of the text left by trimming `from..to`.
fn trim_bounds(v: &Vec<char>) -> (r: (usize, usize))
    ensures
        r.0 <= r.1 <= v@.len(),
        trimmed(v@) == v@.subrange(r.0 as int, r.1 as int),
{
    let mut a: usize = 0;
    while a < v.len() && space(v[a])
        invariant
            a <= v@.len(),
            forall|k: int| 0 <= k < a ==> is_space(v@[k]),
        decreases v@.len() - a,
    {
        a = a + 1;
    }
    let mut b: usize = v.len();
    while b > a && space(v[b - 1])
        invariant
            a <= b <= v@.len(),
            forall|k: int| b <= k < v@.len() ==> is_space(v@[k]),
        decreases b,
    {
        b = b - 1;
    }
    proof {
        lemma_trim_start(v@, a as int);
        let t = v@.skip(a as int);
        lemma_trim_end(t, b - a);
        assert(t.take(b - a) =~= v@.subrange(a as int, b as int));
    }
    (a, b)
}

/// `trimmed`, computed.
pub fn trim(s: &str) -> (r: String)
    ensures
        r@ == trimmed(s@),
{
    let v = chars_of(s);
    let (a, b) = trim_bounds(&v);
    string_of(&v, a, b)
}

/// `s` without the characters at its start that satisfy `p`.
pub open spec fn skip_while(s: Seq<char>, p: spec_fn(char) -> bool) -> Seq<char>
    decreases s.len(),
{
    if s.len() > 0 && p(s[0]) { skip_while(s.skip(1), p) } else { s }
}

/// `s` without the characters at its end that satisfy `p`.
pub open spec fn drop_while(s: Seq<char>, p: spec_fn(char) -> bool) -> Seq<char>
    decreases s.len(),
{
    if s.len() > 0 && p(s.last()) { drop_while(s.drop_last(), p) } else { s }
}

/// `s` without the characters at its two ends that satisfy `p`.
pub open spec fn strip_ends(s: Seq<char>, p: spec_fn(char) -> bool) -> Seq<char> {
    drop_while(skip_while(s, p), p)
}

/// The bounds `a..b` of what `strip_ends` leaves.
pub proof fn lemma_strip_ends(s: Seq<char>, p: spec_fn(char) -> bool, a: int, b: int)
    requires
        0 <= a <= b <= s.len(),
        forall|k: int| 0 <= k < a ==> p(#[trigger] s[k]),
        forall|k: int| b <= k < s.len() ==> p(#[trigger] s[k]),
        a < b ==> !p(s[a]) && !p(s[b - 1]),
        a == b ==> a == s.len(),
    ensures
        strip_ends(s, p) == s.subrange(a, b),
{
    lemma_skip_while(s, p, a);
    lemma_drop_while(s.skip(a), p, b - a);
    assert(s.skip(a).take(b - a) =~= s.subrange(a, b));
}

proof fn lemma_skip_while(s: Seq<char>, p: spec_fn(char) -> bool, i: int)
    requires
        0 <= i <= s.len(),
        forall|k: int| 0 <= k < i ==> p(#[trigger] s[k]),
        i < s.len() ==> !p(s[i]),
    ensures
        skip_while(s, p) == s.skip(i),
    decreases s.len(),
{
    if i == 0 {
        assert(s.skip(0) =~= s);
    } else {
        assert(p(s[0]));
        lemma_skip_while(s.skip(1), p, i - 1);
        assert(s.skip(1).skip(i - 1) =~= s.skip(i));
    }
}

proof fn lemma_drop_while(s: Seq<char>, p: spec_fn(char) -> bool, i: int)
    requires
        0 <= i <= s.len(),
        forall|k: int| i <= k < s.len() ==> p(#[trigger] s[k]),
        i > 0 ==> !p(s[i - 1]),
    ensures
        drop_while(s, p) == s.take(i),
    decreases s.len(),
{
    if i == s.len() {
        assert(s.take(i) =~= s);
    } else {
        assert(p(s[s.len() - 1]));
        lemma_drop_while(s.drop_last(), p, i);
        assert(s.drop_last().take(i) =~= s.take(i));
    }
}

/// What `strip_ends` leaves is a part of `s` with no such character at either end.
pub proof fn lemma_strip_ends_ends(s: Seq<char>, p: spec_fn(char) -> bool)
    ensures
        exists|a: int, b: int|
            0 <= a <= b <= s.len() && strip_ends(s, p) == #[trigger] s.subrange(a, b),
        strip_ends(s, p).len() > 0 ==> !p(strip_ends(s, p)[0]) && !p(strip_ends(s, p).last()),
{
    lemma_skip_while_part(s, p);
    let t = skip_while(s, p);
    let a = choose|a: int| 0 <= a <= s.len() && t == #[trigger] s.skip(a);
    lemma_drop_while_part(t, p);
    let b = choose|b: int| 0 <= b <= t.len() && drop_while(t, p) == #[trigger] t.take(b);
    assert(t.take(b) =~= s.subrange(a, a + b));
    assert(0 <= a <= a + b <= s.len() && strip_ends(s, p) == s.subrange(a, a + b));
}

proof fn lemma_skip_while_part(s: Seq<char>, p: spec_fn(char) -> bool)
    ensures
        exists|a: int| 0 <= a <= s.len() && skip_while(s, p) == #[trigger] s.skip(a),
        skip_while(s, p).len() > 0 ==> !p(skip_while(s, p)[0]),
    decreases s.len(),
{
    if s.len() > 0 && p(s[0]) {
        lemma_skip_while_part(s.skip(1), p);
        let t = s.skip(1);
        let a = choose|a: int| 0 <= a <= t.len() && skip_while(t, p) == #[trigger] t.skip(a);
        assert(t.skip(a) =~= s.skip(a + 1));
    } else {
        assert(s =~= s.skip(0));
    }
}

proof fn lemma_drop_while_part(s: Seq<char>, p: spec_fn(char) -> bool)
    ensures
        exists|b: int| 0 <= b <= s.len() && drop_while(s, p) == #[trigger] s.take(b),
        drop_while(s, p).len() > 0 ==> !p(drop_while(s, p).last()) && drop_while(s, p)[0] == s[0],
    decreases s.len(),
{
    if s.len() > 0 && p(s.last()) {
        lemma_drop_while_part(s.drop_last(), p);
        let t = s.drop_last();
        let b = choose|b: int| 0 <= b <= t.len() && drop_while(t, p) == #[trigger] t.take(b);
        assert(t.take(b) =~= s.take(b));
    } else {
        assert(s =~= s.take(s.len() as int));
    }
}

// --------------------------------------------------------------- numbers ---

/// The decimal digit of `d`.
pub open spec fn digit_char(d: int) -> char {
    (48 + d) as char
}

/// The decimal digits of `n`, without leading zeros.
pub open spec fn decimal(n: nat) -> Seq<char>
    decreases n,
{
    if n < 10 {
        seq![digit_char(n as int)]
    } else {
        decimal(n / 10).push(digit_char((n % 10) as int))
    }
}

/// The number that a row of decimal digits writes.
pub open spec fn digits_value(s: Seq<char>) -> nat
    decreases s.len(),
{
    if s.len() == 0 {
        0
    } else {
        digits_value(s.drop_last()) * 10 + (s.last() as int - 48) as nat
    }
}

pub open spec fn all_digits(s: Seq<char>) -> bool {
    forall|i: int| 0 <= i < s.len() ==> is_digit(#[trigger] s[i])
}

/// An unsigned number of at most `max`: decimal digits, at least one, after an
/// optional `+`.
pub open spec fn unsigned_in(s: Seq<char>, max: int) -> Option<int> {
    let t = if s.len() > 0 && s[0] == '+' { s.skip(1) } else { s };
    if t.len() > 0 && all_digits(t) && digits_value(t) <= max {
        Some(digits_value(t) as int)
    } else {
        None
    }
}

/// A signed number between `-max - 1` and `max`, written with an optional sign.
pub open spec fn signed_in(s: Seq<char>, max: int) -> Option<int> {
    if s.len() > 0 && s[0] == '-' {
        let t = s.skip(1);
        if t.len() > 0 && all_digits(t) && digits_value(t) <= max + 1 {
            Some(-(digits_value(t) as int))
        } else {
            None
        }
    } else {
        unsigned_in(s, max)
    }
}

/// What `decimal` writes, `digits_value` reads.
pub proof fn lemma_decimal_reads_back(n: nat)
    ensures
        decimal(n).len() > 0,
        all_digits(decimal(n)),
        digits_value(decimal(n)) == n,
        decimal(n)[0] != '+',
        decimal(n)[0] != '-',
    decreases n,
{
    if n < 10 {
        assert(decimal(n).drop_last() =~= seq![]);
        assert(digits_value(decimal(n).drop_last()) == 0);
    } else {
        lemma_decimal_reads_back(n / 10);
        let d = decimal(n);
        assert(d.drop_last() =~= decimal(n / 10));
        assert(d[0] == decimal(n / 10)[0]);
        assert forall|i: int| 0 <= i < d.len() implies is_digit(#[trigger] d[i]) by {
            if i < d.len() - 1 {
                assert(d[i] == decimal(n / 10)[i]);
            }
        }
    }
}

/// A number that fits is read back from its decimal digits.
pub proof fn lemma_decimal_parses(n: nat, max: int)
    requires
        n <= max,
    ensures
        unsigned_in(decimal(n), max) == Some(n as int),
        signed_in(decimal(n), max) == Some(n as int),
{
    lemma_decimal_reads_back(n);
}

proof fn lemma_digits_value_grows(s: Seq<char>, i: int)
    requires
        0 <= i <= s.len(),
        all_digits(s),
    ensures
        digits_value(s.take(i)) <= digits_value(s),
    decreases s.len() - i,
{
    if i == s.len() {
        assert(s.take(i) =~= s);
    } else {
        lemma_digits_value_grows(s, i + 1);
        assert(s.take(i + 1).drop_last() =~= s.take(i));
        assert(is_digit(s[i]));
    }
}

/// Reads the decimal digits `from..` of `v` as a number of at most `max`.
fn digits_from(v: &Vec<char>, from: usize, max: u128) -> (r: Option<u128>)
    requires
        from <= v@.len(),
    ensures
        ({
            let t = v@.skip(from as int);
            let ok = t.len() > 0 && all_digits(t) && digits_value(t) <= max;
            &&& r is Some <==> ok
            &&& r matches Some(n) ==> n == digits_value(t)
        }),
{
    if from >= v.len() {
        return None;
    }
    let ghost t = v@.skip(from as int);
    let mut n: u128 = 0;
    let mut i: usize = from;
    assert(t.take(0) =~= seq![]);
    while i < v.len()
        invariant
            from <= i <= v@.len(),
            t == v@.skip(from as int),
            t.len() > 0,
            n == digits_value(t.take(i - from)),
            n <= max,
            forall|k: int| 0 <= k < i - from ==> is_digit(#[trigger] t[k]),
        decreases v@.len() - i,
    {
        let c = v[i];
        if !digit(c) {
            assert(!is_digit(t[i - from]));
            return None;
        }
        let d: u128 = (c as u128) - 48;
        proof {
            assert(t[i - from] == c);
            assert(t.take(i - from + 1).drop_last() =~= t.take(i - from));
        }
        if n > max / 10 || d > max - n * 10 {
            proof {
                assert(n > max / 10 ==> n * 10 + d > max);
                if all_digits(t) {
                    lemma_digits_value_grows(t, i - from + 1);
                }
            }
            return None;
        }
        n = n * 10 + d;
        i = i + 1;
    }
    assert(t.take(i - from) =~= t);
    Some(n)
}

/// `unsigned_in`, computed, for numbers of up to 128 bits.
pub fn parse_wide(s: &str, max: u128) -> (r: Option<u128>)
    ensures
        r is Some <==> unsigned_in(s@, max as int) is Some,
        r matches Some(n) ==> unsigned_in(s@, max as int) == Some(n as int),
{
    let v = chars_of(s);
    if v.len() > 0 && v[0] == '+' {
        digits_from(&v, 1, max)
    } else {
        assert(v@.skip(0) =~= s@);
        digits_from(&v, 0, max)
    }
}

/// `unsigned_in`, computed.
pub fn parse_unsigned(s: &str, max: u64) -> (r: Option<u64>)
    ensures
        r is Some <==> unsigned_in(s@, max as int) is Some,
        r matches Some(n) ==> unsigned_in(s@, max as int) == Some(n as int),
{
    match parse_wide(s, max as u128) {
        Some(n) => Some(n as u64),
        None => None,
    }
}

/// `signed_in`, computed.
pub fn parse_signed(s: &str, max: i64) -> (r: Option<i64>)
    requires
        0 <= max,
    ensures
        r is Some <==> signed_in(s@, max as int) is Some,
        r matches Some(n) ==> signed_in(s@, max as int) == Some(n as int),
{
    let v = chars_of(s);
    if v.len() > 0 && v[0] == '-' {
        match digits_from(&v, 1, max as u128 + 1) {
            Some(n) => {
                let m: i64 = if n == 0 { 0 } else { -((n - 1) as i64) - 1 };
                Some(m)
            },
            None => None,
        }
    } else {
        match parse_unsigned(s, max as u64) {
            Some(n) => Some(n as i64),
            None => None,
        }
    }
}

/// `digit_char`, computed.
fn char_of_digit(d: u128) -> (c: char)
    requires
        d < 10,
    ensures
        c == digit_char(d as int),
{
    (48 + d as u8) as char
}

/// `decimal`, computed, for numbers of up to 128 bits.
pub fn decimal_wide(n: u128) -> (s: String)
    ensures
        s@ == decimal(n as nat),
    decreases n,
{
    if n < 10 {
        let mut s = String::new();
        s.push(char_of_digit(n));
        assert(s@ =~= decimal(n as nat));
        s
    } else {
        let mut s = decimal_wide(n / 10);
        s.push(char_of_digit(n % 10));
        s
    }
}

/// `decimal`, computed.
pub fn decimal_of(n: u64) -> (s: String)
    ensures
        s@ == decimal(n as nat),
{
    decimal_wide(n as u128)
}

/// The hexadecimal digit of `d`.
pub open spec fn hex_char(d: int) -> char {
    if d < 10 { (48 + d) as char } else { (87 + d) as char }
}

/// Two lower-case hexadecimal digits for every byte.
pub open spec fn hex_text(b: Seq<u8>) -> Seq<char>
    decreases b.len(),
{
    if b.len() == 0 {
        seq![]
    } else {
        hex_text(b.drop_last()).push(hex_char(b.last() as int / 16)).push(hex_char(b.last() as int % 16))
    }
}

/// A hexadecimal text has two lower-case digits for every byte.
pub proof fn lemma_hex_text(b: Seq<u8>)
    ensures
        hex_text(b).len() == 2 * b.len(),
        forall|i: int| 0 <= i < hex_text(b).len() ==> is_lower_hex(#[trigger] hex_text(b)[i]),
    decreases b.len(),
{
    if b.len() > 0 {
        lemma_hex_text(b.drop_last());
        let h = hex_text(b);
        let g = hex_text(b.drop_last());
        assert forall|i: int| 0 <= i < h.len() implies is_lower_hex(#[trigger] h[i]) by {
            if i < g.len() {
                assert(h[i] == g[i]);
            }
        }
    }
}

/// `hex_char`, computed.
fn char_of_hex(d: u8) -> (c: char)
    requires
        d < 16,
    ensures
        c == hex_char(d as int),
{
    if d < 10 {
        (48 + d) as char
    } else {
        (87 + d) as char
    }
}

/// `hex_text` of the first `n` bytes, computed.
pub fn hex_of(b: &[u8], n: usize) -> (s: String)
    requires
        n <= b@.len(),
    ensures
        s@ == hex_text(b@.take(n as int)),
{
    let mut s = String::new();
    let mut i: usize = 0;
    assert(s@ =~= hex_text(b@.take(0)));
    while i < n
        invariant
            i <= n <= b@.len(),
            s@ == hex_text(b@.take(i as int)),
        decreases n - i,
    {
        s.push(char_of_hex(b[i] / 16));
        s.push(char_of_hex(b[i] % 16));
        assert(b@.take(i + 1).drop_last() =~= b@.take(i as int));
        i = i + 1;
    }
    s
}

// ----------------------------------------------------- words and joining ---

/// The index of the first white space in `s`, or its length.
pub open spec fn first_space(s: Seq<char>) -> int
    decreases s.len(),
{
    if s.len() == 0 {
        0
    } else if is_space(s[0]) {
        0
    } else {
        1 + first_space(s.skip(1))
    }
}

/// The words of a text: its longest runs without white space.
pub open spec fn words(s: Seq<char>) -> Seq<Seq<char>>
    decreases s.len(),
{
    if s.len() == 0 {
        seq![]
    } else if is_space(s[0]) {
        words(s.skip(1))
    } else {
        let i = first_space(s);
        if 0 < i <= s.len() {
            seq![s.take(i)] + words(s.skip(i))
        } else {
            seq![]
        }
    }
}

proof fn lemma_first_space_is(s: Seq<char>, i: int)
    requires
        0 <= i <= s.len(),
        forall|k: int| 0 <= k < i ==> !is_space(#[trigger] s[k]),
        i < s.len() ==> is_space(s[i]),
    ensures
        first_space(s) == i,
    decreases s.len(),
{
    if i > 0 {
        assert(!is_space(s[0]));
        lemma_first_space_is(s.skip(1), i - 1);
    }
}

/// The first white space, and the first word before it.
pub proof fn lemma_first_space(s: Seq<char>, i: int)
    requires
        0 < i <= s.len(),
        forall|k: int| 0 <= k < i ==> !is_space(#[trigger] s[k]),
        i < s.len() ==> is_space(s[i]),
    ensures
        first_space(s) == i,
        words(s) == seq![s.take(i)] + words(s.skip(i)),
{
    lemma_first_space_is(s, i);
    assert(!is_space(s[0]));
}

/// `words`, computed.
pub fn split_words(s: &str) -> (r: Vec<String>)
    ensures
        texts(r@) == words(s@),
{
    let v = chars_of(s);
    let mut out: Vec<String> = Vec::new();
    let mut pos: usize = 0;
    assert(v@.skip(0) =~= s@);
    assert(texts(out@) + words(v@.skip(0)) =~= words(s@));
    while pos < v.len()
        invariant
            pos <= v@.len(),
            v@ == s@,
            texts(out@) + words(v@.skip(pos as int)) == words(s@),
        decreases v@.len() - pos,
    {
        let ghost rest = v@.skip(pos as int);
        if space(v[pos]) {
            assert(rest.skip(1) =~= v@.skip(pos + 1));
            pos = pos + 1;
        } else {
            let mut i: usize = pos;
            while i < v.len() && !space(v[i])
                invariant
                    pos <= i <= v@.len(),
                    forall|k: int| pos <= k < i ==> !is_space(#[trigger] v@[k]),
                decreases v@.len() - i,
            {
                i = i + 1;
            }
            let ghost before = texts(out@);
            let part = string_of(&v, pos, i);
            out.push(part);
            proof {
                lemma_first_space_is(rest, i - pos);
                assert(!is_space(rest[0]));
                assert(i > pos);
                assert(texts(out@) =~= before.push(part@));
                assert(part@ =~= rest.take(i - pos));
                assert(rest.skip(i - pos) =~= v@.skip(i as int));
                assert(texts(out@) + words(v@.skip(i as int)) =~= before + (seq![part@] + words(v@.skip(i as int))));
            }
            pos = i;
        }
    }
    assert(texts(out@) =~= texts(out@) + words(v@.skip(pos as int)));
    out
}

/// The texts of `parts` with `sep` between each two.
pub open spec fn joined(parts: Seq<Seq<char>>, sep: Seq<char>) -> Seq<char>
    decreases parts.len(),
{
    if parts.len() == 0 {
        seq![]
    } else if parts.len() == 1 {
        parts[0]
    } else {
        joined(parts.drop_last(), sep) + sep + parts.last()
    }
}

/// `joined`, computed.
pub fn join(parts: &Vec<String>, sep: &str) -> (s: String)
    ensures
        s@ == joined(texts(parts@), sep@),
{
    let mut s = String::new();
    let mut i: usize = 0;
    let ghost t = texts(parts@);
    assert(s@ =~= joined(t.take(0), sep@));
    while i < parts.len()
        invariant
            i <= parts@.len(),
            t == texts(parts@),
            s@ == joined(t.take(i as int), sep@),
        decreases parts@.len() - i,
    {
        if i > 0 {
            s.append(sep);
        }
        s.append(parts[i].as_str());
        proof {
            assert(t.take(i + 1).drop_last() =~= t.take(i as int));
            assert(t[i as int] == parts@[i as int]@);
            if i == 0 {
                assert(s@ =~= t.take(1)[0]);
            }
        }
        i = i + 1;
    }
    assert(t.take(i as int) =~= t);
    s
}

/// Does `p` occur in `s`?
pub open spec fn occurs(p: Seq<char>, s: Seq<char>) -> bool {
    exists|i: int| 0 <= i <= s.len() - p.len() && #[trigger] s.subrange(i, i + p.len()) == p
}

/// `occurs`, computed.
pub fn contains(s: &str, p: &str) -> (r: bool)
    ensures
        r == occurs(p@, s@),
{
    let v = chars_of(s);
    let w = chars_of(p);
    if w.len() > v.len() {
        return false;
    }
    let mut i: usize = 0;
    while i <= v.len() - w.len()
        invariant
            w@.len() <= v@.len(),
            i <= v@.len() - w@.len() + 1,
            v@ == s@,
            w@ == p@,
            forall|k: int| 0 <= k < i ==> #[trigger] s@.subrange(k, k + p@.len()) != p@,
        decreases v@.len() - i,
    {
        let mut j: usize = 0;
        let mut hit = true;
        let n = v.len();
        while j < w.len() && hit
            invariant
                i <= n - w@.len(),
                n == v@.len(),
                j <= w@.len() <= n,
                forall|k: int| 0 <= k < j && hit ==> w@[k] == v@[i + k],
                !hit ==> v@.subrange(i as int, i + w@.len()) != w@,
            decreases w@.len() - j, if hit { 1int } else { 0int },
        {
            if v[i + j] != w[j] {
                assert(v@.subrange(i as int, i + w@.len())[j as int] != w@[j as int]);
                hit = false;
            } else {
                j = j + 1;
            }
        }
        if hit {
            assert(v@.subrange(i as int, i + w@.len()) =~= w@);
            return true;
        }
        if i == v.len() - w.len() {
            return false;
        }
        i = i + 1;
    }
    false
}

/// A text without its control characters.
pub open spec fn without_controls(s: Seq<char>) -> Seq<char> {
    s.filter(|c: char| !is_control(c))
}

/// The first `n` characters of `s`, or all of them.
pub open spec fn at_most(s: Seq<char>, n: int) -> Seq<char> {
    if s.len() > n { s.take(n) } else { s }
}

/// `without_controls`, computed.
pub fn drop_controls(s: &str) -> (r: String)
    ensures
        r@ == without_controls(s@),
{
    let v = chars_of(s);
    let ghost p = |c: char| !is_control(c);
    let mut out = String::new();
    let mut i: usize = 0;
    reveal(Seq::filter);
    assert(out@ =~= v@.take(0).filter(p));
    while i < v.len()
        invariant
            i <= v@.len(),
            p == (|c: char| !is_control(c)),
            out@ == v@.take(i as int).filter(p),
        decreases v@.len() - i,
    {
        proof {
            reveal(Seq::filter);
            assert(v@.take(i + 1).drop_last() =~= v@.take(i as int));
        }
        if !control(v[i]) {
            out.push(v[i]);
        }
        i = i + 1;
    }
    assert(v@.take(i as int) =~= s@);
    out
}

/// `at_most`, computed.
pub fn shorten(s: &str, n: usize) -> (r: String)
    ensures
        r@ == at_most(s@, n as int),
{
    let v = chars_of(s);
    let end: usize = if v.len() > n { n } else { v.len() };
    let r = string_of(&v, 0, end);
    assert(r@ =~= at_most(s@, n as int));
    r
}

/// Bytes in lexicographic order: the order that strings sort in.
pub open spec fn bytes_less(a: Seq<u8>, b: Seq<u8>) -> bool
    decreases a.len(),
{
    if b.len() == 0 {
        false
    } else if a.len() == 0 {
        true
    } else if a[0] != b[0] {
        a[0] < b[0]
    } else {
        bytes_less(a.skip(1), b.skip(1))
    }
}

/// Does the text `a` sort before the text `b`?
pub open spec fn text_less(a: Seq<char>, b: Seq<char>) -> bool {
    bytes_less(encode_utf8(a), encode_utf8(b))
}

pub proof fn lemma_bytes_less_total(a: Seq<u8>, b: Seq<u8>)
    ensures
        a == b || bytes_less(a, b) || bytes_less(b, a),
        !(bytes_less(a, b) && bytes_less(b, a)),
        a == b ==> !bytes_less(a, b),
    decreases a.len(),
{
    if a.len() > 0 && b.len() > 0 && a[0] == b[0] {
        lemma_bytes_less_total(a.skip(1), b.skip(1));
        if a.skip(1) == b.skip(1) {
            assert(a =~= seq![a[0]] + a.skip(1));
            assert(b =~= seq![b[0]] + b.skip(1));
        }
    } else if a.len() == 0 && b.len() == 0 {
        assert(a =~= b);
    }
}

pub proof fn lemma_bytes_less_transitive(a: Seq<u8>, b: Seq<u8>, c: Seq<u8>)
    requires
        bytes_less(a, b),
        bytes_less(b, c),
    ensures
        bytes_less(a, c),
    decreases a.len(),
{
    if a.len() > 0 && a[0] == b[0] && b[0] == c[0] {
        lemma_bytes_less_transitive(a.skip(1), b.skip(1), c.skip(1));
    }
}

/// Two texts are equal, or one sorts before the other, and never both ways.
pub proof fn lemma_text_less_total(a: Seq<char>, b: Seq<char>)
    ensures
        a == b || text_less(a, b) || text_less(b, a),
        !(text_less(a, b) && text_less(b, a)),
        a == b ==> !text_less(a, b),
{
    lemma_bytes_less_total(encode_utf8(a), encode_utf8(b));
    encode_utf8_decode_utf8(a);
    encode_utf8_decode_utf8(b);
}

/// `text_less`, computed.
pub fn less(a: &str, b: &str) -> (r: bool)
    ensures
        r == text_less(a@, b@),
{
    let x = a.as_bytes();
    let y = b.as_bytes();
    let mut i: usize = 0;
    assert(x@.skip(0) =~= x@);
    assert(y@.skip(0) =~= y@);
    loop
        invariant
            i <= x@.len(),
            i <= y@.len(),
            x@ == encode_utf8(a@),
            y@ == encode_utf8(b@),
            bytes_less(x@.skip(i as int), y@.skip(i as int)) == bytes_less(x@, y@),
        decreases x@.len() - i,
    {
        if i >= y.len() {
            return false;
        }
        if i >= x.len() {
            return true;
        }
        assert(x@.skip(i as int)[0] == x@[i as int]);
        assert(y@.skip(i as int)[0] == y@[i as int]);
        if x[i] != y[i] {
            return x[i] < y[i];
        }
        assert(x@.skip(i as int).skip(1) =~= x@.skip(i + 1));
        assert(y@.skip(i as int).skip(1) =~= y@.skip(i + 1));
        i = i + 1;
    }
}

/// Texts in strictly rising order.
pub open spec fn rising(ts: Seq<Seq<char>>) -> bool {
    forall|i: int, j: int| 0 <= i < j < ts.len() ==> text_less(#[trigger] ts[i], #[trigger] ts[j])
}

/// Puts `s` in its place in a rising list, unless it is there already.
pub fn insert_rising(list: &mut Vec<String>, s: String)
    requires
        rising(texts(old(list)@)),
    ensures
        rising(texts(final(list)@)),
        forall|t: Seq<char>| #[trigger]
            texts(final(list)@).contains(t) <==> t == s@ || texts(old(list)@).contains(t),
{
    let ghost ts = texts(list@);
    let mut i: usize = 0;
    while i < list.len() && less(list[i].as_str(), s.as_str())
        invariant
            i <= list@.len(),
            list@ == old(list)@,
            ts == texts(list@),
            forall|k: int| 0 <= k < i ==> text_less(#[trigger] ts[k], s@),
        decreases list@.len() - i,
    {
        assert(ts[i as int] == list@[i as int]@);
        i = i + 1;
    }
    if i < list.len() && same(list[i].as_str(), s.as_str()) {
        assert(ts[i as int] == s@);
        assert(ts.contains(s@));
        return ;
    }
    let ghost name = s@;
    list.insert(i, s);
    proof {
        let us = texts(list@);
        assert(us =~= ts.insert(i as int, name));
        if i < ts.len() {
            assert(ts[i as int] == old(list)@[i as int]@);
            lemma_text_less_total(ts[i as int], name);
        }
        assert forall|a: int, b: int| 0 <= a < b < us.len() implies text_less(
            #[trigger] us[a],
            #[trigger] us[b],
        ) by {
            if a < i && b > i {
                assert(text_less(ts[a], ts[b - 1]));
            } else if a == i {
                if b - 1 > i {
                    assert(text_less(ts[i as int], ts[b - 1]));
                    lemma_bytes_less_transitive(
                        encode_utf8(name),
                        encode_utf8(ts[i as int]),
                        encode_utf8(ts[b - 1]),
                    );
                }
            } else if a > i {
                assert(text_less(ts[a - 1], ts[b - 1]));
            }
        }
        assert forall|t: Seq<char>| #[trigger] us.contains(t) <==> t == name || ts.contains(t) by {
            if us.contains(t) {
                let k = choose|k: int| 0 <= k < us.len() && us[k] == t;
                if k < i {
                    assert(ts[k] == t);
                } else if k > i {
                    assert(ts[k - 1] == t);
                }
            }
            if ts.contains(t) {
                let k = choose|k: int| 0 <= k < ts.len() && ts[k] == t;
                assert(us[if k < i { k } else { k + 1 }] == t);
            }
            assert(us[i as int] == name);
        }
    }
}

// ------------------------------------------- laws of lines and of fields ---

/// A text that ends where a line ends.
pub open spec fn ends_a_line(s: Seq<char>) -> bool {
    s.len() == 0 || s.last() == '\n'
}

/// A text that is one line as it stands: it holds no line feed, and no carriage
/// return that the line feed behind it would take along.
pub open spec fn is_line(s: Seq<char>) -> bool {
    !s.contains('\n') && (s.len() > 0 ==> s.last() != '\r')
}

/// Lines, each closed by a line feed.
pub open spec fn unlines(ls: Seq<Seq<char>>) -> Seq<char>
    decreases ls.len(),
{
    if ls.len() == 0 {
        seq![]
    } else {
        ls[0] + seq!['\n'] + unlines(ls.skip(1))
    }
}

/// The lines of two texts, one behind the other.
pub proof fn lemma_lines_concat(a: Seq<char>, b: Seq<char>)
    requires
        ends_a_line(a),
    ensures
        lines(a + b) == lines(a) + lines(b),
    decreases a.len(),
{
    if a.len() == 0 {
        assert(a + b =~= b);
        assert(lines(a) + lines(b) =~= lines(b));
    } else {
        lemma_first_of(a, '\n');
        assert(a[a.len() - 1] == '\n');
        let i = first_of(a, '\n');
        let t = a.skip(i + 1);
        lemma_first_of_is(a + b, '\n', i);
        assert((a + b).take(i) =~= a.take(i));
        assert((a + b).skip(i + 1) =~= t + b);
        assert(t.len() > 0 ==> t.last() == a.last());
        lemma_lines_concat(t, b);
        assert(lines(a + b) =~= lines(a) + lines(b));
    }
}

/// A line and its line feed are that one line.
pub proof fn lemma_one_line(l: Seq<char>)
    requires
        is_line(l),
    ensures
        lines(l + seq!['\n']) == seq![l],
        ends_a_line(l + seq!['\n']),
{
    let s = l + seq!['\n'];
    assert forall|k: int| 0 <= k < l.len() implies s[k] != '\n' by {
        assert(l.contains(l[k]));
    }
    lemma_first_of_is(s, '\n', l.len() as int);
    assert(s.take(l.len() as int) =~= l);
    assert(s.skip(l.len() as int + 1) =~= seq![]);
    assert(lines(s.skip(l.len() as int + 1)) =~= seq![]);
    assert(lines(s) =~= seq![l]);
}

/// Lines that were written are read back.
pub proof fn lemma_lines_unlines(ls: Seq<Seq<char>>)
    requires
        forall|i: int| 0 <= i < ls.len() ==> is_line(#[trigger] ls[i]),
    ensures
        lines(unlines(ls)) == ls,
        ends_a_line(unlines(ls)),
    decreases ls.len(),
{
    if ls.len() == 0 {
        assert(lines(unlines(ls)) =~= ls);
    } else {
        let t = ls.skip(1);
        assert(forall|i: int| 0 <= i < t.len() ==> #[trigger] t[i] == ls[i + 1]);
        lemma_lines_unlines(t);
        lemma_one_line(ls[0]);
        lemma_lines_concat(ls[0] + seq!['\n'], unlines(t));
        assert(lines(unlines(ls)) =~= ls);
        if unlines(t).len() > 0 {
            assert(unlines(ls).last() == unlines(t).last());
        }
    }
}

/// No line holds a line feed.
pub proof fn lemma_lines_hold_no_line_feed(s: Seq<char>)
    ensures
        forall|i: int| 0 <= i < lines(s).len() ==> !(#[trigger] lines(s)[i]).contains('\n'),
    decreases s.len(),
{
    if s.len() > 0 {
        let i = first_of(s, '\n');
        lemma_first_of(s, '\n');
        if i < s.len() {
            lemma_lines_hold_no_line_feed(s.skip(i + 1));
            let head = without_cr(s.take(i));
            assert(!head.contains('\n')) by {
                if head.contains('\n') {
                    let k = choose|k: int| 0 <= k < head.len() && head[k] == '\n';
                    assert(s[k] == '\n');
                }
            }
            assert forall|j: int| 0 <= j < lines(s).len() implies !(#[trigger] lines(s)[j]).contains('\n') by {
                if j > 0 {
                    assert(lines(s)[j] == lines(s.skip(i + 1))[j - 1]);
                } else {
                    assert(lines(s)[0] == head);
                }
            }
        }
    }
}

/// The first field ends at the first separator.
pub proof fn lemma_fields_cons(a: Seq<char>, b: Seq<char>, c: char)
    requires
        !a.contains(c),
    ensures
        fields(a + seq![c] + b, c) == seq![a] + fields(b, c),
{
    let s = a + seq![c] + b;
    let n = a.len() as int;
    assert(s[n] == c);
    assert forall|k: int| 0 <= k < n implies s[k] != c by {
        assert(a.contains(a[k]));
    }
    lemma_first_of_is(s, c, n);
    assert(s.take(n) =~= a);
    assert(s.skip(n + 1) =~= b);
}

/// A text without the separator is its own only field.
pub proof fn lemma_fields_one(a: Seq<char>, c: char)
    requires
        !a.contains(c),
    ensures
        fields(a, c) == seq![a],
{
}

/// The parts around the first separator.
pub proof fn lemma_split_once_at(a: Seq<char>, b: Seq<char>, c: char)
    requires
        !a.contains(c),
    ensures
        split_once(a + seq![c] + b, c) == Some((a, b)),
{
    let s = a + seq![c] + b;
    let n = a.len() as int;
    assert(s[n] == c);
    assert forall|k: int| 0 <= k < n implies s[k] != c by {
        assert(a.contains(a[k]));
    }
    lemma_first_of_is(s, c, n);
    assert(s.take(n) =~= a);
    assert(s.skip(n + 1) =~= b);
}

/// A text without white space at its ends is left as it is.
pub proof fn lemma_trimmed_is(s: Seq<char>)
    requires
        s.len() > 0 ==> !is_space(s[0]) && !is_space(s.last()),
    ensures
        trimmed(s) == s,
{
}

/// There is always a first field.
pub proof fn lemma_fields_nonempty(s: Seq<char>, c: char)
    ensures
        fields(s, c).len() > 0,
{
}

/// The last field starts behind the last separator.
pub proof fn lemma_fields_push(a: Seq<char>, b: Seq<char>, c: char)
    requires
        !b.contains(c),
    ensures
        fields(a + seq![c] + b, c) == fields(a, c).push(b),
    decreases a.len(),
{
    let s = a + seq![c] + b;
    if a.contains(c) {
        lemma_first_of(a, c);
        let i = first_of(a, c);
        let h = a.take(i);
        let t = a.skip(i + 1);
        assert(!h.contains(c)) by {
            if h.contains(c) {
                let k = choose|k: int| 0 <= k < h.len() && h[k] == c;
                assert(a[k] == c);
            }
        }
        lemma_fields_push(t, b, c);
        lemma_fields_cons(h, t, c);
        assert(a =~= h + seq![c] + t);
        assert(s =~= h + seq![c] + (t + seq![c] + b));
        lemma_fields_cons(h, t + seq![c] + b, c);
        assert(fields(s, c) =~= fields(a, c).push(b));
    } else {
        lemma_fields_one(a, c);
        lemma_fields_one(b, c);
        lemma_fields_cons(a, b, c);
        assert(fields(s, c) =~= seq![a].push(b));
    }
}

/// Texts that are joined by a separator are its fields.
pub proof fn lemma_joined_fields(parts: Seq<Seq<char>>, c: char)
    requires
        parts.len() > 0,
        forall|i: int| 0 <= i < parts.len() ==> !(#[trigger] parts[i]).contains(c),
    ensures
        fields(joined(parts, seq![c]), c) == parts,
    decreases parts.len(),
{
    if parts.len() == 1 {
        assert(!parts[0].contains(c));
        lemma_fields_one(parts[0], c);
        assert(seq![parts[0]] =~= parts);
    } else {
        let d = parts.drop_last();
        assert forall|i: int| 0 <= i < d.len() implies !(#[trigger] d[i]).contains(c) by {
            assert(d[i] == parts[i]);
        }
        assert(!parts[parts.len() - 1].contains(c));
        lemma_joined_fields(d, c);
        lemma_fields_push(joined(d, seq![c]), parts.last(), c);
        assert(d.push(parts.last()) =~= parts);
    }
}

/// Trimming takes white space off the two ends of a text, and nothing else.
pub proof fn law_trimming_takes_white_space_only(a: Seq<char>, s: Seq<char>, b: Seq<char>)
    requires
        forall|k: int| 0 <= k < a.len() ==> is_space(#[trigger] a[k]),
        forall|k: int| 0 <= k < b.len() ==> is_space(#[trigger] b[k]),
        s.len() > 0,
        !is_space(s[0]),
        !is_space(s.last()),
    ensures
        trimmed(a + s + b) == s,
        trimmed(a) == Seq::<char>::empty(),
{
    let t = a + s + b;
    let n = a.len() as int;
    assert forall|k: int| 0 <= k < n implies is_space(t[k]) by {
        assert(t[k] == a[k]);
    }
    assert(t[n] == s[0]);
    lemma_trim_start(t, n);
    let u = t.skip(n);
    assert(u =~= s + b);
    assert forall|k: int| s.len() <= k < u.len() implies is_space(u[k]) by {
        assert(u[k] == b[k - s.len()]);
    }
    assert(u[s.len() - 1] == s.last());
    lemma_trim_end(u, s.len() as int);
    assert(u.take(s.len() as int) =~= s);
    lemma_trim_start(a, n);
    assert(a.skip(n) =~= Seq::<char>::empty());
}

/// White space is what separates words, and control characters are what no line carries:
/// blanks, tabs and line ends are both or the one, and no printable character is either.
pub proof fn law_printable_characters_are_kept(c: char)
    ensures
        '!' <= c <= '~' ==> !is_space(c) && !is_control(c),
        c == ' ' ==> is_space(c) && !is_control(c),
        c == '\t' || c == '\n' || c == '\r' ==> is_space(c) && is_control(c),
        c == '\0' || c == '\u{1b}' || c == '\u{7f}' ==> is_control(c),
        is_alnum(c) <==> '0' <= c <= '9' || 'a' <= c <= 'z' || 'A' <= c <= 'Z',
        is_lower_hex(c) <==> '0' <= c <= '9' || 'a' <= c <= 'f',
{
}

/// The lower-case form of a letter is the letter that stands at its place in the other
/// alphabet; everything else is its own.
pub proof fn law_only_letters_change_their_case(c: char)
    ensures
        'A' <= c <= 'Z' ==> lower(c) as u32 == c as u32 + 32,
        !('A' <= c <= 'Z') ==> lower(c) == c,
        'a' <= c <= 'z' ==> upper(c) as u32 == c as u32 - 32,
        !('a' <= c <= 'z') ==> upper(c) == c,
{
}

/// A number is read from its digits, with a plus before it or without; nothing else is a
/// number, and none above the limit is read.
pub proof fn law_a_number_is_its_digits(n: nat, max: int, s: Seq<char>)
    ensures
        n <= max ==> unsigned_in(decimal(n), max) == Some(n as int),
        n > max ==> unsigned_in(decimal(n), max) is None,
        n <= max ==> unsigned_in(seq!['+'] + decimal(n), max) == Some(n as int),
        0 < n <= max ==> signed_in(seq!['-'] + decimal(n), max) == Some(-(n as int)),
        unsigned_in(s, max) is Some ==> s.len() > 0 && forall|i: int|
            0 < i < s.len() ==> '0' <= #[trigger] s[i] <= '9',
        s.len() == 0 ==> unsigned_in(s, max) is None && signed_in(s, max) is None,
        unsigned_in(s, max) matches Some(v) ==> 0 <= v <= max,
{
    lemma_decimal_reads_back(n);
    let d = decimal(n);
    let p = seq!['+'] + d;
    assert(p.skip(1) =~= d);
    let m = seq!['-'] + d;
    assert(m.skip(1) =~= d);
    if unsigned_in(s, max) is Some {
        let t = if s.len() > 0 && s[0] == '+' { s.skip(1) } else { s };
        assert forall|i: int| 0 < i < s.len() implies '0' <= #[trigger] s[i] <= '9' by {
            if s[0] == '+' {
                assert(t[i - 1] == s[i]);
                assert(is_digit(t[i - 1]));
            } else {
                assert(is_digit(t[i]));
            }
        }
    }
}

/// What trimming leaves of a text was in it.
pub proof fn lemma_trimmed_within(s: Seq<char>, c: char)
    ensures
        trimmed(s).contains(c) ==> s.contains(c),
{
    lemma_trim_start_within(s, c);
    lemma_trim_end_within(trim_start(s), c);
}

proof fn lemma_trim_start_within(s: Seq<char>, c: char)
    ensures
        trim_start(s).contains(c) ==> s.contains(c),
    decreases s.len(),
{
    if s.len() > 0 && is_space(s[0]) {
        let t = s.skip(1);
        lemma_trim_start_within(t, c);
        if t.contains(c) {
            let k = choose|k: int| 0 <= k < t.len() && t[k] == c;
            assert(s[k + 1] == c);
        }
    }
}

proof fn lemma_trim_end_within(s: Seq<char>, c: char)
    ensures
        trim_end(s).contains(c) ==> s.contains(c),
    decreases s.len(),
{
    if s.len() > 0 && is_space(s.last()) {
        let t = s.drop_last();
        lemma_trim_end_within(t, c);
        if t.contains(c) {
            let k = choose|k: int| 0 <= k < t.len() && t[k] == c;
            assert(s[k] == c);
        }
    }
}

/// No field holds the separator.
pub proof fn lemma_fields_are_clean(s: Seq<char>, c: char)
    ensures
        forall|i: int| 0 <= i < fields(s, c).len() ==> !(#[trigger] fields(s, c)[i]).contains(c),
    decreases s.len(),
{
    if s.contains(c) {
        lemma_first_of(s, c);
        let i = first_of(s, c);
        let h = s.take(i);
        let t = s.skip(i + 1);
        lemma_fields_are_clean(t, c);
        assert(!h.contains(c)) by {
            if h.contains(c) {
                let k = choose|k: int| 0 <= k < h.len() && h[k] == c;
                assert(s[k] == c);
            }
        }
        assert forall|j: int| 0 <= j < fields(s, c).len() implies !(#[trigger] fields(s, c)[j]).contains(c) by {
            if j > 0 {
                assert(fields(s, c)[j] == fields(t, c)[j - 1]);
            } else {
                assert(fields(s, c)[0] == h);
            }
        }
    }
}

/// A capitalised text has its first letter in upper case, and is otherwise as it was.
pub proof fn law_only_the_first_letter_is_capitalised(c: char, s: Seq<char>)
    ensures
        'a' <= c <= 'z' ==> capitalized(seq![c] + s) == seq![(c as u32 - 32) as char] + s,
        c <= '\u{7f}' && !('a' <= c <= 'z') ==> capitalized(seq![c] + s) == seq![c] + s,
        capitalized(seq![]) == Seq::<char>::empty(),
{
    let t = seq![c] + s;
    assert(t.skip(1) =~= s);
}

/// Words stand between white space: each in full, in order, and none of them empty.
pub proof fn law_words_stand_between_white_space(w: Seq<char>, c: char, rest: Seq<char>)
    requires
        is_space(c),
        forall|k: int| 0 <= k < w.len() ==> !is_space(#[trigger] w[k]),
    ensures
        w.len() > 0 ==> words(w + seq![c] + rest) == seq![w] + words(rest),
        w.len() > 0 ==> words(w) == seq![w],
        words(seq![c] + rest) == words(rest),
        words(seq![]) == Seq::<Seq<char>>::empty(),
{
    let b = seq![c] + rest;
    assert(b.skip(1) =~= rest);
    if w.len() > 0 {
        let s = w + seq![c] + rest;
        let n = w.len() as int;
        assert forall|k: int| 0 <= k < n implies !is_space(#[trigger] s[k]) by {
            assert(s[k] == w[k]);
        }
        assert(s[n] == c);
        lemma_first_space(s, n);
        assert(s.take(n) =~= w);
        assert(s.skip(n) =~= b);
        lemma_first_space(w, n);
        assert(w.take(n) =~= w);
        let e: Seq<char> = seq![];
        assert(w.skip(n) =~= e);
        assert(seq![w] + words(e) =~= seq![w]);
    }
}

/// Texts sort by their first difference, and a text before every longer one that starts
/// with it.
pub proof fn law_bytes_sort_by_their_first_difference(p: Seq<u8>, a: Seq<u8>, b: Seq<u8>)
    requires
        b.len() > 0,
        a.len() > 0 ==> a[0] < b[0],
    ensures
        bytes_less(p + a, p + b),
        !bytes_less(p + b, p + a),
    decreases p.len(),
{
    if p.len() == 0 {
        assert(p + a =~= a);
        assert(p + b =~= b);
    } else {
        let q = p.skip(1);
        law_bytes_sort_by_their_first_difference(q, a, b);
        assert((p + a).skip(1) =~= q + a);
        assert((p + b).skip(1) =~= q + b);
    }
}

/// Each byte is written as its two hexadecimal digits, the higher one first.
pub proof fn law_a_byte_is_two_digits(b: Seq<u8>, i: int)
    requires
        0 <= i < b.len(),
    ensures
        hex_text(b)[2 * i] == hex_char(b[i] as int / 16),
        hex_text(b)[2 * i + 1] == hex_char(b[i] as int % 16),
        forall|d: int| 0 <= d < 10 ==> #[trigger] hex_char(d) as int == '0' as int + d,
        forall|d: int| 10 <= d < 16 ==> #[trigger] hex_char(d) as int == 'a' as int + d - 10,
    decreases b.len(),
{
    let d = b.drop_last();
    lemma_hex_text(d);
    if i < d.len() {
        law_a_byte_is_two_digits(d, i);
        assert(d[i] == b[i]);
    }
}

} // verus!
