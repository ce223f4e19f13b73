//! The session lock: the record of a session's open volumes.
//!
//! The lock is a text of lines. Two header lines say whose session it is and
//! which bootstrap wrote it; every other line records one open volume:
//! `volume=<dm name>\t<label>\t<source hash>\t<dev>:<ino>`.

use vstd::prelude::*;

use crate::names;
use crate::text;

verus! {

// ------------------------------------------------------------- reading it ---

/// What `f` picks from each of `ls`, in order.
pub open spec fn picked(
    ls: Seq<Seq<char>>,
    f: spec_fn(Seq<char>) -> Option<Seq<char>>,
) -> Seq<Seq<char>>
    decreases ls.len(),
{
    if ls.len() == 0 {
        seq![]
    } else {
        match f(ls.last()) {
            Some(x) => picked(ls.drop_last(), f).push(x),
            None => picked(ls.drop_last(), f),
        }
    }
}

/// What is picked from two lists, one behind the other.
pub proof fn lemma_picked_concat(
    a: Seq<Seq<char>>,
    b: Seq<Seq<char>>,
    f: spec_fn(Seq<char>) -> Option<Seq<char>>,
)
    ensures
        picked(a + b, f) == picked(a, f) + picked(b, f),
    decreases b.len(),
{
    if b.len() == 0 {
        assert(a + b =~= a);
        assert(picked(a, f) + picked(b, f) =~= picked(a, f));
    } else {
        assert((a + b).drop_last() =~= a + b.drop_last());
        lemma_picked_concat(a, b.drop_last(), f);
        assert(picked(a + b, f) =~= picked(a, f) + picked(b, f));
    }
}

/// The tab-separated fields of a volume line.
pub open spec fn volume_fields(line: Seq<char>) -> Option<Seq<Seq<char>>> {
    match text::after_prefix(line, "volume="@) {
        Some(v) => Some(text::fields(v, '\t')),
        None => None,
    }
}

/// The device of a volume line.
pub open spec fn line_dm(line: Seq<char>) -> Option<Seq<char>> {
    match volume_fields(line) {
        Some(f) => Some(text::trimmed(f[0])),
        None => None,
    }
}

/// The device of a volume line, where it is one of this project.
pub open spec fn line_own_dm(line: Seq<char>) -> Option<Seq<char>> {
    match line_dm(line) {
        Some(dm) => if names::is_dm(dm) { Some(dm) } else { None },
        None => None,
    }
}

/// The device of a volume line whose third field is `vhash`.
pub open spec fn line_dm_for_vhash(line: Seq<char>, vhash: Seq<char>) -> Option<Seq<char>> {
    match volume_fields(line) {
        Some(f) => if f.len() > 2 && f[2] == vhash && text::trimmed(f[0]).len() > 0 {
            Some(text::trimmed(f[0]))
        } else {
            None
        },
        None => None,
    }
}

/// The device of a volume line whose fourth field is `skey`.
pub open spec fn line_dm_for_source(line: Seq<char>, skey: Seq<char>) -> Option<Seq<char>> {
    match volume_fields(line) {
        Some(f) => if f.len() > 3 && text::trimmed(f[3]) == skey && text::trimmed(f[0]).len() > 0 {
            Some(text::trimmed(f[0]))
        } else {
            None
        },
        None => None,
    }
}

/// The value of the first `generation=` line of `ls`.
pub open spec fn generation_of(ls: Seq<Seq<char>>) -> Option<Seq<char>>
    decreases ls.len(),
{
    if ls.len() == 0 {
        None
    } else {
        match text::after_prefix(ls[0], "generation="@) {
            Some(g) => Some(text::trimmed(g)),
            None => generation_of(ls.skip(1)),
        }
    }
}

/// The devices that a lock records for the source hash `vhash`.
pub open spec fn dms_for_vhash(body: Seq<char>, vhash: Seq<char>) -> Seq<Seq<char>> {
    picked(text::lines(body), |l: Seq<char>| line_dm_for_vhash(l, vhash))
}

/// The devices that a lock records for the source `skey`; none for no source.
pub open spec fn dms_for_source(body: Seq<char>, skey: Seq<char>) -> Seq<Seq<char>> {
    if skey.len() == 0 {
        seq![]
    } else {
        picked(text::lines(body), |l: Seq<char>| line_dm_for_source(l, skey))
    }
}

/// The devices of this project that a lock records.
pub open spec fn own_dms(body: Seq<char>) -> Seq<Seq<char>> {
    picked(text::lines(body), |l: Seq<char>| line_own_dm(l))
}

/// The generation that a lock was written by.
pub fn lock_generation(body: &str) -> (r: Option<String>)
    ensures
        r is Some <==> generation_of(text::lines(body@)) is Some,
        r matches Some(g) ==> generation_of(text::lines(body@)) == Some(g@),
{
    let ls = text::split_lines(body);
    let ghost t = text::texts(ls@);
    let mut i: usize = 0;
    assert(t.skip(0) =~= t);
    while i < ls.len()
        invariant
            i <= ls@.len(),
            t == text::texts(ls@),
            t == text::lines(body@),
            generation_of(t.skip(i as int)) == generation_of(t),
        decreases ls@.len() - i,
    {
        assert(t.skip(i as int)[0] == ls@[i as int]@);
        assert(t.skip(i as int).skip(1) =~= t.skip(i + 1));
        match text::strip(ls[i].as_str(), "generation=") {
            Some(g) => {
                return Some(text::trim(g.as_str()));
            },
            None => {},
        }
        i = i + 1;
    }
    None
}

/// The fields of a volume line.
fn fields_of(line: &str) -> (r: Option<Vec<String>>)
    ensures
        r is Some <==> volume_fields(line@) is Some,
        r matches Some(f) ==> volume_fields(line@) == Some(text::texts(f@)) && f@.len() > 0,
{
    match text::strip(line, "volume=") {
        Some(v) => {
            let f = text::split(v.as_str(), '\t');
            proof {
                text::lemma_fields_nonempty(v@, '\t');
                assert(text::texts(f@).len() == f@.len());
            }
            Some(f)
        },
        None => None,
    }
}

/// The devices whose volume line carries the source hash `vhash`.
pub fn lock_dms_for_vhash(body: &str, vhash: &str) -> (r: Vec<String>)
    ensures
        text::texts(r@) == dms_for_vhash(body@, vhash@),
{
    let ls = text::split_lines(body);
    let ghost t = text::texts(ls@);
    let ghost f = |l: Seq<char>| line_dm_for_vhash(l, vhash@);
    let mut out: Vec<String> = Vec::new();
    let mut i: usize = 0;
    assert(text::texts(out@) =~= picked(t.take(0), f));
    while i < ls.len()
        invariant
            i <= ls@.len(),
            t == text::texts(ls@),
            f == (|l: Seq<char>| line_dm_for_vhash(l, vhash@)),
            text::texts(out@) == picked(t.take(i as int), f),
        decreases ls@.len() - i,
    {
        let ghost before = text::texts(out@);
        assert(t.take(i + 1).drop_last() =~= t.take(i as int));
        assert(t.take(i + 1).last() == ls@[i as int]@);
        match fields_of(ls[i].as_str()) {
            Some(v) => {
                let dm = text::trim(v[0].as_str());
                assert(text::texts(v@)[0] == v@[0]@);
                if v.len() > 2 && text::same(v[2].as_str(), vhash) && !dm.as_str().is_empty() {
                    out.push(dm);
                    assert(text::texts(out@) =~= before.push(dm@));
                }
            },
            None => {},
        }
        i = i + 1;
    }
    assert(t.take(i as int) =~= t);
    out
}

/// The devices whose volume line carries the source `skey`.
pub fn lock_dms_for_source(body: &str, skey: &str) -> (r: Vec<String>)
    ensures
        text::texts(r@) == dms_for_source(body@, skey@),
{
    let mut out: Vec<String> = Vec::new();
    if skey.is_empty() {
        assert(text::texts(out@) =~= seq![]);
        return out;
    }
    let ls = text::split_lines(body);
    let ghost t = text::texts(ls@);
    let ghost f = |l: Seq<char>| line_dm_for_source(l, skey@);
    let mut i: usize = 0;
    assert(text::texts(out@) =~= picked(t.take(0), f));
    while i < ls.len()
        invariant
            i <= ls@.len(),
            t == text::texts(ls@),
            f == (|l: Seq<char>| line_dm_for_source(l, skey@)),
            text::texts(out@) == picked(t.take(i as int), f),
        decreases ls@.len() - i,
    {
        let ghost before = text::texts(out@);
        assert(t.take(i + 1).drop_last() =~= t.take(i as int));
        assert(t.take(i + 1).last() == ls@[i as int]@);
        match fields_of(ls[i].as_str()) {
            Some(v) => {
                let dm = text::trim(v[0].as_str());
                assert(text::texts(v@)[0] == v@[0]@);
                if v.len() > 3 {
                    let key = text::trim(v[3].as_str());
                    assert(text::texts(v@)[3] == v@[3]@);
                    if text::same(key.as_str(), skey) && !dm.as_str().is_empty() {
                        out.push(dm);
                        assert(text::texts(out@) =~= before.push(dm@));
                    }
                }
            },
            None => {},
        }
        i = i + 1;
    }
    assert(t.take(i as int) =~= t);
    out
}

/// The devices of this project that a lock records: those that a teardown closes.
pub fn session_dms(body: &str) -> (r: Vec<String>)
    ensures
        text::texts(r@) == own_dms(body@),
{
    let ls = text::split_lines(body);
    let ghost t = text::texts(ls@);
    let ghost f = |l: Seq<char>| line_own_dm(l);
    let mut out: Vec<String> = Vec::new();
    let mut i: usize = 0;
    assert(text::texts(out@) =~= picked(t.take(0), f));
    while i < ls.len()
        invariant
            i <= ls@.len(),
            t == text::texts(ls@),
            f == (|l: Seq<char>| line_own_dm(l)),
            text::texts(out@) == picked(t.take(i as int), f),
        decreases ls@.len() - i,
    {
        let ghost before = text::texts(out@);
        assert(t.take(i + 1).drop_last() =~= t.take(i as int));
        assert(t.take(i + 1).last() == ls@[i as int]@);
        match fields_of(ls[i].as_str()) {
            Some(v) => {
                let dm = text::trim(v[0].as_str());
                assert(text::texts(v@)[0] == v@[0]@);
                if names::is_veracage_dm(dm.as_str()) {
                    out.push(dm);
                    assert(text::texts(out@) =~= before.push(dm@));
                }
            },
            None => {},
        }
        i = i + 1;
    }
    assert(t.take(i as int) =~= t);
    out
}

/// Is the line a volume line whose device is one of `open`?
pub open spec fn survives(line: Seq<char>, open: Seq<Seq<char>>) -> bool {
    line_own_dm(line) is Some && open.contains(line_own_dm(line)->0)
}

/// The volume lines of a lock whose device is one of `open`, as they stand.
pub fn lock_survivors(body: &str, open: &Vec<String>) -> (r: Vec<String>)
    ensures
        text::texts(r@) == text::lines(body@).filter(
            |l: Seq<char>| survives(l, text::texts(open@)),
        ),
{
    let ls = text::split_lines(body);
    let ghost t = text::texts(ls@);
    let ghost p = |l: Seq<char>| survives(l, text::texts(open@));
    let mut out: Vec<String> = Vec::new();
    let mut i: usize = 0;
    reveal(Seq::filter);
    assert(text::texts(out@) =~= t.take(0).filter(p));
    while i < ls.len()
        invariant
            i <= ls@.len(),
            t == text::texts(ls@),
            p == (|l: Seq<char>| survives(l, text::texts(open@))),
            text::texts(out@) == t.take(i as int).filter(p),
        decreases ls@.len() - i,
    {
        let ghost before = text::texts(out@);
        proof {
            reveal(Seq::filter);
            assert(t.take(i + 1).drop_last() =~= t.take(i as int));
            assert(t.take(i + 1).last() == ls@[i as int]@);
        }
        match fields_of(ls[i].as_str()) {
            Some(v) => {
                let dm = text::trim(v[0].as_str());
                assert(text::texts(v@)[0] == v@[0]@);
                if names::is_veracage_dm(dm.as_str()) && names::among(open, dm.as_str()) {
                    let line = ls[i].clone();
                    out.push(line);
                    assert(text::texts(out@) =~= before.push(ls@[i as int]@));
                }
            },
            None => {},
        }
        i = i + 1;
    }
    assert(t.take(i as int) =~= t);
    out
}

// ------------------------------------------------------------- writing it ---

/// The header of a fresh lock.
pub open spec fn header_text(uid: nat, gen: Seq<char>) -> Seq<char> {
    text::unlines(seq!["user_uid="@ + text::decimal(uid), "generation="@ + gen])
}

/// The line that records a volume.
pub open spec fn volume_line(
    dm: Seq<char>,
    label: Seq<char>,
    vhash: Seq<char>,
    skey: Seq<char>,
) -> Seq<char> {
    "volume="@ + (dm + seq!['\t'] + (label + seq!['\t'] + (vhash + seq!['\t'] + skey)))
}

/// What is appended to a lock for a volume; a lock that had to be made anew gets
/// its owner first.
pub open spec fn append_text(
    fresh: bool,
    uid: nat,
    dm: Seq<char>,
    label: Seq<char>,
    vhash: Seq<char>,
    skey: Seq<char>,
) -> Seq<char> {
    if fresh {
        text::unlines(
            seq!["user_uid="@ + text::decimal(uid), volume_line(dm, label, vhash, skey)],
        )
    } else {
        text::unlines(seq![volume_line(dm, label, vhash, skey)])
    }
}

proof fn lemma_unlines_one(a: Seq<char>)
    ensures
        text::unlines(seq![a]) == a + seq!['\n'],
{
    reveal_with_fuel(text::unlines, 2);
    assert(seq![a].skip(1) =~= seq![]);
    assert(text::unlines(seq![a]) =~= a + seq!['\n']);
}

proof fn lemma_unlines_two(a: Seq<char>, b: Seq<char>)
    ensures
        text::unlines(seq![a, b]) == a + seq!['\n'] + (b + seq!['\n']),
{
    assert(seq![a, b].skip(1) =~= seq![b]);
    lemma_unlines_one(b);
}

/// `header_text`, computed.
pub fn lock_header(uid: u32, gen: &str) -> (r: String)
    ensures
        r@ == header_text(uid as nat, gen@),
{
    let mut s = String::new();
    s.append("user_uid=");
    let d = text::decimal_of(uid as u64);
    s.append(d.as_str());
    s.push('\n');
    s.append("generation=");
    s.append(gen);
    s.push('\n');
    proof {
        lemma_unlines_two("user_uid="@ + text::decimal(uid as nat), "generation="@ + gen@);
        assert(s@ =~= header_text(uid as nat, gen@));
    }
    s
}

/// `append_text`, computed.
pub fn lock_append(
    fresh: bool,
    uid: u32,
    dm: &str,
    label: &str,
    vhash: &str,
    skey: &str,
) -> (r: String)
    ensures
        r@ == append_text(fresh, uid as nat, dm@, label@, vhash@, skey@),
{
    let mut s = String::new();
    if fresh {
        s.append("user_uid=");
        let d = text::decimal_of(uid as u64);
        s.append(d.as_str());
        s.push('\n');
    }
    s.append("volume=");
    s.append(dm);
    s.push('\t');
    s.append(label);
    s.push('\t');
    s.append(vhash);
    s.push('\t');
    s.append(skey);
    s.push('\n');
    proof {
        let l = volume_line(dm@, label@, vhash@, skey@);
        lemma_unlines_two("user_uid="@ + text::decimal(uid as nat), l);
        lemma_unlines_one(l);
        assert(s@ =~= append_text(fresh, uid as nat, dm@, label@, vhash@, skey@));
    }
    s
}

/// Lines of another lock, each closed by a line feed.
pub fn lock_lines(ls: &Vec<String>) -> (r: String)
    ensures
        r@ == text::unlines(text::texts(ls@)),
{
    let mut s = String::new();
    let mut i: usize = 0;
    let ghost t = text::texts(ls@);
    assert(t.skip(0) =~= t);
    assert(s@ + text::unlines(t.skip(0)) =~= text::unlines(t));
    while i < ls.len()
        invariant
            i <= ls@.len(),
            t == text::texts(ls@),
            s@ + text::unlines(t.skip(i as int)) == text::unlines(t),
        decreases ls@.len() - i,
    {
        let ghost before = s@;
        s.append(ls[i].as_str());
        s.push('\n');
        proof {
            let r = t.skip(i as int);
            assert(r[0] == ls@[i as int]@);
            assert(r.skip(1) =~= t.skip(i + 1));
            assert(s@ + text::unlines(t.skip(i + 1)) =~= before + text::unlines(r));
        }
        i = i + 1;
    }
    proof {
        assert(t.skip(i as int) =~= seq![]);
        assert(s@ =~= s@ + text::unlines(t.skip(i as int)));
    }
    s
}

/// Does the line record anything but the device `dm`?
pub open spec fn keeps(line: Seq<char>, dm: Seq<char>) -> bool {
    line_dm(line) != Some(dm)
}

/// A lock without the lines of the device `dm`.
pub open spec fn without_dm(body: Seq<char>, dm: Seq<char>) -> Seq<char> {
    text::unlines(text::lines(body).filter(|l: Seq<char>| keeps(l, dm)))
}

/// `without_dm`, computed.
pub fn lock_without(body: &str, dm: &str) -> (r: String)
    ensures
        r@ == without_dm(body@, dm@),
{
    let ls = text::split_lines(body);
    let ghost t = text::texts(ls@);
    let ghost p = |l: Seq<char>| keeps(l, dm@);
    let mut out: Vec<String> = Vec::new();
    let mut i: usize = 0;
    reveal(Seq::filter);
    assert(text::texts(out@) =~= t.take(0).filter(p));
    while i < ls.len()
        invariant
            i <= ls@.len(),
            t == text::texts(ls@),
            p == (|l: Seq<char>| keeps(l, dm@)),
            text::texts(out@) == t.take(i as int).filter(p),
        decreases ls@.len() - i,
    {
        let ghost before = text::texts(out@);
        proof {
            reveal(Seq::filter);
            assert(t.take(i + 1).drop_last() =~= t.take(i as int));
            assert(t.take(i + 1).last() == ls@[i as int]@);
        }
        let keep = match fields_of(ls[i].as_str()) {
            Some(v) => {
                let d = text::trim(v[0].as_str());
                assert(text::texts(v@)[0] == v@[0]@);
                !text::same(d.as_str(), dm)
            },
            None => true,
        };
        if keep {
            let line = ls[i].clone();
            out.push(line);
            assert(text::texts(out@) =~= before.push(ls@[i as int]@));
        }
        i = i + 1;
    }
    assert(t.take(i as int) =~= t);
    lock_lines(&out)
}

// ------------------------------------------------------------------- laws ---

/// A value that stands in one field of one line, with nothing to trim.
pub open spec fn is_field(s: Seq<char>) -> bool {
    text::is_line(s) && !s.contains('\t') && text::trimmed(s) == s
}

/// A lock whose lines stay what they are when they are written again.
pub open spec fn rewritable(body: Seq<char>) -> bool {
    forall|i: int| 0 <= i < text::lines(body).len() ==> text::is_line(#[trigger] text::lines(body)[i])
}

proof fn lemma_line_after(p: Seq<char>, s: Seq<char>)
    requires
        !p.contains('\n'),
        p.len() > 0,
        p.last() != '\r',
        text::is_line(s),
    ensures
        text::is_line(p + s),
{
    let l = p + s;
    if l.contains('\n') {
        let k = choose|k: int| 0 <= k < l.len() && l[k] == '\n';
        if k < p.len() {
            assert(p[k] == '\n');
        } else {
            assert(s[k - p.len()] == '\n');
        }
    }
    if s.len() > 0 {
        assert(l.last() == s.last());
    } else {
        assert(l =~= p);
    }
}

proof fn lemma_decimal_is_line(n: nat)
    ensures
        text::is_line(text::decimal(n)),
{
    text::lemma_decimal_reads_back(n);
    let d = text::decimal(n);
    assert(text::is_digit(d[d.len() - 1]));
    if d.contains('\n') {
        let k = choose|k: int| 0 <= k < d.len() && d[k] == '\n';
        assert(text::is_digit(d[k]));
    }
}

/// A lock is known by the generation that its header was written with.
pub proof fn law_the_generation_reads_back(uid: nat, gen: Seq<char>, rest: Seq<char>)
    requires
        text::is_line(gen),
        text::trimmed(gen) == gen,
    ensures
        generation_of(text::lines(header_text(uid, gen) + rest)) == Some(gen),
        text::ends_a_line(header_text(uid, gen)),
{
    reveal_strlit("user_uid=");
    reveal_strlit("generation=");
    let a = "user_uid="@ + text::decimal(uid);
    let b = "generation="@ + gen;
    lemma_decimal_is_line(uid);
    lemma_line_after("user_uid="@, text::decimal(uid));
    lemma_line_after("generation="@, gen);
    let ls = seq![a, b];
    text::lemma_lines_unlines(ls);
    text::lemma_lines_concat(header_text(uid, gen), rest);
    let all = ls + text::lines(rest);
    assert(all[0] == a && all[1] == b);
    assert(a[0] == 'u');
    assert(!"generation="@.is_prefix_of(a)) by {
        if "generation="@.is_prefix_of(a) {
            assert(a.subrange(0, "generation="@.len() as int)[0] == 'g');
        }
    }
    assert(b.subrange(0, "generation="@.len() as int) =~= "generation="@);
    assert(b.skip("generation="@.len() as int) =~= gen);
    assert(all.skip(1)[0] == b);
    reveal_with_fuel(generation_of, 3);
}

/// The fields of a volume line are those that it was written with.
pub proof fn law_a_volume_line_reads_back(
    dm: Seq<char>,
    label: Seq<char>,
    vhash: Seq<char>,
    skey: Seq<char>,
)
    requires
        !dm.contains('\t'),
        !label.contains('\t'),
        !vhash.contains('\t'),
        !skey.contains('\t'),
    ensures
        volume_fields(volume_line(dm, label, vhash, skey)) == Some(seq![dm, label, vhash, skey]),
{
    let l = volume_line(dm, label, vhash, skey);
    let p = "volume="@;
    let v = dm + seq!['\t'] + (label + seq!['\t'] + (vhash + seq!['\t'] + skey));
    assert(l.subrange(0, p.len() as int) =~= p);
    assert(l.skip(p.len() as int) =~= v);
    text::lemma_fields_cons(dm, label + seq!['\t'] + (vhash + seq!['\t'] + skey), '\t');
    text::lemma_fields_cons(label, vhash + seq!['\t'] + skey, '\t');
    text::lemma_fields_cons(vhash, skey, '\t');
    text::lemma_fields_one(skey, '\t');
    assert(text::fields(v, '\t') =~= seq![dm, label, vhash, skey]);
}

proof fn lemma_volume_line_is_line(
    dm: Seq<char>,
    label: Seq<char>,
    vhash: Seq<char>,
    skey: Seq<char>,
)
    requires
        is_field(dm),
        is_field(label),
        is_field(vhash),
        is_field(skey),
    ensures
        text::is_line(volume_line(dm, label, vhash, skey)),
{
    reveal_strlit("volume=");
    let t = seq!['\t'];
    assert(!t.contains('\n'));
    lemma_line_after(t, skey);
    lemma_line_concat(vhash, t + skey);
    assert(vhash + (t + skey) =~= vhash + t + skey);
    lemma_line_after(t, vhash + t + skey);
    lemma_line_concat(label, t + (vhash + t + skey));
    assert(label + (t + (vhash + t + skey)) =~= label + t + (vhash + t + skey));
    let r = label + t + (vhash + t + skey);
    lemma_line_after(t, r);
    lemma_line_concat(dm, t + r);
    assert(dm + (t + r) =~= dm + t + r);
    lemma_line_after("volume="@, dm + t + r);
}

proof fn lemma_line_concat(a: Seq<char>, b: Seq<char>)
    requires
        text::is_line(a),
        text::is_line(b),
    ensures
        text::is_line(a + b),
{
    let l = a + b;
    if l.contains('\n') {
        let k = choose|k: int| 0 <= k < l.len() && l[k] == '\n';
        if k < a.len() {
            assert(a[k] == '\n');
        } else {
            assert(b[k - a.len()] == '\n');
        }
    }
    if b.len() > 0 {
        assert(l.last() == b.last());
    } else {
        assert(l =~= a);
    }
}

/// A volume that was recorded is found again: by its source hash, by its source,
/// and by a teardown. What the lock recorded before is untouched.
pub proof fn law_a_recorded_volume_is_found(
    body: Seq<char>,
    uid: nat,
    dm: Seq<char>,
    label: Seq<char>,
    vhash: Seq<char>,
    skey: Seq<char>,
)
    requires
        text::ends_a_line(body),
        is_field(dm),
        is_field(label),
        is_field(vhash),
        is_field(skey),
        names::is_dm(dm),
    ensures
        ({
            let new = body + append_text(false, uid, dm, label, vhash, skey);
            &&& dms_for_vhash(new, vhash) == dms_for_vhash(body, vhash).push(dm)
            &&& skey.len() > 0 ==> dms_for_source(new, skey) == dms_for_source(body, skey).push(dm)
            &&& own_dms(new) == own_dms(body).push(dm)
            &&& text::ends_a_line(new)
        }),
{
    let l = volume_line(dm, label, vhash, skey);
    let add = append_text(false, uid, dm, label, vhash, skey);
    lemma_volume_line_names_its_device(dm, label, vhash, skey);
    lemma_volume_line_is_line(dm, label, vhash, skey);
    text::lemma_lines_unlines(seq![l]);
    lemma_unlines_one(l);
    text::lemma_lines_concat(body, add);
    let ls = text::lines(body);
    lemma_picked_one_more(ls, l, |x: Seq<char>| line_dm_for_vhash(x, vhash), dm);
    lemma_picked_one_more(ls, l, |x: Seq<char>| line_own_dm(x), dm);
    if skey.len() > 0 {
        lemma_picked_one_more(ls, l, |x: Seq<char>| line_dm_for_source(x, skey), dm);
    }
    assert((body + add).last() == add.last());
}

proof fn lemma_volume_line_names_its_device(
    dm: Seq<char>,
    label: Seq<char>,
    vhash: Seq<char>,
    skey: Seq<char>,
)
    requires
        is_field(dm),
        is_field(label),
        is_field(vhash),
        is_field(skey),
        names::is_dm(dm),
    ensures
        line_dm_for_vhash(volume_line(dm, label, vhash, skey), vhash) == Some(dm),
        line_own_dm(volume_line(dm, label, vhash, skey)) == Some(dm),
        line_dm_for_source(volume_line(dm, label, vhash, skey), skey) == Some(dm),
{
    reveal_strlit("veracage-");
    law_a_volume_line_reads_back(dm, label, vhash, skey);
}

proof fn lemma_picked_one_more(
    ls: Seq<Seq<char>>,
    l: Seq<char>,
    f: spec_fn(Seq<char>) -> Option<Seq<char>>,
    x: Seq<char>,
)
    requires
        f(l) == Some(x),
    ensures
        picked(ls + seq![l], f) == picked(ls, f).push(x),
{
    assert((ls + seq![l]).drop_last() =~= ls);
    assert((ls + seq![l]).last() == l);
}

proof fn lemma_picked_filter(
    ls: Seq<Seq<char>>,
    p: spec_fn(Seq<char>) -> bool,
    f: spec_fn(Seq<char>) -> Option<Seq<char>>,
    q: spec_fn(Seq<char>) -> bool,
)
    requires
        forall|l: Seq<char>| #[trigger] f(l) is Some ==> p(l) == q(f(l)->0),
    ensures
        picked(ls.filter(p), f) == picked(ls, f).filter(q),
    decreases ls.len(),
{
    reveal(Seq::filter);
    if ls.len() == 0 {
        assert(picked(ls.filter(p), f) =~= picked(ls, f).filter(q));
    } else {
        let h = ls.drop_last();
        lemma_picked_filter(h, p, f, q);
        let l = ls.last();
        let ff = f(l);
        if p(l) {
            assert(ls.filter(p) == h.filter(p).push(l));
            assert(h.filter(p).push(l).drop_last() =~= h.filter(p));
        }
        if ff is Some {
            let x = ff->0;
            let g = picked(h, f).push(x);
            assert(g.drop_last() =~= picked(h, f));
            assert(g.last() == x);
        }
    }
}

pub proof fn lemma_filter_keeps_lines(ls: Seq<Seq<char>>, p: spec_fn(Seq<char>) -> bool)
    requires
        forall|i: int| 0 <= i < ls.len() ==> text::is_line(#[trigger] ls[i]),
    ensures
        forall|i: int| 0 <= i < ls.filter(p).len() ==> text::is_line(#[trigger] ls.filter(p)[i]),
    decreases ls.len(),
{
    reveal(Seq::filter);
    if ls.len() > 0 {
        let h = ls.drop_last();
        assert forall|i: int| 0 <= i < h.len() implies text::is_line(#[trigger] h[i]) by {
            assert(h[i] == ls[i]);
        }
        lemma_filter_keeps_lines(h, p);
        let g = h.filter(p);
        assert(text::is_line(ls[ls.len() - 1]));
        assert forall|i: int| 0 <= i < ls.filter(p).len() implies text::is_line(
            #[trigger] ls.filter(p)[i],
        ) by {
            if i < g.len() {
                assert(ls.filter(p)[i] == g[i]);
            }
        }
    }
}

proof fn lemma_generation_filter(ls: Seq<Seq<char>>, p: spec_fn(Seq<char>) -> bool)
    requires
        forall|l: Seq<char>| "generation="@.is_prefix_of(l) ==> #[trigger] p(l),
    ensures
        generation_of(ls.filter(p)) == generation_of(ls),
    decreases ls.len(),
{
    if ls.len() == 0 {
        reveal(Seq::filter);
    } else {
        let t = ls.skip(1);
        lemma_generation_filter(t, p);
        lemma_filter_cons(ls, p);
        if p(ls[0]) {
            let g = seq![ls[0]] + t.filter(p);
            assert(g.skip(1) =~= t.filter(p));
        }
    }
}

proof fn lemma_filter_cons(ls: Seq<Seq<char>>, p: spec_fn(Seq<char>) -> bool)
    requires
        ls.len() > 0,
    ensures
        ls.filter(p) == if p(ls[0]) { seq![ls[0]] + ls.skip(1).filter(p) } else { ls.skip(1).filter(p) },
    decreases ls.len(),
{
    reveal(Seq::filter);
    let t = ls.skip(1);
    if ls.len() == 1 {
        assert(ls.drop_last() =~= seq![]);
        assert(t =~= seq![]);
        assert(seq![].filter(p) =~= seq![]);
        assert(ls.filter(p) =~= if p(ls[0]) { seq![ls[0]] + t.filter(p) } else { t.filter(p) });
    } else {
        lemma_filter_cons(ls.drop_last(), p);
        assert(ls.drop_last().skip(1) =~= t.drop_last());
        assert(ls.filter(p) =~= if p(ls[0]) { seq![ls[0]] + t.filter(p) } else { t.filter(p) });
    }
}

/// Closing a volume takes its device out of the lock, under every key, and
/// leaves every other volume and the generation as they were.
pub proof fn law_a_closed_volume_is_forgotten(
    body: Seq<char>,
    dm: Seq<char>,
    vhash: Seq<char>,
    skey: Seq<char>,
)
    requires
        rewritable(body),
    ensures
        ({
            let new = without_dm(body, dm);
            let other = |d: Seq<char>| d != dm;
            &&& dms_for_vhash(new, vhash) == dms_for_vhash(body, vhash).filter(other)
            &&& dms_for_source(new, skey) == dms_for_source(body, skey).filter(other)
            &&& own_dms(new) == own_dms(body).filter(other)
            &&& generation_of(text::lines(new)) == generation_of(text::lines(body))
            &&& rewritable(new)
            &&& text::ends_a_line(new)
        }),
{
    let ls = text::lines(body);
    let p = |l: Seq<char>| keeps(l, dm);
    let q = |d: Seq<char>| d != dm;
    lemma_filter_keeps_lines(ls, p);
    text::lemma_lines_unlines(ls.filter(p));
    lemma_picked_filter(ls, p, |l: Seq<char>| line_dm_for_vhash(l, vhash), q);
    lemma_picked_filter(ls, p, |l: Seq<char>| line_own_dm(l), q);
    if skey.len() > 0 {
        lemma_picked_filter(ls, p, |l: Seq<char>| line_dm_for_source(l, skey), q);
    } else {
        reveal(Seq::filter);
        assert(seq![].filter(q) =~= seq![]);
    }
    reveal_strlit("generation=");
    reveal_strlit("volume=");
    assert forall|l: Seq<char>| "generation="@.is_prefix_of(l) implies #[trigger] p(l) by {
        assert(l[0] == l.subrange(0, "generation="@.len() as int)[0]);
        if "volume="@.is_prefix_of(l) {
            assert(l[0] == l.subrange(0, "volume="@.len() as int)[0]);
        }
    }
    lemma_generation_filter(ls, p);
}

/// The devices that a recovery could not close are carried into the new lock:
/// exactly those that are still open.
pub proof fn law_open_devices_are_carried(
    body: Seq<char>,
    open: Seq<Seq<char>>,
    uid: nat,
    gen: Seq<char>,
)
    requires
        rewritable(body),
        text::is_line(gen),
        text::trimmed(gen) == gen,
    ensures
        ({
            let kept = text::lines(body).filter(|l: Seq<char>| survives(l, open));
            own_dms(header_text(uid, gen) + text::unlines(kept)) == own_dms(body).filter(
                |d: Seq<char>| open.contains(d),
            )
        }),
{
    let ls = text::lines(body);
    let p = |l: Seq<char>| survives(l, open);
    let q = |d: Seq<char>| open.contains(d);
    let fo = |l: Seq<char>| line_own_dm(l);
    let kept = ls.filter(p);
    lemma_filter_keeps_lines(ls, p);
    text::lemma_lines_unlines(kept);
    law_the_generation_reads_back(uid, gen, seq![]);
    text::lemma_lines_concat(header_text(uid, gen), text::unlines(kept));
    lemma_picked_filter(ls, p, fo, q);
    // The header lines record no device.
    reveal_strlit("user_uid=");
    reveal_strlit("generation=");
    reveal_strlit("volume=");
    let a = "user_uid="@ + text::decimal(uid);
    let b = "generation="@ + gen;
    lemma_decimal_is_line(uid);
    lemma_line_after("user_uid="@, text::decimal(uid));
    lemma_line_after("generation="@, gen);
    text::lemma_lines_unlines(seq![a, b]);
    assert(a[0] == 'u' && b[0] == 'g');
    if "volume="@.is_prefix_of(a) {
        assert(a.subrange(0, "volume="@.len() as int)[0] == 'v');
    }
    if "volume="@.is_prefix_of(b) {
        assert(b.subrange(0, "volume="@.len() as int)[0] == 'v');
    }
    assert(fo(a) is None && fo(b) is None);
    assert(seq![a, b].drop_last() =~= seq![a]);
    assert(seq![a].drop_last() =~= seq![]);
    reveal_with_fuel(picked, 3);
    assert(seq![a].last() == a && seq![a, b].last() == b);
    assert(picked(seq![a, b], fo) =~= seq![]);
    lemma_picked_concat(seq![a, b], kept, fo);
    assert(seq![] + picked(kept, fo) =~= picked(kept, fo));
}

/// A volume is found only as itself: recording it changes nothing for another source hash
/// or another source.
pub proof fn law_a_volume_is_found_only_as_itself(
    body: Seq<char>,
    uid: nat,
    dm: Seq<char>,
    label: Seq<char>,
    vhash: Seq<char>,
    skey: Seq<char>,
    other_hash: Seq<char>,
    other_key: Seq<char>,
)
    requires
        text::ends_a_line(body),
        is_field(dm),
        is_field(label),
        is_field(vhash),
        is_field(skey),
        other_hash != vhash,
        other_key != skey,
    ensures
        ({
            let new = body + append_text(false, uid, dm, label, vhash, skey);
            &&& dms_for_vhash(new, other_hash) == dms_for_vhash(body, other_hash)
            &&& dms_for_source(new, other_key) == dms_for_source(body, other_key)
        }),
{
    let l = volume_line(dm, label, vhash, skey);
    let add = append_text(false, uid, dm, label, vhash, skey);
    law_a_volume_line_reads_back(dm, label, vhash, skey);
    lemma_volume_line_is_line(dm, label, vhash, skey);
    text::lemma_lines_unlines(seq![l]);
    lemma_unlines_one(l);
    text::lemma_lines_concat(body, add);
    let ls = text::lines(body);
    assert(seq![l].drop_last() =~= seq![]);
    reveal_with_fuel(picked, 2);
    let f = |x: Seq<char>| line_dm_for_vhash(x, other_hash);
    let g = |x: Seq<char>| line_dm_for_source(x, other_key);
    lemma_picked_concat(ls, seq![l], f);
    lemma_picked_concat(ls, seq![l], g);
    assert(f(l) is None);
    assert(g(l) is None);
    assert(picked(seq![l], f) =~= seq![]);
    assert(picked(seq![l], g) =~= seq![]);
    assert(picked(ls, f) + seq![] =~= picked(ls, f));
    assert(picked(ls, g) + seq![] =~= picked(ls, g));
}

/// A lock that is made says whose it is: a fresh one by its header and its generation, and
/// one that is made for a volume by its owner, before the volume itself.
pub proof fn law_a_lock_says_whose_it_is(
    uid: nat,
    gen: Seq<char>,
    dm: Seq<char>,
    label: Seq<char>,
    vhash: Seq<char>,
    skey: Seq<char>,
)
    requires
        text::is_line(gen),
        is_field(dm),
        is_field(label),
        is_field(vhash),
        is_field(skey),
    ensures
        text::lines(header_text(uid, gen)) == seq![
            "user_uid="@ + text::decimal(uid),
            "generation="@ + gen,
        ],
        text::lines(append_text(true, uid, dm, label, vhash, skey)) == seq![
            "user_uid="@ + text::decimal(uid),
            volume_line(dm, label, vhash, skey),
        ],
        text::lines(append_text(false, uid, dm, label, vhash, skey)) == seq![
            volume_line(dm, label, vhash, skey),
        ],
{
    reveal_strlit("user_uid=");
    reveal_strlit("generation=");
    lemma_decimal_is_line(uid);
    lemma_line_after("user_uid="@, text::decimal(uid));
    lemma_line_after("generation="@, gen);
    lemma_volume_line_is_line(dm, label, vhash, skey);
    let a = "user_uid="@ + text::decimal(uid);
    let l = volume_line(dm, label, vhash, skey);
    text::lemma_lines_unlines(seq![a, "generation="@ + gen]);
    text::lemma_lines_unlines(seq![a, l]);
    text::lemma_lines_unlines(seq![l]);
}

/// A line that names no device is found under no source.
pub proof fn law_a_line_without_a_device_is_not_found(line: Seq<char>, skey: Seq<char>)
    ensures
        line_dm_for_source(line, skey) matches Some(d) ==> d.len() > 0 && line_dm(line) == Some(d),
        line_dm(line) matches Some(d) ==> d.len() == 0 ==> line_dm_for_source(line, skey) is None,
{
}

} // verus!
