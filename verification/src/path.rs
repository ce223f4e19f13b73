//! Paths as texts.

use vstd::prelude::*;

use crate::text;

verus! {

/// Is a part of a path, between two slashes, a component of it?
pub open spec fn is_part(f: Seq<char>) -> bool {
    f.len() > 0 && f != seq!['.']
}

/// The components of a path. Repeated slashes and `.` count for nothing.
pub open spec fn parts(path: Seq<char>) -> Seq<Seq<char>> {
    text::fields(path, '/').filter(|f: Seq<char>| is_part(f))
}

/// The last component of a path, unless it is `..` or there is none.
pub open spec fn file_name(path: Seq<char>) -> Option<Seq<char>> {
    let p = parts(path);
    if p.len() > 0 && p.last() != seq!['.', '.'] { Some(p.last()) } else { None }
}

/// `parts`, computed.
pub fn split_path(path: &str) -> (r: Vec<String>)
    ensures
        text::texts(r@) == parts(path@),
{
    let fs = text::split(path, '/');
    let ghost t = text::texts(fs@);
    let ghost p = |f: Seq<char>| is_part(f);
    let mut out: Vec<String> = Vec::new();
    let mut i: usize = 0;
    reveal(Seq::filter);
    assert(text::texts(out@) =~= t.take(0).filter(p));
    while i < fs.len()
        invariant
            i <= fs@.len(),
            t == text::texts(fs@),
            p == (|f: Seq<char>| is_part(f)),
            text::texts(out@) == t.take(i as int).filter(p),
        decreases fs@.len() - i,
    {
        let ghost before = text::texts(out@);
        proof {
            reveal(Seq::filter);
            reveal_strlit(".");
            assert("."@ =~= seq!['.']);
            assert(t.take(i + 1).drop_last() =~= t.take(i as int));
            assert(t.take(i + 1).last() == fs@[i as int]@);
        }
        if !fs[i].as_str().is_empty() && !text::same(fs[i].as_str(), ".") {
            let s = fs[i].clone();
            out.push(s);
            assert(text::texts(out@) =~= before.push(s@));
        }
        i = i + 1;
    }
    assert(t.take(i as int) =~= t);
    out
}

/// `file_name`, computed.
pub fn last_part(path: &str) -> (r: Option<String>)
    ensures
        text::opt(r) == file_name(path@),
{
    let p = split_path(path);
    proof {
        reveal_strlit("..");
        assert(".."@ =~= seq!['.', '.']);
        assert(text::texts(p@).len() == p@.len());
    }
    if p.len() == 0 {
        return None;
    }
    let n = p.len() - 1;
    assert(text::texts(p@).last() == p@[n as int]@);
    if text::same(p[n].as_str(), "..") {
        None
    } else {
        Some(p[n].clone())
    }
}

/// The index of the last dot in `s`, or -1.
pub open spec fn last_dot(s: Seq<char>) -> int {
    crate::process::last_of(s, '.')
}

/// A file name without its extension. A leading dot starts no extension.
pub open spec fn stem(name: Seq<char>) -> Seq<char> {
    if last_dot(name) > 0 && name != seq!['.', '.'] { name.take(last_dot(name)) } else { name }
}

/// `stem`, computed.
pub fn file_stem(name: &str) -> (r: String)
    ensures
        r@ == stem(name@),
{
    proof {
        reveal_strlit("..");
        assert(".."@ =~= seq!['.', '.']);
    }
    let v = text::chars_of(name);
    let mut i: usize = v.len();
    assert(v@.take(i as int) =~= v@);
    while i > 0 && v[i - 1] != '.'
        invariant
            i <= v@.len(),
            v@ == name@,
            last_dot(v@) == last_dot(v@.take(i as int)),
        decreases i,
    {
        assert(v@.take(i as int).drop_last() =~= v@.take(i - 1));
        i = i - 1;
    }
    if i > 1 && !text::same(name, "..") {
        let s = text::string_of(&v, 0, i - 1);
        assert(s@ =~= name@.take(i - 1));
        s
    } else {
        name.to_owned()
    }
}

/// The base name of a command: the last component of its path, or the command
/// itself where it has none.
pub open spec fn base_name(exec: Seq<char>) -> Seq<char> {
    match file_name(exec) {
        Some(n) => n,
        None => exec,
    }
}

/// `base_name`, computed.
pub fn basename(exec: &str) -> (r: String)
    ensures
        r@ == base_name(exec@),
{
    match last_part(exec) {
        Some(n) => n,
        None => exec.to_owned(),
    }
}

/// What stops the creation of a directory below the root.
#[derive(Clone, Copy, PartialEq, Eq, Debug, Structural)]
pub enum DirError {
    /// A component that is not a plain name.
    NotNormal,
    /// A component that holds a NUL.
    Nul,
}

/// May the field at `i` of a path not be created as a directory?
pub open spec fn bad_component(f: Seq<char>, i: int) -> Option<DirError> {
    if f == seq!['.', '.'] || (i == 0 && f == seq!['.']) {
        Some(DirError::NotNormal)
    } else if f.contains('\0') {
        Some(DirError::Nul)
    } else {
        None
    }
}

/// The number of the first fields of a path that may be created.
pub open spec fn good_components(fs: Seq<Seq<char>>, n: int) -> bool {
    &&& 0 <= n <= fs.len()
    &&& forall|i: int| 0 <= i < n ==> bad_component(#[trigger] fs[i], i) is None
    &&& n < fs.len() ==> bad_component(fs[n], n) is Some
}

/// The directories to create one below the other for `path`, and what stops it.
pub fn dir_steps(path: &str) -> (r: (Vec<String>, Option<DirError>))
    ensures
        exists|n: int|
            #![trigger good_components(text::fields(path@, '/'), n)]
            {
                let fs = text::fields(path@, '/');
                &&& good_components(fs, n)
                &&& text::texts(r.0@) == fs.take(n).filter(|f: Seq<char>| is_part(f))
                &&& r.1 == if n < fs.len() { bad_component(fs[n], n) } else { None }
            },
{
    let fs = text::split(path, '/');
    let ghost t = text::texts(fs@);
    let ghost p = |f: Seq<char>| is_part(f);
    let mut out: Vec<String> = Vec::new();
    let mut i: usize = 0;
    reveal(Seq::filter);
    assert(text::texts(out@) =~= t.take(0).filter(p));
    while i < fs.len()
        invariant
            i <= fs@.len(),
            t == text::texts(fs@),
            t == text::fields(path@, '/'),
            p == (|f: Seq<char>| is_part(f)),
            text::texts(out@) == t.take(i as int).filter(p),
            forall|k: int| 0 <= k < i ==> bad_component(#[trigger] t[k], k) is None,
        decreases fs@.len() - i,
    {
        let ghost before = text::texts(out@);
        proof {
            reveal(Seq::filter);
            reveal_strlit(".");
            reveal_strlit("..");
            assert("."@ =~= seq!['.']);
            assert(".."@ =~= seq!['.', '.']);
            assert(t.take(i + 1).drop_last() =~= t.take(i as int));
            assert(t.take(i + 1).last() == fs@[i as int]@);
            assert(t[i as int] == fs@[i as int]@);
        }
        let f = fs[i].as_str();
        if text::same(f, "..") || (i == 0 && text::same(f, ".")) {
            assert(good_components(t, i as int));
            return (out, Some(DirError::NotNormal));
        }
        if text::has_char(f, '\0') {
            assert(good_components(t, i as int));
            return (out, Some(DirError::Nul));
        }
        if !f.is_empty() && !text::same(f, ".") {
            let s = fs[i].clone();
            out.push(s);
            assert(text::texts(out@) =~= before.push(s@));
        }
        i = i + 1;
    }
    assert(good_components(t, i as int));
    (out, None)
}

/// The last component of a path is the name that stands behind its last slash, whatever
/// stands before it, and however many slashes follow.
pub proof fn law_the_last_component_is_the_name(dir: Seq<char>, name: Seq<char>)
    requires
        name.len() > 0,
        !name.contains('/'),
        name != seq!['.'],
        name != seq!['.', '.'],
    ensures
        file_name(name) == Some(name),
        file_name(dir + seq!['/'] + name) == Some(name),
        file_name(dir + seq!['/'] + name + seq!['/']) == Some(name),
        base_name(name) == name,
        base_name(dir + seq!['/'] + name) == name,
{
    let p = |f: Seq<char>| is_part(f);
    reveal(Seq::filter);
    text::lemma_fields_one(name, '/');
    assert(seq![name].drop_last() =~= seq![]);
    assert(seq![name].filter(p) =~= seq![name]);
    let s = dir + seq!['/'] + name;
    lemma_fields_last(dir, name);
    let fs = text::fields(s, '/');
    assert(fs.filter(p).last() == name);
    let e: Seq<char> = seq![];
    lemma_fields_last(s, e);
    assert(s + seq!['/'] + e =~= s + seq!['/']);
    let gs = text::fields(s + seq!['/'], '/');
    assert(gs.drop_last() == fs);
    assert(gs.filter(p) =~= fs.filter(p));
}

proof fn lemma_fields_last(a: Seq<char>, b: Seq<char>)
    requires
        !b.contains('/'),
    ensures
        text::fields(a + seq!['/'] + b, '/') == text::fields(a, '/').push(b),
        text::fields(a + seq!['/'] + b, '/').drop_last() == text::fields(a, '/'),
    decreases a.len(),
{
    let s = a + seq!['/'] + b;
    if a.contains('/') {
        text::lemma_first_of(a, '/');
        let i = text::first_of(a, '/');
        let h = a.take(i);
        let t = a.skip(i + 1);
        assert(!h.contains('/')) by {
            if h.contains('/') {
                let k = choose|k: int| 0 <= k < h.len() && h[k] == '/';
                assert(a[k] == '/');
            }
        }
        lemma_fields_last(t, b);
        text::lemma_fields_cons(h, t, '/');
        assert(a =~= h + seq!['/'] + t);
        assert(s =~= h + seq!['/'] + (t + seq!['/'] + b));
        text::lemma_fields_cons(h, t + seq!['/'] + b, '/');
        assert(text::fields(s, '/') =~= text::fields(a, '/').push(b));
    } else {
        text::lemma_fields_one(a, '/');
        text::lemma_fields_one(b, '/');
        text::lemma_fields_cons(a, b, '/');
        assert(text::fields(s, '/') =~= seq![a].push(b));
    }
    assert(text::fields(s, '/').drop_last() =~= text::fields(a, '/'));
}

/// A file name loses its last extension and no more; a name without one stays, and so does
/// one that only starts with a dot.
pub proof fn law_a_stem_loses_the_extension(name: Seq<char>, ext: Seq<char>)
    requires
        !ext.contains('.'),
    ensures
        name.len() > 0 && !(name == seq!['.'] && ext.len() == 0) ==> stem(name + seq!['.'] + ext) == name,
        stem(ext) == ext,
        stem(seq!['.'] + ext) == seq!['.'] + ext,
{
    let s = name + seq!['.'] + ext;
    lemma_last_dot(name, ext);
    assert(s.take(name.len() as int) =~= name);
    if s == seq!['.', '.'] {
        assert(s.len() == 2);
        assert(s[0] == '.');
        if ext.len() == 1 {
            assert(s[1] == ext[0]);
            assert(ext.contains(ext[0]));
        }
        assert(name =~= seq!['.']);
    }
    lemma_no_dot(ext);
    let e: Seq<char> = seq![];
    lemma_last_dot(e, ext);
    assert(e + seq!['.'] + ext =~= seq!['.'] + ext);
}

proof fn lemma_no_dot(s: Seq<char>)
    requires
        !s.contains('.'),
    ensures
        last_dot(s) == -1,
    decreases s.len(),
{
    if s.len() > 0 {
        let d = s.drop_last();
        assert(s.contains(s[s.len() - 1]));
        assert(!d.contains('.')) by {
            if d.contains('.') {
                let k = choose|k: int| 0 <= k < d.len() && d[k] == '.';
                assert(s[k] == '.');
            }
        }
        lemma_no_dot(d);
    }
}

proof fn lemma_last_dot(name: Seq<char>, ext: Seq<char>)
    requires
        !ext.contains('.'),
    ensures
        last_dot(name + seq!['.'] + ext) == name.len(),
    decreases ext.len(),
{
    let s = name + seq!['.'] + ext;
    if ext.len() == 0 {
        assert(s.last() == '.');
    } else {
        let d = ext.drop_last();
        assert(ext.contains(ext[ext.len() - 1]));
        assert(!d.contains('.')) by {
            if d.contains('.') {
                let k = choose|k: int| 0 <= k < d.len() && d[k] == '.';
                assert(ext[k] == '.');
            }
        }
        assert(s.last() == ext.last());
        assert(s.drop_last() =~= name + seq!['.'] + d);
        lemma_last_dot(name, d);
    }
}

/// Every plain name can be created as a directory, and no step ever leads up, to itself at
/// the start of a path, or to a name that no directory can have.
pub proof fn law_only_plain_names_are_created(f: Seq<char>, i: int)
    requires
        i >= 0,
    ensures
        f == seq!['.', '.'] ==> bad_component(f, i) == Some(DirError::NotNormal),
        f == seq!['.'] ==> (bad_component(f, i) is Some <==> i == 0),
        f.contains('\0') ==> bad_component(f, i) is Some,
        f != seq!['.'] && f != seq!['.', '.'] && !f.contains('\0') ==> bad_component(f, i) is None,
        is_part(f) <==> f.len() > 0 && f != seq!['.'],
{
    if f == seq!['.'] {
        assert(f.len() == 1);
        assert(seq!['.', '.'].len() == 2);
        assert(f[0] == '.');
    }
}

} // verus!
