//! Applications, and where their programs are.

use vstd::prelude::*;

use crate::names;
use crate::text;

verus! {

/// An application that may be launched.
pub struct App {
    pub key: String,
    pub name: String,
    pub command: String,
}

/// The application that an `App` stands for.
pub ghost struct AppText {
    pub key: Seq<char>,
    pub name: Seq<char>,
    pub command: Seq<char>,
}

impl View for App {
    type V = AppText;

    open spec fn view(&self) -> AppText {
        AppText { key: self.key@, name: self.name@, command: self.command@ }
    }
}

impl App {
    /// A copy of the application.
    pub fn duplicate(&self) -> (r: App)
        ensures
            r@ == self@,
    {
        App { key: self.key.clone(), name: self.name.clone(), command: self.command.clone() }
    }
}

/// The applications of a list.
pub open spec fn app_texts(v: Seq<App>) -> Seq<AppText> {
    v.map_values(|a: App| a@)
}

/// A copy of a list of applications.
pub fn copy_apps(v: &Vec<App>) -> (r: Vec<App>)
    ensures
        app_texts(r@) == app_texts(v@),
{
    let mut out: Vec<App> = Vec::new();
    let mut i: usize = 0;
    while i < v.len()
        invariant
            i <= v@.len(),
            app_texts(out@) == app_texts(v@).take(i as int),
        decreases v@.len() - i,
    {
        let ghost before = app_texts(out@);
        let a = v[i].duplicate();
        out.push(a);
        assert(app_texts(out@) =~= before.push(v@[i as int]@));
        i = i + 1;
        assert(app_texts(out@) =~= app_texts(v@).take(i as int));
    }
    assert(app_texts(v@).take(i as int) =~= app_texts(v@));
    out
}

/// The places of a program on the search path, in order.
pub open spec fn places(binary: Seq<char>, path: Option<Seq<char>>) -> Seq<Seq<char>> {
    if binary.contains('/') {
        seq![binary]
    } else {
        match path {
            Some(p) => text::fields(p, ':').map_values(|d: Seq<char>| names::path_join(d, binary)),
            None => seq![],
        }
    }
}

/// The first of `ps` that is among `present`.
pub open spec fn first_present(ps: Seq<Seq<char>>, present: Seq<Seq<char>>) -> Option<Seq<char>>
    decreases ps.len(),
{
    if ps.len() == 0 {
        None
    } else if present.contains(ps[0]) {
        Some(ps[0])
    } else {
        first_present(ps.skip(1), present)
    }
}

/// `places`, computed.
pub fn program_places(binary: &str, path: Option<&str>) -> (r: Vec<String>)
    ensures
        text::texts(r@) == places(binary@, text::opt_str(path)),
{
    let mut out: Vec<String> = Vec::new();
    if text::has_char(binary, '/') {
        out.push(binary.to_owned());
        assert(text::texts(out@) =~= seq![binary@]);
        return out;
    }
    match path {
        Some(p) => {
            let dirs = text::split(p, ':');
            let ghost want = text::fields(p@, ':').map_values(
                |d: Seq<char>| names::path_join(d, binary@),
            );
            let mut i: usize = 0;
            while i < dirs.len()
                invariant
                    i <= dirs@.len(),
                    text::texts(dirs@) == text::fields(p@, ':'),
                    want == text::fields(p@, ':').map_values(
                        |d: Seq<char>| names::path_join(d, binary@),
                    ),
                    text::texts(out@) == want.take(i as int),
                decreases dirs@.len() - i,
            {
                let ghost before = text::texts(out@);
                let s = names::join_path(dirs[i].as_str(), binary);
                assert(text::texts(dirs@)[i as int] == dirs@[i as int]@);
                out.push(s);
                assert(text::texts(out@) =~= before.push(s@));
                i = i + 1;
                assert(text::texts(out@) =~= want.take(i as int));
            }
            assert(text::texts(dirs@).len() == dirs@.len());
            assert(want.take(i as int) =~= want);
        },
        None => {
            assert(text::texts(out@) =~= seq![]);
        },
    }
    out
}

/// The program's path, where the executables `present` exist.
pub fn path_of(binary: &str, path: Option<&str>, present: &Vec<String>) -> (r: Option<String>)
    ensures
        text::opt(r) == first_present(
            places(binary@, text::opt_str(path)),
            text::texts(present@),
        ),
{
    let ps = program_places(binary, path);
    let ghost t = text::texts(ps@);
    let ghost want = first_present(t, text::texts(present@));
    let mut i: usize = 0;
    assert(t.skip(0) =~= t);
    while i < ps.len()
        invariant
            i <= ps@.len(),
            t == text::texts(ps@),
            first_present(t.skip(i as int), text::texts(present@)) == want,
            want == first_present(places(binary@, text::opt_str(path)), text::texts(present@)),
        decreases ps@.len() - i,
    {
        assert(t.skip(i as int)[0] == ps@[i as int]@);
        assert(t.skip(i as int).skip(1) =~= t.skip(i + 1));
        if names::among(present, ps[i].as_str()) {
            let p = ps[i].clone();
            assert(want == Some(p@));
            return Some(p);
        }
        i = i + 1;
    }
    None
}

/// Is the program there to be run?
pub fn is_installed(binary: &str, path: Option<&str>, present: &Vec<String>) -> (r: bool)
    ensures
        r == (first_present(
            places(binary@, text::opt_str(path)),
            text::texts(present@),
        ) is Some),
{
    path_of(binary, path, present).is_some()
}

/// A program is looked for in every directory of the search path, in order; one that is
/// named by its path is only there.
pub proof fn law_the_search_path_is_searched_in_order(binary: Seq<char>, dir: Seq<char>, rest: Seq<char>)
    requires
        !dir.contains(':'),
    ensures
        !binary.contains('/') ==> places(binary, Some(dir + seq![':'] + rest)) == seq![
            names::path_join(dir, binary),
        ] + places(binary, Some(rest)),
        !binary.contains('/') ==> places(binary, Some(dir)) == seq![names::path_join(dir, binary)],
        !binary.contains('/') ==> places(binary, None).len() == 0,
        binary.contains('/') ==> places(binary, Some(rest)) == seq![binary],
{
    text::lemma_fields_cons(dir, rest, ':');
    text::lemma_fields_one(dir, ':');
    if !binary.contains('/') {
        assert(places(binary, Some(dir + seq![':'] + rest)) =~= seq![names::path_join(dir, binary)]
            + places(binary, Some(rest)));
        assert(places(binary, Some(dir)) =~= seq![names::path_join(dir, binary)]);
    }
}

/// The first place that has the program is the one that is taken; where none is, no place
/// has it.
pub proof fn law_the_first_place_that_has_it_is_taken(ps: Seq<Seq<char>>, present: Seq<Seq<char>>)
    ensures
        first_present(ps, present) matches Some(p) ==> present.contains(p) && exists|k: int|
            0 <= k < ps.len() && #[trigger] ps[k] == p && forall|j: int|
                0 <= j < k ==> !present.contains(#[trigger] ps[j]),
        first_present(ps, present) is None <==> forall|j: int|
            0 <= j < ps.len() ==> !present.contains(#[trigger] ps[j]),
    decreases ps.len(),
{
    if ps.len() > 0 {
        if present.contains(ps[0]) {
            assert(ps[0] == ps[0]);
        } else {
            let t = ps.skip(1);
            law_the_first_place_that_has_it_is_taken(t, present);
            if let Some(p) = first_present(t, present) {
                let k = choose|k: int|
                    0 <= k < t.len() && #[trigger] t[k] == p && forall|j: int|
                        0 <= j < k ==> !present.contains(#[trigger] t[j]);
                assert(ps[k + 1] == p);
                assert forall|j: int| 0 <= j < k + 1 implies !present.contains(#[trigger] ps[j]) by {
                    if j > 0 {
                        assert(t[j - 1] == ps[j]);
                    }
                }
            } else {
                assert forall|j: int| 0 <= j < ps.len() implies !present.contains(#[trigger] ps[j]) by {
                    if j > 0 {
                        assert(t[j - 1] == ps[j]);
                    }
                }
            }
            if forall|j: int| 0 <= j < ps.len() ==> !present.contains(#[trigger] ps[j]) {
                assert forall|j: int| 0 <= j < t.len() implies !present.contains(#[trigger] t[j]) by {
                    assert(t[j] == ps[j + 1]);
                }
            }
        }
    }
}

} // verus!
