//! The applications that the host prefers, and their icons.

use vstd::prelude::*;

use crate::apps;
use crate::names;
use crate::pairs;
use crate::pairs::pair_texts;
use crate::path;
use crate::text;

verus! {

/// An application that may be offered.
pub struct Suggestion {
    pub name: String,
    pub command: String,
    pub category: String,
}

/// An application that may be offered, as values.
pub ghost struct Offer {
    pub name: Seq<char>,
    pub command: Seq<char>,
    pub category: Seq<char>,
}

impl View for Suggestion {
    type V = Offer;

    open spec fn view(&self) -> Offer {
        Offer { name: self.name@, command: self.command@, category: self.category@ }
    }
}

/// The offers of a list.
pub open spec fn offers(v: Seq<Suggestion>) -> Seq<Offer> {
    v.map_values(|s: Suggestion| s@)
}

/// The types whose default application is asked for, and what it is then called.
pub open spec fn probe_list() -> Seq<(Seq<char>, Seq<char>)> {
    seq![
        ("inode/directory"@, "file manager"@),
        ("text/plain"@, "text editor"@),
        ("application/pdf"@, "PDF viewer"@),
        ("image/png"@, "image viewer"@),
        ("image/jpeg"@, "image viewer"@),
        ("text/html"@, "browser"@),
    ]
}

/// `probe_list`, computed.
pub fn probes() -> (r: Vec<(String, String)>)
    ensures
        pair_texts(r@) == probe_list(),
{
    let mut v: Vec<(String, String)> = Vec::new();
    v.push(pairs::pair("inode/directory", "file manager"));
    v.push(pairs::pair("text/plain", "text editor"));
    v.push(pairs::pair("application/pdf", "PDF viewer"));
    v.push(pairs::pair("image/png", "image viewer"));
    v.push(pairs::pair("image/jpeg", "image viewer"));
    v.push(pairs::pair("text/html", "browser"));
    assert(pair_texts(v@) =~= probe_list());
    v
}

/// Text editors with a window, the best known first: name and command.
pub open spec fn editor_list() -> Seq<(Seq<char>, Seq<char>)> {
    seq![
        ("Kate"@, "kate"@),
        ("Text Editor"@, "gnome-text-editor"@),
        ("gedit"@, "gedit"@),
        ("Mousepad"@, "mousepad"@),
        ("KWrite"@, "kwrite"@),
    ]
}

/// `editor_list`, computed.
pub fn editors() -> (r: Vec<(String, String)>)
    ensures
        pair_texts(r@) == editor_list(),
{
    let mut v: Vec<(String, String)> = Vec::new();
    v.push(pairs::pair("Kate", "kate"));
    v.push(pairs::pair("Text Editor", "gnome-text-editor"));
    v.push(pairs::pair("gedit", "gedit"));
    v.push(pairs::pair("Mousepad", "mousepad"));
    v.push(pairs::pair("KWrite", "kwrite"));
    assert(pair_texts(v@) =~= editor_list());
    v
}

/// Terminals, the system's own choice first: name and command.
pub open spec fn terminal_list() -> Seq<(Seq<char>, Seq<char>)> {
    seq![
        ("Terminal"@, "x-terminal-emulator"@),
        ("Konsole"@, "konsole"@),
        ("GNOME Terminal"@, "gnome-terminal"@),
        ("Alacritty"@, "alacritty"@),
        ("kitty"@, "kitty"@),
        ("xterm"@, "xterm"@),
    ]
}

/// `terminal_list`, computed.
pub fn terminals() -> (r: Vec<(String, String)>)
    ensures
        pair_texts(r@) == terminal_list(),
{
    let mut v: Vec<(String, String)> = Vec::new();
    v.push(pairs::pair("Terminal", "x-terminal-emulator"));
    v.push(pairs::pair("Konsole", "konsole"));
    v.push(pairs::pair("GNOME Terminal", "gnome-terminal"));
    v.push(pairs::pair("Alacritty", "alacritty"));
    v.push(pairs::pair("kitty", "kitty"));
    v.push(pairs::pair("xterm", "xterm"));
    assert(pair_texts(v@) =~= terminal_list());
    v
}

// ---------------------------------------------------------- desktop files ---

/// Is the text the id of a desktop file, and not a path?
pub open spec fn is_desktop_id(id: Seq<char>) -> bool {
    id.len() > 0 && !id.contains('/') && text::has_suffix(id, ".desktop"@)
}

/// The id of a default application, as the query for it printed it.
pub fn default_desktop_id(success: bool, printed: &str) -> (r: Option<String>)
    ensures
        text::opt(r) == if success && is_desktop_id(text::trimmed(printed@)) {
            Some(text::trimmed(printed@))
        } else {
            None
        },
{
    if !success {
        return None;
    }
    let id = text::trim(printed);
    if id.as_str().is_empty() || text::has_char(id.as_str(), '/') || !text::ends_with(
        id.as_str(),
        ".desktop",
    ) {
        return None;
    }
    Some(id)
}

/// Where data of the user is kept.
pub open spec fn data_home_of(home: Option<Seq<char>>, data_home: Option<Seq<char>>) -> Seq<char> {
    match data_home {
        Some(d) => d,
        None => (match home {
            Some(h) => h,
            None => seq![],
        }) + "/.local/share"@,
    }
}

/// Where data is kept, that of the user first.
pub open spec fn data_roots(
    home: Option<Seq<char>>,
    data_home: Option<Seq<char>>,
    data_dirs: Option<Seq<char>>,
) -> Seq<Seq<char>> {
    let dirs = match data_dirs {
        Some(d) => d,
        None => "/usr/local/share:/usr/share"@,
    };
    seq![data_home_of(home, data_home)] + text::fields(dirs, ':').filter(
        |d: Seq<char>| d.len() > 0,
    )
}

/// `data_roots`, computed.
pub fn data_directories(
    home: Option<&str>,
    data_home: Option<&str>,
    data_dirs: Option<&str>,
) -> (r: Vec<String>)
    ensures
        text::texts(r@) == data_roots(
            text::opt_str(home),
            text::opt_str(data_home),
            text::opt_str(data_dirs),
        ),
{
    let mut out: Vec<String> = Vec::new();
    let first = match data_home {
        Some(d) => d.to_owned(),
        None => {
            let mut s = match home {
                Some(h) => h.to_owned(),
                None => String::new(),
            };
            s.append("/.local/share");
            s
        },
    };
    let ghost head = first@;
    out.push(first);
    let dirs = match data_dirs {
        Some(d) => d.to_owned(),
        None => "/usr/local/share:/usr/share".to_owned(),
    };
    let fs = text::split(dirs.as_str(), ':');
    let ghost t = text::fields(dirs@, ':');
    let ghost p = |d: Seq<char>| d.len() > 0;
    let mut i: usize = 0;
    reveal(Seq::filter);
    assert(text::texts(out@) =~= seq![head] + t.take(0).filter(p));
    while i < fs.len()
        invariant
            i <= fs@.len(),
            text::texts(fs@) == t,
            p == (|d: Seq<char>| d.len() > 0),
            text::texts(out@) == seq![head] + t.take(i as int).filter(p),
        decreases fs@.len() - i,
    {
        let ghost before = text::texts(out@);
        proof {
            reveal(Seq::filter);
            assert(text::texts(fs@)[i as int] == fs@[i as int]@);
            assert(t.take(i + 1).drop_last() =~= t.take(i as int));
            assert(t.take(i + 1).last() == fs@[i as int]@);
        }
        if !fs[i].as_str().is_empty() {
            let d = fs[i].clone();
            out.push(d);
            assert(text::texts(out@) =~= before.push(d@));
            assert(text::texts(out@) =~= seq![head] + t.take(i + 1).filter(p));
        }
        i = i + 1;
    }
    assert(text::texts(fs@).len() == fs@.len());
    assert(t.take(i as int) =~= t);
    out
}

/// The directories of desktop files.
pub open spec fn application_roots(roots: Seq<Seq<char>>) -> Seq<Seq<char>> {
    roots.map_values(|d: Seq<char>| names::path_join(d, "applications"@))
}

/// `application_roots`, computed.
pub fn application_dirs(
    home: Option<&str>,
    data_home: Option<&str>,
    data_dirs: Option<&str>,
) -> (r: Vec<String>)
    ensures
        text::texts(r@) == application_roots(
            data_roots(text::opt_str(home), text::opt_str(data_home), text::opt_str(data_dirs)),
        ),
{
    let roots = data_directories(home, data_home, data_dirs);
    let ghost want = application_roots(text::texts(roots@));
    let mut out: Vec<String> = Vec::new();
    let mut i: usize = 0;
    while i < roots.len()
        invariant
            i <= roots@.len(),
            want == application_roots(text::texts(roots@)),
            text::texts(out@) == want.take(i as int),
        decreases roots@.len() - i,
    {
        let ghost before = text::texts(out@);
        let d = names::join_path(roots[i].as_str(), "applications");
        assert(text::texts(roots@)[i as int] == roots@[i as int]@);
        out.push(d);
        assert(text::texts(out@) =~= before.push(d@));
        i = i + 1;
        assert(text::texts(out@) =~= want.take(i as int));
    }
    assert(want.take(i as int) =~= want);
    out
}

/// An id with its first dash made a directory.
pub open spec fn nested_id(id: Seq<char>) -> Seq<char> {
    match text::split_once(id, '-') {
        Some((a, b)) => a + seq!['/'] + b,
        None => id,
    }
}

/// The files that may be meant by an id, in the order in which they are tried.
pub open spec fn desktop_candidates(dirs: Seq<Seq<char>>, id: Seq<char>) -> Seq<Seq<char>>
    decreases dirs.len(),
{
    if dirs.len() == 0 {
        seq![]
    } else {
        desktop_candidates(dirs.drop_last(), id).push(names::path_join(dirs.last(), id)).push(
            names::path_join(dirs.last(), nested_id(id)),
        )
    }
}

/// `desktop_candidates`, computed.
pub fn desktop_files(dirs: &Vec<String>, id: &str) -> (r: Vec<String>)
    ensures
        text::texts(r@) == desktop_candidates(text::texts(dirs@), id@),
{
    let nested = match text::cut(id, '-') {
        Some((a, b)) => {
            let mut s = a;
            s.push('/');
            s.append(b.as_str());
            s
        },
        None => id.to_owned(),
    };
    assert(nested@ =~= nested_id(id@));
    let ghost t = text::texts(dirs@);
    let mut out: Vec<String> = Vec::new();
    let mut i: usize = 0;
    assert(text::texts(out@) =~= desktop_candidates(t.take(0), id@));
    while i < dirs.len()
        invariant
            i <= dirs@.len(),
            t == text::texts(dirs@),
            nested@ == nested_id(id@),
            text::texts(out@) == desktop_candidates(t.take(i as int), id@),
        decreases dirs@.len() - i,
    {
        let ghost before = text::texts(out@);
        assert(t.take(i + 1).drop_last() =~= t.take(i as int));
        assert(t.take(i + 1).last() == dirs@[i as int]@);
        let a = names::join_path(dirs[i].as_str(), id);
        let b = names::join_path(dirs[i].as_str(), nested.as_str());
        out.push(a);
        out.push(b);
        assert(text::texts(out@) =~= before.push(a@).push(b@));
        i = i + 1;
    }
    assert(t.take(i as int) =~= t);
    out
}

/// The program that a command line of a desktop file starts, without its directory;
/// nothing for one that starts with a field code.
pub open spec fn line_program(line: Seq<char>) -> Seq<char> {
    let ws = text::words(line);
    let first = if ws.len() > 0 { ws[0] } else { seq![] };
    let base = text::fields(first, '/').last();
    if base.len() > 0 && base[0] == '%' { seq![] } else { base }
}

/// `line_program`, computed.
pub fn exec_binary(line: &str) -> (r: String)
    ensures
        r@ == line_program(line@),
{
    let ws = text::split_words(line);
    assert(text::texts(ws@).len() == ws@.len());
    let first = if ws.len() > 0 {
        assert(text::texts(ws@)[0] == ws@[0]@);
        ws[0].clone()
    } else {
        String::new()
    };
    assert(first@ =~= if text::words(line@).len() > 0 { text::words(line@)[0] } else { seq![] });
    let fs = text::split(first.as_str(), '/');
    proof {
        text::lemma_fields_nonempty(first@, '/');
    }
    assert(text::texts(fs@).len() == fs@.len());
    assert(text::texts(fs@)[fs@.len() - 1] == fs@[fs@.len() - 1]@);
    let n = fs.len();
    let base = fs[n - 1].clone();
    let v = text::chars_of(base.as_str());
    if v.len() > 0 && v[0] == '%' {
        let e = String::new();
        assert(e@ =~= line_program(line@));
        e
    } else {
        base
    }
}

/// The lines of the entry itself: those below a header that names it.
pub open spec fn entry_lines(ls: Seq<Seq<char>>, inside: bool) -> Seq<Seq<char>>
    decreases ls.len(),
{
    if ls.len() == 0 {
        seq![]
    } else {
        let l = text::trimmed(ls[0]);
        if l.len() > 0 && l[0] == '[' {
            entry_lines(ls.skip(1), l == "[Desktop Entry]"@)
        } else if inside {
            seq![l] + entry_lines(ls.skip(1), inside)
        } else {
            entry_lines(ls.skip(1), inside)
        }
    }
}

/// `entry_lines`, computed.
pub fn desktop_entry(body: &str) -> (r: Vec<String>)
    ensures
        text::texts(r@) == entry_lines(text::lines(body@), false),
{
    let ls = text::split_lines(body);
    let ghost t = text::lines(body@);
    let mut out: Vec<String> = Vec::new();
    let mut inside = false;
    let mut i: usize = 0;
    assert(t.skip(0) =~= t);
    assert(text::texts(out@) + entry_lines(t.skip(0), false) =~= entry_lines(t, false));
    while i < ls.len()
        invariant
            i <= ls@.len(),
            text::texts(ls@) == t,
            text::texts(out@) + entry_lines(t.skip(i as int), inside) == entry_lines(t, false),
        decreases ls@.len() - i,
    {
        let ghost before = text::texts(out@);
        assert(text::texts(ls@)[i as int] == ls@[i as int]@);
        assert(t.skip(i as int)[0] == ls@[i as int]@);
        assert(t.skip(i as int).skip(1) =~= t.skip(i + 1));
        let l = text::trim(ls[i].as_str());
        let c = text::chars_of(l.as_str());
        if c.len() > 0 && c[0] == '[' {
            inside = text::same(l.as_str(), "[Desktop Entry]");
        } else if inside {
            let ghost lv = l@;
            out.push(l);
            assert(text::texts(out@) =~= before.push(lv));
            assert(before.push(lv) + entry_lines(t.skip(i + 1), true) =~= before + (seq![lv]
                + entry_lines(t.skip(i + 1), true)));
        }
        i = i + 1;
    }
    assert(text::texts(ls@).len() == ls@.len());
    assert(text::texts(out@) + entry_lines(t.skip(i as int), inside) =~= text::texts(out@));
    out
}

/// The first value of a key that `f` leaves anything of.
pub open spec fn first_value(
    ls: Seq<Seq<char>>,
    key: Seq<char>,
    f: spec_fn(Seq<char>) -> Seq<char>,
) -> Seq<char>
    decreases ls.len(),
{
    if ls.len() == 0 {
        seq![]
    } else {
        match text::after_prefix(ls[0], key) {
            Some(v) => if f(text::trimmed(v)).len() > 0 {
                f(text::trimmed(v))
            } else {
                first_value(ls.skip(1), key, f)
            },
            None => first_value(ls.skip(1), key, f),
        }
    }
}

/// The value of a key.
pub open spec fn key_value(ls: Seq<Seq<char>>, key: Seq<char>) -> Seq<char> {
    first_value(ls, key, |v: Seq<char>| v)
}

/// The program of an entry.
pub open spec fn entry_program(ls: Seq<Seq<char>>) -> Seq<char> {
    first_value(ls, "Exec="@, |v: Seq<char>| line_program(v))
}

fn find_value(ls: &Vec<String>, key: &str) -> (r: String)
    ensures
        r@ == key_value(text::texts(ls@), key@),
{
    let ghost t = text::texts(ls@);
    let ghost f = |v: Seq<char>| v;
    let mut i: usize = 0;
    assert(t.skip(0) =~= t);
    while i < ls.len()
        invariant
            i <= ls@.len(),
            t == text::texts(ls@),
            f == (|v: Seq<char>| v),
            first_value(t.skip(i as int), key@, f) == key_value(t, key@),
        decreases ls@.len() - i,
    {
        assert(t.skip(i as int)[0] == ls@[i as int]@);
        assert(t.skip(i as int).skip(1) =~= t.skip(i + 1));
        if let Some(v) = text::strip(ls[i].as_str(), key) {
            let w = text::trim(v.as_str());
            if !w.as_str().is_empty() {
                return w;
            }
        }
        i = i + 1;
    }
    let e = String::new();
    assert(e@ =~= key_value(t, key@));
    e
}

fn find_program(ls: &Vec<String>) -> (r: String)
    ensures
        r@ == entry_program(text::texts(ls@)),
{
    let ghost t = text::texts(ls@);
    let ghost f = |v: Seq<char>| line_program(v);
    let mut i: usize = 0;
    assert(t.skip(0) =~= t);
    while i < ls.len()
        invariant
            i <= ls@.len(),
            t == text::texts(ls@),
            f == (|v: Seq<char>| line_program(v)),
            first_value(t.skip(i as int), "Exec="@, f) == entry_program(t),
        decreases ls@.len() - i,
    {
        assert(t.skip(i as int)[0] == ls@[i as int]@);
        assert(t.skip(i as int).skip(1) =~= t.skip(i + 1));
        if let Some(v) = text::strip(ls[i].as_str(), "Exec=") {
            let w = text::trim(v.as_str());
            let b = exec_binary(w.as_str());
            if !b.as_str().is_empty() {
                return b;
            }
        }
        i = i + 1;
    }
    let e = String::new();
    assert(e@ =~= entry_program(t));
    e
}

/// The name and the program of a desktop file; one without a name goes by its
/// program.
pub open spec fn desktop_app(body: Seq<char>) -> Option<(Seq<char>, Seq<char>)> {
    let ls = entry_lines(text::lines(body), false);
    let program = entry_program(ls);
    let name = key_value(ls, "Name="@);
    if program.len() == 0 {
        None
    } else if name.len() == 0 {
        Some((program, program))
    } else {
        Some((name, program))
    }
}

/// `desktop_app`, computed.
pub fn parse_desktop_body(body: &str) -> (r: Option<(String, String)>)
    ensures
        r is Some <==> desktop_app(body@) is Some,
        r matches Some((n, p)) ==> desktop_app(body@) == Some((n@, p@)),
{
    let ls = desktop_entry(body);
    let program = find_program(&ls);
    if program.as_str().is_empty() {
        return None;
    }
    let name = find_value(&ls, "Name=");
    if name.as_str().is_empty() {
        let n = program.clone();
        return Some((n, program));
    }
    Some((name, program))
}

/// The name of a desktop file, not of a hidden one without a stem.
pub fn is_desktop_file(name: &str) -> (r: bool)
    ensures
        r == (text::has_suffix(name@, ".desktop"@) && name@.len() > 8),
{
    let v = text::chars_of(name);
    text::ends_with(name, ".desktop") && v.len() > 8
}

/// The icon that a desktop file gives the program of `command`.
pub open spec fn icon_in(body: Seq<char>, command: Seq<char>) -> Option<Seq<char>> {
    let ls = entry_lines(text::lines(body), false);
    let icon = key_value(ls, "Icon="@);
    if icon.len() > 0 && entry_program(ls) == path::base_name(command) {
        Some(icon)
    } else {
        None
    }
}

/// The icon that the first of the desktop files gives.
pub open spec fn first_icon(bodies: Seq<Seq<char>>, command: Seq<char>) -> Option<Seq<char>>
    decreases bodies.len(),
{
    if bodies.len() == 0 {
        None
    } else {
        match icon_in(bodies[0], command) {
            Some(i) => Some(i),
            None => first_icon(bodies.skip(1), command),
        }
    }
}

/// `first_icon`, computed.
pub fn desktop_icon_for_exec(command: &str, bodies: &Vec<String>) -> (r: Option<String>)
    ensures
        text::opt(r) == first_icon(text::texts(bodies@), command@),
{
    let want = path::basename(command);
    let ghost t = text::texts(bodies@);
    let mut i: usize = 0;
    assert(t.skip(0) =~= t);
    while i < bodies.len()
        invariant
            i <= bodies@.len(),
            t == text::texts(bodies@),
            want@ == path::base_name(command@),
            first_icon(t.skip(i as int), command@) == first_icon(t, command@),
        decreases bodies@.len() - i,
    {
        assert(t.skip(i as int)[0] == bodies@[i as int]@);
        assert(t.skip(i as int).skip(1) =~= t.skip(i + 1));
        let ls = desktop_entry(bodies[i].as_str());
        let icon = find_value(&ls, "Icon=");
        let program = find_program(&ls);
        if !icon.as_str().is_empty() && text::same(program.as_str(), want.as_str()) {
            return Some(icon);
        }
        i = i + 1;
    }
    None
}

proof fn lemma_entry_begins(before: Seq<Seq<char>>, rest: Seq<Seq<char>>)
    requires
        forall|i: int| 0 <= i < before.len() ==> text::trimmed(#[trigger] before[i]) != "[Desktop Entry]"@,
    ensures
        entry_lines(before + rest, false) == entry_lines(rest, false),
    decreases before.len(),
{
    if before.len() == 0 {
        assert(before + rest =~= rest);
    } else {
        let t = before.skip(1);
        assert forall|i: int| 0 <= i < t.len() implies text::trimmed(#[trigger] t[i])
            != "[Desktop Entry]"@ by {
            assert(t[i] == before[i + 1]);
        }
        lemma_entry_begins(t, rest);
        assert((before + rest)[0] == before[0]);
        assert((before + rest).skip(1) =~= t + rest);
    }
}

proof fn lemma_program_of_line(dir: Seq<char>, program: Seq<char>, args: Seq<char>)
    requires
        is_program_line(dir, program, args),
    ensures
        line_program(dir + program + args) == program,
        text::trimmed(dir + program + args) == dir + program + args,
        dir + program + args != Seq::<char>::empty(),
{
    let first = dir + program;
    let line = dir + program + args;
    let n = first.len() as int;
    assert forall|k: int| 0 <= k < n implies !text::is_space(#[trigger] line[k]) by {
        if k < dir.len() {
            assert(line[k] == dir[k]);
        } else {
            assert(line[k] == program[k - dir.len()]);
        }
    }
    text::lemma_first_space(line, n);
    assert(line.take(n) =~= first);
    assert(text::words(line)[0] == first);
    if args.len() == 0 {
        assert(line.last() == program.last());
        assert(line[n - 1] == line.last());
    } else {
        assert(line.last() == args.last());
    }
    assert(!text::is_space(line[0]));
    text::lemma_trimmed_is(line);
    lemma_last_field(dir, program);
}

proof fn lemma_last_field(dir: Seq<char>, program: Seq<char>)
    requires
        dir.len() == 0 || dir.last() == '/',
        !program.contains('/'),
    ensures
        text::fields(dir + program, '/').last() == program,
    decreases dir.len(),
{
    let s = dir + program;
    if dir.len() == 0 {
        assert(s =~= program);
        text::lemma_fields_one(program, '/');
    } else {
        assert(dir[dir.len() - 1] == '/');
        text::lemma_first_of(dir, '/');
        let i = text::first_of(dir, '/');
        let a = dir.take(i);
        let b = dir.skip(i + 1);
        assert(!a.contains('/')) by {
            if a.contains('/') {
                let k = choose|k: int| 0 <= k < a.len() && a[k] == '/';
                assert(dir[k] == '/');
            }
        }
        assert(b.len() > 0 ==> b.last() == dir.last());
        lemma_last_field(b, program);
        assert(s =~= a + seq!['/'] + (b + program));
        text::lemma_fields_cons(a, b + program, '/');
        text::lemma_fields_nonempty(b + program, '/');
    }
}

/// A command line: the directory of a program, the program, and what it is started with.
pub open spec fn is_program_line(dir: Seq<char>, program: Seq<char>, args: Seq<char>) -> bool {
    &&& dir.len() == 0 || dir.last() == '/'
    &&& forall|k: int| 0 <= k < dir.len() ==> !text::is_space(#[trigger] dir[k])
    &&& program.len() > 0
    &&& program[0] != '%'
    &&& !program.contains('/')
    &&& forall|k: int| 0 <= k < program.len() ==> !text::is_space(#[trigger] program[k])
    &&& args.len() > 0 ==> text::is_space(args[0]) && !text::is_space(args.last())
}

/// The lines of a desktop file, with whatever stands before and behind them.
pub open spec fn desktop_text(
    before: Seq<Seq<char>>,
    name: Seq<char>,
    exec: Seq<char>,
    icon: Seq<char>,
    behind: Seq<Seq<char>>,
) -> Seq<Seq<char>> {
    before + seq!["[Desktop Entry]"@, "Name="@ + name, "Exec="@ + exec, "Icon="@ + icon] + behind
}

/// A desktop file is read back: its name as it is written, its program without directory
/// and arguments, and its icon for that program, whatever other groups stand before the
/// entry and whatever follows.
pub proof fn law_a_desktop_file_is_read(
    before: Seq<Seq<char>>,
    name: Seq<char>,
    dir: Seq<char>,
    program: Seq<char>,
    args: Seq<char>,
    icon: Seq<char>,
    behind: Seq<Seq<char>>,
    command: Seq<char>,
)
    requires
        is_program_line(dir, program, args),
        name.len() > 0,
        text::trimmed(name) == name,
        !text::is_space(name[0]),
        !text::is_space(name.last()),
        icon.len() > 0,
        !text::is_space(icon[0]),
        !text::is_space(icon.last()),
        forall|i: int| 0 <= i < before.len() ==> text::trimmed(#[trigger] before[i]) != "[Desktop Entry]"@,
        ({
            let ls = desktop_text(before, name, dir + program + args, icon, behind);
            forall|i: int| 0 <= i < ls.len() ==> text::is_line(#[trigger] ls[i])
        }),
    ensures
        ({
            let body = text::unlines(desktop_text(before, name, dir + program + args, icon, behind));
            &&& desktop_app(body) == Some((name, program))
            &&& icon_in(body, command) == if path::base_name(command) == program {
                Some(icon)
            } else {
                None
            }
        }),
{
    let exec = dir + program + args;
    let ls = desktop_text(before, name, exec, icon, behind);
    text::lemma_lines_unlines(ls);
    lemma_program_of_line(dir, program, args);
    reveal_strlit("[Desktop Entry]");
    reveal_strlit("Name=");
    reveal_strlit("Exec=");
    reveal_strlit("Icon=");
    let h = "[Desktop Entry]"@;
    let n = "Name="@ + name;
    let e = "Exec="@ + exec;
    let c = "Icon="@ + icon;
    let rest = seq![h, n, e, c] + behind;
    assert(ls =~= before + rest);
    lemma_entry_begins(before, rest);
    text::lemma_trimmed_is(h);
    assert(n.last() == name.last());
    text::lemma_trimmed_is(n);
    assert(exec.last() == e.last());
    assert(!text::is_space(exec.last())) by {
        if args.len() == 0 {
            assert(exec.last() == program[program.len() - 1]);
        } else {
            assert(exec.last() == args.last());
        }
    }
    text::lemma_trimmed_is(e);
    assert(c.last() == icon.last());
    text::lemma_trimmed_is(c);
    text::lemma_trimmed_is(icon);
    let r1 = rest.skip(1);
    let r2 = r1.skip(1);
    let r3 = r2.skip(1);
    assert(rest[0] == h && r1[0] == n && r2[0] == e && r3[0] == c);
    assert(entry_lines(rest, false) == entry_lines(r1, true));
    let last = entry_lines(r3.skip(1), true);
    assert(entry_lines(r3, true) == seq![c] + last);
    assert(entry_lines(r2, true) == seq![e] + (seq![c] + last));
    let all = seq![n] + (seq![e] + (seq![c] + last));
    assert(entry_lines(r1, true) == all);
    let l1 = all.skip(1);
    let l2 = l1.skip(1);
    assert(all[0] == n && l1[0] == e && l2[0] == c);
    let ident = |v: Seq<char>| v;
    let prog = |v: Seq<char>| line_program(v);
    assert(n.take(5) =~= "Name="@);
    assert(n.skip(5) =~= name);
    assert("Name="@.is_prefix_of(n));
    assert(key_value(all, "Name="@) == name);
    assert(!"Exec="@.is_prefix_of(n)) by {
        assert(n[0] == 'N' && "Exec="@[0] == 'E');
    }
    assert(e.take(5) =~= "Exec="@);
    assert(e.skip(5) =~= exec);
    assert("Exec="@.is_prefix_of(e));
    assert(first_value(l1, "Exec="@, prog) == program);
    assert(entry_program(all) == program);
    assert(!"Icon="@.is_prefix_of(n)) by {
        assert(n[0] == 'N' && "Icon="@[0] == 'I');
    }
    assert(!"Icon="@.is_prefix_of(e)) by {
        assert(e[0] == 'E' && "Icon="@[0] == 'I');
    }
    assert(c.take(5) =~= "Icon="@);
    assert(c.skip(5) =~= icon);
    assert("Icon="@.is_prefix_of(c));
    assert(first_value(l2, "Icon="@, ident) == icon);
    assert(first_value(l1, "Icon="@, ident) == icon);
    assert(key_value(all, "Icon="@) == icon);
}

/// Of several desktop files the first that has an icon for the program gives it.
pub proof fn law_the_first_icon_counts(bodies: Seq<Seq<char>>, command: Seq<char>)
    ensures
        first_icon(bodies, command) matches Some(i) ==> exists|k: int|
            0 <= k < bodies.len() && icon_in(#[trigger] bodies[k], command) == Some(i) && forall|j: int|
                0 <= j < k ==> icon_in(#[trigger] bodies[j], command) is None,
        first_icon(bodies, command) is None <==> forall|j: int|
            0 <= j < bodies.len() ==> icon_in(#[trigger] bodies[j], command) is None,
    decreases bodies.len(),
{
    if bodies.len() > 0 {
        if icon_in(bodies[0], command) is Some {
            assert(icon_in(bodies[0], command) == first_icon(bodies, command));
        } else {
            let t = bodies.skip(1);
            law_the_first_icon_counts(t, command);
            if let Some(i) = first_icon(t, command) {
                let k = choose|k: int|
                    0 <= k < t.len() && icon_in(#[trigger] t[k], command) == Some(i) && forall|j: int|
                        0 <= j < k ==> icon_in(#[trigger] t[j], command) is None;
                assert(bodies[k + 1] == t[k]);
                assert forall|j: int| 0 <= j < k + 1 implies icon_in(#[trigger] bodies[j], command) is None by {
                    if j > 0 {
                        assert(t[j - 1] == bodies[j]);
                    }
                }
            } else {
                assert forall|j: int| 0 <= j < bodies.len() implies icon_in(#[trigger] bodies[j], command) is None by {
                    if j > 0 {
                        assert(t[j - 1] == bodies[j]);
                    }
                }
            }
            if forall|j: int| 0 <= j < bodies.len() ==> icon_in(#[trigger] bodies[j], command) is None {
                assert forall|j: int| 0 <= j < t.len() implies icon_in(#[trigger] t[j], command) is None by {
                    assert(t[j] == bodies[j + 1]);
                }
            }
        }
    }
}

/// Data is looked for where the user keeps it first, and then in every directory of the
/// system's list, in order.
pub proof fn law_the_user_comes_before_the_system(h: Seq<char>, d: Seq<char>, a: Seq<char>, rest: Seq<char>)
    requires
        a.len() > 0,
        !a.contains(':'),
    ensures
        data_roots(Some(h), Some(d), Some(rest))[0] == d,
        data_roots(Some(h), None, Some(rest))[0] == h + "/.local/share"@,
        data_roots(Some(h), Some(d), Some(a)) == seq![d, a],
        data_roots(Some(h), Some(d), Some(a + seq![':'] + rest)) == seq![d, a] + data_roots(
            Some(h),
            Some(d),
            Some(rest),
        ).skip(1),
        data_roots(Some(h), Some(d), None) == data_roots(
            Some(h),
            Some(d),
            Some("/usr/local/share"@ + seq![':'] + "/usr/share"@),
        ),
{
    reveal(Seq::filter);
    let p = |x: Seq<char>| x.len() > 0;
    text::lemma_fields_one(a, ':');
    assert(seq![a].drop_last() =~= seq![]);
    assert(seq![a].filter(p) =~= seq![a]);
    assert(data_roots(Some(h), Some(d), Some(a)) =~= seq![d, a]);
    text::lemma_fields_cons(a, rest, ':');
    let fr = text::fields(rest, ':');
    lemma_filter_cons(a, fr, p);
    assert(data_roots(Some(h), Some(d), Some(rest)).skip(1) =~= fr.filter(p));
    assert(data_roots(Some(h), Some(d), Some(a + seq![':'] + rest)) =~= seq![d, a] + fr.filter(p));
    reveal_strlit("/usr/local/share:/usr/share");
    reveal_strlit("/usr/local/share");
    reveal_strlit("/usr/share");
    assert("/usr/local/share:/usr/share"@ =~= "/usr/local/share"@ + seq![':'] + "/usr/share"@);
}

proof fn lemma_filter_cons(a: Seq<char>, s: Seq<Seq<char>>, p: spec_fn(Seq<char>) -> bool)
    requires
        p(a),
    ensures
        (seq![a] + s).filter(p) == seq![a] + s.filter(p),
    decreases s.len(),
{
    reveal(Seq::filter);
    if s.len() == 0 {
        assert(seq![a] + s =~= seq![a]);
        assert(seq![a].drop_last() =~= seq![]);
        assert(seq![a].filter(p) =~= seq![a] + s.filter(p));
    } else {
        lemma_filter_cons(a, s.drop_last(), p);
        assert((seq![a] + s).drop_last() =~= seq![a] + s.drop_last());
        assert((seq![a] + s).last() == s.last());
        assert((seq![a] + s).filter(p) =~= seq![a] + s.filter(p));
    }
}

/// A desktop file is looked for in every directory, in order: under its id, and in the
/// directory that its first dash stands for.
pub proof fn law_every_directory_is_searched(dirs: Seq<Seq<char>>, id: Seq<char>, vendor: Seq<char>, rest: Seq<char>, k: int)
    requires
        0 <= k < dirs.len(),
        !vendor.contains('-'),
        id == vendor + seq!['-'] + rest,
    ensures
        desktop_candidates(dirs, id).len() == 2 * dirs.len(),
        desktop_candidates(dirs, id)[2 * k] == names::path_join(dirs[k], id),
        desktop_candidates(dirs, id)[2 * k + 1] == names::path_join(
            dirs[k],
            vendor + seq!['/'] + rest,
        ),
    decreases dirs.len(),
{
    text::lemma_split_once_at(vendor, rest, '-');
    let d = dirs.drop_last();
    if k < d.len() {
        law_every_directory_is_searched(d, id, vendor, rest, k);
        assert(dirs[k] == d[k]);
    } else {
        lemma_candidates_len(d, id);
    }
    lemma_candidates_len(dirs, id);
}

proof fn lemma_candidates_len(dirs: Seq<Seq<char>>, id: Seq<char>)
    ensures
        desktop_candidates(dirs, id).len() == 2 * dirs.len(),
    decreases dirs.len(),
{
    if dirs.len() > 0 {
        lemma_candidates_len(dirs.drop_last(), id);
    }
}

// ------------------------------------------------------------ suggestions ---

/// Is the command that of an offer?
pub open spec fn command_offered(os: Seq<Offer>, command: Seq<char>) -> bool {
    exists|i: int| 0 <= i < os.len() && #[trigger] os[i].command == command
}

/// What the host says of the default application of a type.
#[derive(Clone, Debug, PartialEq, Eq)]
pub enum HostDefault {
    /// None is configured.
    Unset,
    /// One is configured, and no program can be read for it.
    Unusable,
    /// Its name and its program.
    Program(String, String),
}

/// What the host says, as values.
pub ghost enum Told {
    Unset,
    Unusable,
    Program(Seq<char>, Seq<char>),
}

impl View for HostDefault {
    type V = Told;

    open spec fn view(&self) -> Told {
        match self {
            HostDefault::Unset => Told::Unset,
            HostDefault::Unusable => Told::Unusable,
            HostDefault::Program(n, c) => Told::Program(n@, c@),
        }
    }
}

/// What the query for the default of a type tells: `printed` is what it printed, nothing
/// where it cannot be run, and `program` the name and the program of the desktop file with
/// that id, where there is one.
pub fn host_default(printed: &str, program: Option<(String, String)>) -> (r: HostDefault)
    ensures
        r@ == match program {
            Some((n, c)) => Told::Program(n@, c@),
            None => if text::trimmed(printed@).len() > 0 {
                Told::Unusable
            } else {
                Told::Unset
            },
        },
{
    if let Some((n, c)) = program {
        return HostDefault::Program(n, c);
    }
    let id = text::trim(printed);
    if id.as_str().is_empty() {
        HostDefault::Unset
    } else {
        HostDefault::Unusable
    }
}

/// The offers of the first `n` types: the installed default applications, each
/// command once.
pub open spec fn default_offers(
    answers: Seq<Told>,
    installed: Seq<Seq<char>>,
    n: nat,
) -> Seq<Offer>
    decreases n,
{
    if n == 0 {
        seq![]
    } else {
        let before = default_offers(answers, installed, (n - 1) as nat);
        match answers[n - 1] {
            Told::Program(name, command) => if installed.contains(command) && !command_offered(
                before,
                command,
            ) {
                before.push(Offer { name, command, category: probe_list()[n - 1].1 })
            } else {
                before
            },
            _ => before,
        }
    }
}

/// The first application of a list that is installed.
pub open spec fn first_of_installed(
    list: Seq<(Seq<char>, Seq<char>)>,
    installed: Seq<Seq<char>>,
) -> Option<(Seq<char>, Seq<char>)>
    decreases list.len(),
{
    if list.len() == 0 {
        None
    } else if installed.contains(list[0].1) {
        Some(list[0])
    } else {
        first_of_installed(list.skip(1), installed)
    }
}

/// `first_of_installed`, computed.
pub fn first_installed(list: &Vec<(String, String)>, installed: &Vec<String>) -> (r: Option<
    (String, String),
>)
    ensures
        r is Some <==> first_of_installed(pair_texts(list@), text::texts(installed@)) is Some,
        r matches Some((n, c)) ==> first_of_installed(
            pair_texts(list@),
            text::texts(installed@),
        ) == Some((n@, c@)),
{
    let ghost t = pair_texts(list@);
    let ghost want = first_of_installed(t, text::texts(installed@));
    let mut i: usize = 0;
    assert(t.skip(0) =~= t);
    while i < list.len()
        invariant
            i <= list@.len(),
            t == pair_texts(list@),
            want == first_of_installed(pair_texts(list@), text::texts(installed@)),
            first_of_installed(t.skip(i as int), text::texts(installed@)) == want,
        decreases list@.len() - i,
    {
        assert(t.skip(i as int)[0] == (list@[i as int].0@, list@[i as int].1@));
        assert(t.skip(i as int).skip(1) =~= t.skip(i + 1));
        if names::among(installed, list[i].1.as_str()) {
            let p = (list[i].0.clone(), list[i].1.clone());
            return Some(p);
        }
        i = i + 1;
    }
    None
}

/// The name that a list has for a command.
pub open spec fn name_in(list: Seq<(Seq<char>, Seq<char>)>, command: Seq<char>) -> Option<Seq<char>>
    decreases list.len(),
{
    if list.len() == 0 {
        None
    } else if list[0].1 == command {
        Some(list[0].0)
    } else {
        name_in(list.skip(1), command)
    }
}

fn find_name(list: &Vec<(String, String)>, command: &str) -> (r: Option<String>)
    ensures
        text::opt(r) == name_in(pair_texts(list@), command@),
{
    let ghost t = pair_texts(list@);
    let mut i: usize = 0;
    assert(t.skip(0) =~= t);
    while i < list.len()
        invariant
            i <= list@.len(),
            t == pair_texts(list@),
            name_in(t.skip(i as int), command@) == name_in(t, command@),
        decreases list@.len() - i,
    {
        assert(t.skip(i as int)[0] == (list@[i as int].0@, list@[i as int].1@));
        assert(t.skip(i as int).skip(1) =~= t.skip(i + 1));
        if text::same(list[i].1.as_str(), command) {
            return Some(list[i].0.clone());
        }
        i = i + 1;
    }
    None
}

/// The terminal itself, where the system's choice of one is a link to `target`.
pub open spec fn real_terminal(
    name: Seq<char>,
    command: Seq<char>,
    target: Option<Seq<char>>,
) -> (Seq<char>, Seq<char>) {
    if command != "x-terminal-emulator"@ || target is None || path::file_name(target->0) is None {
        (name, command)
    } else {
        let base = path::file_name(target->0)->0;
        (
            match name_in(terminal_list(), base) {
                Some(n) => n,
                None => text::capitalized(base),
            },
            base,
        )
    }
}

/// `real_terminal`, computed.
pub fn resolve_terminal(name: String, command: String, target: Option<&str>) -> (r: (
    String,
    String,
))
    ensures
        (r.0@, r.1@) == real_terminal(name@, command@, text::opt_str(target)),
{
    if !text::same(command.as_str(), "x-terminal-emulator") {
        return (name, command);
    }
    match target {
        Some(t) => match path::last_part(t) {
            Some(base) => {
                let list = terminals();
                let n = match find_name(&list, base.as_str()) {
                    Some(n) => n,
                    None => text::capitalize(base.as_str()),
                };
                (n, base)
            },
            None => (name, command),
        },
        None => (name, command),
    }
}

/// Is there an offer of this category?
pub open spec fn category_offered(os: Seq<Offer>, category: Seq<char>) -> bool {
    exists|i: int| 0 <= i < os.len() && #[trigger] os[i].category == category
}

/// Is there an offer of the program of `command`?
pub open spec fn program_offered(os: Seq<Offer>, command: Seq<char>) -> bool {
    exists|i: int|
        0 <= i < os.len() && path::base_name(#[trigger] os[i].command) == path::base_name(command)
}

/// The offers with a text editor among them, where one is installed that is not offered
/// already.
pub open spec fn with_editor(os: Seq<Offer>, installed: Seq<Seq<char>>) -> Seq<Offer> {
    if category_offered(os, "text editor"@) {
        os
    } else {
        match first_of_installed(editor_list(), installed) {
            Some((name, command)) => if command_offered(os, command) {
                os
            } else {
                os.push(Offer { name, command, category: "text editor"@ })
            },
            None => os,
        }
    }
}

/// The offers with a terminal among them, where one is installed.
pub open spec fn with_terminal(
    os: Seq<Offer>,
    installed: Seq<Seq<char>>,
    target: Option<Seq<char>>,
) -> Seq<Offer> {
    match first_of_installed(terminal_list(), installed) {
        Some((n, c)) => {
            let (name, command) = real_terminal(n, c, target);
            if program_offered(os, command) {
                os
            } else {
                os.push(Offer { name, command, category: "terminal"@ })
            }
        },
        None => os,
    }
}

/// The values of a list of answers.
pub open spec fn answer_texts(v: Seq<HostDefault>) -> Seq<Told> {
    v.map_values(|o: HostDefault| o@)
}

/// How many of the types were answered for.
pub open spec fn answered(n: nat) -> nat {
    if n < probe_list().len() { n } else { probe_list().len() }
}

fn offers_command(v: &Vec<Suggestion>, command: &str) -> (r: bool)
    ensures
        r == command_offered(offers(v@), command@),
{
    let mut i: usize = 0;
    while i < v.len()
        invariant
            i <= v@.len(),
            forall|k: int| 0 <= k < i ==> (#[trigger] offers(v@)[k]).command != command@,
        decreases v@.len() - i,
    {
        assert(offers(v@)[i as int].command == v@[i as int].command@);
        if text::same(v[i].command.as_str(), command) {
            return true;
        }
        i = i + 1;
    }
    false
}

fn offers_category(v: &Vec<Suggestion>, category: &str) -> (r: bool)
    ensures
        r == category_offered(offers(v@), category@),
{
    let mut i: usize = 0;
    while i < v.len()
        invariant
            i <= v@.len(),
            forall|k: int| 0 <= k < i ==> (#[trigger] offers(v@)[k]).category != category@,
        decreases v@.len() - i,
    {
        assert(offers(v@)[i as int].category == v@[i as int].category@);
        if text::same(v[i].category.as_str(), category) {
            return true;
        }
        i = i + 1;
    }
    false
}

/// `program_offered`, computed.
pub fn offers_program(v: &Vec<Suggestion>, command: &str) -> (r: bool)
    ensures
        r == program_offered(offers(v@), command@),
{
    let base = path::basename(command);
    let mut i: usize = 0;
    while i < v.len()
        invariant
            i <= v@.len(),
            base@ == path::base_name(command@),
            forall|k: int|
                0 <= k < i ==> path::base_name((#[trigger] offers(v@)[k]).command) != base@,
        decreases v@.len() - i,
    {
        assert(offers(v@)[i as int].command == v@[i as int].command@);
        let b = path::basename(v[i].command.as_str());
        if text::same(b.as_str(), base.as_str()) {
            assert(path::base_name(offers(v@)[i as int].command) == path::base_name(command@));
            return true;
        }
        i = i + 1;
    }
    false
}

/// The host has no application configured for any of the first `n` types.
pub open spec fn nothing_configured(
    answers: Seq<Told>,
    n: nat,
) -> bool {
    forall|i: int| 0 <= i < n ==> #[trigger] answers[i] is Unset
}

/// No command is offered twice.
pub open spec fn commands_distinct(os: Seq<Offer>) -> bool {
    forall|i: int, j: int|
        0 <= i < j < os.len() ==> #[trigger] os[i].command != #[trigger] os[j].command
}

/// Offers with an editor and a terminal among them.
pub open spec fn filled(
    os: Seq<Offer>,
    installed: Seq<Seq<char>>,
    target: Option<Seq<char>>,
) -> Seq<Offer> {
    with_terminal(with_editor(os, installed), installed, target)
}

/// What is offered for the first `n` types: nothing where nothing is configured, else
/// the installed defaults, with an editor and a terminal among them.
pub open spec fn suggested(
    answers: Seq<Told>,
    installed: Seq<Seq<char>>,
    target: Option<Seq<char>>,
    n: nat,
) -> Seq<Offer> {
    if nothing_configured(answers, n) {
        seq![]
    } else {
        filled(default_offers(answers, installed, n), installed, target)
    }
}

fn add_editor(out: &mut Vec<Suggestion>, installed: &Vec<String>)
    ensures
        offers(final(out)@) == with_editor(offers(old(out)@), text::texts(installed@)),
{
    let ghost first = offers(out@);
    if !offers_category(out, "text editor") {
        let es = editors();
        if let Some((name, command)) = first_installed(&es, installed) {
            if !offers_command(out, command.as_str()) {
                let s = Suggestion { name, command, category: "text editor".to_owned() };
                out.push(s);
                assert(offers(out@) =~= first.push(s@));
            }
        }
    }
}

fn add_terminal(out: &mut Vec<Suggestion>, installed: &Vec<String>, terminal: Option<&str>)
    ensures
        offers(final(out)@) == with_terminal(
            offers(old(out)@),
            text::texts(installed@),
            text::opt_str(terminal),
        ),
{
    let ghost first = offers(out@);
    let ts = terminals();
    if let Some((n, c)) = first_installed(&ts, installed) {
        let (name, command) = resolve_terminal(n, c, terminal);
        if !offers_program(out, command.as_str()) {
            let s = Suggestion { name, command, category: "terminal".to_owned() };
            out.push(s);
            assert(offers(out@) =~= first.push(s@));
        }
    }
}

/// The applications that the host prefers: the installed defaults of the types that
/// were asked for, an editor and a terminal, and none of them twice. There are none where
/// nothing is configured for any type. `answers` are what the host says of each type, and `terminal` is what the system's terminal links to.
pub fn detected_defaults(
    answers: &Vec<HostDefault>,
    installed: &Vec<String>,
    terminal: Option<&str>,
) -> (r: Vec<Suggestion>)
    ensures
        offers(r@) == suggested(
            answer_texts(answers@),
            text::texts(installed@),
            text::opt_str(terminal),
            answered(answers@.len()),
        ),
        commands_distinct(offers(r@)),
        (forall|i: int| 0 <= i < answers@.len() ==> answers@[i] is Unset) ==> r@.len() == 0,
{
    let ps = probes();
    let ghost pt = pair_texts(ps@);
    let ghost at = answer_texts(answers@);
    let ghost it = text::texts(installed@);
    let mut out: Vec<Suggestion> = Vec::new();
    let mut named = false;
    let mut i: usize = 0;
    assert(offers(out@) =~= default_offers(at, it, 0));
    assert(pt.len() == ps@.len());
    while i < ps.len() && i < answers.len()
        invariant
            i <= ps@.len(),
            i <= answers@.len(),
            pt == pair_texts(ps@),
            pt == probe_list(),
            at == answer_texts(answers@),
            it == text::texts(installed@),
            offers(out@) == default_offers(at, it, i as nat),
            named == !nothing_configured(at, i as nat),
        decreases ps@.len() - i,
    {
        let ghost before = offers(out@);
        assert(at[i as int] == answers@[i as int]@);
        assert(pt[i as int].1 == ps@[i as int].1@);
        match &answers[i] {
            HostDefault::Program(name, command) => {
                named = true;
                assert(!(at[i as int] is Unset));
                if names::among(installed, command.as_str()) && !offers_command(
                    &out,
                    command.as_str(),
                ) {
                    let s = Suggestion {
                        name: name.clone(),
                        command: command.clone(),
                        category: ps[i].1.clone(),
                    };
                    out.push(s);
                    assert(offers(out@) =~= before.push(s@));
                }
            },
            HostDefault::Unusable => {
                named = true;
                assert(!(at[i as int] is Unset));
            },
            HostDefault::Unset => {},
        }
        i = i + 1;
    }
    assert(i == answered(answers@.len()));
    proof {
        law_no_suggestion_stands_twice(at, it, text::opt_str(terminal), i as nat);
        if forall|k: int| 0 <= k < answers@.len() ==> answers@[k] is Unset {
            assert forall|k: int| 0 <= k < i implies #[trigger] at[k] is Unset by {
                assert(at[k] == answers@[k]@);
            }
        }
    }
    if !named {
        let none: Vec<Suggestion> = Vec::new();
        assert(offers(none@) =~= seq![]);
        return none;
    }
    add_editor(&mut out, installed);
    add_terminal(&mut out, installed, terminal);
    proof {
        if forall|k: int| 0 <= k < answers@.len() ==> answers@[k] is Unset {
            assert(nothing_configured(at, i as nat));
        }
    }
    out
}

/// What is offered where the host names nothing: an editor and a terminal, where they are
/// installed.
pub fn fallback_suggestions(installed: &Vec<String>, terminal: Option<&str>) -> (r: Vec<
    Suggestion,
>)
    ensures
        offers(r@) == filled(seq![], text::texts(installed@), text::opt_str(terminal)),
        commands_distinct(offers(r@)),
{
    let mut out: Vec<Suggestion> = Vec::new();
    assert(offers(out@) =~= seq![]);
    add_editor(&mut out, installed);
    add_terminal(&mut out, installed, terminal);
    proof {
        lemma_filled_distinct(seq![], text::texts(installed@), text::opt_str(terminal));
    }
    out
}

proof fn lemma_filled_distinct(
    os: Seq<Offer>,
    installed: Seq<Seq<char>>,
    target: Option<Seq<char>>,
)
    requires
        commands_distinct(os),
    ensures
        commands_distinct(filled(os, installed, target)),
{
    let e = with_editor(os, installed);
    let t = with_terminal(e, installed, target);
    assert(commands_distinct(e)) by {
        assert forall|i: int, j: int| 0 <= i < j < e.len() implies #[trigger] e[i].command
            != #[trigger] e[j].command by {
            assert(e[i] == os[i]);
            if j < os.len() {
                assert(e[j] == os[j]);
            }
        }
    }
    assert forall|i: int, j: int| 0 <= i < j < t.len() implies #[trigger] t[i].command
        != #[trigger] t[j].command by {
        assert(t[i] == e[i]);
        if j < e.len() {
            assert(t[j] == e[j]);
        } else {
            assert(!program_offered(e, t[j].command));
            assert(path::base_name(e[i].command) != path::base_name(t[j].command));
        }
    }
}

/// No suggestion stands twice, whatever the host answers and whatever is installed: not
/// among the defaults, and not where an editor or a terminal is added to them.
pub proof fn law_no_suggestion_stands_twice(
    answers: Seq<Told>,
    installed: Seq<Seq<char>>,
    target: Option<Seq<char>>,
    n: nat,
)
    ensures
        commands_distinct(suggested(answers, installed, target, n)),
{
    law_defaults_are_installed_and_distinct(answers, installed, n);
    lemma_filled_distinct(default_offers(answers, installed, n), installed, target);
}

/// No command is offered twice among the default applications, and each of them is
/// installed.
pub proof fn law_defaults_are_installed_and_distinct(
    answers: Seq<Told>,
    installed: Seq<Seq<char>>,
    n: nat,
)
    ensures
        ({
            let os = default_offers(answers, installed, n);
            &&& forall|i: int| 0 <= i < os.len() ==> installed.contains(#[trigger] os[i].command)
            &&& commands_distinct(os)
        }),
    decreases n,
{
    if n > 0 {
        law_defaults_are_installed_and_distinct(answers, installed, (n - 1) as nat);
        let before = default_offers(answers, installed, (n - 1) as nat);
        let os = default_offers(answers, installed, n);
        assert forall|i: int| 0 <= i < os.len() implies installed.contains(
            #[trigger] os[i].command,
        ) by {
            if i < before.len() {
                assert(os[i] == before[i]);
            }
        }
        assert forall|i: int, j: int| 0 <= i < j < os.len() implies #[trigger] os[i].command
            != #[trigger] os[j].command by {
            assert(os[i] == before[i]);
            if j < before.len() {
                assert(os[j] == before[j]);
            }
        }
    }
}

proof fn lemma_defaults_grow(answers: Seq<Told>, installed: Seq<Seq<char>>, m: nat, n: nat)
    requires
        m <= n,
    ensures
        default_offers(answers, installed, m).is_prefix_of(default_offers(answers, installed, n)),
    decreases n,
{
    if m < n {
        lemma_defaults_grow(answers, installed, m, (n - 1) as nat);
    }
}

proof fn lemma_filled_grows(os: Seq<Offer>, installed: Seq<Seq<char>>, target: Option<Seq<char>>)
    ensures
        os.is_prefix_of(filled(os, installed, target)),
        os.is_prefix_of(with_editor(os, installed)),
        with_editor(os, installed).is_prefix_of(filled(os, installed, target)),
{
}

proof fn lemma_offer_is_named(answers: Seq<Told>, installed: Seq<Seq<char>>, n: nat)
    requires
        n <= answers.len(),
    ensures
        forall|p: int|
            0 <= p < default_offers(answers, installed, n).len() ==> exists|k: int|
                0 <= k < n && is_offer_of(
                    #[trigger] default_offers(answers, installed, n)[p],
                    #[trigger] answers[k],
                    installed,
                    k,
                ),
    decreases n,
{
    if n > 0 {
        let d = default_offers(answers, installed, (n - 1) as nat);
        let os = default_offers(answers, installed, n);
        lemma_offer_is_named(answers, installed, (n - 1) as nat);
        assert forall|p: int| 0 <= p < os.len() implies exists|k: int|
            0 <= k < n && is_offer_of(#[trigger] os[p], #[trigger] answers[k], installed, k) by {
            if p < d.len() {
                assert(os[p] == d[p]);
                let k = choose|k: int|
                    0 <= k < n - 1 && is_offer_of(d[p], #[trigger] answers[k], installed, k);
                assert(is_offer_of(os[p], answers[k], installed, k));
            } else {
                assert(is_offer_of(os[p], answers[n - 1], installed, n - 1));
            }
        }
    }
}

/// Does the host name this program?
pub open spec fn names_program(answer: Told, command: Seq<char>) -> bool {
    answer matches Told::Program(_, c) && c == command
}

/// Is this the offer of the program that the host names for the type at `k`?
pub open spec fn is_offer_of(o: Offer, answer: Told, installed: Seq<Seq<char>>, k: int) -> bool {
    &&& answer == Told::Program(o.name, o.command)
    &&& installed.contains(o.command)
    &&& o.category == probe_list()[k].1
}

/// Every program that the host names for a type and that is installed is offered, and the
/// first type that names it gives the offer its name and its category.
pub proof fn law_every_installed_default_is_offered(
    answers: Seq<Told>,
    installed: Seq<Seq<char>>,
    target: Option<Seq<char>>,
    n: nat,
    i: int,
    name: Seq<char>,
    command: Seq<char>,
)
    requires
        0 <= i < n <= answers.len(),
        answers[i] == Told::Program(name, command),
        installed.contains(command),
    ensures
        command_offered(suggested(answers, installed, target, n), command),
        (forall|k: int| 0 <= k < i ==> !names_program(#[trigger] answers[k], command)) ==> suggested(answers, installed, target, n).contains(
            Offer { name, command, category: probe_list()[i].1 },
        ),
{
    let s = suggested(answers, installed, target, n);
    let before = default_offers(answers, installed, i as nat);
    let now = default_offers(answers, installed, (i + 1) as nat);
    let all = default_offers(answers, installed, n);
    assert(!nothing_configured(answers, n));
    lemma_defaults_grow(answers, installed, (i + 1) as nat, n);
    lemma_filled_grows(all, installed, target);
    assert(command_offered(now, command)) by {
        if !command_offered(before, command) {
            assert(now[before.len() as int].command == command);
        }
    }
    let p = choose|p: int| 0 <= p < now.len() && #[trigger] now[p].command == command;
    assert(all[p] == now[p]);
    assert(s[p] == all[p]);
    assert(s[p].command == command);
    if forall|k: int| 0 <= k < i ==> !names_program(#[trigger] answers[k], command) {
        lemma_offer_is_named(answers, installed, i as nat);
        assert(!command_offered(before, command)) by {
            if command_offered(before, command) {
                let q = choose|q: int| 0 <= q < before.len() && #[trigger] before[q].command == command;
                let k = choose|k: int|
                    0 <= k < i && is_offer_of(before[q], #[trigger] answers[k], installed, k);
                assert(answers[k] == Told::Program(before[q].name, command));
            }
        }
        let o = Offer { name, command, category: probe_list()[i].1 };
        let at = before.len() as int;
        assert(now[at] == o);
        assert(all[at] == o);
        assert(s[at] == o);
    }
}

/// The offers come in the order of the types: where two types each name a program first,
/// the offer of the earlier type stands first.
pub proof fn law_offers_come_in_the_order_of_the_types(
    answers: Seq<Told>,
    installed: Seq<Seq<char>>,
    target: Option<Seq<char>>,
    n: nat,
    i: int,
    j: int,
)
    requires
        0 <= i < j < n <= answers.len(),
        answers[i] matches Told::Program(_, c) && installed.contains(c),
        answers[j] matches Told::Program(_, d) && installed.contains(d),
        forall|k: int| 0 <= k < j ==> !names_program(#[trigger] answers[k], answers[j]->Program_1),
    ensures
        exists|p: int, q: int|
            0 <= p < q < suggested(answers, installed, target, n).len() && (
            #[trigger] suggested(answers, installed, target, n)[p]).command == answers[i]->Program_1 && (
            #[trigger] suggested(answers, installed, target, n)[q]).command == answers[j]->Program_1,
{
    let c = answers[i]->Program_1;
    let d = answers[j]->Program_1;
    let s = suggested(answers, installed, target, n);
    let all = default_offers(answers, installed, n);
    let x = default_offers(answers, installed, (i + 1) as nat);
    let y = default_offers(answers, installed, j as nat);
    let z = default_offers(answers, installed, (j + 1) as nat);
    let b = default_offers(answers, installed, i as nat);
    lemma_defaults_grow(answers, installed, (i + 1) as nat, j as nat);
    lemma_defaults_grow(answers, installed, (j + 1) as nat, n);
    lemma_filled_grows(all, installed, target);
    assert(!nothing_configured(answers, n));
    assert(command_offered(x, c)) by {
        if !command_offered(b, c) {
            assert(x[b.len() as int].command == c);
        }
    }
    let p = choose|p: int| 0 <= p < x.len() && #[trigger] x[p].command == c;
    lemma_offer_is_named(answers, installed, j as nat);
    assert(!command_offered(y, d)) by {
        if command_offered(y, d) {
            let q = choose|q: int| 0 <= q < y.len() && #[trigger] y[q].command == d;
            let k = choose|k: int| 0 <= k < j && is_offer_of(y[q], #[trigger] answers[k], installed, k);
            assert(answers[k] == Told::Program(y[q].name, d));
        }
    }
    let q = y.len() as int;
    assert(z[q].command == d);
    assert(all[q] == z[q]);
    assert(s[q] == all[q]);
    assert(y[p] == x[p]);
    assert(z[p] == y[p]);
    assert(all[p] == z[p]);
    assert(s[p] == all[p]);
    assert(s[p].command == c && s[q].command == d);
}

/// Nothing is offered that the host does not name or have: each offer is the installed
/// default of a type, an installed editor of the list, or the terminal.
pub proof fn law_nothing_else_is_offered(
    answers: Seq<Told>,
    installed: Seq<Seq<char>>,
    target: Option<Seq<char>>,
    n: nat,
    p: int,
)
    requires
        n <= answers.len(),
        0 <= p < suggested(answers, installed, target, n).len(),
    ensures
        ({
            let o = suggested(answers, installed, target, n)[p];
            ||| exists|k: int| 0 <= k < n && is_offer_of(o, #[trigger] answers[k], installed, k)
            ||| o.category == "text editor"@ && editor_list().contains((o.name, o.command))
                && installed.contains(o.command)
            ||| o.category == "terminal"@ && exists|k: int|
                0 <= k < terminal_list().len() && installed.contains((#[trigger] terminal_list()[k]).1) && (
                o.name, o.command) == real_terminal(terminal_list()[k].0, terminal_list()[k].1, target)
        }),
{
    let all = default_offers(answers, installed, n);
    let e = with_editor(all, installed);
    let s = suggested(answers, installed, target, n);
    let o = s[p];
    lemma_offer_is_named(answers, installed, n);
    lemma_filled_grows(all, installed, target);
    law_the_first_installed_is_taken(editor_list(), installed);
    law_the_first_installed_is_taken(terminal_list(), installed);
    if p < all.len() {
        assert(o == all[p]);
        let k = choose|k: int| 0 <= k < n && is_offer_of(all[p], #[trigger] answers[k], installed, k);
        assert(is_offer_of(o, answers[k], installed, k));
    } else if p < e.len() {
        assert(o == e[p]);
        let k = choose|k: int|
            0 <= k < editor_list().len() && #[trigger] editor_list()[k] == (o.name, o.command)
                && installed.contains(editor_list()[k].1);
        assert(editor_list().contains((o.name, o.command)));
    } else {
        let t = first_of_installed(terminal_list(), installed)->0;
        let k = choose|k: int|
            0 <= k < terminal_list().len() && #[trigger] terminal_list()[k] == t && installed.contains(
                terminal_list()[k].1,
            );
        assert(installed.contains(terminal_list()[k].1));
    }
}

/// Of a list the first application that is installed is taken; where none is taken, none
/// is installed.
pub proof fn law_the_first_installed_is_taken(
    list: Seq<(Seq<char>, Seq<char>)>,
    installed: Seq<Seq<char>>,
)
    ensures
        first_of_installed(list, installed) matches Some(a) ==> exists|k: int|
            0 <= k < list.len() && #[trigger] list[k] == a && installed.contains(list[k].1) && forall|j: int|
                0 <= j < k ==> !installed.contains((#[trigger] list[j]).1),
        first_of_installed(list, installed) is None <==> forall|j: int|
            0 <= j < list.len() ==> !installed.contains((#[trigger] list[j]).1),
    decreases list.len(),
{
    if list.len() > 0 {
        if installed.contains(list[0].1) {
            assert(list[0] == list[0]);
        } else {
            let t = list.skip(1);
            law_the_first_installed_is_taken(t, installed);
            if let Some(a) = first_of_installed(t, installed) {
                let k = choose|k: int|
                    0 <= k < t.len() && #[trigger] t[k] == a && installed.contains(t[k].1) && forall|j: int|
                        0 <= j < k ==> !installed.contains((#[trigger] t[j]).1);
                assert(list[k + 1] == a);
                assert forall|j: int| 0 <= j < k + 1 implies !installed.contains((#[trigger] list[j]).1) by {
                    if j > 0 {
                        assert(t[j - 1] == list[j]);
                    }
                }
            } else {
                assert forall|j: int| 0 <= j < list.len() implies !installed.contains(
                    (#[trigger] list[j]).1,
                ) by {
                    if j > 0 {
                        assert(t[j - 1] == list[j]);
                    }
                }
            }
            if forall|j: int| 0 <= j < list.len() ==> !installed.contains((#[trigger] list[j]).1) {
                assert forall|j: int| 0 <= j < t.len() implies !installed.contains((#[trigger] t[j]).1) by {
                    assert(t[j] == list[j + 1]);
                }
            }
        }
    }
}

/// Where anything is offered at all, an installed editor of the list and the installed
/// terminal are among the offers: the best one that is installed, unless an editor is
/// offered already, and unless that very program is.
pub proof fn law_an_editor_and_a_terminal_are_offered(
    os: Seq<Offer>,
    installed: Seq<Seq<char>>,
    target: Option<Seq<char>>,
    k: int,
    j: int,
)
    requires
        0 <= k < editor_list().len(),
        installed.contains(editor_list()[k].1),
        forall|m: int| 0 <= m < k ==> !installed.contains((#[trigger] editor_list()[m]).1),
        0 <= j < terminal_list().len(),
        installed.contains(terminal_list()[j].1),
        forall|m: int| 0 <= m < j ==> !installed.contains((#[trigger] terminal_list()[m]).1),
    ensures
        ({
            let f = filled(os, installed, target);
            let t = real_terminal(terminal_list()[j].0, terminal_list()[j].1, target);
            &&& category_offered(os, "text editor"@) || command_offered(f, editor_list()[k].1)
            &&& program_offered(f, t.1)
            &&& os.len() == 0 ==> f[0] == (Offer {
                name: editor_list()[k].0,
                command: editor_list()[k].1,
                category: "text editor"@,
            })
            &&& !program_offered(with_editor(os, installed), t.1) ==> f.last() == (Offer {
                name: t.0,
                command: t.1,
                category: "terminal"@,
            })
        }),
{
    lemma_first_is(editor_list(), installed, k);
    lemma_first_is(terminal_list(), installed, j);
    lemma_filled_grows(os, installed, target);
    let e = with_editor(os, installed);
    let f = filled(os, installed, target);
    let c = editor_list()[k].1;
    if !category_offered(os, "text editor"@) {
        if command_offered(os, c) {
            let p = choose|p: int| 0 <= p < os.len() && #[trigger] os[p].command == c;
            assert(f[p].command == c);
        } else {
            assert(e[os.len() as int].command == c);
            assert(f[os.len() as int].command == c);
        }
    }
    let t = real_terminal(terminal_list()[j].0, terminal_list()[j].1, target);
    if !program_offered(e, t.1) {
        assert(f[e.len() as int].command == t.1);
    }
}

proof fn lemma_first_is(list: Seq<(Seq<char>, Seq<char>)>, installed: Seq<Seq<char>>, k: int)
    requires
        0 <= k < list.len(),
        installed.contains(list[k].1),
        forall|m: int| 0 <= m < k ==> !installed.contains((#[trigger] list[m]).1),
    ensures
        first_of_installed(list, installed) == Some(list[k]),
    decreases list.len(),
{
    if k > 0 {
        let t = list.skip(1);
        assert forall|m: int| 0 <= m < k - 1 implies !installed.contains((#[trigger] t[m]).1) by {
            assert(t[m] == list[m + 1]);
        }
        assert(!installed.contains(list[0].1));
        lemma_first_is(t, installed, k - 1);
    }
}

/// The system's choice of a terminal is offered as the terminal that it links to, any
/// other as itself.
pub proof fn law_the_real_terminal_is_offered(name: Seq<char>, command: Seq<char>, base: Seq<char>, dir: Seq<char>)
    requires
        base.len() > 0,
        !base.contains('/'),
        base != "."@,
        base != ".."@,
    ensures
        command != "x-terminal-emulator"@ ==> real_terminal(name, command, Some(dir)) == (name, command),
        real_terminal(name, command, None) == (name, command),
        path::file_name(dir) == Some(base) ==> real_terminal(name, "x-terminal-emulator"@, Some(dir)).1
            == base,
        path::file_name(dir) == Some(base) && base == "konsole"@ ==> real_terminal(
            name,
            "x-terminal-emulator"@,
            Some(dir),
        ).0 == "Konsole"@,
{
    reveal_strlit("konsole");
    reveal_strlit("x-terminal-emulator");
    let l = terminal_list();
    assert(l[0] == ("Terminal"@, "x-terminal-emulator"@));
    assert("konsole"@.len() == 7 && "x-terminal-emulator"@.len() == 19);
    assert(l.skip(1)[0] == ("Konsole"@, "konsole"@));
    reveal_with_fuel(name_in, 3);
}

/// The types that the host is asked about, and what the program for each is called.
pub proof fn law_every_kind_of_file_is_asked_about()
    ensures
        probe_list().len() == 6,
        probe_list().contains(("inode/directory"@, "file manager"@)),
        probe_list().contains(("text/plain"@, "text editor"@)),
        probe_list().contains(("application/pdf"@, "PDF viewer"@)),
        probe_list().contains(("image/png"@, "image viewer"@)),
        probe_list().contains(("image/jpeg"@, "image viewer"@)),
        probe_list().contains(("text/html"@, "browser"@)),
{
    let l = probe_list();
    assert(l[0] == ("inode/directory"@, "file manager"@));
    assert(l[1] == ("text/plain"@, "text editor"@));
    assert(l[2] == ("application/pdf"@, "PDF viewer"@));
    assert(l[3] == ("image/png"@, "image viewer"@));
    assert(l[4] == ("image/jpeg"@, "image viewer"@));
    assert(l[5] == ("text/html"@, "browser"@));
}

// ----------------------------------------------------------------- icons ---

/// The largest icon file that is read.
pub const ICON_FILE_MAX: u64 = 1_048_576;

/// May the file be read as an icon?
pub fn icon_file_ok(is_file: bool, len: u64) -> (r: bool)
    ensures
        r == (is_file && len <= ICON_FILE_MAX),
{
    is_file && len <= ICON_FILE_MAX
}

/// The roots of the icon themes.
pub open spec fn icon_root_list(roots: Seq<Seq<char>>) -> Seq<Seq<char>> {
    roots.map_values(|d: Seq<char>| d + "/icons"@)
}

/// `icon_root_list`, computed.
pub fn icon_roots(
    home: Option<&str>,
    data_home: Option<&str>,
    data_dirs: Option<&str>,
) -> (r: Vec<String>)
    ensures
        text::texts(r@) == icon_root_list(
            data_roots(text::opt_str(home), text::opt_str(data_home), text::opt_str(data_dirs)),
        ),
{
    let roots = data_directories(home, data_home, data_dirs);
    let ghost want = icon_root_list(text::texts(roots@));
    let mut out: Vec<String> = Vec::new();
    let mut i: usize = 0;
    while i < roots.len()
        invariant
            i <= roots@.len(),
            want == icon_root_list(text::texts(roots@)),
            text::texts(out@) == want.take(i as int),
        decreases roots@.len() - i,
    {
        let ghost before = text::texts(out@);
        let mut d = roots[i].clone();
        d.append("/icons");
        assert(text::texts(roots@)[i as int] == roots@[i as int]@);
        out.push(d);
        assert(text::texts(out@) =~= before.push(d@));
        i = i + 1;
        assert(text::texts(out@) =~= want.take(i as int));
    }
    assert(want.take(i as int) =~= want);
    out
}

/// The sizes of an application's own icon, in the order in which they are tried.
pub open spec fn icon_sizes() -> Seq<Seq<char>> {
    seq!["48x48"@, "64x64"@, "32x32"@, "96x96"@, "128x128"@, "256x256"@]
}

fn size_names() -> (r: Vec<String>)
    ensures
        text::texts(r@) == icon_sizes(),
{
    let mut v: Vec<String> = Vec::new();
    v.push("48x48".to_owned());
    v.push("64x64".to_owned());
    v.push("32x32".to_owned());
    v.push("96x96".to_owned());
    v.push("128x128".to_owned());
    v.push("256x256".to_owned());
    assert(text::texts(v@) =~= icon_sizes());
    v
}

/// An application's own icon of a size below a root.
pub open spec fn themed_icon(root: Seq<char>, size: Seq<char>, icon: Seq<char>) -> Seq<char> {
    names::path_join(
        names::path_join(names::path_join(names::path_join(root, "hicolor"@), size), "apps"@),
        icon + ".png"@,
    )
}

/// The icons of a size below the roots.
pub open spec fn icons_of_size(
    roots: Seq<Seq<char>>,
    size: Seq<char>,
    icon: Seq<char>,
) -> Seq<Seq<char>> {
    roots.map_values(|r: Seq<char>| themed_icon(r, size, icon))
}

/// The icons of the sizes below the roots.
pub open spec fn themed_icons(
    roots: Seq<Seq<char>>,
    sizes: Seq<Seq<char>>,
    icon: Seq<char>,
) -> Seq<Seq<char>>
    decreases sizes.len(),
{
    if sizes.len() == 0 {
        seq![]
    } else {
        themed_icons(roots, sizes.drop_last(), icon) + icons_of_size(roots, sizes.last(), icon)
    }
}

/// The files that an icon is first looked for in: the file itself where it is named by
/// its path, else those of the common theme and the shared pictures.
pub open spec fn icon_candidates(icon: Seq<char>, roots: Seq<Seq<char>>) -> Seq<Seq<char>> {
    if icon.len() > 0 && icon[0] == '/' {
        if text::has_suffix(icon, ".png"@) {
            seq![icon]
        } else {
            seq![]
        }
    } else {
        themed_icons(roots, icon_sizes(), icon).push("/usr/share/pixmaps/"@ + icon + ".png"@)
    }
}

fn themed_path(root: &str, size: &str, file: &str) -> (r: String)
    ensures
        r@ == names::path_join(
            names::path_join(
                names::path_join(names::path_join(root@, "hicolor"@), size@),
                "apps"@,
            ),
            file@,
        ),
{
    let a = names::join_path(root, "hicolor");
    let b = names::join_path(a.as_str(), size);
    let c = names::join_path(b.as_str(), "apps");
    names::join_path(c.as_str(), file)
}

/// `icon_candidates`, computed.
pub fn icon_files(icon: &str, roots: &Vec<String>) -> (r: Vec<String>)
    ensures
        text::texts(r@) == icon_candidates(icon@, text::texts(roots@)),
{
    let mut out: Vec<String> = Vec::new();
    let v = text::chars_of(icon);
    if v.len() > 0 && v[0] == '/' {
        if text::ends_with(icon, ".png") {
            out.push(icon.to_owned());
        }
        assert(text::texts(out@) =~= icon_candidates(icon@, text::texts(roots@)));
        return out;
    }
    let mut file = icon.to_owned();
    file.append(".png");
    let sizes = size_names();
    let ghost st = text::texts(sizes@);
    let ghost rt = text::texts(roots@);
    let mut i: usize = 0;
    assert(text::texts(out@) =~= themed_icons(rt, st.take(0), icon@));
    while i < sizes.len()
        invariant
            i <= sizes@.len(),
            st == text::texts(sizes@),
            rt == text::texts(roots@),
            file@ == icon@ + ".png"@,
            text::texts(out@) == themed_icons(rt, st.take(i as int), icon@),
        decreases sizes@.len() - i,
    {
        let ghost before = text::texts(out@);
        let ghost want = icons_of_size(rt, st[i as int], icon@);
        assert(st.take(i + 1).drop_last() =~= st.take(i as int));
        assert(st.take(i + 1).last() == st[i as int]);
        let mut j: usize = 0;
        assert(before + want.take(0) =~= before);
        while j < roots.len()
            invariant
                i < sizes@.len(),
                j <= roots@.len(),
                st == text::texts(sizes@),
                rt == text::texts(roots@),
                file@ == icon@ + ".png"@,
                want == icons_of_size(rt, st[i as int], icon@),
                text::texts(out@) == before + want.take(j as int),
            decreases roots@.len() - j,
        {
            let ghost now = text::texts(out@);
            assert(st[i as int] == sizes@[i as int]@);
            assert(rt[j as int] == roots@[j as int]@);
            let p = themed_path(roots[j].as_str(), sizes[i].as_str(), file.as_str());
            out.push(p);
            assert(text::texts(out@) =~= now.push(p@));
            assert(want[j as int] == p@);
            j = j + 1;
            assert(text::texts(out@) =~= before + want.take(j as int));
        }
        assert(want.take(j as int) =~= want);
        i = i + 1;
    }
    assert(st.take(i as int) =~= st);
    let ghost now = text::texts(out@);
    let mut s = "/usr/share/pixmaps/".to_owned();
    s.append(icon);
    s.append(".png");
    out.push(s);
    assert(text::texts(out@) =~= now.push(s@));
    out
}

/// Is an icon that none of those files had looked for in every theme?
pub fn icon_is_searched(icon: &str) -> (r: bool)
    ensures
        r == !(icon@.len() > 0 && icon@[0] == '/'),
{
    let v = text::chars_of(icon);
    !(v.len() > 0 && v[0] == '/')
}

/// The size that a part of a path names.
pub open spec fn part_size(part: Seq<char>) -> Option<int> {
    match text::unsigned_in(text::fields(part, 'x')[0], u32::MAX as int) {
        Some(n) => if 8 <= n <= 512 { Some(n) } else { None },
        None => None,
    }
}

/// The size that the first part that names one names, else 0.
pub open spec fn first_size(parts: Seq<Seq<char>>) -> int
    decreases parts.len(),
{
    if parts.len() == 0 {
        0
    } else {
        match part_size(parts[0]) {
            Some(n) => n,
            None => first_size(parts.skip(1)),
        }
    }
}

/// How far the size of an icon, by its path, is from the size that is wanted.
pub open spec fn size_distance(path: Seq<char>) -> int {
    let n = first_size(text::fields(path, '/'));
    if n < 48 { 48 - n } else { n - 48 }
}

/// `size_distance`, computed.
pub fn icon_distance(path: &str) -> (r: u32)
    ensures
        r == size_distance(path@),
{
    let parts = text::split(path, '/');
    let ghost t = text::fields(path@, '/');
    let mut i: usize = 0;
    assert(t.skip(0) =~= t);
    while i < parts.len()
        invariant
            i <= parts@.len(),
            text::texts(parts@) == t,
            t == text::fields(path@, '/'),
            first_size(t.skip(i as int)) == first_size(t),
        decreases parts@.len() - i,
    {
        assert(text::texts(parts@)[i as int] == parts@[i as int]@);
        assert(t.skip(i as int)[0] == parts@[i as int]@);
        assert(t.skip(i as int).skip(1) =~= t.skip(i + 1));
        let xs = text::split(parts[i].as_str(), 'x');
        proof {
            text::lemma_fields_nonempty(parts@[i as int]@, 'x');
        }
        assert(text::texts(xs@).len() == xs@.len());
        assert(text::texts(xs@)[0] == xs@[0]@);
        if let Some(n) = text::parse_unsigned(xs[0].as_str(), u32::MAX as u64) {
            if n >= 8 && n <= 512 {
                return if n < 48 {
                    (48 - n) as u32
                } else {
                    (n - 48) as u32
                };
            }
        }
        i = i + 1;
    }
    assert(text::texts(parts@).len() == parts@.len());
    48
}

/// The icon of the wanted size, or the one closest to it; the first of several.
pub fn best_icon(paths: &Vec<String>) -> (r: Option<usize>)
    ensures
        r is None <==> paths@.len() == 0,
        r matches Some(b) ==> {
            &&& b < paths@.len()
            &&& forall|k: int|
                0 <= k < paths@.len() ==> size_distance(paths@[b as int]@) <= size_distance(
                    #[trigger] paths@[k]@,
                )
            &&& forall|k: int|
                0 <= k < b ==> size_distance(paths@[b as int]@) < size_distance(
                    #[trigger] paths@[k]@,
                )
        },
{
    if paths.len() == 0 {
        return None;
    }
    let mut best: usize = 0;
    let mut least = icon_distance(paths[0].as_str());
    let mut i: usize = 1;
    while i < paths.len()
        invariant
            best < i <= paths@.len(),
            least == size_distance(paths@[best as int]@),
            forall|k: int| 0 <= k < i ==> least <= size_distance(#[trigger] paths@[k]@),
            forall|k: int| 0 <= k < best ==> least < size_distance(#[trigger] paths@[k]@),
        decreases paths@.len() - i,
    {
        let d = icon_distance(paths[i].as_str());
        if d < least {
            best = i;
            least = d;
        }
        i = i + 1;
    }
    Some(best)
}

/// The most entries of directories that a search for an icon looks at, and how deep it
/// goes.
pub const SCAN_BUDGET: u32 = 80_000;

pub const SCAN_DEPTH: u32 = 6;

/// Is a directory at this depth looked into?
pub fn scan_enters(depth: u32, budget: u32) -> (r: bool)
    ensures
        r == (depth <= SCAN_DEPTH && budget > 0),
{
    depth <= SCAN_DEPTH && budget > 0
}

/// Takes one entry off the budget; false where none is left.
pub fn scan_takes(budget: &mut u32) -> (r: bool)
    ensures
        r == (*old(budget) > 0),
        *final(budget) == if *old(budget) > 0 { *old(budget) - 1 } else { 0 },
{
    if *budget == 0 {
        return false;
    }
    *budget = *budget - 1;
    true
}

/// An icon is looked for in every size of the common theme below every root, and among
/// the shared pictures; one that is named by its path is only that file.
pub proof fn law_every_size_of_an_icon_is_tried(
    icon: Seq<char>,
    roots: Seq<Seq<char>>,
    s: int,
    k: int,
)
    requires
        0 <= s < 6,
        0 <= k < roots.len(),
        roots[k].len() > 0,
        roots[k].last() != '/',
        icon.len() > 0,
    ensures
        icon[0] != '/' ==> icon_candidates(icon, roots).contains(
            roots[k] + "/hicolor/"@ + icon_sizes()[s] + "/apps/"@ + icon + ".png"@,
        ),
        icon[0] != '/' ==> icon_candidates(icon, roots).contains(
            "/usr/share/pixmaps/"@ + icon + ".png"@,
        ),
        icon[0] == '/' && text::has_suffix(icon, ".png"@) ==> icon_candidates(icon, roots) == seq![icon],
        icon[0] == '/' && !text::has_suffix(icon, ".png"@) ==> icon_candidates(icon, roots).len() == 0,
        icon_sizes().len() == 6,
        icon_sizes().contains("48x48"@),
        icon_sizes().contains("256x256"@),
        icon_sizes()[0] == "48x48"@,
{
    reveal_strlit("hicolor");
    reveal_strlit("/hicolor/");
    reveal_strlit("apps");
    reveal_strlit("/apps/");
    reveal_strlit("48x48");
    reveal_strlit("64x64");
    reveal_strlit("32x32");
    reveal_strlit("96x96");
    reveal_strlit("128x128");
    reveal_strlit("256x256");
    let size = icon_sizes()[s];
    let r = roots[k];
    assert(icon_sizes()[5] == "256x256"@);
    if icon[0] != '/' {
        assert(themed_icon(r, size, icon) =~= r + "/hicolor/"@ + size + "/apps/"@ + icon + ".png"@) by {
            assert(size.len() > 0 && size[0] != '/' && size.last() != '/');
            let a = names::path_join(r, "hicolor"@);
            assert(a == r + seq!['/'] + "hicolor"@);
            assert(a.last() == 'r');
            let b = names::path_join(a, size);
            assert(b == a + seq!['/'] + size);
            assert(b.last() == size.last());
            let c = names::path_join(b, "apps"@);
            assert(c == b + seq!['/'] + "apps"@);
            assert(c.last() == 's');
            assert((icon + ".png"@)[0] == icon[0]);
        }
        lemma_themed(roots, icon_sizes(), icon, s, k);
        let t = themed_icons(roots, icon_sizes(), icon);
        let p = choose|p: int| 0 <= p < t.len() && t[p] == themed_icon(r, size, icon);
        let all = icon_candidates(icon, roots);
        assert(all[p] == t[p]);
        assert(all[t.len() as int] == "/usr/share/pixmaps/"@ + icon + ".png"@);
    }
}

proof fn lemma_themed(roots: Seq<Seq<char>>, sizes: Seq<Seq<char>>, icon: Seq<char>, s: int, k: int)
    requires
        0 <= s < sizes.len(),
        0 <= k < roots.len(),
    ensures
        themed_icons(roots, sizes, icon).contains(themed_icon(roots[k], sizes[s], icon)),
    decreases sizes.len(),
{
    let d = sizes.drop_last();
    let h = themed_icons(roots, d, icon);
    let l = icons_of_size(roots, sizes.last(), icon);
    let all = themed_icons(roots, sizes, icon);
    if s < d.len() {
        lemma_themed(roots, d, icon, s, k);
        assert(d[s] == sizes[s]);
        let p = choose|p: int| 0 <= p < h.len() && h[p] == themed_icon(roots[k], d[s], icon);
        assert(all[p] == h[p]);
    } else {
        assert(l[k] == themed_icon(roots[k], sizes[s], icon));
        assert(all[h.len() + k] == l[k]);
    }
}

/// The size of an icon is that of the first part of its path that names one, and the
/// distance is how much it differs from the size that is wanted, up or down.
pub proof fn law_the_distance_is_that_of_the_size(n: nat, tail: Seq<char>, rest: Seq<char>)
    requires
        8 <= n <= 512,
        !tail.contains('/'),
    ensures
        part_size(text::decimal(n) + seq!['x'] + tail) == Some(n as int),
        size_distance(text::decimal(n) + seq!['x'] + tail + seq!['/'] + rest) == if n >= 48 {
            n - 48
        } else {
            48 - n
        },
{
    let d = text::decimal(n);
    let part = d + seq!['x'] + tail;
    text::lemma_decimal_reads_back(n);
    text::lemma_decimal_parses(n, u32::MAX as int);
    assert(!d.contains('x')) by {
        if d.contains('x') {
            let k = choose|k: int| 0 <= k < d.len() && d[k] == 'x';
            assert(text::is_digit(d[k]));
        }
    }
    text::lemma_fields_cons(d, tail, 'x');
    assert(text::fields(part, 'x')[0] == d);
    assert(!part.contains('/')) by {
        if part.contains('/') {
            let k = choose|k: int| 0 <= k < part.len() && part[k] == '/';
            if k < d.len() {
                assert(text::is_digit(d[k]));
            } else if k > d.len() {
                assert(tail[k - d.len() - 1] == '/');
            }
        }
    }
    text::lemma_fields_cons(part, rest, '/');
    assert(text::fields(part + seq!['/'] + rest, '/')[0] == part);
}

// ---------------------------------------------------------------- pixels ---

/// The step between the samples that bring the longer side down to `max`.
pub open spec fn sample_step(w: int, h: int, max: int) -> int {
    let m = if w > h { w } else { h };
    (m + max - 1) / max
}

/// The length of a side after sampling.
pub open spec fn sampled(side: int, step: int) -> int {
    if side / step < 1 { 1 } else { side / step }
}

/// Does the picture stay as it is?
pub open spec fn fits(w: int, h: int, max: int) -> bool {
    (w <= max && h <= max) || w == 0 || h == 0
}

/// Where the pixel `(x, y)` of the smaller picture is taken from.
pub open spec fn sample_at(w: int, step: int, x: int, y: int) -> int {
    ((y * step) * w + (x * step)) * 4
}

/// The bytes that sampling reads: up to those of its last pixel.
pub open spec fn sample_needs(w: int, h: int, max: int) -> int {
    let s = sample_step(w, h, max);
    sample_at(w, s, sampled(w, s) - 1, sampled(h, s) - 1) + 4
}

/// The picture brought down so that no side is longer than `max`, by taking every
/// `sample_step`th pixel of every `sample_step`th row.
pub open spec fn downscaled(w: int, h: int, rgba: Seq<u8>, max: int) -> (int, int, Seq<u8>) {
    if fits(w, h, max) {
        (w, h, rgba)
    } else {
        let s = sample_step(w, h, max);
        let nw = sampled(w, s);
        let nh = sampled(h, s);
        (
            nw,
            nh,
            Seq::new(
                (nw * nh * 4) as nat,
                |i: int| rgba[sample_at(w, s, (i / 4) % nw, (i / 4) / nw) + i % 4],
            ),
        )
    }
}

proof fn lemma_sample_bound(w: int, s: int, nw: int, nh: int, x: int, y: int)
    requires
        w >= 1,
        s >= 1,
        0 <= x < nw,
        0 <= y < nh,
    ensures
        0 <= y * s <= (nh - 1) * s,
        0 <= x * s <= (nw - 1) * s,
        y * s <= (y * s) * w,
        0 <= (y * s) * w <= ((nh - 1) * s) * w,
        0 <= sample_at(w, s, x, y) <= sample_at(w, s, nw - 1, nh - 1),
{
    assert(0 <= y * s <= (nh - 1) * s) by (nonlinear_arith)
        requires
            0 <= y <= nh - 1,
            s >= 1,
    ;
    assert(0 <= x * s <= (nw - 1) * s) by (nonlinear_arith)
        requires
            0 <= x <= nw - 1,
            s >= 1,
    ;
    let a = y * s;
    let b = (nh - 1) * s;
    assert(0 <= a * w <= b * w && a <= a * w) by (nonlinear_arith)
        requires
            0 <= a <= b,
            w >= 1,
    ;
}

proof fn lemma_step(w: int, h: int, max: int)
    requires
        max > 0,
        w > 0,
        h > 0,
        w > max || h > max,
    ensures
        2 <= sample_step(w, h, max),
        sample_step(w, h, max) <= if w > h { w } else { h },
        1 <= sampled(w, sample_step(w, h, max)) <= max,
        1 <= sampled(h, sample_step(w, h, max)) <= max,
{
    let m = if w > h { w } else { h };
    let s = sample_step(w, h, max);
    let q = m + max - 1;
    vstd::arithmetic::div_mod::lemma_fundamental_div_mod(q, max);
    vstd::arithmetic::div_mod::lemma_mod_bound(q, max);
    assert(s == q / max);
    assert(s >= 2) by (nonlinear_arith)
        requires
            q == max * s + q % max,
            0 <= q % max < max,
            q >= 2 * max,
            max > 0,
    ;
    assert(s * max >= m) by (nonlinear_arith)
        requires
            q == max * s + q % max,
            0 <= q % max < max,
            q == m + max - 1,
    ;
    assert(s <= m) by (nonlinear_arith)
        requires
            q == max * s + q % max,
            0 <= q % max,
            q == m + max - 1,
            max > 0,
            m >= 1,
    ;
    lemma_sampled_bound(w, s, max, m);
    lemma_sampled_bound(h, s, max, m);
}

proof fn lemma_sampled_bound(side: int, s: int, max: int, m: int)
    requires
        0 < side <= m,
        s >= 2,
        max > 0,
        s * max >= m,
    ensures
        1 <= sampled(side, s) <= max,
{
    vstd::arithmetic::div_mod::lemma_fundamental_div_mod(side, s);
    vstd::arithmetic::div_mod::lemma_mod_bound(side, s);
    let q = side / s;
    assert(q <= max) by (nonlinear_arith)
        requires
            side == s * q + side % s,
            0 <= side % s,
            side <= s * max,
            s >= 2,
    ;
}

/// Downscaling leaves no side longer than `max`.
pub proof fn law_a_downscaled_picture_fits(w: int, h: int, rgba: Seq<u8>, max: int)
    requires
        w >= 0,
        h >= 0,
        max > 0,
        w > 0 && h > 0,
    ensures
        downscaled(w, h, rgba, max).0 <= max,
        downscaled(w, h, rgba, max).1 <= max,
        !fits(w, h, max) ==> downscaled(w, h, rgba, max).2.len() == downscaled(w, h, rgba, max).0
            * downscaled(w, h, rgba, max).1 * 4,
{
    if !fits(w, h, max) {
        lemma_step(w, h, max);
        let s = sample_step(w, h, max);
        let nw = sampled(w, s);
        let nh = sampled(h, s);
        assert(nw * nh * 4 >= 0) by (nonlinear_arith)
            requires
                nw >= 1,
                nh >= 1,
        ;
    }
}

/// Each pixel of the smaller picture is a pixel of the larger one: that at the same place,
/// counted in the one step that brings the longer side down to `max`. A picture that fits
/// stays as it is.
pub proof fn law_a_smaller_picture_shows_the_same(
    w: int,
    h: int,
    rgba: Seq<u8>,
    max: int,
    s: int,
    x: int,
    y: int,
    c: int,
)
    requires
        w > 0,
        h > 0,
        max > 0,
        (s - 1) * max < w || (s - 1) * max < h,
        w <= s * max,
        h <= s * max,
        0 <= x < downscaled(w, h, rgba, max).0,
        0 <= y < downscaled(w, h, rgba, max).1,
        0 <= c < 4,
    ensures
        w <= max && h <= max ==> downscaled(w, h, rgba, max) == (w, h, rgba),
        w > max || h > max ==> {
            let d = downscaled(w, h, rgba, max);
            &&& d.2[(y * d.0 + x) * 4 + c] == rgba[((y * s) * w + x * s) * 4 + c]
            &&& d.0 == if w < s { 1 } else { w / s }
            &&& d.1 == if h < s { 1 } else { h / s }
        },
{
    if !fits(w, h, max) {
        let m = if w > h { w } else { h };
        assert(sample_step(w, h, max) == s) by {
            lemma_ceiling(m, max, s);
        }
        lemma_step(w, h, max);
        let d = downscaled(w, h, rgba, max);
        let i = (y * d.0 + x) * 4 + c;
        lemma_pixel_index(d.0, d.1, x, y, c);
        lemma_quotient(w, s);
        lemma_quotient(h, s);
    }
}

proof fn lemma_quotient(a: int, s: int)
    requires
        a > 0,
        s > 0,
    ensures
        a < s <==> a / s < 1,
{
    vstd::arithmetic::div_mod::lemma_fundamental_div_mod(a, s);
    vstd::arithmetic::div_mod::lemma_mod_bound(a, s);
    let q = a / s;
    if a < s {
        vstd::arithmetic::div_mod::lemma_small_mod(a as nat, s as nat);
        vstd::arithmetic::div_mod::lemma_basic_div(a, s);
    } else if q < 1 {
        assert(s * q <= 0) by (nonlinear_arith)
            requires
                s > 0,
                q < 1,
        ;
    }
}

proof fn lemma_ceiling(m: int, max: int, s: int)
    requires
        m > 0,
        max > 0,
        (s - 1) * max < m <= s * max,
    ensures
        (m + max - 1) / max == s,
{
    let r = m + max - 1 - s * max;
    assert((s - 1) * max == s * max - max) by (nonlinear_arith);
    assert(0 <= r < max);
    assert(m + max - 1 == s * max + r);
    vstd::arithmetic::div_mod::lemma_fundamental_div_mod_converse(m + max - 1, max, s, r);
}

proof fn lemma_pixel_index(nw: int, nh: int, x: int, y: int, c: int)
    requires
        0 <= x < nw,
        0 <= y < nh,
        0 <= c < 4,
    ensures
        ({
            let i = (y * nw + x) * 4 + c;
            &&& 0 <= i < nw * nh * 4
            &&& i / 4 == y * nw + x
            &&& i % 4 == c
            &&& (i / 4) % nw == x
            &&& (i / 4) / nw == y
        }),
{
    let p = y * nw + x;
    assert(0 <= p < nw * nh) by (nonlinear_arith)
        requires
            0 <= x < nw,
            0 <= y < nh,
            p == y * nw + x,
    ;
    vstd::arithmetic::div_mod::lemma_fundamental_div_mod_converse(p, nw, y, x);
}

/// A whole picture has every byte that downscaling reads.
pub proof fn law_a_whole_picture_can_be_downscaled(w: int, h: int, max: int)
    requires
        w > 0,
        h > 0,
        max > 0,
        !fits(w, h, max),
    ensures
        sample_needs(w, h, max) <= w * h * 4,
{
    lemma_step(w, h, max);
    let s = sample_step(w, h, max);
    let nw = sampled(w, s);
    let nh = sampled(h, s);
    lemma_last_sample(w, s);
    lemma_last_sample(h, s);
    let x = (nw - 1) * s;
    let y = (nh - 1) * s;
    assert(y * w + x + 1 <= w * h) by (nonlinear_arith)
        requires
            0 <= y <= h - 1,
            0 <= x <= w - 1,
    ;
}

proof fn lemma_last_sample(side: int, s: int)
    requires
        side > 0,
        s >= 2,
    ensures
        0 <= (sampled(side, s) - 1) * s <= side - 1,
{
    vstd::arithmetic::div_mod::lemma_fundamental_div_mod(side, s);
    vstd::arithmetic::div_mod::lemma_mod_bound(side, s);
    let q = side / s;
    if q >= 1 {
        assert(0 <= (q - 1) * s <= side - 1) by (nonlinear_arith)
            requires
                side == s * q + side % s,
                0 <= side % s,
                q >= 1,
                s >= 2,
        ;
    } else {
        assert((1 - 1) * s == 0) by (nonlinear_arith);
    }
}

/// `downscaled`, computed.
pub fn downscale_max(w: u32, h: u32, rgba: Vec<u8>, max: u32) -> (r: (u32, u32, Vec<u8>))
    requires
        fits(w as int, h as int, max as int) || (max > 0 && sample_needs(
            w as int,
            h as int,
            max as int,
        ) <= rgba@.len()),
    ensures
        (r.0 as int, r.1 as int, r.2@) == downscaled(w as int, h as int, rgba@, max as int),
{
    if (w <= max && h <= max) || w == 0 || h == 0 {
        return (w, h, rgba);
    }
    let m: u64 = if w > h { w as u64 } else { h as u64 };
    let step: u64 = (m + max as u64 - 1) / max as u64;
    let ghost s = step as int;
    proof {
        lemma_step(w as int, h as int, max as int);
        assert(s == sample_step(w as int, h as int, max as int));
    }
    let a: u64 = w as u64 / step;
    let b: u64 = h as u64 / step;
    let nw: u64 = if a < 1 { 1 } else { a };
    let nh: u64 = if b < 1 { 1 } else { b };
    assert(nw == sampled(w as int, s));
    assert(nh == sampled(h as int, s));
    let ghost want = downscaled(w as int, h as int, rgba@, max as int).2;
    let ghost last = sample_at(w as int, s, nw - 1, nh - 1);
    proof {
        lemma_sample_bound(w as int, s, nw as int, nh as int, nw - 1, nh - 1);
        assert(nw * nh * 4 >= 0) by (nonlinear_arith)
            requires
                nw >= 1,
                nh >= 1,
        ;
        assert(want.len() == nw * nh * 4);
    }
    let len: usize = rgba.len();
    let mut out: Vec<u8> = Vec::new();
    let mut y: u64 = 0;
    assert(out@ =~= want.take(0));
    while y < nh
        invariant
            y <= nh,
            w > 0,
            1 <= nw,
            1 <= nh,
            2 <= step,
            s == step,
            last == sample_at(w as int, s, nw - 1, nh - 1),
            last + 4 <= len,
                len == rgba@.len(),
            want.len() == nw * nh * 4,
            forall|i: int|
                0 <= i < nw * nh * 4 ==> want[i] == rgba@[sample_at(
                    w as int,
                    s,
                    (i / 4) % (nw as int),
                    (i / 4) / (nw as int),
                ) + i % 4],
            out@ == want.take(y * nw * 4),
        decreases nh - y,
    {
        let mut x: u64 = 0;
        proof {
            lemma_rows(nw as int, nh as int, y as int);
        }
        while x < nw
            invariant
                x <= nw,
                y < nh,
                w > 0,
                1 <= nw,
                1 <= nh,
                2 <= step,
                s == step,
                last == sample_at(w as int, s, nw - 1, nh - 1),
                last + 4 <= len,
                len == rgba@.len(),
                want.len() == nw * nh * 4,
                0 <= y * nw,
                (y + 1) * nw * 4 <= want.len(),
                (y + 1) * nw == y * nw + nw,
                forall|i: int|
                    0 <= i < nw * nh * 4 ==> want[i] == rgba@[sample_at(
                        w as int,
                        s,
                        (i / 4) % (nw as int),
                        (i / 4) / (nw as int),
                    ) + i % 4],
                out@ == want.take((y * nw + x) * 4),
            decreases nw - x,
        {
            proof {
                lemma_sample_bound(w as int, s, nw as int, nh as int, x as int, y as int);
                lemma_pixel(nw as int, x as int, y as int);
            }
            let ys: u64 = y * step;
            let xs: u64 = x * step;
            let src: usize = ((ys * w as u64 + xs) * 4) as usize;
            let ghost base = (y * nw + x) * 4;
            let ghost before = out@;
            assert(src == sample_at(w as int, s, x as int, y as int));
            out.push(rgba[src]);
            out.push(rgba[src + 1]);
            out.push(rgba[src + 2]);
            out.push(rgba[src + 3]);
            proof {
                assert(base + 4 <= nw * nh * 4);
                assert(want[base] == rgba@[src as int]);
                assert(want[base + 1] == rgba@[src + 1]);
                assert(want[base + 2] == rgba@[src + 2]);
                assert(want[base + 3] == rgba@[src + 3]);
                assert(out@ =~= want.take(base + 4));
            }
            x = x + 1;
        }
        y = y + 1;
    }
    proof {
        assert(y * nw * 4 == nw * nh * 4) by (nonlinear_arith)
            requires
                y == nh,
        ;
        assert(want.take(y * nw * 4) =~= want);
    }
    (nw as u32, nh as u32, out)
}

proof fn lemma_rows(nw: int, nh: int, y: int)
    requires
        nw >= 1,
        0 <= y < nh,
    ensures
        0 <= y * nw,
        (y + 1) * nw == y * nw + nw,
        (y + 1) * nw * 4 <= nw * nh * 4,
{
    assert(0 <= y * nw) by (nonlinear_arith)
        requires
            0 <= y,
            nw >= 1,
    ;
    assert((y + 1) * nw == y * nw + nw) by (nonlinear_arith);
    assert((y + 1) * nw <= nw * nh) by (nonlinear_arith)
        requires
            y + 1 <= nh,
            nw >= 1,
    ;
}

proof fn lemma_pixel(nw: int, x: int, y: int)
    requires
        nw >= 1,
        0 <= x < nw,
        0 <= y,
    ensures
        ({
            let b = (y * nw + x) * 4;
            &&& (b / 4) % nw == x
            &&& (b / 4) / nw == y
            &&& b % 4 == 0
            &&& (b + 1) / 4 == b / 4
            &&& (b + 1) % 4 == 1
            &&& (b + 2) / 4 == b / 4
            &&& (b + 2) % 4 == 2
            &&& (b + 3) / 4 == b / 4
            &&& (b + 3) % 4 == 3
        }),
{
    let p = y * nw + x;
    assert(p % nw == x && p / nw == y) by {
        vstd::arithmetic::div_mod::lemma_fundamental_div_mod_converse(p, nw, y, x);
    }
}

/// `eframe::icon_data::from_png_bytes`: the width, the height and the bytes of the
/// picture, or nothing where the bytes are no picture.
pub uninterp spec fn png_picture(png: Seq<u8>) -> Option<(u32, u32, Seq<u8>)>;

/// `eframe::icon_data::from_png_bytes`: the picture, under its name.
#[verifier::external_body]
fn decode_png(png: &[u8]) -> (r: Option<(u32, u32, Vec<u8>)>)
    ensures
        r is Some <==> png_picture(png@) is Some,
        r matches Some((w, h, p)) ==> png_picture(png@) == Some((w, h, p@)),
{
    match eframe::icon_data::from_png_bytes(png) {
        Ok(d) => Some((d.width, d.height, d.rgba)),
        Err(_) => None,
    }
}

/// The longest side of a published icon.
pub const ICON_SIDE: u32 = 64;

/// The picture of a file, in its own size.
pub fn whole_picture(png: &[u8]) -> (r: Option<(u32, u32, Vec<u8>)>)
    ensures
        picture_bytes(r) == png_picture(png@),
{
    decode_png(png)
}

/// The bytes of a picture.
pub open spec fn picture_bytes(p: Option<(u32, u32, Vec<u8>)>) -> Option<(u32, u32, Seq<u8>)> {
    match p {
        Some((w, h, b)) => Some((w, h, b@)),
        None => None,
    }
}

/// The icon that a picture makes: nothing where it lacks bytes.
pub open spec fn icon_from(p: Option<(u32, u32, Seq<u8>)>) -> Option<(int, int, Seq<u8>)> {
    match p {
        Some((w, h, b)) => if fits(w as int, h as int, ICON_SIDE as int) || sample_needs(
            w as int,
            h as int,
            ICON_SIDE as int,
        ) <= b.len() {
            Some(downscaled(w as int, h as int, b, ICON_SIDE as int))
        } else {
            None
        },
        None => None,
    }
}

/// `icon_from`, computed.
pub fn icon_of(picture: Option<(u32, u32, Vec<u8>)>) -> (r: Option<(u32, u32, Vec<u8>)>)
    ensures
        r is Some <==> icon_from(picture_bytes(picture)) is Some,
        r matches Some((w, h, p)) ==> icon_from(picture_bytes(picture)) == Some(
            (w as int, h as int, p@),
        ),
{
    match picture {
        Some((w, h, p)) => {
            if (w <= ICON_SIDE && h <= ICON_SIDE) || w == 0 || h == 0 {
                return Some(downscale_max(w, h, p, ICON_SIDE));
            }
            let m: u128 = if w > h { w as u128 } else { h as u128 };
            let step: u128 = (m + 63) / 64;
            proof {
                lemma_step(w as int, h as int, 64);
                lemma_last_sample(w as int, step as int);
                lemma_last_sample(h as int, step as int);
            }
            let a: u128 = w as u128 / step;
            let b: u128 = h as u128 / step;
            let nw: u128 = if a < 1 { 1 } else { a };
            let nh: u128 = if b < 1 { 1 } else { b };
            let xs: u128 = (nw - 1) * step;
            let ys: u128 = (nh - 1) * step;
            proof {
                assert(ys * w <= 0xffff_ffff * 0xffff_ffff) by (nonlinear_arith)
                    requires
                        0 <= ys <= 0xffff_ffff,
                        0 <= w <= 0xffff_ffff,
                ;
            }
            let need: u128 = (ys * w as u128 + xs) * 4 + 4;
            assert(need == sample_needs(w as int, h as int, 64));
            if need <= p.len() as u128 {
                Some(downscale_max(w, h, p, ICON_SIDE))
            } else {
                None
            }
        },
        None => None,
    }
}

/// The icon of a file: its picture, brought down to the size of an icon.
pub fn icon_rgba(png: &[u8]) -> (r: Option<(u32, u32, Vec<u8>)>)
    ensures
        r is Some <==> icon_from(png_picture(png@)) is Some,
        r matches Some((w, h, p)) ==> icon_from(png_picture(png@)) == Some((w as int, h as int, p@)),
{
    let picture = decode_png(png);
    icon_of(picture)
}

/// Nothing is offered where nothing is configured, and where anything is the defaults are,
/// with an editor and a terminal among them; every type that is probed counts.
pub proof fn law_nothing_is_offered_where_nothing_is_configured(
    answers: Seq<Told>,
    installed: Seq<Seq<char>>,
    target: Option<Seq<char>>,
    n: nat,
    i: int,
)
    requires
        n <= answers.len(),
    ensures
        (forall|k: int| 0 <= k < n ==> #[trigger] answers[k] is Unset) ==> suggested(
            answers,
            installed,
            target,
            n,
        ).len() == 0,
        0 <= i < n && !(answers[i] is Unset) ==> suggested(answers, installed, target, n) == filled(
            default_offers(answers, installed, n),
            installed,
            target,
        ),
        answered(6) == 6,
        answered(n) <= 6,
        n <= 6 ==> answered(n) == n,
{
}

/// The id of a desktop file is a plain name with its ending.
pub proof fn law_an_id_is_a_plain_name(name: Seq<char>, id: Seq<char>)
    ensures
        !name.contains('/') ==> is_desktop_id(name + ".desktop"@),
        is_desktop_id(id) ==> !id.contains('/') && text::has_suffix(id, ".desktop"@),
        id.contains('/') ==> !is_desktop_id(id),
        !is_desktop_id(seq![]),
{
    reveal_strlit(".desktop");
    let s = name + ".desktop"@;
    assert(s.skip(s.len() - 8) =~= ".desktop"@);
    if !name.contains('/') && s.contains('/') {
        let k = choose|k: int| 0 <= k < s.len() && s[k] == '/';
        if k < name.len() {
            assert(name[k] == '/');
        } else {
            assert(".desktop"@[k - name.len()] == '/');
        }
    }
}

/// Desktop files and icons are kept below every directory of data, each below its own.
pub proof fn law_every_directory_of_data_is_used(roots: Seq<Seq<char>>, i: int)
    requires
        0 <= i < roots.len(),
        roots[i].len() > 0,
        roots[i].last() != '/',
    ensures
        application_roots(roots).len() == roots.len(),
        application_roots(roots)[i] == roots[i] + "/applications"@,
        icon_root_list(roots).len() == roots.len(),
        icon_root_list(roots)[i] == roots[i] + "/icons"@,
{
    reveal_strlit("applications");
    reveal_strlit("/applications");
    assert(application_roots(roots)[i] =~= roots[i] + "/applications"@);
}

/// A whole picture makes an icon that fits: a small one as it is, and a larger one brought
/// down; bytes that are no picture make none.
pub proof fn law_a_whole_picture_makes_an_icon(w: u32, h: u32, b: Seq<u8>)
    requires
        w > 0,
        h > 0,
        b.len() == w * h * 4,
    ensures
        icon_from(Some((w, h, b))) is Some,
        (icon_from(Some((w, h, b)))->0).0 <= 64,
        (icon_from(Some((w, h, b)))->0).1 <= 64,
        w <= 64 && h <= 64 ==> icon_from(Some((w, h, b))) == Some((w as int, h as int, b)),
        icon_from(None) is None,
{
    if !fits(w as int, h as int, 64) {
        law_a_whole_picture_can_be_downscaled(w as int, h as int, 64);
    }
    law_a_downscaled_picture_fits(w as int, h as int, b, 64);
}

/// The program of a command line is its first word without the directory; a line that
/// starts with a placeholder has none.
pub proof fn law_a_line_starts_its_program(dir: Seq<char>, program: Seq<char>, args: Seq<char>, rest: Seq<char>)
    requires
        is_program_line(dir, program, args),
        forall|k: int| 0 <= k < rest.len() ==> !text::is_space(#[trigger] rest[k]),
        !rest.contains('/'),
    ensures
        line_program(dir + program + args) == program,
        line_program(seq!['%'] + rest).len() == 0,
        line_program(seq![]).len() == 0,
{
    lemma_program_of_line(dir, program, args);
    let s = seq!['%'] + rest;
    assert forall|k: int| 0 <= k < s.len() implies !text::is_space(#[trigger] s[k]) by {
        if k > 0 {
            assert(s[k] == rest[k - 1]);
        }
    }
    text::lemma_first_space(s, s.len() as int);
    assert(s.take(s.len() as int) =~= s);
    assert(!s.contains('/')) by {
        if s.contains('/') {
            let k = choose|k: int| 0 <= k < s.len() && s[k] == '/';
            assert(rest[k - 1] == '/');
        }
    }
    text::lemma_fields_one(s, '/');
    let e: Seq<char> = seq![];
    assert(!e.contains('/'));
    text::lemma_fields_one(e, '/');
}

/// An icon whose path names no size is as far from the wanted size as one of no size.
pub proof fn law_an_icon_without_a_size_is_far(path: Seq<char>)
    requires
        forall|i: int| 0 <= i < text::fields(path, '/').len() ==> part_size(#[trigger] text::fields(path, '/')[i]) is None,
    ensures
        size_distance(path) == 48,
{
    lemma_no_size(text::fields(path, '/'));
}

proof fn lemma_no_size(parts: Seq<Seq<char>>)
    requires
        forall|i: int| 0 <= i < parts.len() ==> part_size(#[trigger] parts[i]) is None,
    ensures
        first_size(parts) == 0,
    decreases parts.len(),
{
    if parts.len() > 0 {
        assert(part_size(parts[0]) is None);
        let t = parts.skip(1);
        assert forall|i: int| 0 <= i < t.len() implies part_size(#[trigger] t[i]) is None by {
            assert(t[i] == parts[i + 1]);
        }
        lemma_no_size(t);
    }
}

/// A key without a value is passed over for a later line of that key, and an entry whose
/// icon has no name gives none.
pub proof fn law_an_empty_value_is_passed_over(
    key: Seq<char>,
    v: Seq<char>,
    rest: Seq<Seq<char>>,
    body: Seq<char>,
    command: Seq<char>,
)
    ensures
        text::trimmed(v).len() == 0 ==> key_value(seq![key + v] + rest, key) == key_value(rest, key),
        text::trimmed(v).len() > 0 ==> key_value(seq![key + v] + rest, key) == text::trimmed(v),
        icon_in(body, command) matches Some(i) ==> i.len() > 0,
{
    let ls = seq![key + v] + rest;
    assert(ls[0] == key + v);
    assert(ls.skip(1) =~= rest);
    assert((key + v).take(key.len() as int) =~= key);
    assert((key + v).skip(key.len() as int) =~= v);
    assert(key.is_prefix_of(key + v));
}

/// An offer counts for its category, its command and its program, wherever in the list it
/// stands; where no offer has them they are not offered.
pub proof fn law_an_offer_counts_wherever_it_stands(before: Seq<Offer>, o: Offer, behind: Seq<Offer>, c: Seq<char>)
    ensures
        category_offered(before + seq![o] + behind, o.category),
        command_offered(before + seq![o] + behind, o.command),
        program_offered(before + seq![o] + behind, o.command),
        path::base_name(c) == path::base_name(o.command) ==> program_offered(before + seq![o] + behind, c),
        category_offered(seq![o], c) ==> o.category == c,
        command_offered(seq![o], c) ==> o.command == c,
        program_offered(seq![o], c) ==> path::base_name(o.command) == path::base_name(c),
        !category_offered(seq![], c),
        !command_offered(seq![], c),
        !program_offered(seq![], c),
{
    let os = before + seq![o] + behind;
    assert(os[before.len() as int] == o);
}

/// Where a text editor is offered already no other one is added, and neither is a program
/// that is offered.
pub proof fn law_one_editor_is_enough(os: Seq<Offer>, installed: Seq<Seq<char>>, i: int)
    requires
        0 <= i < os.len(),
    ensures
        os[i].category == "text editor"@ ==> with_editor(os, installed) == os,
        with_editor(os, installed).len() <= os.len() + 1,
        with_editor(os, installed).take(os.len() as int) == os,
        (forall|k: int| 0 <= k < editor_list().len() ==> !installed.contains((#[trigger] editor_list()[k]).1))
            ==> with_editor(os, installed) == os,
{
    lemma_none_installed(editor_list(), installed);
    assert(with_editor(os, installed).take(os.len() as int) =~= os);
}

proof fn lemma_none_installed(list: Seq<(Seq<char>, Seq<char>)>, installed: Seq<Seq<char>>)
    ensures
        (forall|k: int| 0 <= k < list.len() ==> !installed.contains((#[trigger] list[k]).1))
            ==> first_of_installed(list, installed) is None,
    decreases list.len(),
{
    if list.len() > 0 && forall|k: int| 0 <= k < list.len() ==> !installed.contains((#[trigger] list[k]).1) {
        assert(!installed.contains(list[0].1));
        let t = list.skip(1);
        assert forall|k: int| 0 <= k < t.len() implies !installed.contains((#[trigger] t[k]).1) by {
            assert(t[k] == list[k + 1]);
        }
        lemma_none_installed(t, installed);
    }
}

/// Each known editor and terminal is looked for under its own command, the better known
/// before the others: where one is the only one installed it is the one that is offered.
pub proof fn law_every_known_program_is_found(k: int)
    ensures
        first_of_installed(editor_list(), seq!["kate"@]) == Some(("Kate"@, "kate"@)),
        first_of_installed(editor_list(), seq!["gnome-text-editor"@]) == Some(
            ("Text Editor"@, "gnome-text-editor"@),
        ),
        first_of_installed(editor_list(), seq!["gedit"@]) == Some(("gedit"@, "gedit"@)),
        first_of_installed(editor_list(), seq!["mousepad"@]) == Some(("Mousepad"@, "mousepad"@)),
        first_of_installed(editor_list(), seq!["kwrite"@]) == Some(("KWrite"@, "kwrite"@)),
        first_of_installed(terminal_list(), seq!["x-terminal-emulator"@]) == Some(
            ("Terminal"@, "x-terminal-emulator"@),
        ),
        first_of_installed(terminal_list(), seq!["konsole"@]) == Some(("Konsole"@, "konsole"@)),
        first_of_installed(terminal_list(), seq!["gnome-terminal"@]) == Some(
            ("GNOME Terminal"@, "gnome-terminal"@),
        ),
        first_of_installed(terminal_list(), seq!["alacritty"@]) == Some(("Alacritty"@, "alacritty"@)),
        first_of_installed(terminal_list(), seq!["kitty"@]) == Some(("kitty"@, "kitty"@)),
        first_of_installed(terminal_list(), seq!["xterm"@]) == Some(("xterm"@, "xterm"@)),
        0 <= k < editor_list().len() ==> first_of_installed(
            editor_list(),
            editor_list().map_values(|p: (Seq<char>, Seq<char>)| p.1).skip(k),
        ) == Some(editor_list()[k]),
{
    reveal_strlit("kate");
    reveal_strlit("gnome-text-editor");
    reveal_strlit("gedit");
    reveal_strlit("mousepad");
    reveal_strlit("kwrite");
    reveal_strlit("x-terminal-emulator");
    reveal_strlit("konsole");
    reveal_strlit("gnome-terminal");
    reveal_strlit("alacritty");
    reveal_strlit("kitty");
    reveal_strlit("xterm");
    assert("kate"@.len() == 4 && "gnome-text-editor"@.len() == 17 && "gedit"@.len() == 5);
    assert("mousepad"@.len() == 8 && "kwrite"@.len() == 6);
    assert("x-terminal-emulator"@.len() == 19 && "konsole"@.len() == 7 && "gnome-terminal"@.len() == 14);
    assert("alacritty"@.len() == 9 && "kitty"@.len() == 5 && "xterm"@.len() == 5);
    assert("kitty"@[0] == 'k' && "xterm"@[0] == 'x');
    let e = editor_list();
    let t = terminal_list();
    assert forall|i: int| 0 <= i < e.len() implies first_of_installed(e, seq![(#[trigger] e[i]).1]) == Some(e[i]) by {
        let one = seq![e[i].1];
        assert(one[0] == e[i].1);
        lemma_first_is(e, one, i);
    }
    assert forall|i: int| 0 <= i < t.len() implies first_of_installed(t, seq![(#[trigger] t[i]).1]) == Some(t[i]) by {
        let one = seq![t[i].1];
        assert(one[0] == t[i].1);
        lemma_first_is(t, one, i);
    }
    assert(e[0] == ("Kate"@, "kate"@) && e[1] == ("Text Editor"@, "gnome-text-editor"@));
    assert(e[2] == ("gedit"@, "gedit"@) && e[3] == ("Mousepad"@, "mousepad"@) && e[4] == ("KWrite"@, "kwrite"@));
    assert(t[0] == ("Terminal"@, "x-terminal-emulator"@) && t[1] == ("Konsole"@, "konsole"@));
    assert(t[2] == ("GNOME Terminal"@, "gnome-terminal"@) && t[3] == ("Alacritty"@, "alacritty"@));
    assert(t[4] == ("kitty"@, "kitty"@) && t[5] == ("xterm"@, "xterm"@));
    if 0 <= k < e.len() {
        let all = e.map_values(|p: (Seq<char>, Seq<char>)| p.1);
        let from = all.skip(k);
        assert(from[0] == e[k].1);
        assert forall|m: int| 0 <= m < k implies !from.contains((#[trigger] e[m]).1) by {
            assert forall|q: int| 0 <= q < from.len() implies from[q] != e[m].1 by {
                assert(from[q] == e[k + q].1);
            }
        }
        lemma_first_is(e, from, k);
    }
}

/// A desktop file without a name goes by its program, and one without a program is none.
pub proof fn law_an_entry_without_a_name_goes_by_its_program(body: Seq<char>)
    ensures
        ({
            let ls = entry_lines(text::lines(body), false);
            let p = entry_program(ls);
            &&& p.len() == 0 ==> desktop_app(body) is None
            &&& p.len() > 0 && key_value(ls, "Name="@).len() == 0 ==> desktop_app(body) == Some((p, p))
            &&& desktop_app(body) matches Some(d) ==> d.0.len() > 0 && d.1.len() > 0
        }),
{
}

} // verus!
