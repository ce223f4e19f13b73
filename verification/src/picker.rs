//! The window in which applications are enabled.

use vstd::prelude::*;

use crate::apps::{app_texts, App, AppText};
use crate::config::{app_keys_distinct, programs_distinct};
use crate::detect::{offers, Offer, Suggestion};
use crate::names;
use crate::path;
use crate::text;

verus! {

// ------------------------------------------------------------------ keys ---

/// A character that a key may hold.
pub open spec fn is_key_char(c: char) -> bool {
    text::is_digit(c) || text::is_lower(c) || c == '-' || c == '_'
}

/// The key that a command is given where it is free.
pub open spec fn key_base(command: Seq<char>) -> Seq<char> {
    let m = text::low_text(path::base_name(command)).map_values(
        |c: char| if is_key_char(c) { c } else { '-' },
    );
    let t = text::strip_ends(m, |c: char| c == '-');
    if t.len() == 0 { "app"@ } else { t }
}

/// `key_base`, computed.
fn base_key(command: &str) -> (r: String)
    ensures
        r@ == key_base(command@),
{
    let b = path::basename(command);
    let l = text::lower_text(b.as_str());
    let v = text::chars_of(l.as_str());
    let ghost want = l@.map_values(|c: char| if is_key_char(c) { c } else { '-' });
    let mut m: Vec<char> = Vec::new();
    let mut i: usize = 0;
    while i < v.len()
        invariant
            i <= v@.len(),
            v@ == l@,
            want == l@.map_values(|c: char| if is_key_char(c) { c } else { '-' }),
            m@ == want.take(i as int),
        decreases v@.len() - i,
    {
        let c = v[i];
        let ghost before = m@;
        if ('0' <= c && c <= '9') || ('a' <= c && c <= 'z') || c == '-' || c == '_' {
            m.push(c);
        } else {
            m.push('-');
        }
        i = i + 1;
        assert(m@ =~= want.take(i as int));
    }
    assert(want.take(i as int) =~= want);
    let ghost p = |c: char| c == '-';
    let mut a: usize = 0;
    while a < m.len() && m[a] == '-'
        invariant
            a <= m@.len(),
            forall|k: int| 0 <= k < a ==> m@[k] == '-',
        decreases m@.len() - a,
    {
        a = a + 1;
    }
    let mut e: usize = m.len();
    while e > a && m[e - 1] == '-'
        invariant
            a <= e <= m@.len(),
            forall|k: int| e <= k < m@.len() ==> m@[k] == '-',
        decreases e,
    {
        e = e - 1;
    }
    proof {
        if a == e && a < m@.len() {
            assert(m@[a as int] == '-');
        }
        text::lemma_strip_ends(m@, p, a as int, e as int);
    }
    if a == e {
        "app".to_owned()
    } else {
        text::string_of(&m, a, e)
    }
}

/// Is `k` the key for a base: the base itself, or with the first free number from 2 on?
pub open spec fn is_free_key(base: Seq<char>, taken: Seq<Seq<char>>, k: Seq<char>) -> bool {
    if taken.contains(base) {
        exists|n: nat| #[trigger]
            numbered_free(base, taken, n) && k == names::numbered(base, n)
    } else {
        k == base
    }
}

/// Is `n` the first number from 2 on whose name is free?
pub open spec fn numbered_free(base: Seq<char>, taken: Seq<Seq<char>>, n: nat) -> bool {
    &&& n >= 2
    &&& !taken.contains(names::numbered(base, n))
    &&& forall|m: nat| 2 <= m < n ==> taken.contains(#[trigger] names::numbered(base, m))
}

proof fn lemma_numbered_distinct(base: Seq<char>, m: nat, n: nat)
    requires
        names::numbered(base, m) == names::numbered(base, n),
    ensures
        m == n,
{
    let a = names::numbered(base, m);
    let b = names::numbered(base, n);
    let k = base.len() as int + 1;
    assert(a.skip(k) =~= text::decimal(m));
    assert(b.skip(k) =~= text::decimal(n));
    text::lemma_decimal_reads_back(m);
    text::lemma_decimal_reads_back(n);
}

/// The numbered names from 2 to `n`.
spec fn numbered_names(base: Seq<char>, n: nat) -> Set<Seq<char>>
    decreases n,
{
    if n < 2 {
        Set::empty()
    } else {
        numbered_names(base, (n - 1) as nat).insert(names::numbered(base, n))
    }
}

proof fn lemma_numbered_names(base: Seq<char>, n: nat, taken: Seq<Seq<char>>)
    requires
        forall|m: nat| 2 <= m <= n ==> taken.contains(#[trigger] names::numbered(base, m)),
    ensures
        numbered_names(base, n).finite(),
        numbered_names(base, n).len() == if n < 2 { 0 } else { (n - 1) as nat },
        numbered_names(base, n).subset_of(taken.to_set()),
        forall|s: Seq<char>| #[trigger]
            numbered_names(base, n).contains(s) ==> exists|m: nat|
                2 <= m <= n && s == #[trigger] names::numbered(base, m),
    decreases n,
{
    if n >= 2 {
        let h = (n - 1) as nat;
        lemma_numbered_names(base, h, taken);
        let s = names::numbered(base, n);
        if numbered_names(base, h).contains(s) {
            let m = choose|m: nat| 2 <= m <= h && s == #[trigger] names::numbered(base, m);
            lemma_numbered_distinct(base, m, n);
        }
        assert(taken.contains(s));
        assert(taken.to_set().contains(s));
        assert forall|t: Seq<char>| #[trigger] numbered_names(base, n).contains(t) implies exists|
            m: nat,
        |
            2 <= m <= n && t == #[trigger] names::numbered(base, m) by {
            if t == s {
                assert(t == names::numbered(base, n));
            } else {
                let m = choose|m: nat| 2 <= m <= h && t == #[trigger] names::numbered(base, m);
                assert(t == names::numbered(base, m));
            }
        }
    }
}

/// Among one more numbered name than there are taken ones, one is free.
proof fn lemma_some_number_is_free(base: Seq<char>, taken: Seq<Seq<char>>)
    ensures
        !(forall|m: nat|
            2 <= m <= taken.len() + 2 ==> taken.contains(#[trigger] names::numbered(base, m))),
{
    if forall|m: nat|
        2 <= m <= taken.len() + 2 ==> taken.contains(#[trigger] names::numbered(base, m)) {
        let n = (taken.len() + 2) as nat;
        lemma_numbered_names(base, n, taken);
        vstd::seq_lib::seq_to_set_is_finite(taken);
        taken.lemma_cardinality_of_set();
        vstd::set_lib::lemma_len_subset(numbered_names(base, n), taken.to_set());
    }
}

/// The key for a command: its program's name, made plain, with a number where that is
/// taken.
pub fn key_for(command: &str, taken: &Vec<String>) -> (r: String)
    ensures
        is_free_key(key_base(command@), text::texts(taken@), r@),
{
    let base = base_key(command);
    if !names::among(taken, base.as_str()) {
        return base;
    }
    let ghost t = text::texts(taken@);
    let limit: u128 = taken.len() as u128 + 2;
    let mut n: u128 = 2;
    loop
        invariant
            2 <= n <= limit + 1,
            limit == taken@.len() + 2,
            limit < 0x1_0000_0000_0000_0010,
            t == text::texts(taken@),
            base@ == key_base(command@),
            t.contains(base@),
            forall|m: nat| 2 <= m < n ==> t.contains(#[trigger] names::numbered(base@, m)),
        decreases limit + 1 - n,
    {
        proof {
            assert(t.len() == taken@.len());
            if n > limit {
                lemma_some_number_is_free(base@, t);
            }
        }
        let mut s = base.clone();
        s.push('-');
        let d = text::decimal_wide(n);
        s.append(d.as_str());
        assert(s@ =~= names::numbered(base@, n as nat));
        if !names::among(taken, s.as_str()) {
            assert(numbered_free(base@, t, n as nat));
            return s;
        }
        n = n + 1;
    }
}

/// A key is never one that is taken.
pub proof fn law_a_key_is_free(base: Seq<char>, taken: Seq<Seq<char>>, k: Seq<char>)
    requires
        is_free_key(base, taken, k),
    ensures
        !taken.contains(k),
{
}

/// A key is a text of digits, lower-case letters, `-` and `_`, and never empty.
pub proof fn law_a_key_is_plain(command: Seq<char>, taken: Seq<Seq<char>>, k: Seq<char>)
    requires
        is_free_key(key_base(command), taken, k),
    ensures
        k.len() > 0,
        forall|i: int| 0 <= i < k.len() ==> is_key_char(#[trigger] k[i]),
{
    reveal_strlit("app");
    let m = text::low_text(path::base_name(command)).map_values(
        |c: char| if is_key_char(c) { c } else { '-' },
    );
    let p = |c: char| c == '-';
    let base = key_base(command);
    text::lemma_strip_ends_ends(m, p);
    assert forall|i: int| 0 <= i < base.len() implies is_key_char(#[trigger] base[i]) by {
        let t = text::strip_ends(m, p);
        if t.len() > 0 {
            let (a, b) = choose|a: int, b: int|
                0 <= a <= b <= m.len() && t == #[trigger] m.subrange(a, b);
            assert(base[i] == m[a + i]);
        }
    }
    if taken.contains(base) {
        let n = choose|n: nat| #[trigger]
            numbered_free(base, taken, n) && k == names::numbered(base, n);
        let d = text::decimal(n);
        text::lemma_decimal_reads_back(n);
        assert forall|i: int| 0 <= i < k.len() implies is_key_char(#[trigger] k[i]) by {
            if i < base.len() {
                assert(k[i] == base[i]);
            } else if i > base.len() {
                assert(k[i] == d[i - base.len() - 1]);
                assert(text::is_digit(d[i - base.len() - 1]));
            }
        }
    }
}

// ---------------------------------------------------------- annotations ---

/// Programs that show directories.
pub open spec fn file_managers() -> Seq<Seq<char>> {
    seq![
        "dolphin"@,
        "nautilus"@,
        "nemo"@,
        "thunar"@,
        "pcmanfm"@,
        "pcmanfm-qt"@,
        "caja"@,
        "konqueror"@,
        "krusader"@,
        "nnn"@,
        "ranger"@,
    ]
}

fn file_manager_list() -> (r: Vec<String>)
    ensures
        text::texts(r@) == file_managers(),
{
    let mut v: Vec<String> = Vec::new();
    v.push("dolphin".to_owned());
    v.push("nautilus".to_owned());
    v.push("nemo".to_owned());
    v.push("thunar".to_owned());
    v.push("pcmanfm".to_owned());
    v.push("pcmanfm-qt".to_owned());
    v.push("caja".to_owned());
    v.push("konqueror".to_owned());
    v.push("krusader".to_owned());
    v.push("nnn".to_owned());
    v.push("ranger".to_owned());
    assert(text::texts(v@) =~= file_managers());
    v
}

/// Does the command start a file manager?
pub fn is_file_manager(command: &str) -> (r: bool)
    ensures
        r == file_managers().contains(path::base_name(command@)),
{
    let v = file_manager_list();
    let b = path::basename(command);
    names::among(&v, b.as_str())
}

/// The category of the first suggestion of the program of `command`.
pub open spec fn category_of(os: Seq<Offer>, command: Seq<char>) -> Option<Seq<char>>
    decreases os.len(),
{
    if os.len() == 0 {
        None
    } else if path::base_name(os[0].command) == path::base_name(command) {
        Some(os[0].category)
    } else {
        category_of(os.skip(1), command)
    }
}

/// What is said of an application behind its name: what it is, else where it is.
pub open spec fn annotation(os: Seq<Offer>, command: Seq<char>) -> Option<Seq<char>> {
    match category_of(os, command) {
        Some(c) => Some(c),
        None => if file_managers().contains(path::base_name(command)) {
            Some("file manager"@)
        } else if command.contains('/') {
            Some(command)
        } else {
            None
        },
    }
}

/// `annotation`, computed.
pub fn note_for(suggested: &Vec<Suggestion>, command: &str) -> (r: Option<String>)
    ensures
        text::opt(r) == annotation(offers(suggested@), command@),
{
    let base = path::basename(command);
    let ghost t = offers(suggested@);
    let mut i: usize = 0;
    assert(t.skip(0) =~= t);
    while i < suggested.len()
        invariant
            i <= suggested@.len(),
            t == offers(suggested@),
            base@ == path::base_name(command@),
            category_of(t.skip(i as int), command@) == category_of(t, command@),
        decreases suggested@.len() - i,
    {
        assert(t.skip(i as int)[0] == suggested@[i as int]@);
        assert(t.skip(i as int).skip(1) =~= t.skip(i + 1));
        let b = path::basename(suggested[i].command.as_str());
        if text::same(b.as_str(), base.as_str()) {
            return Some(suggested[i].category.clone());
        }
        i = i + 1;
    }
    if is_file_manager(command) {
        return Some("file manager".to_owned());
    }
    if text::has_char(command, '/') {
        Some(command.to_owned())
    } else {
        None
    }
}

/// The note of a row, which also says that an application is not installed.
pub open spec fn row_note_text(note: Option<Seq<char>>, installed: bool) -> Option<Seq<char>> {
    match note {
        Some(n) => Some(if installed { n } else { n + ", not installed"@ }),
        None => if installed { None } else { Some("not installed"@) },
    }
}

/// `row_note_text`, computed.
pub fn row_note(note: Option<String>, installed: bool) -> (r: Option<String>)
    ensures
        text::opt(r) == row_note_text(text::opt(note), installed),
{
    match note {
        Some(n) => {
            if installed {
                Some(n)
            } else {
                let mut s = n;
                s.append(", not installed");
                Some(s)
            }
        },
        None => {
            if installed {
                None
            } else {
                Some("not installed".to_owned())
            }
        },
    }
}

// ------------------------------------------------------------- the picker ---

/// The applications that are enabled, and what is typed to add one.
pub struct Picker {
    pub apps: Vec<App>,
    pub new_command: String,
    pub error: String,
}

/// Is the program of `command` that of an application?
pub open spec fn is_enabled(apps: Seq<AppText>, command: Seq<char>) -> bool {
    exists|i: int|
        0 <= i < apps.len() && path::base_name(#[trigger] apps[i].command) == path::base_name(
            command,
        )
}

/// The keys of the applications.
pub open spec fn keys_of(apps: Seq<AppText>) -> Seq<Seq<char>> {
    apps.map_values(|a: AppText| a.key)
}

/// Is `after` the list `before` with the application added, under a free key?
pub open spec fn is_added(
    before: Seq<AppText>,
    after: Seq<AppText>,
    name: Seq<char>,
    command: Seq<char>,
) -> bool {
    &&& after.len() == before.len() + 1
    &&& after.drop_last() == before
    &&& after.last().name == name
    &&& after.last().command == command
    &&& is_free_key(key_base(command), keys_of(before), after.last().key)
}

proof fn lemma_added_distinct(
    before: Seq<AppText>,
    after: Seq<AppText>,
    name: Seq<char>,
    command: Seq<char>,
)
    requires
        is_added(before, after, name, command),
        !is_enabled(before, command),
        programs_distinct(before),
        app_keys_distinct(before),
    ensures
        programs_distinct(after),
        app_keys_distinct(after),
{
    let ks = keys_of(before);
    law_a_key_is_free(key_base(command), ks, after.last().key);
    assert forall|i: int, j: int| 0 <= i < j < after.len() implies path::base_name(
        #[trigger] after[i].command,
    ) != path::base_name(#[trigger] after[j].command) by {
        assert(before[i] == after[i]);
        if j < before.len() {
            assert(before[j] == after[j]);
        } else {
            assert(path::base_name(before[i].command) != path::base_name(command));
        }
    }
    assert forall|i: int, j: int| 0 <= i < j < after.len() implies #[trigger] after[i].key
        != #[trigger] after[j].key by {
        assert(before[i] == after[i]);
        if j < before.len() {
            assert(before[j] == after[j]);
        } else {
            assert(ks[i] == before[i].key);
            assert(ks.contains(ks[i]));
        }
    }
}

impl Picker {
    /// No application stands twice, by its program or by its key.
    pub open spec fn wf(self) -> bool {
        programs_distinct(app_texts(self.apps@)) && app_keys_distinct(app_texts(self.apps@))
    }

    /// `is_enabled`, computed.
    pub fn enabled_basename(&self, command: &str) -> (r: bool)
        ensures
            r == is_enabled(app_texts(self.apps@), command@),
    {
        let base = path::basename(command);
        let ghost t = app_texts(self.apps@);
        let mut i: usize = 0;
        while i < self.apps.len()
            invariant
                i <= self.apps@.len(),
                t == app_texts(self.apps@),
                base@ == path::base_name(command@),
                forall|k: int| 0 <= k < i ==> path::base_name((#[trigger] t[k]).command) != base@,
            decreases self.apps@.len() - i,
        {
            assert(t[i as int].command == self.apps@[i as int].command@);
            let b = path::basename(self.apps[i].command.as_str());
            if text::same(b.as_str(), base.as_str()) {
                assert(path::base_name(t[i as int].command) == path::base_name(command@));
                return true;
            }
            i = i + 1;
        }
        false
    }

    fn keys(&self) -> (r: Vec<String>)
        ensures
            text::texts(r@) == keys_of(app_texts(self.apps@)),
    {
        let ghost want = keys_of(app_texts(self.apps@));
        let mut out: Vec<String> = Vec::new();
        let mut i: usize = 0;
        while i < self.apps.len()
            invariant
                i <= self.apps@.len(),
                want == keys_of(app_texts(self.apps@)),
                text::texts(out@) == want.take(i as int),
            decreases self.apps@.len() - i,
        {
            let ghost before = text::texts(out@);
            let k = self.apps[i].key.clone();
            out.push(k);
            assert(text::texts(out@) =~= before.push(k@));
            i = i + 1;
            assert(text::texts(out@) =~= want.take(i as int));
        }
        assert(want.take(i as int) =~= want);
        out
    }

    fn append(&mut self, name: String, command: String)
        ensures
            is_added(app_texts(old(self).apps@), app_texts(final(self).apps@), name@, command@),
            final(self).new_command == old(self).new_command,
            final(self).error == old(self).error,
    {
        let ghost before = app_texts(self.apps@);
        let taken = self.keys();
        let key = key_for(command.as_str(), &taken);
        let a = App { key, name, command };
        self.apps.push(a);
        assert(app_texts(self.apps@) =~= before.push(a@));
        assert(app_texts(self.apps@).drop_last() =~= before);
    }

    /// Enables an application, unless its program is enabled already.
    pub fn enable(&mut self, name: &str, command: &str)
        ensures
            if is_enabled(app_texts(old(self).apps@), command@) {
                app_texts(final(self).apps@) == app_texts(old(self).apps@)
            } else {
                is_added(
                    app_texts(old(self).apps@),
                    app_texts(final(self).apps@),
                    text::capitalized(name@),
                    command@,
                )
            },
            old(self).wf() ==> final(self).wf(),
            final(self).new_command == old(self).new_command,
            final(self).error == old(self).error,
    {
        let ghost before = app_texts(self.apps@);
        if self.enabled_basename(command) {
            return;
        }
        self.append(text::capitalize(name), command.to_owned());
        proof {
            if programs_distinct(before) && app_keys_distinct(before) {
                lemma_added_distinct(
                    before,
                    app_texts(self.apps@),
                    text::capitalized(name@),
                    command@,
                );
            }
        }
    }

    /// The command that is typed.
    pub fn wanted(&self) -> (r: String)
        ensures
            r@ == text::trimmed(self.new_command@),
    {
        text::trim(self.new_command.as_str())
    }

    /// Adds the command that is typed, where it is installed and not enabled yet; the
    /// error says what it lacks.
    pub fn add_custom(&mut self, installed: bool)
        ensures
            ({
                let c = text::trimmed(old(self).new_command@);
                let before = app_texts(old(self).apps@);
                let after = app_texts(final(self).apps@);
                match add_error(before, c, installed) {
                    Some(e) => {
                        &&& after == before
                        &&& final(self).error@ == e
                        &&& final(self).new_command == old(self).new_command
                    },
                    None => {
                        &&& is_added(before, after, text::capitalized(path::base_name(c)), c)
                        &&& final(self).error@.len() == 0
                        &&& final(self).new_command@.len() == 0
                    },
                }
            }),
            old(self).wf() ==> final(self).wf(),
    {
        let ghost before = app_texts(self.apps@);
        let c = self.wanted();
        if c.as_str().is_empty() {
            self.error = "Type a binary name or an absolute path.".to_owned();
            return;
        }
        if !installed {
            let mut e = "'".to_owned();
            e.append(c.as_str());
            e.append("' is not installed / not on $PATH.");
            self.error = e;
            return;
        }
        if self.enabled_basename(c.as_str()) {
            let mut e = "'".to_owned();
            let b = path::basename(c.as_str());
            e.append(b.as_str());
            e.append("' is already enabled.");
            self.error = e;
            return;
        }
        let b = path::basename(c.as_str());
        let name = text::capitalize(b.as_str());
        let ghost nv = name@;
        let ghost cv = c@;
        self.append(name, c);
        self.new_command = String::new();
        self.error = String::new();
        proof {
            if programs_distinct(before) && app_keys_distinct(before) {
                lemma_added_distinct(before, app_texts(self.apps@), nv, cv);
            }
        }
    }

    /// Takes the application at `i` out.
    pub fn remove(&mut self, i: usize)
        requires
            i < old(self).apps@.len(),
        ensures
            app_texts(final(self).apps@) == app_texts(old(self).apps@).remove(i as int),
            old(self).wf() ==> final(self).wf(),
            final(self).new_command == old(self).new_command,
            final(self).error == old(self).error,
    {
        let ghost before = app_texts(self.apps@);
        self.apps.remove(i);
        proof {
            let after = app_texts(self.apps@);
            assert(after =~= before.remove(i as int));
            if programs_distinct(before) && app_keys_distinct(before) {
                assert forall|a: int, b: int| 0 <= a < b < after.len() implies path::base_name(
                    #[trigger] after[a].command,
                ) != path::base_name(#[trigger] after[b].command) by {
                    let x = if a < i { a } else { a + 1 };
                    let y = if b < i { b } else { b + 1 };
                    assert(after[a] == before[x] && after[b] == before[y]);
                }
                assert forall|a: int, b: int| 0 <= a < b < after.len() implies #[trigger] after[a].key
                    != #[trigger] after[b].key by {
                    let x = if a < i { a } else { a + 1 };
                    let y = if b < i { b } else { b + 1 };
                    assert(after[a] == before[x] && after[b] == before[y]);
                }
            }
        }
    }
}

/// Why a command that is typed is not added.
pub open spec fn add_error(
    apps: Seq<AppText>,
    command: Seq<char>,
    installed: bool,
) -> Option<Seq<char>> {
    if command.len() == 0 {
        Some("Type a binary name or an absolute path."@)
    } else if !installed {
        Some("'"@ + command + "' is not installed / not on $PATH."@)
    } else if is_enabled(apps, command) {
        Some("'"@ + path::base_name(command) + "' is already enabled."@)
    } else {
        None
    }
}

/// Is the configuration saved when the window goes? Closing it saves, cancelling
/// discards.
pub fn saves_on_close(close_requested: bool, cancelled: bool) -> (r: bool)
    ensures
        r == (close_requested && !cancelled),
{
    close_requested && !cancelled
}

/// A program with a plain name is its own key.
pub proof fn law_a_plain_program_is_its_own_key(command: Seq<char>)
    requires
        ({
            let b = path::base_name(command);
            &&& b.len() > 0
            &&& b[0] != '-' && b.last() != '-'
            &&& forall|i: int| 0 <= i < b.len() ==> {
                let c = #[trigger] b[i];
                '0' <= c <= '9' || 'a' <= c <= 'z' || c == '-' || c == '_'
            }
        }),
    ensures
        key_base(command) == path::base_name(command),
{
    let b = path::base_name(command);
    assert(vstd::utf8::is_ascii_chars(b));
    assert(text::low_text(b) =~= b);
    let m = text::low_text(b).map_values(|c: char| if is_key_char(c) { c } else { '-' });
    assert(m =~= b);
    let p = |c: char| c == '-';
    assert(m[0] == b[0] && m[m.len() - 1] == b[b.len() - 1]);
    text::lemma_strip_ends(m, p, 0, m.len() as int);
    assert(m.subrange(0, m.len() as int) =~= m);
}

/// A capital is written small, and what a key cannot hold becomes a dash.
pub proof fn law_a_key_follows_the_name(command: Seq<char>)
    requires
        ({
            let b = path::base_name(command);
            &&& b.len() > 0
            &&& text::is_alnum(b[0]) && text::is_alnum(b.last())
            &&& vstd::utf8::is_ascii_chars(b)
        }),
    ensures
        ({
            let b = path::base_name(command);
            let k = key_base(command);
            &&& k.len() == b.len()
            &&& forall|i: int|
                0 <= i < b.len() ==> #[trigger] k[i] == (if text::is_alnum(b[i]) {
                    text::lower(b[i])
                } else if b[i] == '_' {
                    '_'
                } else {
                    '-'
                })
        }),
{
    let b = path::base_name(command);
    let m = text::low_text(b).map_values(|c: char| if is_key_char(c) { c } else { '-' });
    let p = |c: char| c == '-';
    assert(m.len() == b.len());
    assert(m[0] == text::lower(b[0]));
    assert(m[m.len() - 1] == text::lower(b[b.len() - 1]));
    text::lemma_strip_ends(m, p, 0, m.len() as int);
    assert(m.subrange(0, m.len() as int) =~= m);
}

/// An application is enabled by its program, wherever that is: once it is added, no other
/// path of it can be added again, and another program can.
pub proof fn law_an_application_is_enabled_by_its_program(
    apps: Seq<AppText>,
    a: AppText,
    dir: Seq<char>,
    name: Seq<char>,
)
    requires
        name.len() > 0,
        !name.contains('/'),
        name != seq!['.'],
        name != seq!['.', '.'],
        a.command == dir + seq!['/'] + name,
    ensures
        is_enabled(apps.push(a), name),
        is_enabled(apps.push(a), a.command),
        add_error(apps.push(a), name, true) == Some("'"@ + name + "' is already enabled."@),
        forall|c: Seq<char>| #[trigger]
            is_enabled(apps.push(a), c) <==> is_enabled(apps, c) || path::base_name(c) == name,
{
    path::law_the_last_component_is_the_name(dir, name);
    let all = apps.push(a);
    let n = apps.len() as int;
    assert(path::base_name(all[n].command) == name);
    assert forall|c: Seq<char>| #[trigger] is_enabled(all, c) <==> is_enabled(apps, c)
        || path::base_name(c) == name by {
        if is_enabled(all, c) {
            let i = choose|i: int|
                0 <= i < all.len() && path::base_name(#[trigger] all[i].command) == path::base_name(c);
            if i < n {
                assert(apps[i] == all[i]);
            }
        }
        if is_enabled(apps, c) {
            let i = choose|i: int|
                0 <= i < apps.len() && path::base_name(#[trigger] apps[i].command) == path::base_name(c);
            assert(all[i] == apps[i]);
        }
    }
}

/// A command is added exactly where there is one, it is installed, and it is not enabled;
/// otherwise the error says which of these it lacks.
pub proof fn law_a_command_is_added_or_the_error_says_why(apps: Seq<AppText>, c: Seq<char>, installed: bool)
    ensures
        add_error(apps, c, installed) is None <==> c.len() > 0 && installed && !is_enabled(apps, c),
        c.len() > 0 && !installed ==> add_error(apps, c, installed) == Some(
            "'"@ + c + "' is not installed / not on $PATH."@,
        ),
        c.len() == 0 ==> add_error(apps, c, installed) == Some(
            "Type a binary name or an absolute path."@,
        ),
{
}

/// An application is annotated with what the first suggestion of its program says it is,
/// else with what is known of it, else with its path; and a row also says where it is not
/// installed.
pub proof fn law_an_application_is_annotated(os: Seq<Offer>, command: Seq<char>, note: Seq<char>)
    ensures
        os.len() > 0 && path::base_name(os[0].command) == path::base_name(command) ==> annotation(os, command)
            == Some(os[0].category),
        os.len() > 0 && path::base_name(os[0].command) != path::base_name(command) ==> annotation(os, command)
            == annotation(os.skip(1), command),
        os.len() == 0 && path::base_name(command) == "dolphin"@ ==> annotation(os, command) == Some(
            "file manager"@,
        ),
        os.len() == 0 && !file_managers().contains(path::base_name(command)) ==> annotation(os, command)
            == if command.contains('/') {
            Some(command)
        } else {
            None
        },
        row_note_text(Some(note), true) == Some(note),
        row_note_text(Some(note), false) == Some(note + ", not installed"@),
        row_note_text(None, true) is None,
        row_note_text(None, false) == Some("not installed"@),
        file_managers().len() == 11,
        file_managers().contains("nautilus"@),
{
    let l = file_managers();
    assert(l[0] == "dolphin"@);
    assert(l[1] == "nautilus"@);
}

/// Adding an application keeps every other one, in its place and under its key.
pub proof fn law_adding_keeps_the_others(
    before: Seq<AppText>,
    after: Seq<AppText>,
    name: Seq<char>,
    command: Seq<char>,
    i: int,
)
    requires
        is_added(before, after, name, command),
    ensures
        0 <= i < before.len() ==> after[i] == before[i],
        after.len() == before.len() + 1,
        after.last().name == name,
        after.last().command == command,
        forall|k: int| 0 <= k < before.len() ==> (#[trigger] before[k]).key != after.last().key,
{
    if 0 <= i < before.len() {
        assert(after.drop_last()[i] == after[i]);
    }
    law_a_key_is_free(key_base(command), keys_of(before), after.last().key);
    assert forall|k: int| 0 <= k < before.len() implies (#[trigger] before[k]).key != after.last().key by {
        assert(keys_of(before)[k] == before[k].key);
        assert(keys_of(before).contains(keys_of(before)[k]));
    }
}

/// No two applications that are enabled are of one program, or under one key.
pub proof fn law_no_application_is_enabled_twice(p: Picker, i: int, j: int)
    requires
        p.wf(),
        0 <= i < j < p.apps@.len(),
    ensures
        path::base_name(p.apps@[i].command@) != path::base_name(p.apps@[j].command@),
        p.apps@[i].key@ != p.apps@[j].key@,
{
    let t = app_texts(p.apps@);
    assert(t[i].command == p.apps@[i].command@ && t[j].command == p.apps@[j].command@);
    assert(t[i].key == p.apps@[i].key@ && t[j].key == p.apps@[j].key@);
}

/// The programs that show directories are known by name.
pub proof fn law_file_managers_are_known()
    ensures
        file_managers().len() == 11,
        file_managers().contains("dolphin"@),
        file_managers().contains("nautilus"@),
        file_managers().contains("nemo"@),
        file_managers().contains("thunar"@),
        file_managers().contains("pcmanfm"@),
        file_managers().contains("pcmanfm-qt"@),
        file_managers().contains("caja"@),
        file_managers().contains("konqueror"@),
        file_managers().contains("krusader"@),
        file_managers().contains("nnn"@),
        file_managers().contains("ranger"@),
{
    let l = file_managers();
    assert(l[0] == "dolphin"@ && l[1] == "nautilus"@ && l[2] == "nemo"@ && l[3] == "thunar"@);
    assert(l[4] == "pcmanfm"@ && l[5] == "pcmanfm-qt"@ && l[6] == "caja"@ && l[7] == "konqueror"@);
    assert(l[8] == "krusader"@ && l[9] == "nnn"@ && l[10] == "ranger"@);
}

} // verus!
