//! The encryption of a volume, and how it is opened.

use vstd::prelude::*;

use crate::text;

verus! {

/// How a volume is encrypted.
#[derive(Clone, Copy, PartialEq, Eq, Debug, Structural)]
pub enum Backend {
    Luks,
    Veracrypt,
}

/// The backend that a configured value names.
pub open spec fn backend_named(s: Seq<char>) -> Option<Backend> {
    if s == "luks"@ {
        Some(Backend::Luks)
    } else if s == "veracrypt"@ {
        Some(Backend::Veracrypt)
    } else {
        None
    }
}

impl Backend {
    /// `backend_named`, computed.
    pub fn parse(s: &str) -> (r: Option<Backend>)
        ensures
            r == backend_named(s@),
    {
        if text::same(s, "luks") {
            Some(Backend::Luks)
        } else if text::same(s, "veracrypt") {
            Some(Backend::Veracrypt)
        } else {
            None
        }
    }
}

/// The backend of a source: a LUKS header is recognised, and everything else is
/// taken for VeraCrypt, whose header cannot be told from noise.
pub fn detect(is_luks: bool) -> (r: Backend)
    ensures
        r == if is_luks { Backend::Luks } else { Backend::Veracrypt },
{
    if is_luks {
        Backend::Luks
    } else {
        Backend::Veracrypt
    }
}

/// The arguments of `cryptsetup` that open `source` as `dm_name`.
pub open spec fn open_argv(
    source: Seq<char>,
    backend: Backend,
    dm_name: Seq<char>,
) -> Seq<Seq<char>> {
    match backend {
        Backend::Luks => seq!["open"@, source, dm_name],
        Backend::Veracrypt => seq![
            "--type"@,
            "tcrypt"@,
            "--veracrypt"@,
            "open"@,
            source,
            dm_name,
        ],
    }
}

/// `open_argv`, computed.
pub fn open_args(source: &str, backend: Backend, dm_name: &str) -> (r: Vec<String>)
    ensures
        text::texts(r@) == open_argv(source@, backend, dm_name@),
{
    let mut v: Vec<String> = Vec::new();
    match backend {
        Backend::Luks => {},
        Backend::Veracrypt => {
            v.push("--type".to_owned());
            v.push("tcrypt".to_owned());
            v.push("--veracrypt".to_owned());
        },
    }
    v.push("open".to_owned());
    v.push(source.to_owned());
    v.push(dm_name.to_owned());
    assert(text::texts(v@) =~= open_argv(source@, backend, dm_name@));
    v
}

/// A volume is opened from its own source under its own name, and as what it is: only a
/// VeraCrypt volume is handed over as one.
pub proof fn law_a_volume_is_opened_as_what_it_is(source: Seq<char>, backend: Backend, dm: Seq<char>)
    ensures
        ({
            let a = open_argv(source, backend, dm);
            let n = a.len();
            &&& n >= 3
            &&& a[n - 3] == "open"@
            &&& a[n - 2] == source
            &&& a[n - 1] == dm
            &&& backend == Backend::Luks <==> n == 3
            &&& backend == Backend::Veracrypt ==> a.take(n - 3) == seq!["--type"@, "tcrypt"@, "--veracrypt"@]
        }),
        backend_named("luks"@) == Some(Backend::Luks),
        backend_named("veracrypt"@) == Some(Backend::Veracrypt),
        forall|s: Seq<char>| #[trigger] backend_named(s) is Some ==> s == "luks"@ || s == "veracrypt"@,
{
    reveal_strlit("luks");
    reveal_strlit("veracrypt");
    assert("luks"@.len() == 4 && "veracrypt"@.len() == 9);
    let a = open_argv(source, backend, dm);
    if backend == Backend::Veracrypt {
        assert(a.take(3) =~= seq!["--type"@, "tcrypt"@, "--veracrypt"@]);
    }
}

} // verus!
