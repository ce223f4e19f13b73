//! What the human's side is started for.

use vstd::prelude::*;

use crate::proto::Request;
use crate::text;

verus! {

/// What the agent is started for.
pub enum Face {
    /// The broker of the session.
    Broker,
    /// The prompt for the passphrase of a volume.
    Passphrase(String),
    Settings,
    Appearance,
    Shortcuts,
    About,
    Help,
    Configure,
    /// The path of the control socket of a volume.
    SocketPath(String),
    /// A request to the session of a volume.
    Ask(String, Request),
    /// A command that there is none of.
    Unknown(String),
    Usage,
}

/// What the agent is started for, as values.
pub ghost enum Purpose {
    Broker,
    Passphrase(Seq<char>),
    Settings,
    Appearance,
    Shortcuts,
    About,
    Help,
    Configure,
    SocketPath(Seq<char>),
    Ask(Seq<char>, Request),
    Unknown(Seq<char>),
    Usage,
}

impl View for Face {
    type V = Purpose;

    open spec fn view(&self) -> Purpose {
        match self {
            Face::Broker => Purpose::Broker,
            Face::Passphrase(n) => Purpose::Passphrase(n@),
            Face::Settings => Purpose::Settings,
            Face::Appearance => Purpose::Appearance,
            Face::Shortcuts => Purpose::Shortcuts,
            Face::About => Purpose::About,
            Face::Help => Purpose::Help,
            Face::Configure => Purpose::Configure,
            Face::SocketPath(v) => Purpose::SocketPath(v@),
            Face::Ask(v, q) => Purpose::Ask(v@, *q),
            Face::Unknown(c) => Purpose::Unknown(c@),
            Face::Usage => Purpose::Usage,
        }
    }
}

/// The request that a command names.
pub open spec fn request_named(cmd: Seq<char>) -> Option<Request> {
    if cmd == "ping"@ {
        Some(Request::Ping)
    } else if cmd == "list"@ {
        Some(Request::List)
    } else if cmd == "close"@ {
        Some(Request::Close)
    } else {
        None
    }
}

/// What the arguments ask for: with none the broker, with the name of a window that
/// window, and else a command for the session of a volume.
pub open spec fn purpose(args: Seq<Seq<char>>) -> Purpose {
    if args.len() == 0 {
        Purpose::Broker
    } else if args[0] == "_passphrase"@ {
        Purpose::Passphrase(if args.len() > 1 { args[1] } else { seq![] })
    } else if args[0] == "_settings"@ {
        Purpose::Settings
    } else if args[0] == "_appearance"@ {
        Purpose::Appearance
    } else if args[0] == "_shortcuts"@ {
        Purpose::Shortcuts
    } else if args[0] == "_about"@ {
        Purpose::About
    } else if args[0] == "_help"@ {
        Purpose::Help
    } else if args[0] == "configure"@ {
        Purpose::Configure
    } else if args.len() < 2 {
        Purpose::Usage
    } else if args[1] == "socket-path"@ {
        Purpose::SocketPath(args[0])
    } else {
        match request_named(args[1]) {
            Some(q) => Purpose::Ask(args[0], q),
            None => Purpose::Unknown(args[1]),
        }
    }
}

/// `purpose`, computed; the arguments come without the program's own name.
pub fn face(args: &Vec<String>) -> (r: Face)
    ensures
        r@ == purpose(text::texts(args@)),
{
    let ghost t = text::texts(args@);
    assert(t.len() == args@.len());
    if args.len() == 0 {
        return Face::Broker;
    }
    assert(t[0] == args@[0]@);
    let a = args[0].as_str();
    if text::same(a, "_passphrase") {
        let n = if args.len() > 1 {
            assert(t[1] == args@[1]@);
            args[1].clone()
        } else {
            String::new()
        };
        assert(n@ =~= if t.len() > 1 { t[1] } else { seq![] });
        return Face::Passphrase(n);
    }
    if text::same(a, "_settings") {
        return Face::Settings;
    }
    if text::same(a, "_appearance") {
        return Face::Appearance;
    }
    if text::same(a, "_shortcuts") {
        return Face::Shortcuts;
    }
    if text::same(a, "_about") {
        return Face::About;
    }
    if text::same(a, "_help") {
        return Face::Help;
    }
    if text::same(a, "configure") {
        return Face::Configure;
    }
    if args.len() < 2 {
        return Face::Usage;
    }
    assert(t[1] == args@[1]@);
    let cmd = args[1].as_str();
    let vault = args[0].clone();
    if text::same(cmd, "socket-path") {
        Face::SocketPath(vault)
    } else if text::same(cmd, "ping") {
        Face::Ask(vault, Request::Ping)
    } else if text::same(cmd, "list") {
        Face::Ask(vault, Request::List)
    } else if text::same(cmd, "close") {
        Face::Ask(vault, Request::Close)
    } else {
        Face::Unknown(args[1].clone())
    }
}

/// What the window in which applications are enabled came to: was the list saved, and how
/// many applications does it hold?
#[derive(Clone, Copy, PartialEq, Eq, Structural, Debug)]
pub struct Outcome {
    pub saved: bool,
    pub count: usize,
}

/// What is printed when that window has gone, and the code that is then returned.
pub fn configured(o: Outcome) -> (r: (String, u8))
    ensures
        r.0@ == if o.saved {
            "veracage: enabled "@ + text::decimal(o.count as nat) + " app(s)."@
        } else {
            "veracage: configuration cancelled."@
        },
        r.1 == if o.saved { 0u8 } else { 1u8 },
{
    if o.saved {
        let mut s = "veracage: enabled ".to_owned();
        let d = text::decimal_of(o.count as u64);
        s.append(d.as_str());
        s.append(" app(s).");
        (s, 0)
    } else {
        ("veracage: configuration cancelled.".to_owned(), 1)
    }
}

/// The first line of a shader, and whether it is of the newer dialect.
pub fn shader_header(embedded: bool, major: u32) -> (r: (String, bool))
    ensures
        r.1 == (major >= 3),
        r.0@ == if embedded {
            if major >= 3 {
                "#version 300 es\nprecision mediump float;\n"@
            } else {
                "#version 100\nprecision mediump float;\n"@
            }
        } else if major >= 3 {
            "#version 130\n"@
        } else {
            "#version 120\n"@
        },
{
    if embedded {
        if major >= 3 {
            ("#version 300 es\nprecision mediump float;\n".to_owned(), true)
        } else {
            ("#version 100\nprecision mediump float;\n".to_owned(), false)
        }
    } else if major >= 3 {
        ("#version 130\n".to_owned(), true)
    } else {
        ("#version 120\n".to_owned(), false)
    }
}

/// The longest side of a picture that is drawn.
pub const PICTURE_SIDE: i32 = 4096;

/// Are the bytes those of a picture of this size?
pub fn picture_ok(w: i32, h: i32, len: usize) -> (r: bool)
    ensures
        r == (1 <= w <= PICTURE_SIDE && 1 <= h <= PICTURE_SIDE && len == w * h * 4),
{
    if w < 1 || w > PICTURE_SIDE || h < 1 || h > PICTURE_SIDE {
        return false;
    }
    assert(w * h <= 4096 * 4096) by (nonlinear_arith)
        requires
            1 <= w <= 4096,
            1 <= h <= 4096,
    ;
    assert(w * h >= 1) by (nonlinear_arith)
        requires
            1 <= w,
            1 <= h,
    ;
    let n: u64 = w as u64 * h as u64 * 4;
    len as u64 == n
}

/// The agent is the broker without arguments, each window by its name, and else the client
/// of the session of the volume that comes first.
pub proof fn law_the_arguments_say_what_is_started(vault: Seq<char>, rest: Seq<Seq<char>>, cmd: Seq<char>)
    requires
        vault.len() > 0,
        vault[0] == '/',
    ensures
        purpose(seq![]) == Purpose::Broker,
        purpose(seq!["_settings"@] + rest) == Purpose::Settings,
        purpose(seq!["_appearance"@] + rest) == Purpose::Appearance,
        purpose(seq!["_shortcuts"@] + rest) == Purpose::Shortcuts,
        purpose(seq!["_about"@] + rest) == Purpose::About,
        purpose(seq!["_help"@] + rest) == Purpose::Help,
        purpose(seq!["configure"@] + rest) == Purpose::Configure,
        purpose(seq!["_passphrase"@, cmd] + rest) == Purpose::Passphrase(cmd),
        purpose(seq![vault, "ping"@] + rest) == Purpose::Ask(vault, Request::Ping),
        purpose(seq![vault, "list"@] + rest) == Purpose::Ask(vault, Request::List),
        purpose(seq![vault, "close"@] + rest) == Purpose::Ask(vault, Request::Close),
        purpose(seq![vault, "socket-path"@] + rest) == Purpose::SocketPath(vault),
        purpose(seq![vault]) == Purpose::Usage,
        cmd != "ping"@ && cmd != "list"@ && cmd != "close"@ && cmd != "socket-path"@ ==> purpose(
            seq![vault, cmd] + rest,
        ) == Purpose::Unknown(cmd),
{
    reveal_strlit("_passphrase");
    reveal_strlit("_settings");
    reveal_strlit("_appearance");
    reveal_strlit("_shortcuts");
    reveal_strlit("_about");
    reveal_strlit("_help");
    reveal_strlit("configure");
    reveal_strlit("ping");
    reveal_strlit("list");
    reveal_strlit("close");
    reveal_strlit("socket-path");
    assert("_passphrase"@.len() == 11 && "_settings"@.len() == 9 && "_appearance"@.len() == 11
        && "_shortcuts"@.len() == 10 && "_about"@.len() == 6 && "_help"@.len() == 5 && "configure"@.len() == 9);
    assert("_passphrase"@[1] == 'p' && "_appearance"@[1] == 'a');
    assert("_settings"@[0] == '_' && "configure"@[0] == 'c');
    assert("_passphrase"@[0] == '_' && "_appearance"@[0] == '_' && "_shortcuts"@[0] == '_' && "_about"@[0]
        == '_' && "_help"@[0] == '_');
    assert("ping"@.len() == 4 && "list"@.len() == 4 && "close"@.len() == 5 && "socket-path"@.len() == 11);
    assert("ping"@[0] == 'p' && "list"@[0] == 'l');
}

// ------------------------------------------------------------------ help ---

/// The text of the help: sections with a blank line between them, each with its title
/// on the first line and a paragraph on every other.
pub const HELP: &'static str = "\
    Mount a volume\n\
    File > Mount volume. Pick the encrypted volume file and enter its passphrase.\n\
    The system then asks for your account password. That prompt authorizes Veracage's \
    privileged helper to decrypt the volume and mount it privately for Veracage, the only step \
    that needs root. The authorization is kept for a few minutes, so mounting another volume \
    right after usually does not ask again.\n\
    The volume mounts and the file manager opens on it. Mount more volumes the same way and \
    they appear side by side.\n\n\
    Use apps\n\
    The Apps menu lists the enabled apps. Click one to run it inside Veracage.\n\
    Apps run isolated inside Veracage. They see the mounted volumes, a temporary workspace and \
    the shared directory, nothing else of your system, and they have no network.\n\
    Apps also work before any volume is mounted, which makes an empty Veracage a private \
    scratchpad.\n\n\
    Nothing is stored in Veracage\n\
    Veracage has no storage of its own. A file is kept only if you save it into a mounted \
    volume or into the shared directory.\n\
    Everything else lives in memory: the home directory apps start in, their settings, caches \
    and downloads. It is discarded when Veracage quits, without asking.\n\
    That memory is private to Veracage. It is held in Veracage's own mount namespace, owned by \
    the Veracage system user, so no other program running as you can read it or even reach its \
    path.\n\
    So save your work into one of the volume directories, or into /exchange to pass it to the \
    host.\n\n\
    Clipboard\n\
    The Veracage clipboard is separate from the host clipboard. Nothing crosses by itself.\n\
    Clipboard > Copy out puts what you last copied inside Veracage onto the host clipboard. \
    Clipboard > Paste in puts the host clipboard onto the Veracage clipboard. Text only. The \
    keyboard shortcuts are configurable under Settings > Configure shortcuts.\n\
    After a Copy out, the host clipboard is cleared automatically after a timeout (default 30 \
    seconds), and again when Veracage quits, so a copied secret does not linger on the host. \
    Both are configurable under Settings.\n\n\
    Move files in and out\n\
    The shared directory is visible to both the host and Veracage. A file dropped on one side \
    appears on the other.\n\
    File > Shared directory opens it on the host. Inside Veracage it is /exchange.\n\
    Settings lets you turn the shared directory off or point it at a different host path.\n\n\
    Configure apps\n\
    Apps > Configure apps. Tick the apps you want, or add any installed program by name.\n\
    Saving updates the Apps menu right away, including the running session.\n\n\
    GPU acceleration\n\
    Apps render on the host GPU automatically, so video and 3D are smooth. On a Host without a \
    usable GPU they fall back to software rendering.\n\n\
    Unmount\n\
    File > Unmount lists the mounted volumes. Unmounting one locks its data again and leaves \
    the rest of the session running.\n\
    Closing the Veracage window (or File > Quit) unmounts everything.";

} // verus!
