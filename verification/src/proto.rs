//! The control socket of a session, as its client sees it.

use vstd::prelude::*;

use crate::names;
use crate::text;

verus! {

/// The control socket of the session of a volume, below the caller's runtime directory.
pub open spec fn socket_at(runtime: Seq<char>, hash: Seq<char>) -> Seq<char> {
    names::path_join(
        names::path_join(names::path_join(runtime, "veracage"@), "sessions"@),
        hash + ".sock"@,
    )
}

/// `socket_at`, computed for the hash of the volume's path; none without a runtime
/// directory.
pub fn socket_path(runtime: Option<&str>, vault: &str) -> (r: Option<String>)
    ensures
        text::opt(r) == match runtime {
            Some(d) => Some(
                socket_at(
                    d@,
                    names::short_hash(names::sha256(vstd::utf8::encode_utf8(vault@))),
                ),
            ),
            None => None,
        },
{
    match runtime {
        Some(d) => {
            let mut file = names::vault_hash(vault.as_bytes());
            file.append(".sock");
            let a = names::join_path(d, "veracage");
            let b = names::join_path(a.as_str(), "sessions");
            Some(names::join_path(b.as_str(), file.as_str()))
        },
        None => None,
    }
}

/// The longest reply that is read.
pub const MAX_REPLY: usize = 65536;

/// Has a whole reply come? It ends with a line feed, or is as long as one may be.
pub fn reply_complete(buf: &Vec<u8>) -> (r: bool)
    ensures
        r == (buf@.contains(10u8) || buf@.len() >= MAX_REPLY),
{
    if buf.len() >= MAX_REPLY {
        return true;
    }
    let mut i: usize = 0;
    while i < buf.len()
        invariant
            i <= buf@.len(),
            forall|k: int| 0 <= k < i ==> buf@[k] != 10u8,
        decreases buf@.len() - i,
    {
        if buf[i] == 10 {
            assert(buf@.contains(buf@[i as int]));
            return true;
        }
        i = i + 1;
    }
    false
}

/// `String::from_utf8_lossy`: the text of bytes that may not be one.
pub uninterp spec fn lossy_text(b: Seq<u8>) -> Seq<char>;

/// `String::from_utf8_lossy`: the text under its name, which is the bytes' own text
/// where they are one.
#[verifier::external_body]
pub(crate) fn text_of_bytes(b: &[u8]) -> (r: String)
    ensures
        r@ == lossy_text(b@),
        vstd::utf8::valid_utf8(b@) ==> r@ == vstd::utf8::decode_utf8(b@),
{
    String::from_utf8_lossy(b).into_owned()
}

/// `serde_json`: the value that a text describes, written without white space; none
/// where the text describes none.
pub uninterp spec fn compact_json(s: Seq<char>) -> Option<Seq<char>>;

/// `serde_json::from_str` to a `Value`, which is handed on as the text that it prints.
#[verifier::external_body]
fn compact(s: &str) -> (r: Option<String>)
    ensures
        text::opt(r) == compact_json(s@),
{
    match serde_json::from_str::<serde_json::Value>(s) {
        Ok(v) => Some(v.to_string()),
        Err(_) => None,
    }
}

/// The value of a reply: an empty object for an empty one, none where it is no value.
pub open spec fn reply_value(s: Seq<char>, compacted: Option<Seq<char>>) -> Option<Seq<char>> {
    if text::trimmed(s).len() == 0 { Some("{}"@) } else { compacted }
}

/// `reply_value`, computed.
pub fn value_of_reply(s: &str, compacted: Option<String>) -> (r: Option<String>)
    ensures
        text::opt(r) == reply_value(s@, text::opt(compacted)),
{
    let t = text::trim(s);
    if t.as_str().is_empty() {
        Some("{}".to_owned())
    } else {
        compacted
    }
}

/// The value of the bytes of a reply.
pub fn parse(buf: &[u8]) -> (r: Option<String>)
    ensures
        text::opt(r) == reply_value(
            lossy_text(buf@),
            compact_json(text::trimmed(lossy_text(buf@))),
        ),
{
    let s = text_of_bytes(buf);
    let t = text::trim(s.as_str());
    let c = compact(t.as_str());
    value_of_reply(s.as_str(), c)
}

/// The line of a request: its value and a line feed; none where it is no value.
pub fn line(req: &str) -> (r: Option<String>)
    ensures
        text::opt(r) == match compact_json(req@) {
            Some(v) => Some(v + seq!['\n']),
            None => None,
        },
{
    match compact(req) {
        Some(v) => {
            let mut s = v;
            s.push('\n');
            assert(s@ =~= compact_json(req@)->0 + seq!['\n']);
            Some(s)
        },
        None => None,
    }
}

/// What may be asked of a session.
pub enum Request {
    Ping,
    List,
    Close,
}

/// The value of a request.
pub open spec fn request_value(q: Request) -> Seq<char> {
    match q {
        Request::Ping => "{\"cmd\":\"ping\"}"@,
        Request::List => "{\"cmd\":\"list\"}"@,
        Request::Close => "{\"cmd\":\"close\"}"@,
    }
}

/// `request_value`, computed.
pub fn request(q: Request) -> (r: String)
    ensures
        r@ == request_value(q),
{
    match q {
        Request::Ping => "{\"cmd\":\"ping\"}".to_owned(),
        Request::List => "{\"cmd\":\"list\"}".to_owned(),
        Request::Close => "{\"cmd\":\"close\"}".to_owned(),
    }
}

/// The client looks for a session where the session puts its socket: below the caller's
/// runtime directory, by the hash of the volume.
pub proof fn law_both_sides_meet_at_one_socket(runtime: Seq<char>, hash: Seq<char>, sid: Seq<char>)
    requires
        runtime.len() > 0,
        runtime.last() != '/',
        hash.len() > 0,
        hash[0] != '/',
    ensures
        socket_at(runtime, hash) == runtime + "/veracage/sessions/"@ + hash + ".sock"@,
        socket_at(runtime, hash) == names::path_join(
            names::path_join(runtime, "veracage/sessions"@),
            crate::session::control_name(Some(hash), sid),
        ),
{
    reveal_strlit("veracage");
    reveal_strlit("sessions");
    reveal_strlit("veracage/sessions");
    reveal_strlit("/veracage/sessions/");
    let a = names::path_join(runtime, "veracage"@);
    assert(a == runtime + seq!['/'] + "veracage"@);
    assert(a.last() == 'e');
    let b = names::path_join(a, "sessions"@);
    assert(b == a + seq!['/'] + "sessions"@);
    assert(b.last() == 's');
    assert((hash + ".sock"@)[0] == hash[0]);
    assert(socket_at(runtime, hash) =~= runtime + "/veracage/sessions/"@ + hash + ".sock"@);
    let c = names::path_join(runtime, "veracage/sessions"@);
    assert(c == runtime + seq!['/'] + "veracage/sessions"@);
    assert(c.last() == 's');
    assert(names::path_join(c, hash + ".sock"@) =~= socket_at(runtime, hash));
}

/// A request is an object with its command; each command has its own.
pub proof fn law_a_request_names_its_command(q: Request)
    ensures
        request_value(q) == "{\"cmd\":\""@ + (match q {
            Request::Ping => "ping"@,
            Request::List => "list"@,
            Request::Close => "close"@,
        }) + "\"}"@,
{
    reveal_strlit("{\"cmd\":\"");
    reveal_strlit("\"}");
    reveal_strlit("ping");
    reveal_strlit("list");
    reveal_strlit("close");
    reveal_strlit("{\"cmd\":\"ping\"}");
    reveal_strlit("{\"cmd\":\"list\"}");
    reveal_strlit("{\"cmd\":\"close\"}");
    assert("{\"cmd\":\"ping\"}"@ =~= "{\"cmd\":\""@ + "ping"@ + "\"}"@);
    assert("{\"cmd\":\"list\"}"@ =~= "{\"cmd\":\""@ + "list"@ + "\"}"@);
    assert("{\"cmd\":\"close\"}"@ =~= "{\"cmd\":\""@ + "close"@ + "\"}"@);
}

/// A reply that says nothing is an empty object; any other is the value that it is, or none.
pub proof fn law_a_blank_reply_is_an_empty_object(s: Seq<char>, v: Option<Seq<char>>)
    ensures
        (forall|i: int| 0 <= i < s.len() ==> text::is_space(#[trigger] s[i])) ==> reply_value(s, v) == Some("{}"@),
        s.len() > 0 && !text::is_space(s[0]) && !text::is_space(s.last()) ==> reply_value(s, v) == v,
{
    if forall|i: int| 0 <= i < s.len() ==> text::is_space(#[trigger] s[i]) {
        text::lemma_trim_start(s, s.len() as int);
        assert(s.skip(s.len() as int).len() == 0);
    }
    if s.len() > 0 && !text::is_space(s[0]) && !text::is_space(s.last()) {
        text::lemma_trimmed_is(s);
    }
}

} // verus!
