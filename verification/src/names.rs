//! Names: device-mapper names, session ids, volume labels and source hashes.

use sha2::{Digest, Sha256};
use vstd::prelude::*;

use crate::text;

verus! {

/// The SHA-256 digest of `data`.
pub uninterp spec fn sha256(data: Seq<u8>) -> Seq<u8>;

/// `sha2::Sha256`, over the whole of `data`: the digest is a function of the
/// bytes alone, and has 32 bytes.
#[verifier::external_body]
fn sha256_of(data: &[u8]) -> (r: Vec<u8>)
    ensures
        r@ == sha256(data@),
        r@.len() == 32,
{
    let mut h = Sha256::new();
    h.update(data);
    h.finalize().to_vec()
}

/// The first eight bytes of a digest in hexadecimal.
pub open spec fn short_hash(digest: Seq<u8>) -> Seq<char> {
    text::hex_text(digest.take(8))
}

/// The hash of a source path: the first eight bytes of its SHA-256 digest.
pub fn vault_hash(path: &[u8]) -> (r: String)
    ensures
        r@ == short_hash(sha256(path@)),
        r@.len() == 16,
        forall|i: int| 0 <= i < 16 ==> text::is_lower_hex(#[trigger] r@[i]),
{
    let d = sha256_of(path);
    proof {
        text::lemma_hex_text(d@.take(8));
    }
    text::hex_of(d.as_slice(), 8)
}

/// The dm name of 12 hexadecimal digits.
pub open spec fn dm_name(hex: Seq<char>) -> Seq<char> {
    "veracage-"@ + hex
}

/// A device of this project: `veracage-` and 12 lower-case hexadecimal digits.
pub open spec fn is_dm(name: Seq<char>) -> bool {
    &&& "veracage-"@.is_prefix_of(name)
    &&& name.len() == "veracage-"@.len() + 12
    &&& forall|i: int| "veracage-"@.len() <= i < name.len() ==> text::is_lower_hex(#[trigger] name[i])
}

/// The dm name that six random bytes give.
pub fn random_dm_name(bytes: &[u8; 6]) -> (r: String)
    ensures
        r@ == dm_name(text::hex_text(bytes@)),
        is_dm(r@),
{
    let mut s = String::new();
    s.append("veracage-");
    let b: &[u8] = bytes.as_slice();
    let h = text::hex_of(b, 6);
    s.append(h.as_str());
    proof {
        assert(b@.take(6) =~= bytes@);
        text::lemma_hex_text(bytes@);
        lemma_dm_name(h@);
        assert(s@ =~= dm_name(h@));
    }
    s
}

/// A dm name made of 12 hexadecimal digits is one of this project.
pub proof fn lemma_dm_name(hex: Seq<char>)
    requires
        hex.len() == 12,
        forall|i: int| 0 <= i < 12 ==> text::is_lower_hex(#[trigger] hex[i]),
    ensures
        is_dm(dm_name(hex)),
{
    let p = "veracage-"@;
    assert(p =~= dm_name(hex).subrange(0, p.len() as int));
    assert forall|i: int| p.len() <= i < dm_name(hex).len() implies text::is_lower_hex(
        #[trigger] dm_name(hex)[i],
    ) by {
        assert(dm_name(hex)[i] == hex[i - p.len()]);
    }
}

/// `is_dm`, computed.
pub fn is_veracage_dm(name: &str) -> (r: bool)
    ensures
        r == is_dm(name@),
{
    if !text::starts_with(name, "veracage-") {
        return false;
    }
    let v = text::chars_of(name);
    let n = "veracage-".unicode_len();
    if v.len() - n != 12 {
        return false;
    }
    let mut i: usize = n;
    while i < v.len()
        invariant
            n == "veracage-"@.len(),
            n <= i <= v@.len(),
            v@ == name@,
            forall|k: int| n <= k < i ==> text::is_lower_hex(#[trigger] v@[k]),
        decreases v@.len() - i,
    {
        if !text::lower_hex(v[i]) {
            assert(!text::is_lower_hex(name@[i as int]));
            return false;
        }
        i = i + 1;
    }
    true
}

/// A session id names files, so it is 1 to 16 decimal digits and nothing else.
pub open spec fn is_session_id(sid: Seq<char>) -> bool {
    0 < sid.len() <= 16 && text::all_digits(sid)
}

/// `is_session_id`, computed.
pub fn session_id_ok(sid: &str) -> (r: bool)
    ensures
        r == is_session_id(sid@),
{
    let v = text::chars_of(sid);
    if v.len() == 0 || v.len() > 16 {
        return false;
    }
    let mut i: usize = 0;
    while i < v.len()
        invariant
            i <= v@.len(),
            v@ == sid@,
            forall|k: int| 0 <= k < i ==> text::is_digit(#[trigger] v@[k]),
        decreases v@.len() - i,
    {
        if !text::digit(v[i]) {
            assert(!text::is_digit(sid@[i as int]));
            return false;
        }
        i = i + 1;
    }
    true
}

/// Why a session id is refused.
#[derive(Clone, Copy, PartialEq, Eq, Debug, Structural)]
pub enum SessionRefusal {
    /// Not a session id at all.
    Invalid,
    /// The id of somebody else's session.
    Foreign,
}

/// A session belongs to the caller whose uid is its id.
pub fn check_session_caller(sid: &str, human_uid: u32) -> (r: Result<(), SessionRefusal>)
    ensures
        r is Ok <==> sid@ == text::decimal(human_uid as nat),
        r == Err::<(), _>(SessionRefusal::Invalid) <==> !is_session_id(sid@),
        r == Err::<(), _>(SessionRefusal::Foreign) <==> is_session_id(sid@) && sid@ != text::decimal(
            human_uid as nat,
        ),
{
    proof {
        text::lemma_decimal_reads_back(human_uid as nat);
        lemma_decimal_len(human_uid as nat);
    }
    if !session_id_ok(sid) {
        return Err(SessionRefusal::Invalid);
    }
    let own = text::decimal_of(human_uid as u64);
    if !text::same(sid, own.as_str()) {
        return Err(SessionRefusal::Foreign);
    }
    Ok(())
}

/// A 32-bit number has at most ten digits.
proof fn lemma_decimal_len(n: nat)
    requires
        n <= 0xffff_ffff,
    ensures
        text::decimal(n).len() <= 10,
{
    reveal_with_fuel(text::decimal, 11);
}

// ----------------------------------------------------------- volume labels ---

/// The characters that a volume's directory name keeps.
pub open spec fn is_label_char(c: char) -> bool {
    text::is_alnum(c) || is_label_mark(c)
}

/// The marks that a directory name keeps inside, and loses at its ends.
pub open spec fn is_label_mark(c: char) -> bool {
    c == '.' || c == '_' || c == '-'
}

/// A label with every other character replaced, of at most 64 characters.
pub open spec fn masked(label: Seq<char>) -> Seq<char> {
    let m = label.map_values(|c: char| if is_label_char(c) { c } else { '_' });
    if m.len() > 64 { m.take(64) } else { m }
}

/// The directory name of a volume: its label made safe, or its source's hash
/// where nothing of the label is left.
pub open spec fn label_name(label: Seq<char>, hash: Seq<char>) -> Seq<char> {
    let t = text::strip_ends(masked(label), |c: char| is_label_mark(c));
    if t.len() == 0 { "vault-"@ + hash } else { t }
}

/// `label_name`, for a source hash at hand.
pub fn label_with_hash(label: &str, hash: &str) -> (r: String)
    ensures
        r@ == label_name(label@, hash@),
{
    let v = text::chars_of(label);
    let mut m: Vec<char> = Vec::new();
    let mut i: usize = 0;
    let ghost full = label@.map_values(|c: char| if is_label_char(c) { c } else { '_' });
    while i < v.len() && i < 64
        invariant
            i <= v@.len(),
            i <= 64,
            v@ == label@,
            full == label@.map_values(|c: char| if is_label_char(c) { c } else { '_' }),
            m@ == full.take(i as int),
        decreases v@.len() - i,
    {
        let c = v[i];
        m.push(if text::alnum(c) || c == '.' || c == '_' || c == '-' { c } else { '_' });
        i = i + 1;
        assert(m@ =~= full.take(i as int));
    }
    assert(m@ =~= masked(label@));
    let ghost p = |c: char| is_label_mark(c);
    let mut a: usize = 0;
    while a < m.len() && (m[a] == '.' || m[a] == '_' || m[a] == '-')
        invariant
            a <= m@.len(),
            forall|k: int| 0 <= k < a ==> is_label_mark(#[trigger] m@[k]),
        decreases m@.len() - a,
    {
        a = a + 1;
    }
    let mut b: usize = m.len();
    while b > a && (m[b - 1] == '.' || m[b - 1] == '_' || m[b - 1] == '-')
        invariant
            a <= b <= m@.len(),
            forall|k: int| b <= k < m@.len() ==> is_label_mark(#[trigger] m@[k]),
        decreases b,
    {
        b = b - 1;
    }
    proof {
        if a == b {
            assert(a == m@.len());
        }
        text::lemma_strip_ends(m@, p, a as int, b as int);
    }
    if a == b {
        let mut s = String::new();
        s.append("vault-");
        s.append(hash);
        assert(s@ =~= "vault-"@ + hash@);
        s
    } else {
        text::string_of(&m, a, b)
    }
}

/// The directory name of the volume at the path `source`.
pub fn sanitize_label(label: &str, source: &[u8]) -> (r: String)
    ensures
        r@ == label_name(label@, short_hash(sha256(source@))),
        is_component(r@),
{
    let h = vault_hash(source);
    proof {
        law_label_is_a_component(label@, h@);
    }
    label_with_hash(label, h.as_str())
}

/// A single component of a path: not empty, without a slash, not `.` or `..`.
pub open spec fn is_component(s: Seq<char>) -> bool {
    s.len() > 0 && !s.contains('/') && s != seq!['.'] && s != seq!['.', '.']
}

/// A volume label that may name a directory: a path component of at most 128
/// bytes.
pub open spec fn is_label(s: Seq<char>) -> bool {
    is_component(s) && vstd::utf8::encode_utf8(s).len() <= 128
}

/// `is_label`, computed.
pub fn label_ok(s: &str) -> (r: bool)
    ensures
        r == is_label(s@),
{
    proof {
        reveal_strlit(".");
        reveal_strlit("..");
        assert("."@ =~= seq!['.']);
        assert(".."@ =~= seq!['.', '.']);
    }
    !s.is_empty() && s.as_bytes().len() <= 128 && !text::has_char(s, '/') && !text::same(s, ".")
        && !text::same(s, "..")
}

/// Whatever a volume calls itself, its directory name is one component of safe
/// characters, short enough to be a label.
pub proof fn law_label_is_a_component(label: Seq<char>, hash: Seq<char>)
    requires
        hash.len() == 16,
        forall|i: int| 0 <= i < 16 ==> text::is_lower_hex(#[trigger] hash[i]),
    ensures
        is_component(label_name(label, hash)),
        is_label(label_name(label, hash)),
        label_name(label, hash).len() <= 64,
        forall|i: int|
            0 <= i < label_name(label, hash).len() ==> is_label_char(#[trigger] label_name(label, hash)[i]),
{
    let m = masked(label);
    let p = |c: char| is_label_mark(c);
    let t = text::strip_ends(m, p);
    let r = label_name(label, hash);
    reveal_strlit("vault-");
    text::lemma_strip_ends_ends(m, p);
    if t.len() > 0 {
        let (a, b) = choose|a: int, b: int| 0 <= a <= b <= m.len() && t == #[trigger] m.subrange(a, b);
        assert forall|i: int| 0 <= i < r.len() implies is_label_char(#[trigger] r[i]) by {
            assert(r[i] == m[a + i]);
        }
        assert(r[0] != '.');
    } else {
        assert(r[0] == 'v');
        assert forall|i: int| 0 <= i < r.len() implies is_label_char(#[trigger] r[i]) by {
            if i >= 6 {
                assert(r[i] == hash[i - 6]);
            }
        }
    }
    if r.contains('/') {
        let k = choose|k: int| 0 <= k < r.len() && r[k] == '/';
        assert(is_label_char(r[k]));
    }
    assert(vstd::utf8::is_ascii_chars(r)) by {
        assert forall|i: int| 0 <= i < r.len() implies 0 <= #[trigger] r[i] as nat <= 127 by {
            assert(is_label_char(r[i]));
        }
    }
    vstd::utf8::is_ascii_chars_encode_utf8(r);
}

// ------------------------------------------------------------ workspace path ---

/// A directory and a name in it; an absolute name stands for itself.
pub open spec fn path_join(root: Seq<char>, name: Seq<char>) -> Seq<char> {
    if root.len() == 0 || (name.len() > 0 && name[0] == '/') {
        name
    } else if root.last() == '/' {
        root + name
    } else {
        root + seq!['/'] + name
    }
}

/// `path_join`, computed.
pub fn join_path(root: &str, name: &str) -> (r: String)
    ensures
        r@ == path_join(root@, name@),
{
    if name.unicode_len() > 0 && name.get_char(0) == '/' {
        return name.to_owned();
    }
    let n = root.unicode_len();
    let mut s = String::new();
    s.append(root);
    if n > 0 && root.get_char(n - 1) != '/' {
        s.push('/');
    }
    s.append(name);
    assert(s@ =~= path_join(root@, name@));
    s
}

/// A relative name stands in its directory, behind exactly one slash; an absolute one
/// stands for itself.
pub proof fn law_a_name_stands_in_its_directory(root: Seq<char>, name: Seq<char>)
    requires
        root.len() > 0,
    ensures
        (name.len() == 0 || name[0] != '/') && root.last() != '/' ==> path_join(root, name) == root
            + seq!['/'] + name,
        (name.len() == 0 || name[0] != '/') && root.last() == '/' ==> path_join(root, name) == root
            + name,
        name.len() > 0 && name[0] == '/' ==> path_join(root, name) == name,
        path_join(seq![], name) == name,
{
}

/// `<base>-<n>`.
pub open spec fn numbered(base: Seq<char>, n: nat) -> Seq<char> {
    base + seq!['-'] + text::decimal(n)
}

/// The first of `<base>-<n>`, `<base>-<n+1>`, .. below `<base>-1000` that is not
/// taken; `base` itself where all are.
pub open spec fn first_free(base: Seq<char>, n: nat, taken: Seq<Seq<char>>) -> Seq<char>
    decreases 1000 - n,
{
    if n >= 1000 {
        base
    } else if !taken.contains(numbered(base, n)) {
        numbered(base, n)
    } else {
        first_free(base, n + 1, taken)
    }
}

/// The directory name for a volume whose safe label is `base`.
pub open spec fn free_name(base: Seq<char>, taken: Seq<Seq<char>>) -> Seq<char> {
    if taken.contains(base) { first_free(base, 2, taken) } else { base }
}

/// Is `s` one of `list`?
pub fn among(list: &Vec<String>, s: &str) -> (r: bool)
    ensures
        r == text::texts(list@).contains(s@),
{
    let mut i: usize = 0;
    while i < list.len()
        invariant
            i <= list@.len(),
            forall|k: int| 0 <= k < i ==> list@[k]@ != s@,
        decreases list@.len() - i,
    {
        if text::same(list[i].as_str(), s) {
            assert(text::texts(list@)[i as int] == s@);
            return true;
        }
        i = i + 1;
    }
    proof {
        if text::texts(list@).contains(s@) {
            let k = choose|k: int| 0 <= k < list@.len() && text::texts(list@)[k] == s@;
            assert(list@[k]@ == s@);
        }
    }
    false
}

/// `free_name`, computed.
pub fn free_directory(base: &str, taken: &Vec<String>) -> (r: String)
    ensures
        r@ == free_name(base@, text::texts(taken@)),
{
    if !among(taken, base) {
        return base.to_owned();
    }
    let mut n: u64 = 2;
    while n < 1000
        invariant
            2 <= n <= 1000,
            text::texts(taken@).contains(base@),
            free_name(base@, text::texts(taken@)) == first_free(base@, n as nat, text::texts(taken@)),
        decreases 1000 - n,
    {
        let mut s = String::new();
        s.append(base);
        s.push('-');
        let d = text::decimal_of(n);
        s.append(d.as_str());
        assert(s@ =~= numbered(base@, n as nat));
        if !among(taken, s.as_str()) {
            return s;
        }
        n = n + 1;
    }
    base.to_owned()
}

/// The mountpoint of a volume under `root`, where the names `taken` exist.
pub fn workspace_path_in(root: &str, label: &str, source: &[u8], taken: &Vec<String>) -> (r: String)
    ensures
        r@ == path_join(
            root@,
            free_name(label_name(label@, short_hash(sha256(source@))), text::texts(taken@)),
        ),
{
    let base = sanitize_label(label, source);
    let name = free_directory(base.as_str(), taken);
    join_path(root, name.as_str())
}

/// Where the volumes of a session are mounted.
pub const WORKSPACE: &'static str = "/run/veracage/vaults";

/// The mountpoint of a volume in the workspace.
pub fn workspace_path(label: &str, source: &[u8], taken: &Vec<String>) -> (r: String)
    ensures
        r@ == path_join(
            "/run/veracage/vaults"@,
            free_name(label_name(label@, short_hash(sha256(source@))), text::texts(taken@)),
        ),
{
    workspace_path_in("/run/veracage/vaults", label, source, taken)
}

/// A volume gets a directory of its own: a name that is taken is given out only
/// where every numbered name up to 999 is taken too.
pub proof fn law_a_volume_gets_its_own_directory(base: Seq<char>, taken: Seq<Seq<char>>)
    ensures
        taken.contains(free_name(base, taken)) <==> taken.contains(base) && forall|n: nat|
            2 <= n < 1000 ==> taken.contains(#[trigger] numbered(base, n)),
{
    if taken.contains(base) {
        lemma_first_free(base, 2, taken);
    }
}

proof fn lemma_first_free(base: Seq<char>, n: nat, taken: Seq<Seq<char>>)
    requires
        taken.contains(base),
        n <= 1000,
    ensures
        taken.contains(first_free(base, n, taken)) <==> forall|k: nat|
            n <= k < 1000 ==> taken.contains(#[trigger] numbered(base, k)),
    decreases 1000 - n,
{
    if n < 1000 {
        if taken.contains(numbered(base, n)) {
            lemma_first_free(base, n + 1, taken);
        }
    }
}

/// A free name is one path component, so the mountpoint stays below its root.
pub proof fn law_a_volume_stays_in_the_workspace(base: Seq<char>, taken: Seq<Seq<char>>)
    requires
        is_component(base),
    ensures
        is_component(free_name(base, taken)),
{
    lemma_numbered_component(base, 2, taken);
}

proof fn lemma_numbered_component(base: Seq<char>, n: nat, taken: Seq<Seq<char>>)
    requires
        is_component(base),
    ensures
        is_component(first_free(base, n, taken)),
    decreases 1000 - n,
{
    if n < 1000 {
        let s = numbered(base, n);
        text::lemma_decimal_reads_back(n);
        assert(s[base.len() as int] == '-');
        assert(s.len() >= 3);
        assert(seq!['.'].len() == 1 && seq!['.', '.'].len() == 2);
        if s.contains('/') {
            let k = choose|k: int| 0 <= k < s.len() && s[k] == '/';
            if k < base.len() {
                assert(base[k] == '/');
            } else if k > base.len() {
                assert(text::is_digit(text::decimal(n)[k - base.len() - 1]));
            }
        }
        lemma_numbered_component(base, n + 1, taken);
    }
}

/// A label of safe characters that starts and ends with a letter or a digit is kept as it
/// is; of any other one each unsafe character is replaced where it stands.
pub proof fn law_a_label_keeps_its_letters(label: Seq<char>, hash: Seq<char>)
    requires
        0 < label.len() <= 64,
        text::is_alnum(label[0]),
        text::is_alnum(label.last()),
    ensures
        label_name(label, hash).len() == label.len(),
        forall|i: int|
            0 <= i < label.len() ==> #[trigger] label_name(label, hash)[i] == (if text::is_alnum(
                label[i],
            ) || label[i] == '.' || label[i] == '_' || label[i] == '-' {
                label[i]
            } else {
                '_'
            }),
{
    let m = masked(label);
    let p = |c: char| is_label_mark(c);
    assert(m.len() == label.len());
    assert(m[0] == label[0]);
    assert(m[m.len() - 1] == label[label.len() - 1]);
    text::lemma_strip_ends(m, p, 0, m.len() as int);
    assert(m.subrange(0, m.len() as int) =~= m);
}

/// A label of which nothing is left gives way to the hash of its source.
pub proof fn law_an_empty_label_gives_way_to_the_hash(label: Seq<char>, hash: Seq<char>)
    requires
        forall|i: int| 0 <= i < label.len() ==> !text::is_alnum(#[trigger] label[i]),
    ensures
        label_name(label, hash) == "vault-"@ + hash,
{
    let m = masked(label);
    let p = |c: char| is_label_mark(c);
    assert forall|k: int| 0 <= k < m.len() implies p(#[trigger] m[k]) by {
        assert(!text::is_alnum(label[k]));
    }
    let n = m.len() as int;
    text::lemma_strip_ends(m, p, n, n);
    assert(m.subrange(n, n).len() == 0);
}

/// A directory name that is free is used as it is; one that is taken gets the lowest number
/// from two on that makes it free.
pub proof fn law_the_lowest_free_number_is_used(base: Seq<char>, taken: Seq<Seq<char>>, n: nat)
    requires
        2 <= n < 1000,
        !taken.contains(base + seq!['-'] + text::decimal(n)),
        forall|k: nat| 2 <= k < n ==> taken.contains(#[trigger] numbered(base, k)),
    ensures
        taken.contains(base) ==> free_name(base, taken) == base + seq!['-'] + text::decimal(n),
        !taken.contains(base) ==> free_name(base, taken) == base,
{
    if taken.contains(base) {
        lemma_first_free_is(base, 2, taken, n);
    }
}

proof fn lemma_first_free_is(base: Seq<char>, m: nat, taken: Seq<Seq<char>>, n: nat)
    requires
        m <= n < 1000,
        !taken.contains(numbered(base, n)),
        forall|k: nat| m <= k < n ==> taken.contains(#[trigger] numbered(base, k)),
    ensures
        first_free(base, m, taken) == numbered(base, n),
    decreases n - m,
{
    if m < n {
        assert(taken.contains(numbered(base, m)));
        lemma_first_free_is(base, m + 1, taken, n);
    }
}

/// The devices of this project are exactly those named `veracage-` and twelve hexadecimal
/// digits.
pub proof fn law_a_device_is_known_by_its_name(hex: Seq<char>)
    requires
        hex.len() == 12,
    ensures
        is_dm("veracage-"@ + hex) <==> forall|i: int| 0 <= i < 12 ==> text::is_lower_hex(#[trigger] hex[i]),
        dm_name(hex) == "veracage-"@ + hex,
        forall|name: Seq<char>| #[trigger]
            is_dm(name) ==> name.len() == 21 && name.take(9) == "veracage-"@ && forall|i: int|
                9 <= i < 21 ==> text::is_lower_hex(#[trigger] name[i]),
{
    reveal_strlit("veracage-");
    let n = "veracage-"@ + hex;
    assert("veracage-"@.len() == 9);
    assert(n.take(9) =~= "veracage-"@);
    assert("veracage-"@.is_prefix_of(n));
    if is_dm(n) {
        assert forall|i: int| 0 <= i < 12 implies text::is_lower_hex(#[trigger] hex[i]) by {
            assert(n[i + 9] == hex[i]);
        }
    }
    if forall|i: int| 0 <= i < 12 ==> text::is_lower_hex(#[trigger] hex[i]) {
        assert forall|i: int| 9 <= i < n.len() implies text::is_lower_hex(#[trigger] n[i]) by {
            assert(n[i] == hex[i - 9]);
        }
    }
    assert forall|name: Seq<char>| #[trigger] is_dm(name) implies name.len() == 21 && name.take(9)
        == "veracage-"@ && forall|i: int|
        9 <= i < 21 ==> text::is_lower_hex(#[trigger] name[i]) by {
        assert(name.take(9) =~= "veracage-"@);
    }
}

/// The session of every user can be named: the digits of a user id are a session id, and a
/// session id never leads out of the directory of the sessions.
pub proof fn law_every_user_can_have_a_session(uid: u32, sid: Seq<char>)
    ensures
        is_session_id(text::decimal(uid as nat)),
        is_session_id(sid) ==> sid.len() > 0 && !sid.contains('/') && !sid.contains('.'),
        sid.len() == 0 || sid.len() > 16 ==> !is_session_id(sid),
{
    text::lemma_decimal_reads_back(uid as nat);
    lemma_decimal_len(uid as nat);
    if is_session_id(sid) {
        if sid.contains('/') {
            let k = choose|k: int| 0 <= k < sid.len() && sid[k] == '/';
            assert(text::is_digit(sid[k]));
        }
        if sid.contains('.') {
            let k = choose|k: int| 0 <= k < sid.len() && sid[k] == '.';
            assert(text::is_digit(sid[k]));
        }
    }
}

/// A volume is known by the first eight bytes of a digest: two digits each.
pub proof fn law_a_short_hash_is_sixteen_digits(digest: Seq<u8>, i: int)
    requires
        digest.len() >= 8,
        0 <= i < 8,
    ensures
        short_hash(digest).len() == 16,
        short_hash(digest)[2 * i] == text::hex_char(digest[i] as int / 16),
        short_hash(digest)[2 * i + 1] == text::hex_char(digest[i] as int % 16),
{
    text::lemma_hex_text(digest.take(8));
    text::law_a_byte_is_two_digits(digest.take(8), i);
}

/// A label may name a directory where it is one component of at most 128 bytes.
pub proof fn law_a_label_has_at_most_128_bytes(s: Seq<char>)
    ensures
        is_component(s) && vstd::utf8::encode_utf8(s).len() <= 128 ==> is_label(s),
        vstd::utf8::encode_utf8(s).len() > 128 ==> !is_label(s),
        s.contains('/') || s.len() == 0 || s == "."@ || s == ".."@ ==> !is_label(s),
{
    reveal_strlit(".");
    reveal_strlit("..");
    assert("."@ =~= seq!['.']);
    assert(".."@ =~= seq!['.', '.']);
}

/// The name of a directory has no mark at either end, unless it is made of the hash.
pub proof fn law_a_name_has_no_mark_at_its_ends(label: Seq<char>, hash: Seq<char>)
    ensures
        ({
            let n = label_name(label, hash);
            n == "vault-"@ + hash || (n.len() > 0 && n[0] != '.' && n[0] != '_' && n[0] != '-' && n.last() != '.'
                && n.last() != '_' && n.last() != '-')
        }),
{
    text::lemma_strip_ends_ends(masked(label), |c: char| is_label_mark(c));
}

} // verus!
