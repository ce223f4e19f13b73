//! A decrypted volume on its way to the workspace: what it is, whether it is
//! sound, and how it is mounted.

use vstd::prelude::*;
use zeroize::Zeroize;

use crate::names;
use crate::path;
use crate::process;
use crate::text;

verus! {

// ------------------------------------------------------------ what it is ---

/// The value of the last `key=` line of `ls`, made safe to carry.
pub open spec fn last_value(ls: Seq<Seq<char>>, key: Seq<char>) -> Option<Seq<char>>
    decreases ls.len(),
{
    if ls.len() == 0 {
        None
    } else {
        match text::split_once(ls.last(), '=') {
            Some(kv) => if kv.0 == key {
                process::clean(kv.1)
            } else {
                last_value(ls.drop_last(), key)
            },
            None => last_value(ls.drop_last(), key),
        }
    }
}

/// The label and the type of a filesystem, from what `blkid -o export` prints.
pub fn probe_fs(output: &str) -> (r: (Option<String>, Option<String>))
    ensures
        text::opt(r.0) == last_value(text::lines(output@), "LABEL"@),
        text::opt(r.1) == last_value(text::lines(output@), "TYPE"@),
{
    let ls = text::split_lines(output);
    let ghost t = text::texts(ls@);
    let mut label: Option<String> = None;
    let mut fstype: Option<String> = None;
    let mut i: usize = 0;
    proof {
        reveal_strlit("LABEL");
        reveal_strlit("TYPE");
        assert("LABEL"@[0] != "TYPE"@[0]);
    }
    while i < ls.len()
        invariant
            i <= ls@.len(),
            t == text::texts(ls@),
            "LABEL"@ != "TYPE"@,
            text::opt(label) == last_value(t.take(i as int), "LABEL"@),
            text::opt(fstype) == last_value(t.take(i as int), "TYPE"@),
        decreases ls@.len() - i,
    {
        assert(t.take(i + 1).drop_last() =~= t.take(i as int));
        assert(t.take(i + 1).last() == ls@[i as int]@);
        if let Some((k, v)) = text::cut(ls[i].as_str(), '=') {
            if text::same(k.as_str(), "LABEL") {
                label = process::sanitized(v.as_str());
            } else if text::same(k.as_str(), "TYPE") {
                fstype = process::sanitized(v.as_str());
            }
        }
        i = i + 1;
    }
    assert(t.take(i as int) =~= t);
    (label, fstype)
}

/// The label of a volume: its filesystem's, or the name of its source without
/// the extension.
pub open spec fn volume_label(probed: Option<Seq<char>>, source: Seq<char>) -> Seq<char> {
    match probed {
        Some(l) => l,
        None => match path::file_name(source) {
            Some(n) => path::stem(n),
            None => "Volume"@,
        },
    }
}

/// `volume_label`, computed.
pub fn label_of(probed: &Option<String>, source: &str) -> (r: String)
    ensures
        r@ == volume_label(text::opt(*probed), source@),
{
    match probed {
        Some(l) => l.clone(),
        None => match path::last_part(source) {
            Some(n) => path::file_stem(n.as_str()),
            None => "Volume".to_owned(),
        },
    }
}

// ------------------------------------------------------ how it is mounted ---

/// Filesystems without owners of their own.
pub open spec fn ownerless(fstype: Option<Seq<char>>) -> bool {
    match fstype {
        Some(t) => {
            let l = text::lowered(t);
            l == "vfat"@ || l == "exfat"@ || l == "ntfs"@ || l == "ntfs3"@ || l == "msdos"@
        },
        None => false,
    }
}

/// `ownerless`, computed.
pub fn is_ownerless_fs(fstype: Option<&str>) -> (r: bool)
    ensures
        r == match fstype {
            Some(t) => ownerless(Some(t@)),
            None => ownerless(None),
        },
{
    match fstype {
        Some(t) => {
            let l = text::lower_ascii(t);
            let s = l.as_str();
            text::same(s, "vfat") || text::same(s, "exfat") || text::same(s, "ntfs") || text::same(
                s,
                "ntfs3",
            ) || text::same(s, "msdos")
        },
        None => false,
    }
}

/// The options of the mount that a volume is staged on.
pub open spec fn stage_options(ownerless: bool, uid: nat, gid: nat) -> Seq<char> {
    if ownerless {
        "nodev,nosuid,uid="@ + text::decimal(uid) + ",gid="@ + text::decimal(gid) + ",umask=0077"@
    } else {
        "nodev,nosuid"@
    }
}

/// The options of the staging mount, and whether its root must still be given to
/// the user: where files have no owners, the options say who they belong to.
pub fn stage_opts(fstype: Option<&str>, human_uid: u32, human_gid: u32) -> (r: (String, bool))
    ensures
        ({
            let o = match fstype {
                Some(t) => ownerless(Some(t@)),
                None => false,
            };
            &&& r.0@ == stage_options(o, human_uid as nat, human_gid as nat)
            &&& r.1 == !o
        }),
{
    if is_ownerless_fs(fstype) {
        let mut s = String::new();
        s.append("nodev,nosuid,uid=");
        let u = text::decimal_of(human_uid as u64);
        s.append(u.as_str());
        s.append(",gid=");
        let g = text::decimal_of(human_gid as u64);
        s.append(g.as_str());
        s.append(",umask=0077");
        assert(s@ =~= stage_options(true, human_uid as nat, human_gid as nat));
        (s, false)
    } else {
        ("nodev,nosuid".to_owned(), true)
    }
}

/// The name of the directory that a volume is staged on: next to its own, and
/// hidden.
pub open spec fn staging_name(name: Seq<char>) -> Seq<char> {
    seq!['.'] + name + ".raw"@
}

/// How a volume is mounted.
pub struct MountPlan {
    /// What the volume is called.
    pub label: String,
    pub mountpoint: String,
    pub staging: String,
    pub options: String,
    /// Whether the root of the staging mount is to be given to the user.
    pub chown: bool,
}

/// The plan for a directory of the workspace, apart from what the volume is called.
pub open spec fn is_plan(
    p: MountPlan,
    name: Seq<char>,
    fstype: Option<Seq<char>>,
    uid: nat,
    gid: nat,
) -> bool {
    &&& p.mountpoint@ == names::path_join(names::WORKSPACE@, name)
    &&& p.staging@ == names::path_join(names::WORKSPACE@, staging_name(name))
    &&& p.options@ == stage_options(ownerless(fstype), uid, gid)
}

fn plan_at(label: String, name: &str, fstype: &Option<String>, human_uid: u32, human_gid: u32) -> (r:
    MountPlan)
    ensures
        r.label@ == label@,
        is_plan(r, name@, text::opt(*fstype), human_uid as nat, human_gid as nat),
        r.chown == !ownerless(text::opt(*fstype)),
{
    let mut raw = String::new();
    raw.push('.');
    raw.append(name);
    raw.append(".raw");
    assert(raw@ =~= staging_name(name@));
    let (options, chown) = match fstype {
        Some(t) => stage_opts(Some(t.as_str()), human_uid, human_gid),
        None => stage_opts(None, human_uid, human_gid),
    };
    MountPlan {
        label,
        mountpoint: names::join_path(names::WORKSPACE, name),
        staging: names::join_path(names::WORKSPACE, raw.as_str()),
        options,
        chown,
    }
}

/// The plan for a volume that was probed, in a workspace where the names `taken`
/// exist. The source is given as text, and as the bytes that its hash is of.
pub fn mount_plan(
    probed_label: &Option<String>,
    fstype: &Option<String>,
    source: &str,
    source_bytes: &[u8],
    human_uid: u32,
    human_gid: u32,
    taken: &Vec<String>,
) -> (r: MountPlan)
    ensures
        ({
            let label = volume_label(text::opt(*probed_label), source@);
            let base = names::label_name(label, names::short_hash(names::sha256(source_bytes@)));
            let name = names::free_name(base, text::texts(taken@));
            &&& r.label@ == label
            &&& is_plan(r, name, text::opt(*fstype), human_uid as nat, human_gid as nat)
            &&& r.chown == !ownerless(text::opt(*fstype))
        }),
{
    let label = label_of(probed_label, source);
    let base = names::sanitize_label(label.as_str(), source_bytes);
    let name = names::free_directory(base.as_str(), taken);
    plan_at(label, name.as_str(), fstype, human_uid, human_gid)
}

/// The plan for a volume that is mounted again, in the directory `name` that it had. Its
/// root was given to the user when it was first mounted.
pub fn remount_plan(name: &str, fstype: &Option<String>, human_uid: u32, human_gid: u32) -> (r:
    MountPlan)
    ensures
        r.label@ == name@,
        is_plan(r, name@, text::opt(*fstype), human_uid as nat, human_gid as nat),
        !r.chown,
{
    let p = plan_at(name.to_owned(), name, fstype, human_uid, human_gid);
    MountPlan { chown: false, ..p }
}

// ------------------------------------------------------ whether it is sound ---

/// The directories that the helper's tools are taken from, in order.
pub open spec fn tool_dirs() -> Seq<Seq<char>> {
    seq![
        "/usr/sbin/"@,
        "/sbin/"@,
        "/usr/bin/"@,
        "/bin/"@,
        "/usr/local/sbin/"@,
        "/usr/local/bin/"@,
    ]
}

/// The first of the directories from `k` on that has the tool among the files
/// `present`; the bare name where none has.
pub open spec fn tool_path(name: Seq<char>, present: Seq<Seq<char>>, k: int) -> Seq<char>
    decreases 6 - k,
{
    if k < 0 || k >= 6 {
        name
    } else if present.contains(tool_dirs()[k] + name) {
        tool_dirs()[k] + name
    } else {
        tool_path(name, present, k + 1)
    }
}

/// `a` and `b`, one behind the other.
fn joined2(a: &str, b: &str) -> (r: String)
    ensures
        r@ == a@ + b@,
{
    let mut s = String::new();
    s.append(a);
    s.append(b);
    assert(s@ =~= a@ + b@);
    s
}

/// Where a tool may be, in the order in which it is looked for.
pub fn tool_candidates(name: &str) -> (r: Vec<String>)
    ensures
        r@.len() == 6,
        forall|k: int| 0 <= k < 6 ==> (#[trigger] r@[k])@ == tool_dirs()[k] + name@,
{
    let mut v: Vec<String> = Vec::new();
    v.push(joined2("/usr/sbin/", name));
    v.push(joined2("/sbin/", name));
    v.push(joined2("/usr/bin/", name));
    v.push(joined2("/bin/", name));
    v.push(joined2("/usr/local/sbin/", name));
    v.push(joined2("/usr/local/bin/", name));
    v
}

/// The path of a tool, where the files `present` exist.
pub fn tool(name: &str, present: &Vec<String>) -> (r: String)
    ensures
        r@ == tool_path(name@, text::texts(present@), 0),
{
    let c = tool_candidates(name);
    let mut i: usize = 0;
    while i < 6
        invariant
            i <= 6,
            c@.len() == 6,
            forall|k: int| 0 <= k < 6 ==> (#[trigger] c@[k])@ == tool_dirs()[k] + name@,
            tool_path(name@, text::texts(present@), 0) == tool_path(
                name@,
                text::texts(present@),
                i as int,
            ),
        decreases 6 - i,
    {
        if names::among(present, c[i].as_str()) {
            return c[i].clone();
        }
        i = i + 1;
    }
    name.to_owned()
}

/// Filesystems that are checked before they are mounted.
pub open spec fn checkable(fstype: Seq<char>) -> bool {
    fstype == "ext2"@ || fstype == "ext3"@ || fstype == "ext4"@ || fstype == "vfat"@ || fstype
        == "exfat"@
}

/// The checker of a filesystem.
pub open spec fn checker_of(fstype: Option<Seq<char>>, present: Seq<Seq<char>>) -> Option<Seq<char>> {
    match fstype {
        Some(t) => {
            let bin = tool_path("fsck."@ + t, present, 0);
            if checkable(t) && bin.len() > 0 && bin[0] == '/' { Some(bin) } else { None }
        },
        None => None,
    }
}

/// A filesystem that can be checked is, where its checker is installed; any other is
/// mounted unchecked.
pub proof fn law_a_filesystem_is_checked_by_its_own_checker(t: Seq<char>, present: Seq<Seq<char>>)
    ensures
        checkable(t) && present.contains("/usr/sbin/fsck."@ + t) ==> checker_of(Some(t), present) == Some(
            "/usr/sbin/fsck."@ + t,
        ),
        checker_of(Some(t), present) matches Some(c) ==> present.contains(c) && text::has_suffix(c, "fsck."@ + t),
        !checkable(t) ==> checker_of(Some(t), present) is None,
        checker_of(None, present) is None,
        present.len() == 0 ==> checker_of(Some(t), present) is None,
{
    reveal_strlit("/usr/sbin/");
    reveal_strlit("fsck.");
    reveal_strlit("/usr/sbin/fsck.");
    let name = "fsck."@ + t;
    assert("/usr/sbin/"@ + name =~= "/usr/sbin/fsck."@ + t);
    law_a_tool_comes_from_a_fixed_directory(name, present);
    assert(tool_dirs()[0] == "/usr/sbin/"@);
    assert(name[0] == 'f');
    let p = tool_path(name, present, 0);
    if checker_of(Some(t), present) is Some {
        let k = choose|k: int|
            0 <= k < 6 && p == #[trigger] tool_dirs()[k] + name && present.contains(p) && forall|j: int|
                0 <= j < k ==> !present.contains(#[trigger] tool_dirs()[j] + name);
        assert(p.skip(p.len() - name.len()) =~= name);
    }
}

/// The checker of a filesystem, where it is one that is checked and its checker
/// is among the files `present`.
pub fn fsck_checker(fstype: Option<&str>, present: &Vec<String>) -> (r: Option<String>)
    ensures
        text::opt(r) == checker_of(text::opt_str(fstype), text::texts(present@)),
        text::opt(r) == match fstype {
            Some(t) => {
                let bin = tool_path("fsck."@ + t@, text::texts(present@), 0);
                if checkable(t@) && bin.len() > 0 && bin[0] == '/' { Some(bin) } else { None }
            },
            None => None,
        },
{
    match fstype {
        Some(t) => {
            if text::same(t, "ext2") || text::same(t, "ext3") || text::same(t, "ext4") || text::same(
                t,
                "vfat",
            ) || text::same(t, "exfat") {
                let name = joined2("fsck.", t);
                let bin = tool(name.as_str(), present);
                if bin.as_str().unicode_len() > 0 && bin.as_str().get_char(0) == '/' {
                    Some(bin)
                } else {
                    None
                }
            } else {
                None
            }
        },
        None => None,
    }
}

/// Does the exit code of a checker allow the mount? Clean, corrected, or
/// corrected with a reboot advised.
pub open spec fn sound(code: Option<i32>) -> bool {
    match code {
        Some(c) => 0 <= c <= 3,
        None => false,
    }
}

/// `sound`, computed.
pub fn fsck_ok(code: Option<i32>) -> (r: bool)
    ensures
        r == sound(code),
{
    match code {
        Some(c) => {
            assert((c & !3i32 == 0) == (0 <= c && c <= 3)) by (bit_vector);
            c & !3i32 == 0
        },
        None => false,
    }
}

/// What a check of a filesystem comes to.
pub enum Verdict {
    Clean,
    Repaired,
    /// Not to be mounted, and why.
    Refused(String),
}

/// A number that may be negative, in decimal.
pub open spec fn signed_decimal(n: int) -> Seq<char> {
    if n < 0 { seq!['-'] + text::decimal((-n) as nat) } else { text::decimal(n as nat) }
}

/// `signed_decimal`, computed.
pub fn signed_decimal_of(n: i32) -> (r: String)
    ensures
        r@ == signed_decimal(n as int),
{
    if n < 0 {
        let mut s = String::new();
        s.push('-');
        let m: u64 = (-(n as i64)) as u64;
        let d = text::decimal_of(m);
        s.append(d.as_str());
        assert(s@ =~= signed_decimal(n as int));
        s
    } else {
        text::decimal_of(n as u64)
    }
}

/// Why a filesystem is not mounted.
pub open spec fn refusal_text(checker: Seq<char>, code: Option<i32>) -> Seq<char> {
    "the filesystem on this volume needs a repair Veracage will not make for you ("@ + checker
        + " exit "@ + (match code {
        Some(c) => signed_decimal(c as int),
        None => "signal"@,
    }) + "). Open the volume with your usual tool and run a full check on it, then try again."@
}

/// What the exit code of `checker` says of a filesystem.
pub fn fsck_verdict(checker: &str, code: Option<i32>) -> (r: Verdict)
    ensures
        match r {
            Verdict::Clean => code == Some(0i32),
            Verdict::Repaired => sound(code) && code != Some(0i32),
            Verdict::Refused(why) => !sound(code) && why@ == refusal_text(checker@, code),
        },
{
    if fsck_ok(code) {
        return match code {
            Some(c) => if c == 0 {
                Verdict::Clean
            } else {
                Verdict::Repaired
            },
            None => Verdict::Clean,
        };
    }
    let mut s = String::new();
    s.append("the filesystem on this volume needs a repair Veracage will not make for you (");
    s.append(checker);
    s.append(" exit ");
    match code {
        Some(c) => {
            let d = signed_decimal_of(c);
            s.append(d.as_str());
        },
        None => {
            s.append("signal");
        },
    }
    s.append("). Open the volume with your usual tool and run a full check on it, then try again.");
    assert(s@ =~= refusal_text(checker@, code));
    Verdict::Refused(s)
}

// ------------------------------------------------------------- passphrases ---

/// `Zeroize::zeroize` of `zeroize`, on the bytes of a buffer: every byte becomes
/// zero, by writes that the compiler keeps.
#[verifier::external_body]
fn zero_bytes(buf: &mut Vec<u8>)
    ensures
        final(buf)@ == Seq::new(old(buf)@.len(), |i: int| 0u8),
{
    buf.as_mut_slice().zeroize();
}

/// Overwrites a buffer with zeros.
pub fn wipe(buf: &mut Vec<u8>)
    ensures
        final(buf)@.len() == old(buf)@.len(),
        forall|i: int| 0 <= i < final(buf)@.len() ==> final(buf)@[i] == 0,
{
    zero_bytes(buf);
}

/// Takes a passphrase out of its place and overwrites it; the buffer that held it.
pub fn wipe_passphrase(passphrase: &mut Option<Vec<u8>>) -> (r: Option<Vec<u8>>)
    ensures
        *final(passphrase) is None,
        r is Some <==> *old(passphrase) is Some,
        r matches Some(b) ==> b@.len() == (*old(passphrase))->0@.len() && forall|i: int|
            0 <= i < b@.len() ==> b@[i] == 0,
{
    match passphrase.take() {
        Some(mut p) => {
            wipe(&mut p);
            Some(p)
        },
        None => None,
    }
}

// ------------------------------------------------------------------ idmaps ---

/// The attribute of a mount that maps owners.
pub const MOUNT_ATTR_IDMAP: u64 = 0x0010_0000;

/// `nosuid`, `nodev` and `noexec` for the directory shared with the host.
pub const ATTR_NOSUID_NODEV_NOEXEC: u64 = 0xe;

/// The attributes of a mapped mount: the mapping, and what is asked besides.
pub fn mount_attr(extra: u64) -> (r: u64)
    ensures
        r == MOUNT_ATTR_IDMAP | extra,
        r & MOUNT_ATTR_IDMAP == MOUNT_ATTR_IDMAP,
        r & extra == extra,
{
    assert((0x0010_0000u64 | extra) & 0x0010_0000u64 == 0x0010_0000u64) by (bit_vector);
    assert((0x0010_0000u64 | extra) & extra == extra) by (bit_vector);
    MOUNT_ATTR_IDMAP | extra
}

/// The line of an id map that shows the one id `on_disk` as `vault`.
pub open spec fn id_map_text(on_disk: nat, vault: nat) -> Seq<char> {
    text::decimal(on_disk) + " "@ + text::decimal(vault) + " 1\n"@
}

/// `id_map_text`, computed.
pub fn id_map(on_disk: u32, vault: u32) -> (r: String)
    ensures
        r@ == id_map_text(on_disk as nat, vault as nat),
{
    let mut s = text::decimal_of(on_disk as u64);
    s.append(" ");
    let v = text::decimal_of(vault as u64);
    s.append(v.as_str());
    s.append(" 1\n");
    s
}

/// A source as the lock names it: its device and its number there.
pub fn source_key(dev: u64, ino: u64) -> (r: String)
    ensures
        r@ == text::decimal(dev as nat) + seq![':'] + text::decimal(ino as nat),
{
    let mut s = text::decimal_of(dev);
    s.push(':');
    let i = text::decimal_of(ino);
    s.append(i.as_str());
    assert(s@ =~= text::decimal(dev as nat) + seq![':'] + text::decimal(ino as nat));
    s
}

/// Two sources have one key only where they are one file, under whatever name.
pub proof fn law_a_source_has_its_own_key(dev: nat, ino: nat, dev2: nat, ino2: nat)
    requires
        text::decimal(dev) + seq![':'] + text::decimal(ino) == text::decimal(dev2) + seq![':']
            + text::decimal(ino2),
    ensures
        dev == dev2,
        ino == ino2,
{
    let a = text::decimal(dev) + seq![':'] + text::decimal(ino);
    text::lemma_decimal_reads_back(dev);
    text::lemma_decimal_reads_back(ino);
    text::lemma_decimal_reads_back(dev2);
    text::lemma_decimal_reads_back(ino2);
    assert(!text::decimal(dev).contains(':'));
    assert(!text::decimal(dev2).contains(':'));
    text::lemma_split_once_at(text::decimal(dev), text::decimal(ino), ':');
    text::lemma_split_once_at(text::decimal(dev2), text::decimal(ino2), ':');
    assert(text::digits_value(text::decimal(dev)) == text::digits_value(text::decimal(dev2)));
}

/// Can a source be opened? A plain file or a block device.
pub fn source_ok(is_file: bool, is_block_device: bool) -> (r: bool)
    ensures
        r == (is_file || is_block_device),
{
    is_file || is_block_device
}

/// May a directory be shared with the session? It belongs to the person who shares it.
pub fn exchange_ok(is_dir: bool, owner: u32, human_uid: u32) -> (r: bool)
    ensures
        r == (is_dir && owner == human_uid),
{
    is_dir && owner == human_uid
}

/// The value of a key is the one that is printed last, made safe to carry, wherever the
/// line stands and whatever other keys are printed.
pub proof fn law_a_probed_value_is_read(
    before: Seq<Seq<char>>,
    key: Seq<char>,
    value: Seq<char>,
    behind: Seq<Seq<char>>,
)
    requires
        !key.contains('='),
        forall|i: int|
            0 <= i < behind.len() ==> !(#[trigger] text::split_once(behind[i], '=') matches Some(kv)
                && kv.0 == key),
    ensures
        last_value(before + seq![key + seq!['='] + value] + behind, key) == process::clean(value),
        last_value(behind, key) is None,
    decreases behind.len(),
{
    let l = key + seq!['='] + value;
    let all = before + seq![l] + behind;
    if behind.len() == 0 {
        text::lemma_split_once_at(key, value, '=');
        assert(all.last() == l);
    } else {
        let d = behind.drop_last();
        assert forall|i: int| 0 <= i < d.len() implies !(#[trigger] text::split_once(d[i], '=') matches Some(
            kv,
        ) && kv.0 == key) by {
            assert(d[i] == behind[i]);
            assert(!(text::split_once(behind[i], '=') matches Some(kv) && kv.0 == key));
        }
        law_a_probed_value_is_read(before, key, value, d);
        assert(all.last() == behind.last());
        assert(behind.last() == behind[behind.len() - 1]);
        assert(!(text::split_once(behind[behind.len() - 1], '=') matches Some(kv) && kv.0 == key));
        assert(all.drop_last() =~= before + seq![l] + d);
    }
}

/// A volume is called by its own label; without one by the name of its file, without the
/// extension.
pub proof fn law_a_volume_is_called_by_its_label_or_file(
    label: Seq<char>,
    dir: Seq<char>,
    name: Seq<char>,
    ext: Seq<char>,
)
    requires
        name.len() > 0,
        !name.contains('/'),
        !ext.contains('/'),
        !ext.contains('.'),
        ext.len() > 0,
    ensures
        volume_label(Some(label), dir + seq!['/'] + name + seq!['.'] + ext) == label,
        volume_label(None, dir + seq!['/'] + name + seq!['.'] + ext) == name,
{
    let f = name + seq!['.'] + ext;
    let s = dir + seq!['/'] + f;
    assert(s =~= dir + seq!['/'] + name + seq!['.'] + ext);
    assert(f.len() >= 3);
    assert(seq!['.'].len() == 1 && seq!['.', '.'].len() == 2);
    assert(!f.contains('/')) by {
        if f.contains('/') {
            let k = choose|k: int| 0 <= k < f.len() && f[k] == '/';
            if k < name.len() {
                assert(name[k] == '/');
            } else if k > name.len() {
                assert(ext[k - name.len() - 1] == '/');
            }
        }
    }
    path::law_the_last_component_is_the_name(dir, f);
    path::law_a_stem_loses_the_extension(name, ext);
}

/// A staging mount never has devices or set-user programs on it. Where files have no
/// owners, it gives them to the user alone.
pub proof fn law_a_staging_mount_is_the_users_alone(uid: nat, gid: nat)
    ensures
        text::fields(stage_options(false, uid, gid), ',') == seq!["nodev"@, "nosuid"@],
        text::fields(stage_options(true, uid, gid), ',') == seq![
            "nodev"@,
            "nosuid"@,
            "uid="@ + text::decimal(uid),
            "gid="@ + text::decimal(gid),
            "umask=0077"@,
        ],
{
    reveal_strlit("nodev,nosuid");
    reveal_strlit("nodev,nosuid,uid=");
    reveal_strlit(",gid=");
    reveal_strlit(",umask=0077");
    reveal_strlit("nodev");
    reveal_strlit("nosuid");
    reveal_strlit("uid=");
    reveal_strlit("gid=");
    reveal_strlit("umask=0077");
    let c = seq![','];
    let m = "umask=0077"@;
    let g = "gid="@ + text::decimal(gid);
    let u = "uid="@ + text::decimal(uid);
    lemma_no_comma("gid="@, gid);
    lemma_no_comma("uid="@, uid);
    text::lemma_fields_one("nosuid"@, ',');
    text::lemma_fields_cons("nodev"@, "nosuid"@, ',');
    assert("nodev,nosuid"@ =~= "nodev"@ + c + "nosuid"@);
    assert(text::fields("nodev,nosuid"@, ',') =~= seq!["nodev"@, "nosuid"@]);
    text::lemma_fields_one(m, ',');
    text::lemma_fields_cons(g, m, ',');
    text::lemma_fields_cons(u, g + c + m, ',');
    text::lemma_fields_cons("nosuid"@, u + c + (g + c + m), ',');
    text::lemma_fields_cons("nodev"@, "nosuid"@ + c + (u + c + (g + c + m)), ',');
    let s = "nodev"@ + c + ("nosuid"@ + c + (u + c + (g + c + m)));
    assert(stage_options(true, uid, gid) =~= s);
    assert(text::fields(s, ',') =~= seq!["nodev"@, "nosuid"@, u, g, m]);
}

proof fn lemma_no_comma(p: Seq<char>, n: nat)
    requires
        !p.contains(','),
    ensures
        !(p + text::decimal(n)).contains(','),
{
    text::lemma_decimal_reads_back(n);
    let s = p + text::decimal(n);
    if s.contains(',') {
        let k = choose|k: int| 0 <= k < s.len() && s[k] == ',';
        if k < p.len() {
            assert(p[k] == ',');
        } else {
            assert(text::is_digit(text::decimal(n)[k - p.len()]));
        }
    }
}

/// A volume is mounted in a directory of the workspace, and staged on a hidden one beside
/// it: two volumes never share either.
pub proof fn law_a_plan_is_for_its_own_directory(p: MountPlan, name: Seq<char>, fstype: Option<Seq<char>>, uid: nat, gid: nat)
    requires
        is_plan(p, name, fstype, uid, gid),
        names::is_component(name),
    ensures
        p.mountpoint@ == "/run/veracage/vaults/"@ + name,
        p.staging@ == "/run/veracage/vaults/."@ + name + ".raw"@,
        p.options@ == stage_options(ownerless(fstype), uid, gid),
{
    reveal_strlit("/run/veracage/vaults");
    reveal_strlit("/run/veracage/vaults/");
    reveal_strlit("/run/veracage/vaults/.");
    assert(name[0] != '/') by {
        assert(name.contains(name[0]));
    }
    assert(p.mountpoint@ =~= "/run/veracage/vaults/"@ + name);
    assert(p.staging@ =~= "/run/veracage/vaults/."@ + name + ".raw"@);
}

/// Exactly the filesystems of Windows and of cameras have no owners, in whatever case their
/// type is written.
pub proof fn law_some_filesystems_have_no_owners(t: Seq<char>)
    ensures
        ownerless(Some(t)) <==> set!["vfat"@, "exfat"@, "ntfs"@, "ntfs3"@, "msdos"@].contains(
            text::lowered(t),
        ),
        !ownerless(None),
{
}

/// Exactly these filesystems are checked before they are mounted.
pub proof fn law_some_filesystems_are_checked(t: Seq<char>)
    ensures
        checkable(t) <==> set!["ext2"@, "ext3"@, "ext4"@, "vfat"@, "exfat"@].contains(t),
{
}

/// A filesystem is mounted after a check that found it clean or put it right, and after no
/// other.
pub proof fn law_only_a_sound_filesystem_is_mounted(code: Option<i32>)
    ensures
        sound(code) <==> code == Some(0i32) || code == Some(1i32) || code == Some(2i32) || code == Some(3i32),
{
}

/// A tool is taken from the first of the fixed directories that has it, and by its bare name
/// only where none has: never from anywhere else.
pub proof fn law_a_tool_comes_from_a_fixed_directory(name: Seq<char>, present: Seq<Seq<char>>)
    ensures
        ({
            let t = tool_path(name, present, 0);
            ||| exists|k: int|
                0 <= k < 6 && t == #[trigger] tool_dirs()[k] + name && present.contains(t) && forall|j: int|
                    0 <= j < k ==> !present.contains(#[trigger] tool_dirs()[j] + name)
            ||| t == name && forall|j: int| 0 <= j < 6 ==> !present.contains(#[trigger] tool_dirs()[j] + name)
        }),
        tool_dirs() == seq![
            "/usr/sbin/"@,
            "/sbin/"@,
            "/usr/bin/"@,
            "/bin/"@,
            "/usr/local/sbin/"@,
            "/usr/local/bin/"@,
        ],
{
    lemma_tool(name, present, 0);
}

proof fn lemma_tool(name: Seq<char>, present: Seq<Seq<char>>, m: int)
    requires
        0 <= m <= 6,
        forall|j: int| 0 <= j < m ==> !present.contains(#[trigger] tool_dirs()[j] + name),
    ensures
        ({
            let t = tool_path(name, present, m);
            ||| exists|k: int|
                0 <= k < 6 && t == #[trigger] tool_dirs()[k] + name && present.contains(t) && forall|j: int|
                    0 <= j < k ==> !present.contains(#[trigger] tool_dirs()[j] + name)
            ||| t == name && forall|j: int| 0 <= j < 6 ==> !present.contains(#[trigger] tool_dirs()[j] + name)
        }),
    decreases 6 - m,
{
    if m < 6 {
        if present.contains(tool_dirs()[m] + name) {
            assert(tool_path(name, present, m) == tool_dirs()[m] + name);
        } else {
            lemma_tool(name, present, m + 1);
        }
    }
}

/// A map of owners shows one id as the one other, and no more.
pub proof fn law_a_map_shows_one_id_as_another(on_disk: nat, vault: nat)
    ensures
        text::fields(id_map_text(on_disk, vault), ' ') == seq![
            text::decimal(on_disk),
            text::decimal(vault),
            "1\n"@,
        ],
{
    reveal_strlit(" ");
    reveal_strlit(" 1\n");
    reveal_strlit("1\n");
    let a = text::decimal(on_disk);
    let b = text::decimal(vault);
    let e: Seq<char> = seq![];
    text::lemma_decimal_reads_back(on_disk);
    text::lemma_decimal_reads_back(vault);
    assert(!a.contains(' '));
    assert(!b.contains(' '));
    let s = a + seq![' '] + (b + seq![' '] + "1\n"@);
    assert(id_map_text(on_disk, vault) =~= s);
    text::lemma_fields_one("1\n"@, ' ');
    text::lemma_fields_cons(b, "1\n"@, ' ');
    text::lemma_fields_cons(a, b + seq![' '] + "1\n"@, ' ');
    assert(text::fields(s, ' ') =~= seq![a, b, "1\n"@]);
}

/// A signed number is read back from its digits.
pub proof fn law_a_signed_number_reads_back(n: int)
    requires
        -0x8000_0000 <= n <= 0x7fff_ffff,
    ensures
        text::signed_in(signed_decimal(n), 0x7fff_ffff) == Some(n),
{
    if n < 0 {
        let m = (-n) as nat;
        text::lemma_decimal_reads_back(m);
        let s = seq!['-'] + text::decimal(m);
        assert(s.skip(1) =~= text::decimal(m));
    } else {
        text::lemma_decimal_parses(n as nat, 0x7fff_ffff);
    }
}

/// A refusal names the checker and how it ended.
pub proof fn law_a_refusal_names_the_checker(checker: Seq<char>, code: i32)
    ensures
        text::occurs(checker + " exit "@ + signed_decimal(code as int), refusal_text(checker, Some(code))),
        text::occurs(checker + " exit signal"@, refusal_text(checker, None)),
{
    let p = "the filesystem on this volume needs a repair Veracage will not make for you ("@;
    let k = p.len() as int;
    let a = checker + " exit "@ + signed_decimal(code as int);
    let r = refusal_text(checker, Some(code));
    assert(r.subrange(k, k + a.len()) =~= a);
    reveal_strlit(" exit ");
    reveal_strlit("signal");
    reveal_strlit(" exit signal");
    let b = checker + " exit signal"@;
    let t = refusal_text(checker, None);
    assert(t.subrange(k, k + b.len()) =~= b);
}

/// A volume of which neither a label nor a file name is known is called by a common name.
pub proof fn law_a_volume_always_has_a_label(source: Seq<char>)
    ensures
        path::file_name(source) is None ==> volume_label(None, source) == "Volume"@,
{
}

} // verus!
