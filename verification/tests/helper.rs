use veracage::args::{
    check_continuation_argv, forwarded_env, host_display, launch_request, leader_argv, mode,
    parse_args, rest_value, runtime_dir_ok, session_of, setenv_allowed, setenv_value,
    strip_line_end, ArgsError, DisplayError, Mode, SessionError,
};
use veracage::crypt::{detect, open_args, Backend};
use veracage::lock::{
    lock_append, lock_dms_for_source, lock_dms_for_vhash, lock_generation, lock_header, lock_lines,
    lock_survivors, lock_without, session_dms,
};
use veracage::names::{
    check_session_caller, is_veracage_dm, label_ok, random_dm_name, sanitize_label, session_id_ok,
    vault_hash, workspace_path, workspace_path_in, SessionRefusal,
};
use veracage::path::{basename, dir_steps, file_stem, last_part, DirError};
use veracage::process::{
    device_at, foreign_holders, holder_names, is_pid, is_sandbox_wrapper, own_device,
    parse_session_pid, pidfile_names, proc_starttime, sanitized, session_pid_text,
    verify_session_leader, wait_code, Process,
};
use veracage::session::{
    already_open, awaits, bootstrap_lock, caller_uid, close_code, close_step, close_tried, control_socket,
    lock_is_ours, open_dms, poll_slice, resolve_vault_user, session_file, take_answer, teardown,
    Answer, CallerError, CloseAction, CloseEvent, Closing, FirstVolume, VaultUserError,
};
use veracage::volume::{
    exchange_ok, fsck_checker, fsck_ok, fsck_verdict, id_map, is_ownerless_fs, label_of,
    mount_attr, mount_plan, probe_fs, remount_plan, source_key, source_ok, stage_opts, tool, tool_candidates,
    wipe, wipe_passphrase, Verdict, ATTR_NOSUID_NODEV_NOEXEC,
};

fn strings(v: &[&str]) -> Vec<String> {
    v.iter().map(|s| s.to_string()).collect()
}

const KNOWN_HASH: &str = "0631c55cceb0614f";

// ------------------------------------------------------------- passphrases ---

#[test]
fn a_wiped_buffer_keeps_none_of_the_passphrase() {
    let mut secret = b"correct horse battery staple".to_vec();
    wipe(&mut secret);
    assert!(secret.iter().all(|b| *b == 0), "{secret:?}");
    assert_eq!(secret.len(), 28);
}

#[test]
fn wiping_the_passphrase_also_drops_it() {
    let mut passphrase = Some(b"hunter2".to_vec());
    assert_eq!(wipe_passphrase(&mut passphrase), Some(vec![0u8; 7]));
    assert!(passphrase.is_none());
    assert_eq!(wipe_passphrase(&mut passphrase), None);
    assert!(passphrase.is_none());
}

#[test]
fn line_endings_are_not_part_of_the_passphrase() {
    let mut p = b"a b\r\n\n".to_vec();
    strip_line_end(&mut p);
    assert_eq!(p, b"a b".to_vec());
    let mut none = b"\n".to_vec();
    strip_line_end(&mut none);
    assert!(none.is_empty());
}

// ------------------------------------------------------------- filesystems ---

#[test]
fn fsck_lets_a_clean_or_repaired_filesystem_through_and_nothing_else() {
    for code in [0, 1, 2, 3] {
        assert!(fsck_ok(Some(code)), "exit {code} should allow the mount");
    }
    for code in [4, 8, 12, 16, 32, 128] {
        assert!(!fsck_ok(Some(code)), "exit {code} must refuse the mount");
    }
    assert!(!fsck_ok(None));
}

#[test]
fn only_filesystems_with_a_preen_checker_are_checked() {
    let all = strings(&["/usr/sbin/fsck.ext4", "/sbin/fsck.vfat", "/bin/fsck.exfat", "/sbin/fsck.ntfs"]);
    assert_eq!(fsck_checker(None, &all), None);
    assert_eq!(fsck_checker(Some("ntfs"), &all), None);
    assert_eq!(fsck_checker(Some("btrfs"), &all), None);
    assert_eq!(fsck_checker(Some(""), &all), None);
    for present in [all.clone(), Vec::new()] {
        for fstype in ["ext4", "vfat", "exfat"] {
            let installed = tool(&format!("fsck.{fstype}"), &present).starts_with('/');
            assert_eq!(
                fsck_checker(Some(fstype), &present).is_some(),
                installed,
                "{fstype}: checker presence and decision disagree"
            );
        }
    }
    assert_eq!(fsck_checker(Some("ext4"), &all).as_deref(), Some("/usr/sbin/fsck.ext4"));
}

#[test]
fn a_check_has_three_outcomes() {
    assert!(matches!(fsck_verdict("/sbin/fsck.ext4", Some(0)), Verdict::Clean));
    assert!(matches!(fsck_verdict("/sbin/fsck.ext4", Some(1)), Verdict::Repaired));
    match fsck_verdict("/sbin/fsck.ext4", Some(4)) {
        Verdict::Refused(why) => assert_eq!(
            why,
            "the filesystem on this volume needs a repair Veracage will not make for you \
             (/sbin/fsck.ext4 exit 4). Open the volume with your usual tool and run a full \
             check on it, then try again."
        ),
        _ => panic!("exit 4 must be refused"),
    }
    match fsck_verdict("f", None) {
        Verdict::Refused(why) => assert!(why.contains("(f exit signal)")),
        _ => panic!("a signal must be refused"),
    }
}

#[test]
fn ownerless_filesystems_get_uid_mount_options() {
    for fs in ["vfat", "exfat", "ntfs", "ntfs3", "msdos", "VFAT"] {
        assert!(is_ownerless_fs(Some(fs)), "{fs} must be treated as ownerless");
        let (opts, needs_chown) = stage_opts(Some(fs), 1000, 1000);
        assert!(opts.contains("uid=1000") && opts.contains("umask=0077"));
        assert!(!needs_chown);
    }
    for fs in [Some("ext4"), Some("btrfs"), Some("xfs"), None] {
        assert!(!is_ownerless_fs(fs));
        let (opts, needs_chown) = stage_opts(fs, 1000, 1000);
        assert_eq!(opts, "nodev,nosuid");
        assert!(needs_chown);
    }
    assert_eq!(stage_opts(Some("vfat"), 1000, 100).0, "nodev,nosuid,uid=1000,gid=100,umask=0077");
}

#[test]
fn sanitized_strips_control_chars_and_empties() {
    assert_eq!(sanitized("  Work  ").as_deref(), Some("Work"));
    assert_eq!(sanitized("Wo\u{0}rk\n").as_deref(), Some("Work"));
    assert_eq!(sanitized("   "), None);
    assert_eq!(sanitized("\u{0}\n"), None);
}

#[test]
fn a_probe_reads_the_label_and_the_type() {
    let (label, fstype) = probe_fs("DEVNAME=/dev/x\nLABEL= Work \nTYPE=ext4\nUSAGE=filesystem\n");
    assert_eq!(label.as_deref(), Some("Work"));
    assert_eq!(fstype.as_deref(), Some("ext4"));
    assert_eq!(probe_fs(""), (None, None));
    assert_eq!(label_of(&Some("Work".to_string()), "/a/b.vc"), "Work");
    assert_eq!(label_of(&None, "/a/b.vc"), "b");
    assert_eq!(label_of(&None, "/"), "Volume");
}

#[test]
fn a_mount_is_planned_in_the_workspace() {
    let p = mount_plan(&Some("My Disk".to_string()), &Some("vfat".to_string()), "/v/x.vc",
        b"/v/x.vc", 1000, 100, &strings(&["My_Disk"]));
    assert_eq!(p.label, "My Disk");
    assert_eq!(p.mountpoint, "/run/veracage/vaults/My_Disk-2");
    assert_eq!(p.staging, "/run/veracage/vaults/.My_Disk-2.raw");
    assert_eq!(p.options, "nodev,nosuid,uid=1000,gid=100,umask=0077");
    assert!(!p.chown);
}

#[test]
fn tools_come_from_fixed_directories() {
    assert_eq!(tool_candidates("mount")[0], "/usr/sbin/mount");
    assert_eq!(tool("mount", &strings(&["/bin/mount", "/usr/bin/mount"])), "/usr/bin/mount");
    assert_eq!(tool("mount", &strings(&["/home/u/mount"])), "mount");
}

#[test]
fn an_idmapped_mount_maps_one_user() {
    assert_eq!(id_map(1000, 964), "1000 964 1\n");
    assert_eq!(mount_attr(0), 0x0010_0000);
    assert_eq!(mount_attr(ATTR_NOSUID_NODEV_NOEXEC), 0x0010_000e);
}

#[test]
fn only_an_own_directory_is_shared() {
    assert!(exchange_ok(true, 1000, 1000));
    assert!(!exchange_ok(true, 0, 1000));
    assert!(!exchange_ok(false, 1000, 1000));
    assert!(source_ok(true, false) && source_ok(false, true) && !source_ok(false, false));
}

// --------------------------------------------------------------- arguments ---

#[test]
fn rest_value_reads_the_flag_that_follows() {
    let rest = strings(&["_leader", "--apps", "[]", "--first", "{\"exec\":\"kate\"}"]);
    assert_eq!(rest_value(&rest, "--first"), Some("{\"exec\":\"kate\"}"));
    assert_eq!(rest_value(&rest, "--apps"), Some("[]"));
    assert_eq!(rest_value(&rest, "--nope"), None);
    assert_eq!(rest_value(&strings(&["--first"]), "--first"), None);
    assert_eq!(launch_request(&rest).as_deref(), Some("{\"exec\":\"kate\"}"));
    let long = "x".repeat(4097);
    assert_eq!(launch_request(&strings(&["--first", &long])), None);
}

#[test]
fn allowed_setenv_excludes_dangerous_keys() {
    assert!(!setenv_allowed("LD_PRELOAD"));
    assert!(!setenv_allowed("LD_LIBRARY_PATH"));
    assert!(setenv_allowed("WAYLAND_DISPLAY"));
    let kept = forwarded_env(&strings(&["LANG=C", "LD_PRELOAD=/x", "DISPLAY=:0=1", "junk"]));
    assert_eq!(
        kept,
        vec![("LANG".to_string(), "C".to_string()), ("DISPLAY".to_string(), ":0=1".to_string())]
    );
}

#[test]
fn a_command_line_is_read() {
    let a = match parse_args(&strings(&["--session", "1000", "--source", "/v.vc", "--backend", "luks",
        "--setenv", "LANG=C", "--passphrase-stdin", "--", "_leader", "--source"]))
    {
        Ok(a) => a,
        Err(_) => panic!("a good command line was refused"),
    };
    assert_eq!(a.session.as_deref(), Some("1000"));
    assert_eq!(a.source.as_deref(), Some("/v.vc"));
    assert_eq!(a.backend, Some(Backend::Luks));
    assert_eq!(a.setenv, strings(&["LANG=C"]));
    assert_eq!(a.rest, strings(&["_leader", "--source"]));
    assert_eq!(a.passphrase_reads, 1);
    assert!(matches!(mode(&a), Mode::Open(s) if s == "/v.vc"));
    assert!(matches!(session_of(&a, 1000), Ok(s) if s == "1000"));
    assert!(matches!(session_of(&a, 1001), Err(SessionError::Foreign)));
}

#[test]
fn a_bad_command_line_is_refused() {
    assert!(matches!(parse_args(&strings(&["--backend", "zfs"])),
        Err(ArgsError::UnknownBackend(b)) if b == "zfs"));
    assert!(matches!(parse_args(&strings(&["--evil"])), Err(ArgsError::Unexpected(a)) if a == "--evil"));
}

#[test]
fn a_mode_goes_before_another() {
    let with = |v: &[&str]| match parse_args(&strings(v)) {
        Ok(a) => a,
        Err(_) => panic!("refused"),
    };
    assert!(matches!(mode(&with(&["--close-volume", "w", "--spawn-compositor"])), Mode::SpawnCompositor));
    assert!(matches!(mode(&with(&["--empty-session", "--close-volume", "w"])), Mode::CloseVolume(l) if l == "w"));
    assert!(matches!(mode(&with(&["--empty-session", "--source", "s"])), Mode::EmptySession));
    assert!(matches!(mode(&with(&[])), Mode::NoSource));
    assert!(matches!(session_of(&with(&[]), 1), Err(SessionError::Missing)));
    assert!(matches!(session_of(&with(&["--session", "../x"]), 1), Err(SessionError::Invalid)));
}

#[test]
fn only_the_two_continuations_are_run() {
    assert!(check_continuation_argv(&strings(&["_leader", "x"])));
    assert!(check_continuation_argv(&strings(&["_compositor"])));
    assert!(!check_continuation_argv(&strings(&["sh"])));
    assert!(!check_continuation_argv(&Vec::new()));
    assert_eq!(leader_argv(&strings(&["_leader"]), "/m"), strings(&["_leader", "--mountpoint", "/m"]));
}

#[test]
fn the_host_display_is_a_name() {
    let rt = "XDG_RUNTIME_DIR=/run/user/1000";
    let ok = host_display(&strings(&[rt, "WAYLAND_DISPLAY=wayland-0"]));
    assert!(matches!(ok, Ok(p) if p == "/run/user/1000/wayland-0"));
    assert!(matches!(host_display(&strings(&["WAYLAND_DISPLAY=w"])), Err(DisplayError::NoRuntimeDir)));
    assert!(matches!(host_display(&strings(&[rt])), Err(DisplayError::NoDisplay)));
    assert!(matches!(host_display(&strings(&[rt, "WAYLAND_DISPLAY=/tmp/w"])), Err(DisplayError::NotAName)));
    assert_eq!(setenv_value(&strings(&["A=1", "A=2"]), "A").as_deref(), Some("1"));
    assert!(runtime_dir_ok(&strings(&[rt]), 1000));
    assert!(!runtime_dir_ok(&strings(&[rt]), 1001));
    assert!(runtime_dir_ok(&Vec::new(), 1001));
}

// ------------------------------------------------------------------- names ---

#[test]
fn dm_name_matches_cleanup_regex() {
    let n = random_dm_name(&[0, 0x1f, 0xa0, 0xff, 7, 0x80]);
    assert!(n.starts_with("veracage-"));
    let hex = &n["veracage-".len()..];
    assert_eq!(hex.len(), 12);
    assert!(hex.chars().all(|c| c.is_ascii_hexdigit() && !c.is_ascii_uppercase()));
    assert_eq!(n, "veracage-001fa0ff0780");
    assert!(is_veracage_dm(&n));
}

#[test]
fn vault_hash_is_16_lowercase_hex() {
    let h = vault_hash(b"/tmp/x.vc");
    assert_eq!(h.len(), 16);
    assert!(h.chars().all(|c| c.is_ascii_hexdigit() && !c.is_ascii_uppercase()));
}

#[test]
fn vault_hash_matches_python_sha256_prefix() {
    assert_eq!(vault_hash(b"/tmp/veracage-x.vc"), KNOWN_HASH);
}

#[test]
fn session_id_accepts_uid_rejects_traversal() {
    assert!(session_id_ok("1000"));
    assert!(session_id_ok("0"));
    assert!(!session_id_ok(""));
    assert!(!session_id_ok("../etc"));
    assert!(!session_id_ok("10a0"));
    assert!(!session_id_ok("12345678901234567"));
    assert!(!session_id_ok("../../root"));
}

#[test]
fn a_session_is_its_users() {
    assert_eq!(check_session_caller("1000", 1000), Ok(()));
    assert_eq!(check_session_caller("1001", 1000), Err(SessionRefusal::Foreign));
    assert_eq!(check_session_caller("", 1000), Err(SessionRefusal::Invalid));
}

#[test]
fn sanitize_label_keeps_safe_maps_unsafe() {
    let src = b"/tmp/x.vc";
    assert_eq!(sanitize_label("Work Docs", src), "Work_Docs");
    assert_eq!(sanitize_label("photos-2024", src), "photos-2024");
    assert_eq!(sanitize_label("a/b/../c", src), "a_b_.._c");
}

#[test]
fn sanitize_label_falls_back_to_hash_for_empty_or_dots() {
    let src = b"/tmp/veracage-x.vc";
    let want = format!("vault-{}", vault_hash(src));
    assert_eq!(sanitize_label("", src), want);
    assert_eq!(sanitize_label("...", src), want);
    assert_eq!(sanitize_label("/", src), want);
}

#[test]
fn sanitize_label_is_a_single_component() {
    let src = b"/tmp/x.vc";
    for label in ["../../etc", "a/b", "..", ".", "  ", "normal"] {
        let s = sanitize_label(label, src);
        assert!(!s.contains('/'), "{label:?} -> {s:?} contains a slash");
        assert!(s != "." && s != "..", "{label:?} -> {s:?}");
        assert!(!s.is_empty());
    }
}

#[test]
fn is_veracage_dm_matches_cleanup_regex() {
    assert!(is_veracage_dm("veracage-0123456789ab"));
    assert!(!is_veracage_dm("veracage-0123456789"));
    assert!(!is_veracage_dm("veracage-0123456789ABCD"));
    assert!(!is_veracage_dm("veracage-../../x"));
    assert!(!is_veracage_dm("evil"));
    assert!(!is_veracage_dm(""));
}

#[test]
fn label_ok_rejects_traversal() {
    assert!(label_ok("volA"));
    assert!(label_ok("Work_Docs"));
    assert!(!label_ok(""));
    assert!(!label_ok("."));
    assert!(!label_ok(".."));
    assert!(!label_ok("a/b"));
    assert!(!label_ok("../../etc"));
}

#[test]
fn a_second_volume_with_the_same_label_gets_its_own_directory() {
    let root = "/tmp/vc-ws";
    let src = b"/tmp/work.vc";
    let mut taken: Vec<String> = Vec::new();

    let first = workspace_path_in(root, "work", src, &taken);
    assert_eq!(first, "/tmp/vc-ws/work");
    taken.push("work".to_string());

    let second = workspace_path_in(root, "work", src, &taken);
    assert_eq!(second, "/tmp/vc-ws/work-2");
    taken.push("work-2".to_string());

    assert_eq!(workspace_path_in(root, "work", src, &taken), "/tmp/vc-ws/work-3");

    let evil = workspace_path_in(root, "../../etc", src, &taken);
    assert_eq!(evil.rsplit_once('/').map(|p| p.0), Some(root));
    assert!(!evil.contains(".."));
    assert_eq!(workspace_path("work", src, &taken), "/run/veracage/vaults/work-3");
}

#[test]
fn paths_are_taken_apart() {
    assert_eq!(basename("/usr/bin/kate -b"), "kate -b");
    assert_eq!(last_part("/a/b.vc").as_deref(), Some("b.vc"));
    assert_eq!(last_part("/"), None);
    assert_eq!(file_stem("b.tar.gz"), "b.tar");
    assert_eq!(file_stem(".hidden"), ".hidden");
    assert_eq!(dir_steps("/a/b").0, strings(&["a", "b"]));
    assert!(matches!(dir_steps("/a/../b").1, Some(DirError::NotNormal)));
    assert!(matches!(dir_steps("/a/b\0c").1, Some(DirError::Nul)));
    assert!(dir_steps("/a/b").1.is_none());
}

// --------------------------------------------------------------- processes ---

#[test]
fn proc_starttime_reads_self() {
    let stat = "4242 (a (b) c) S 1 4242 4242 0 -1 4194560 1 0 0 0 2 1 0 0 20 0 1 0 987654 1 1";
    assert_eq!(proc_starttime(stat), Some(987654));
    assert!(proc_starttime(stat).map(|s| s > 0).unwrap_or(false));
    assert_eq!(proc_starttime("4242 (x) S"), None);
    assert_eq!(proc_starttime("nothing"), None);
}

#[test]
fn verify_session_leader_none_without_pidfile() {
    assert!(verify_session_leader(None, true, Some(1)).is_none());
    let recorded = parse_session_pid(&session_pid_text(4242, 77));
    assert_eq!(recorded, Some((4242, 77)));
    assert_eq!(verify_session_leader(recorded, true, Some(77)), Some(4242));
    assert_eq!(verify_session_leader(recorded, false, Some(77)), None);
    assert_eq!(verify_session_leader(recorded, true, Some(78)), None);
    assert_eq!(verify_session_leader(recorded, true, None), None);
    assert_eq!(verify_session_leader(Some((1, 77)), true, Some(77)), None);
    assert!(pidfile_names("4242\n77\n", 4242));
    assert!(!pidfile_names("4242\n", 42));
}

#[test]
fn sandbox_plumbing_is_filtered_from_the_message_only() {
    let holders = strings(&["bwrap", "dbus-run-sessio"]);
    assert!(!holders.is_empty(), "detection must still see them");
    assert_eq!(holder_names(&holders), "Apps inside Veracage");

    let mixed = strings(&["bwrap", "dolphin"]);
    assert_eq!(holder_names(&mixed), "dolphin");
}

#[test]
fn is_sandbox_wrapper_matches_the_15_char_comm_truncation() {
    assert!(is_sandbox_wrapper("bwrap"));
    assert!(is_sandbox_wrapper("dbus-run-sessio"));
    assert!(is_sandbox_wrapper("dbus-daemon"));
    assert!(is_sandbox_wrapper("veracage-reaper"));
    assert!(!is_sandbox_wrapper("dolphin"));
    assert!(!is_sandbox_wrapper("dbus"));
}

#[test]
fn holders_are_found_by_their_mounts() {
    let mount = "36 35 254:3 / /run/veracage/vaults/w rw - ext4 /dev/mapper/veracage-aaaaaaaaaaaa rw\n";
    let p = |ns: &str, comm: Option<&str>, mounts: &str| Process {
        mountinfo: mounts.to_string(),
        namespace: ns.to_string(),
        comm: comm.map(|c| c.to_string()),
    };
    let procs = vec![
        p("mnt:[2]", Some("kate\n"), mount),
        p("mnt:[1]", Some("leader\n"), mount),
        p("mnt:[3]", None, mount),
        p("mnt:[2]", Some("kate\n"), mount),
        p("mnt:[4]", Some("other\n"), ""),
    ];
    assert_eq!(
        foreign_holders(&procs, "veracage-aaaaaaaaaaaa", "mnt:[1]"),
        strings(&["a process", "kate"])
    );
    assert!(foreign_holders(&procs, "veracage-bbbbbbbbbbbb", "mnt:[1]").is_empty());
    assert_eq!(device_at(mount, "/run/veracage/vaults/w").as_deref(), Some("254:3"));
    assert_eq!(device_at(mount, "/run/veracage/vaults/x"), None);
    assert_eq!(own_device("veracage-aaaaaaaaaaaa\n").as_deref(), Some("veracage-aaaaaaaaaaaa"));
    assert_eq!(own_device("cryptswap"), None);
    assert!(is_pid("12") && !is_pid("") && !is_pid("1a"));
}

#[test]
fn an_exit_becomes_a_code() {
    assert_eq!(wait_code(0), 0);
    assert_eq!(wait_code(5 << 8), 5);
    assert_eq!(wait_code(15), 128 + 15);
    assert_eq!(wait_code(0x137f), 1);
}

// -------------------------------------------------------------------- lock ---

#[test]
fn lock_dms_for_vhash_matches_third_field() {
    let body = "user_uid=1000\n\
                volume=veracage-aaaaaaaaaaaa\tWork\t0631c55cceb0614f\n\
                volume=veracage-bbbbbbbbbbbb\t\tdeadbeefdeadbeef\n\
                volume=veracage-cccccccccccc\tX\t0631c55cceb0614f\n";
    assert_eq!(
        lock_dms_for_vhash(body, "0631c55cceb0614f"),
        vec!["veracage-aaaaaaaaaaaa".to_string(), "veracage-cccccccccccc".to_string()]
    );
    assert_eq!(lock_dms_for_vhash(body, "deadbeefdeadbeef"),
               vec!["veracage-bbbbbbbbbbbb".to_string()]);
    assert!(lock_dms_for_vhash(body, "0000000000000000").is_empty());
}

#[test]
fn lock_survivors_keeps_only_the_lines_whose_device_is_still_open() {
    let body = "user_uid=1000\n\
                generation=00aabbccddeeff11\n\
                volume=veracage-aaaaaaaaaaaa\tWork\t0631c55cceb0614f\n\
                volume=veracage-bbbbbbbbbbbb\tGone\tdeadbeefdeadbeef\n";
    assert_eq!(
        lock_survivors(body, &strings(&["veracage-aaaaaaaaaaaa"])),
        vec!["volume=veracage-aaaaaaaaaaaa\tWork\t0631c55cceb0614f".to_string()]
    );
    assert!(lock_survivors(body, &Vec::new()).is_empty());
}

#[test]
fn lock_generation_parses_header() {
    assert_eq!(
        lock_generation("user_uid=1000\ngeneration=00aabbccddeeff11\nvolume=x\ty\tz\n").as_deref(),
        Some("00aabbccddeeff11")
    );
    assert_eq!(lock_generation("user_uid=1000\nvolume=x\ty\tz\n"), None);
    assert_eq!(lock_generation(""), None);
}

#[test]
fn a_hard_link_does_not_get_past_the_duplicate_open_guard() {
    let a = b"/tmp/vc-dup/volume.vc";
    let b = b"/tmp/vc-dup/same-volume.vc";
    let key = source_key(66306, 1234);
    assert!(!key.is_empty());
    assert_eq!(key, source_key(66306, 1234), "a hard link is the same container");
    assert_ne!(vault_hash(a), vault_hash(b), "but not the same path");

    let body = format!("user_uid=1000\nvolume=veracage-aaaaaaaaaaaa\tWork\t{}\t{}\n",
                       vault_hash(a), key);
    assert_eq!(lock_dms_for_source(&body, &key),
               vec!["veracage-aaaaaaaaaaaa".to_string()]);
    assert_eq!(lock_dms_for_vhash(&body, &vault_hash(a)),
               vec!["veracage-aaaaaaaaaaaa".to_string()]);
    assert_eq!(key, "66306:1234");
    assert_ne!(source_key(66306, 12341), source_key(66306, 1234));
}

#[test]
fn lock_dms_for_source_ignores_lines_without_the_field() {
    let body = "user_uid=1000\nvolume=veracage-aaaaaaaaaaaa\tWork\t0631c55cceb0614f\n";
    assert!(lock_dms_for_source(body, "66306:1234").is_empty());
    assert!(lock_dms_for_source(body, "").is_empty());
}

#[test]
fn lock_dms_for_vhash_ignores_legacy_two_field_lines() {
    let body = "user_uid=1000\nvolume=veracage-aaaaaaaaaaaa\tWork\n";
    assert!(lock_dms_for_vhash(body, "0631c55cceb0614f").is_empty());
    assert!(lock_dms_for_vhash("", "0631c55cceb0614f").is_empty());
}

#[test]
fn a_lock_is_written_and_read_back() {
    let mut body = lock_header(1000, "00aabbccddeeff11");
    body.push_str(&lock_append(false, 1000, "veracage-aaaaaaaaaaaa", "Work", KNOWN_HASH, "1:2"));
    assert_eq!(
        body,
        "user_uid=1000\ngeneration=00aabbccddeeff11\n\
         volume=veracage-aaaaaaaaaaaa\tWork\t0631c55cceb0614f\t1:2\n"
    );
    assert_eq!(session_dms(&body), strings(&["veracage-aaaaaaaaaaaa"]));
    assert_eq!(lock_without(&body, "veracage-aaaaaaaaaaaa"), "user_uid=1000\ngeneration=00aabbccddeeff11\n");
    assert_eq!(lock_without(&body, "veracage-bbbbbbbbbbbb"), body);
    assert_eq!(
        lock_append(true, 7, "veracage-cccccccccccc", "", "h", ""),
        "user_uid=7\nvolume=veracage-cccccccccccc\t\th\t\n"
    );
    assert_eq!(lock_lines(&strings(&["a", "b"])), "a\nb\n");
}

// ----------------------------------------------------------------- session ---

#[test]
fn a_session_knows_its_users() {
    assert_eq!(caller_uid(None), Err(CallerError::NotSet));
    assert_eq!(caller_uid(Some("x")), Err(CallerError::NotNumeric));
    assert_eq!(caller_uid(Some("0")), Err(CallerError::Root));
    assert_eq!(caller_uid(Some("1000")), Ok(1000));
    assert_eq!(resolve_vault_user(None, 1000), Err(VaultUserError::NotFound));
    assert_eq!(resolve_vault_user(Some((0, 0)), 1000), Err(VaultUserError::Root));
    assert_eq!(resolve_vault_user(Some((1000, 5)), 1000), Err(VaultUserError::SameAsCaller));
    assert_eq!(resolve_vault_user(Some((964, 964)), 1000), Ok((964, 964)));
}

#[test]
fn a_session_has_its_files() {
    assert_eq!(session_file("1000", "lock"), "/run/veracage/session-1000.lock");
    assert_eq!(
        control_socket("/run/user/1000", Some(KNOWN_HASH), "1000"),
        "/run/user/1000/veracage/sessions/0631c55cceb0614f.sock"
    );
    assert_eq!(
        control_socket("/run/user/1000", None, "1000"),
        "/run/user/1000/veracage/sessions/session-1000.sock"
    );
}

#[test]
fn a_new_session_takes_over_open_devices() {
    let carried = strings(&["volume=veracage-aaaaaaaaaaaa\tW\th\t1:2"]);
    let first = Some(FirstVolume {
        dm: "veracage-bbbbbbbbbbbb".to_string(),
        vhash: "k".to_string(),
        skey: "3:4".to_string(),
    });
    let body = bootstrap_lock(1000, "gen1", &carried, &first);
    assert_eq!(
        body,
        "user_uid=1000\ngeneration=gen1\nvolume=veracage-aaaaaaaaaaaa\tW\th\t1:2\n\
         volume=veracage-bbbbbbbbbbbb\t\tk\t3:4\n"
    );
    assert_eq!(session_dms(&body), strings(&["veracage-aaaaaaaaaaaa", "veracage-bbbbbbbbbbbb"]));
    assert!(lock_is_ours(Some(&body), "gen1"));
    assert!(!lock_is_ours(Some(&body), "gen2"));
    assert!(!lock_is_ours(None, "gen1"));
    let open = open_dms(&body, "1:2", "k");
    assert_eq!(open, strings(&["veracage-aaaaaaaaaaaa", "veracage-bbbbbbbbbbbb"]));
    assert!(already_open(&open, &strings(&["veracage-bbbbbbbbbbbb"])));
    assert!(!already_open(&open, &strings(&["veracage-cccccccccccc"])));
}

#[test]
fn a_free_volume_is_closed() {
    let (s, a) = close_step(Closing::Listing, CloseEvent::Holders(Vec::new()));
    assert!(matches!(a, CloseAction::Unmount));
    let (s, a) = close_step(s, CloseEvent::Unmounted(true));
    assert!(matches!(a, CloseAction::Detach));
    let (_, a) = close_step(s, CloseEvent::Detached(true));
    assert!(matches!(a, CloseAction::Forget));
}

#[test]
fn a_held_volume_is_closed_only_when_it_is_free() {
    let (s, a) = close_step(Closing::Listing, CloseEvent::Holders(strings(&["kate"])));
    assert!(matches!(a, CloseAction::Report(m) if m == "holders\tkate"));
    let (s2, a) = close_step(s, CloseEvent::Answer(true));
    assert!(matches!(a, CloseAction::List));
    let (_, a) = close_step(s2, CloseEvent::Holders(strings(&["kate"])));
    assert!(matches!(a, CloseAction::Busy(m) if m == "busy\tan app is still running"));
    let (_, a) = close_step(Closing::Asked, CloseEvent::Answer(false));
    assert!(matches!(a, CloseAction::Busy(m) if m == "busy\tcancelled"));
    let (_, a) = close_step(Closing::Unmounting, CloseEvent::Unmounted(false));
    assert!(matches!(a, CloseAction::Busy(m) if m == "busy\tthe volume is still in use"));
}

#[test]
fn a_volume_whose_device_stays_is_mounted_again() {
    let (s, a) = close_step(Closing::Detaching, CloseEvent::Detached(false));
    assert_eq!(s, Closing::Remounting);
    assert!(matches!(a, CloseAction::Remount));
    let (_, a) = close_step(s, CloseEvent::Remounted(true));
    assert!(matches!(a, CloseAction::Busy(m)
        if m == "busy\tits device is still in use, so it is still decrypted"));
    let (_, a) = close_step(s, CloseEvent::Remounted(false));
    assert_eq!(close_code(&a), Some(6));
    assert!(matches!(a, CloseAction::Stranded(m)
        if m == "busy\tits device is still in use, so it is still decrypted"));
    assert_eq!(close_code(&CloseAction::Busy("busy\tcancelled".to_string())), Some(6));
    assert_eq!(close_code(&CloseAction::Forget), Some(0));
    for a in [CloseAction::Report(String::new()), CloseAction::List, CloseAction::Unmount,
        CloseAction::Detach, CloseAction::Remount]
    {
        assert_eq!(close_code(&a), None);
    }

    let p = remount_plan("My_Disk-2", &Some("ext4".to_string()), 1000, 100);
    assert_eq!(p.label, "My_Disk-2");
    assert_eq!(p.mountpoint, "/run/veracage/vaults/My_Disk-2");
    assert_eq!(p.staging, "/run/veracage/vaults/.My_Disk-2.raw");
    assert_eq!(p.options, "nodev,nosuid");
    assert!(!p.chown);
    assert_eq!(remount_plan("x", &Some("vfat".to_string()), 1, 2).options, "nodev,nosuid,uid=1,gid=2,umask=0077");
}

#[test]
fn a_close_takes_only_what_it_waits_for() {
    let states = [
        Closing::Listing,
        Closing::Asked,
        Closing::Relisting,
        Closing::Unmounting,
        Closing::Detaching,
        Closing::Remounting,
    ];
    let takes = |e: CloseEvent| states.iter().filter(|s| awaits(**s, &e)).copied().collect::<Vec<_>>();
    assert_eq!(takes(CloseEvent::Holders(Vec::new())), [Closing::Listing, Closing::Relisting]);
    assert_eq!(takes(CloseEvent::Answer(true)), [Closing::Asked]);
    assert_eq!(takes(CloseEvent::Unmounted(true)), [Closing::Unmounting]);
    assert_eq!(takes(CloseEvent::Detached(true)), [Closing::Detaching]);
    assert_eq!(takes(CloseEvent::Remounted(true)), [Closing::Remounting]);
}

fn answer_to(chunks: &[&[u8]]) -> bool {
    let mut line = Vec::new();
    for c in chunks {
        match take_answer(&mut line, &c.to_vec()) {
            Answer::Wait => {}
            Answer::Go => return true,
            Answer::Refuse => return false,
        }
    }
    false
}

#[test]
fn the_go_protocol_accepts_only_go_and_treats_everything_else_as_a_refusal() {
    assert!(answer_to(&[b"go\n"]));
    assert!(!answer_to(&[b""]), "EOF must not continue the close");
    for junk in [&b"no\n"[..], b"GO\n", b" go\n", b"gogo\n"] {
        assert!(!answer_to(&[junk]), "{:?} must not continue", junk);
    }
    assert!(!answer_to(&[&[b'x'; 32], &[b'x'; 32]]));
    assert!(!answer_to(&[]));
    assert!(answer_to(&[b"g", b"o", b"\n"]));
    assert_eq!(poll_slice(200, false), Some(200));
    assert_eq!(poll_slice(300_000, false), Some(1000));
    assert_eq!(poll_slice(0, false), None);
    assert_eq!(poll_slice(200, true), None);
}

#[test]
fn a_lock_stays_while_a_device_is_open() {
    assert_eq!(close_tried(true, 9_999), Some(true));
    assert_eq!(close_tried(false, 4_999), None);
    assert_eq!(close_tried(false, 5_000), Some(false));
    let t = teardown(true, true, false);
    assert!(t.runtime && t.pid_file && !t.lock);
    let t = teardown(false, true, true);
    assert!(!t.runtime && !t.pid_file && !t.lock);
    let t = teardown(true, false, true);
    assert!(t.runtime && !t.pid_file && t.lock);
}

// ------------------------------------------------------------------- crypt ---

#[test]
fn luks_open_args() {
    assert_eq!(
        open_args("/dev/sdb1", Backend::Luks, "veracage-aabbccddeeff"),
        vec!["open", "/dev/sdb1", "veracage-aabbccddeeff"]
    );
}

#[test]
fn veracrypt_open_args() {
    assert_eq!(
        open_args("/home/u/x.vc", Backend::Veracrypt, "veracage-001122334455"),
        vec!["--type", "tcrypt", "--veracrypt", "open", "/home/u/x.vc", "veracage-001122334455"]
    );
}

#[test]
fn backend_parse() {
    assert_eq!(Backend::parse("luks"), Some(Backend::Luks));
    assert_eq!(Backend::parse("veracrypt"), Some(Backend::Veracrypt));
    assert_eq!(Backend::parse("auto"), None);
    assert_eq!(Backend::parse(""), None);
    assert_eq!(detect(true), Backend::Luks);
    assert_eq!(detect(false), Backend::Veracrypt);
}
