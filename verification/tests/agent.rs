use veracage::agent::{configured, face, picture_ok, shader_header, Face, Outcome};
use veracage::apps::{is_installed, path_of, program_places, App};
use veracage::broker::{
    ask_candidates, ask_text, comm_matches, compositor_pid, dialog_opens, dispatch,
    error_candidates, file_changed, holder_app_names, human_runtime_dir, open_outcome,
    passphrase_args, reply_of, request_is_new, round_end, trusted_candidates, trusted_tool,
    unlocking_note, Action, Dismount, Move, Opened, Reply, APPS_CLOSED_WAIT,
};
use veracage::commands::{command_line, last_command_nonce, parse_command, read_commands};
use veracage::config::{
    clamp_clip_timeout, config_path, config_text, default_clip_clear_timeout, default_shortcut,
    exec_basename, load,
    load_apps, parse_sane_size, raw_of, temp_path, window_size_valid, AppTable, Config, RawConfig,
    CLIP_CLEAR_TIMEOUT_MAX, CLIP_CLEAR_TIMEOUT_MIN,
};
use veracage::detect::{
    application_dirs, best_icon, data_directories, default_desktop_id, desktop_files,
    desktop_icon_for_exec, detected_defaults, downscale_max, exec_binary, fallback_suggestions,
    first_installed, host_default,
    icon_file_ok, icon_files, icon_of, icon_rgba, is_desktop_file, parse_desktop_body, probes,
    resolve_terminal, scan_enters, scan_takes, whole_picture, HostDefault, Suggestion,
};
use veracage::editor::{bind, capture, combo_from, key_char, Captured, Editor, Held, InputEvent};
use veracage::fonts::{
    app_font, ascent_units, choices, family_for, font_file, host_ui_font, is_valid_font,
    is_valid_size, number, parse_desc_font, parse_kde_font, wanted_family,
};
use veracage::keyboard::{
    choices as keyboard_choices, host_keyboard, is_valid, label, options_for, published_keyboard,
};
use veracage::picker::{is_file_manager, key_for, note_for, row_note, saves_on_close, Picker};
use veracage::proto::{parse, reply_complete, request, socket_path, value_of_reply, Request};
use veracage::publish::{
    apps_text, autodismount_text, clipclear_text, font_text, icon_is_stale, icon_is_wanted,
    shortcuts_text, status_text, temp_name, theme_text,
};
use veracage::settings::{
    action_bar, auto_dismount_label, choose_setting, clip_clear_label, default_exchange_dir,
    exchange_dir_of, host_font_label, pick_start_dir, style_changes, theme_label,
    window_size_label, Choice,
};
use veracage::text;

fn strings(v: &[&str]) -> Vec<String> {
    v.iter().map(|s| s.to_string()).collect()
}

fn app(key: &str, name: &str, command: &str) -> App {
    App { key: key.to_string(), name: name.to_string(), command: command.to_string() }
}

// ---------------------------------------------------------------- commands ---

#[test]
fn every_verb_survives_a_drain_however_late_it_happens() {
    let log = "10\tclose-volume:work\n11\tclose-volume:private\n12\thelp\n";
    let cmds = read_commands(log, None);
    assert_eq!(
        cmds.iter().map(|(_, v)| v.as_str()).collect::<Vec<_>>(),
        ["close-volume:work", "close-volume:private", "help"]
    );
    let cmds = read_commands(log, Some(11));
    assert_eq!(cmds.len(), 1);
    assert_eq!(cmds[0].1, "help");
    assert!(read_commands(log, Some(12)).is_empty());
}

#[test]
fn a_line_still_being_written_waits_for_the_next_poll() {
    let cmds = read_commands("10\thelp\n11\tclose-vol", None);
    assert_eq!(cmds.len(), 1, "the partial line must not be dispatched");
    assert_eq!(cmds[0].1, "help");
}

#[test]
fn a_new_broker_steps_over_the_backlog() {
    let log = "10\thelp\n99\tabout\ngarbage\n\n";
    assert_eq!(last_command_nonce(log), Some(99));
    assert!(read_commands(log, last_command_nonce(log)).is_empty());
}

#[test]
fn a_command_is_appended_and_read() {
    let l = command_line(7, "open");
    assert_eq!(l, "7\topen\n");
    assert_eq!(parse_command("7\topen"), Some((7, "open".to_string())));
    assert_eq!(parse_command("open"), None);
    assert_eq!(read_commands(&format!("5\thelp\n{l}"), Some(5)), vec![(7, "open".to_string())]);
}

// ------------------------------------------------------------------ config ---

fn raw() -> RawConfig {
    raw_of(&Config::empty())
}

/// The clipboard policy of a file; what it leaves out is as in the empty configuration.
fn read(text: &str) -> RawConfig {
    let file: toml::Table = toml::from_str(text).unwrap();
    let section = file["default"].as_table().unwrap();
    let r = raw();
    RawConfig {
        clip_clear: section.get("clip_clear").and_then(|v| v.as_bool()).unwrap_or(r.clip_clear),
        clip_clear_timeout: section
            .get("clip_clear_timeout")
            .and_then(|v| v.as_integer())
            .map_or(r.clip_clear_timeout, |n| n as u32),
        ..r
    }
}

#[test]
fn the_tables_of_volumes_are_kept() {
    let pair = |a: &str, b: &str| (a.to_string(), b.to_string());
    let tables = vec![
        pair("work", "[v]\nidle = 5\ntags = [\"a\", \"b\"]\n"),
        pair("home", "v = \"any value\"\n"),
    ];
    let mut cfg = load(Some(RawConfig { volumes: tables.clone(), theme: "pink".to_string(), ..raw() }));
    assert_eq!(cfg.volumes, tables);
    choose_setting(&mut cfg, Choice::AutoDismount(30));
    cfg.apps = vec![app("kate", "Kate", "/usr/bin/kate")];
    let saved = raw_of(&cfg);
    assert_eq!(saved.volumes, tables);
    assert_eq!(load(Some(saved)).volumes, tables);
    assert!(load(None).volumes.is_empty());
}

#[test]
fn apps_keep_insertion_order_not_alphabetical() {
    let mut apps = AppTable::default();
    for name in ["Zed", "Kate", "Dolphin"] {
        apps.insert(name.to_lowercase(), (name.to_string(), name.to_lowercase()));
    }
    let cfg = load(Some(RawConfig { apps, ..raw() }));
    let keys: Vec<&str> = cfg.apps.iter().map(|a| a.key.as_str()).collect();
    assert_eq!(keys, ["zed", "kate", "dolphin"]);
    let saved = raw_of(&cfg).apps;
    let keys: Vec<&str> = saved.keys().map(|k| k.as_str()).collect();
    assert_eq!(keys, ["zed", "kate", "dolphin"], "apps were reordered");
}

#[test]
fn clip_timeout_clamped_into_range() {
    assert_eq!(clamp_clip_timeout(0), CLIP_CLEAR_TIMEOUT_MIN);
    assert_eq!(clamp_clip_timeout(30), 30);
    assert_eq!(clamp_clip_timeout(999_999), CLIP_CLEAR_TIMEOUT_MAX);
}

#[test]
fn clip_clear_defaults_when_absent() {
    let absent = read("[default]\n");
    assert!(absent.clip_clear);
    assert_eq!(absent.clip_clear_timeout, 30);
    let cfg = load(Some(absent));
    assert!(cfg.clip_clear);
    assert_eq!(cfg.clip_clear_timeout, 30);
    let present = load(Some(read("[default]\nclip_clear = false\nclip_clear_timeout = 45\n")));
    assert!(!present.clip_clear);
    assert_eq!(present.clip_clear_timeout, 45);
    let none = load(None);
    assert!(none.clip_clear);
    assert_eq!(none.clip_clear_timeout, default_clip_clear_timeout());
}

#[test]
fn clip_clear_roundtrips() {
    let cfg = load(Some(RawConfig { clip_clear: false, clip_clear_timeout: 45, ..raw() }));
    let back = load(Some(raw_of(&cfg)));
    assert!(!back.clip_clear);
    assert_eq!(back.clip_clear_timeout, 45);
}

#[test]
fn what_is_not_valid_falls_back() {
    let cfg = load(Some(RawConfig {
        theme: "pink".to_string(),
        window_size: "10x10".to_string(),
        suspend_action: "x".to_string(),
        ui_font: "x".to_string(),
        ui_font_size: "5".to_string(),
        modifier_keys: "ctrl:rm -rf".to_string(),
        auto_dismount: 99_999,
        ..raw()
    }));
    assert_eq!(cfg.theme, "light");
    assert_eq!(cfg.window_size, "default");
    assert_eq!(cfg.suspend_action, "dismount");
    assert_eq!(cfg.ui_font, "system");
    assert_eq!(cfg.ui_font_size, "system");
    assert_eq!(cfg.modifier_keys, "system");
    assert_eq!(cfg.auto_dismount, 1440);
    assert_eq!(load(None).theme, "system");
    assert_eq!(default_shortcut("copy_out"), "Ctrl+Alt+C");
    assert_eq!(default_shortcut("nope"), "");
}

#[test]
fn names_of_applications_are_capitalized() {
    let v = load_apps(&vec![
        ("kate".to_string(), ("kate".to_string(), "kate".to_string())),
        ("x".to_string(), (String::new(), "xedit".to_string())),
    ]);
    assert_eq!(v[0].name, "Kate");
    assert_eq!(v[0].key, "kate");
    assert_eq!(text::capitalize("ßx"), "SSx");
    assert_eq!(text::lower_text("ÄB"), "äb");
}

#[test]
fn paths_of_the_configuration() {
    assert_eq!(config_path(Some("/c"), Some("/h")), "/c/veracage/config.toml");
    assert_eq!(config_path(None, Some("/h")), "/h/.config/veracage/config.toml");
    assert_eq!(temp_path("/c/x", 7), "/c/x.7.tmp");
    assert!(config_text("a = 1\n").ends_with("a = 1\n"));
    assert_eq!(parse_sane_size("1024x680"), Some((1024, 680)));
    assert!(window_size_valid("max") && !window_size_valid("319x240"));
    assert_eq!(exec_basename("/usr/bin/kate"), "kate");
}

// ------------------------------------------------------------------ detect ---

#[test]
fn downscale_caps_the_long_side() {
    let (w, h, px) = downscale_max(128, 128, vec![7u8; 128 * 128 * 4], 64);
    assert_eq!((w, h), (64, 64));
    assert_eq!(px.len(), 64 * 64 * 4);
    let (w, h, px) = downscale_max(32, 32, vec![9u8; 32 * 32 * 4], 64);
    assert_eq!((w, h, px.len()), (32, 32, 32 * 32 * 4));
}

#[test]
fn parses_name_and_exec_stripping_field_codes() {
    let body = "[Desktop Entry]\nName=Dolphin\nExec=/usr/bin/dolphin %u\nType=Application\n";
    assert_eq!(parse_desktop_body(body), Some(("Dolphin".into(), "dolphin".into())));
}

#[test]
fn ignores_other_groups_and_actions() {
    let body = "[Desktop Entry]\nExec=okular %U\nName=Okular\n\
                [Desktop Action new]\nExec=okular --new\nName=New\n";
    assert_eq!(parse_desktop_body(body), Some(("Okular".into(), "okular".into())));
}

#[test]
fn exec_binary_strips_path_and_args() {
    assert_eq!(exec_binary("/usr/bin/kate -b %F"), "kate");
    assert_eq!(exec_binary("nautilus --new-window %U"), "nautilus");
    assert_eq!(exec_binary("%U"), "");
}

#[test]
fn no_exec_is_none() {
    assert_eq!(parse_desktop_body("[Desktop Entry]\nName=X\n"), None);
}

#[test]
fn a_program_is_found_on_the_path() {
    let present = strings(&["/b/kate", "/usr/bin/vi"]);
    assert_eq!(path_of("kate", Some("/a:/b"), &present).as_deref(), Some("/b/kate"));
    assert_eq!(path_of("/usr/bin/vi", Some("/a"), &present).as_deref(), Some("/usr/bin/vi"));
    assert!(!is_installed("kate", Some("/a"), &present));
    assert_eq!(program_places("kate", Some("/a:/b")), strings(&["/a/kate", "/b/kate"]));
}

#[test]
fn defaults_are_what_is_installed() {
    assert!(!probes().is_empty());
    let program = |n: &str, c: &str| HostDefault::Program(n.to_string(), c.to_string());
    let answers = vec![program("Dolphin", "dolphin"); probes().len()];
    let v = detected_defaults(&answers, &strings(&["dolphin", "kate", "konsole"]), Some("konsole"));
    let commands: Vec<&str> = v.iter().map(|s| s.command.as_str()).collect();
    assert_eq!(commands.iter().filter(|c| **c == "dolphin").count(), 1);
    assert!(commands.contains(&"kate") && commands.contains(&"konsole"));
    let none = detected_defaults(&answers, &Vec::new(), None);
    assert!(none.is_empty());
    let commands = |v: Vec<Suggestion>| v.into_iter().map(|s| s.command).collect::<Vec<_>>();
    let kate = vec![program("Kate", "kate")];
    let v = detected_defaults(&kate, &strings(&["kate", "gedit"]), None);
    assert_eq!(commands(v), ["kate"], "the editor is the file manager already");
    let silent = vec![HostDefault::Unset; probes().len()];
    assert!(detected_defaults(&silent, &strings(&["kate", "konsole"]), Some("konsole")).is_empty());
    assert_eq!(commands(fallback_suggestions(&strings(&["kate", "konsole"]), None)), ["kate", "konsole"]);
    assert!(fallback_suggestions(&Vec::new(), None).is_empty());
    let lost = vec![HostDefault::Unusable; probes().len()];
    let v = detected_defaults(&lost, &strings(&["kate", "konsole"]), None);
    assert_eq!(commands(v), ["kate", "konsole"], "something is configured");
    let pair = Some(("Kate".to_string(), "kate".to_string()));
    assert_eq!(host_default("org.kde.kate.desktop\n", pair), program("Kate", "kate"));
    assert_eq!(host_default("gone.desktop\n", None), HostDefault::Unusable);
    assert_eq!(host_default(" \n", None), HostDefault::Unset);
    let list = vec![("A".to_string(), "a".to_string()), ("B".to_string(), "b".to_string())];
    assert_eq!(first_installed(&list, &strings(&["b"])), Some(("B".to_string(), "b".to_string())));
    assert_eq!(default_desktop_id(true, "org.kde.kate.desktop\n").as_deref(), Some("org.kde.kate.desktop"));
    assert_eq!(default_desktop_id(false, "x.desktop"), None);
    assert_eq!(
        resolve_terminal("T".to_string(), "kate".to_string(), None),
        ("T".to_string(), "kate".to_string())
    );
}

#[test]
fn desktop_files_are_looked_for_in_order() {
    assert_eq!(
        data_directories(Some("/h"), None, Some("/a:/b")),
        strings(&["/h/.local/share", "/a", "/b"])
    );
    let dirs = application_dirs(Some("/h"), Some("/d"), Some("/a"));
    assert_eq!(dirs[0], "/d/applications");
    assert_eq!(
        desktop_files(&strings(&["/x", "/y"]), "a-b-c.desktop"),
        strings(&["/x/a-b-c.desktop", "/x/a/b-c.desktop", "/y/a-b-c.desktop", "/y/a/b-c.desktop"])
    );
    assert!(is_desktop_file("k.desktop") && !is_desktop_file("k.txt"));
    let bodies = strings(&[
        "[Desktop Entry]\nExec=vi\nIcon=vim\n",
        "[Desktop Entry]\nExec=/usr/bin/kate %U\nIcon=kate-icon\n",
    ]);
    assert_eq!(desktop_icon_for_exec("kate", &bodies).as_deref(), Some("kate-icon"));
    assert_eq!(desktop_icon_for_exec("nano", &bodies), None);
}

#[test]
fn icons_are_found_and_made_small() {
    assert!(icon_file_ok(true, 1_048_576) && !icon_file_ok(true, 1_048_577) && !icon_file_ok(false, 1));
    assert!(!icon_files("kate", &strings(&["/r"])).is_empty());
    assert_eq!(icon_files("/a/b.png", &strings(&["/r"])), strings(&["/a/b.png"]));
    let paths = strings(&["/i/16x16/k.png", "/i/64x64/k.png", "/i/512x512/k.png"]);
    assert_eq!(best_icon(&paths), Some(1));
    assert_eq!(best_icon(&Vec::new()), None);
    assert!(scan_enters(6, 1) && !scan_enters(7, 1));
    let mut budget: u32 = 1;
    assert!(scan_takes(&mut budget));
    assert!(!scan_takes(&mut budget));

    let mut file = Vec::new();
    {
        let mut e = png::Encoder::new(&mut file, 128, 128);
        e.set_color(png::ColorType::Rgba);
        e.set_depth(png::BitDepth::Eight);
        let mut w = e.write_header().unwrap();
        w.write_image_data(&vec![9u8; 128 * 128 * 4]).unwrap();
    }
    let (w, h, px) = icon_rgba(&file).unwrap();
    assert_eq!((w, h), (64, 64));
    assert_eq!(px, vec![9u8; 64 * 64 * 4]);
    assert_eq!(whole_picture(&file), Some((128, 128, vec![9u8; 128 * 128 * 4])));
    assert_eq!(whole_picture(b"no picture"), None);
    assert!(icon_rgba(b"no picture").is_none());
    assert!(icon_of(None).is_none());
}

// ------------------------------------------------------------------- fonts ---

#[test]
fn app_font_uses_the_configured_family_and_points() {
    let of = |f: &str, s: &str| {
        let (family, points) = app_font(f, s, None, None);
        (family, points.parse::<f32>().unwrap())
    };
    assert_eq!(of("noto", "12"), ("Noto Sans".to_string(), 12.0));
    assert_eq!(of("dejavu-mono", "18"), ("DejaVu Sans Mono".to_string(), 18.0));
}

fn size_of(s: &Option<String>) -> Option<f32> {
    s.as_ref().and_then(|s| s.parse::<f32>().ok())
}

#[test]
fn parse_kde_font_family_and_size() {
    let f = parse_kde_font("Noto Sans,12,-1,5,50,0,0,0,0,0").unwrap();
    assert_eq!((f.0.clone(), size_of(&f.1)), (Some("Noto Sans".into()), Some(12.0)));
    assert_eq!(parse_kde_font("Cantarell").unwrap().0, Some("Cantarell".into()));
    assert!(parse_kde_font("").is_none());
}

#[test]
fn parse_desc_font_trailing_size() {
    let f = parse_desc_font("Cantarell 11").unwrap();
    assert_eq!((f.0.clone(), size_of(&f.1)), (Some("Cantarell".into()), Some(11.0)));
    let f = parse_desc_font("DejaVu Sans 10").unwrap();
    assert_eq!((f.0.clone(), size_of(&f.1)), (Some("DejaVu Sans".into()), Some(10.0)));
    assert_eq!(size_of(&parse_desc_font("Noto Sans,12").unwrap().1), Some(12.0));
}

#[test]
fn is_valid_size_bounds() {
    assert!(is_valid_size("system"));
    assert!(is_valid_size("12"));
    assert!(!is_valid_size("5"));
    assert!(!is_valid_size("49"));
    assert!(!is_valid_size("abc"));
}

#[test]
fn a_number_is_what_is_read_as_one() {
    for s in ["1", "-1.5", "+.5", "2.", "1e3", "1E-3", "inf", "NaN", "-Infinity", "1.5e+07"] {
        assert!(number(s) && s.parse::<f64>().is_ok(), "{s}");
    }
    for s in ["", ".", "e5", "1e", "1.5x", " 1", "--1", "0x1", "infin", "1_0"] {
        assert!(!number(s) && s.parse::<f64>().is_err(), "{s}");
    }
}

#[test]
fn hinted_ascent_factor_on_a_real_font() {
    assert_eq!(ascent_units(&[0u8; 4]), None);
    assert_eq!(ascent_units(b"not a font at all"), None);
    let font = font_with(&[0, 1, 0, 0], 0, 2048, 1901);
    assert_eq!(ascent_units(&font), Some((2048, 1901)));
}

/// A font with a `head` and a `hhea` table, whose directory starts at `base`.
fn font_with(tag: &[u8; 4], base: usize, upem: u16, ascender: u16) -> Vec<u8> {
    let (head, hhea) = (base + 12 + 3 * 16, base + 12 + 3 * 16 + 54);
    let mut f = vec![0u8; hhea + 36];
    f[..4].copy_from_slice(tag);
    if base > 0 {
        f[12..16].copy_from_slice(&(base as u32).to_be_bytes());
    }
    f[base + 4..base + 6].copy_from_slice(&3u16.to_be_bytes());
    for (i, (name, at)) in [(b"cmap", 0), (b"head", head), (b"hhea", hhea)].into_iter().enumerate() {
        let e = base + 12 + 16 * i;
        f[e..e + 4].copy_from_slice(name);
        f[e + 8..e + 12].copy_from_slice(&(at as u32).to_be_bytes());
    }
    f[head + 18..head + 20].copy_from_slice(&upem.to_be_bytes());
    f[hhea + 4..hhea + 6].copy_from_slice(&ascender.to_be_bytes());
    f
}

#[test]
fn the_ascent_is_read_from_the_tables() {
    let plain = [0, 1, 0, 0];
    assert_eq!(ascent_units(&font_with(&plain, 0, 1000, 1069)), Some((1000, 1069)));
    assert_eq!(ascent_units(&font_with(b"ttcf", 20, 2048, 1556)), Some((2048, 1556)));
    assert_eq!(ascent_units(&font_with(&plain, 0, 0, 1069)), None);
    assert_eq!(ascent_units(&font_with(&plain, 0, 1000, 0)), None);
    assert_eq!(ascent_units(&font_with(&plain, 0, 1000, 0x8000)), None, "an ascender below the line");
    let mut f = font_with(&plain, 0, 1000, 1069);
    f[12 + 16] = b'x';
    assert_eq!(ascent_units(&f), None, "no head table");
    let f = font_with(&plain, 0, 1000, 1069);
    assert_eq!(ascent_units(&f[..12 + 3 * 16 + 54 + 5]), None, "cut off in the hhea table");
}

#[test]
fn fonts_are_found() {
    assert!(is_valid_font("noto") && !is_valid_font("comic"));
    assert_eq!(family_for("system"), None);
    assert!(choices().iter().any(|c| c.0 == "dejavu-mono"));
    assert_eq!(wanted_family("system", Some("Cantarell".to_string())).as_deref(), Some("Cantarell"));
    assert_eq!(font_file("Noto Sans|/f/NotoSans.ttf\n", "noto sans").as_deref(), Some("/f/NotoSans.ttf"));
    assert_eq!(font_file("DejaVu Sans|/f/d.ttf", "Noto Sans"), None);
    let f = host_ui_font(None, None, Some("'Cantarell 11'"), None);
    assert_eq!(f.0.as_deref(), Some("Cantarell"));
    assert_eq!(host_ui_font(None, None, None, None).1, None);
}

// ---------------------------------------------------------------- keyboard ---

#[test]
fn system_keeps_the_host_options_verbatim() {
    let host = "compose:caps,eurosign:e,altwin:ctrl_win";
    assert_eq!(options_for(host, "system"), host);
}

#[test]
fn a_choice_replaces_only_the_modifier_groups() {
    assert_eq!(
        options_for("compose:caps,eurosign:e,altwin:ctrl_win", "ctrl:nocaps"),
        "compose:caps,eurosign:e,ctrl:nocaps"
    );
    assert_eq!(
        options_for("altwin:ctrl_win,ctrl:nocaps", "altwin:alt_win"),
        "altwin:alt_win"
    );
}

#[test]
fn none_strips_the_modifier_mapping_and_nothing_else() {
    assert_eq!(
        options_for("compose:caps,altwin:ctrl_win", "none"),
        "compose:caps"
    );
    assert_eq!(options_for("", "none"), "");
}

#[test]
fn every_offered_choice_is_accepted_and_labelled() {
    for (value, name) in keyboard_choices() {
        assert!(is_valid(&value));
        assert_eq!(label(&value), name);
    }
    assert!(!is_valid("ctrl:rm -rf"));
}

#[test]
fn a_keyboard_is_published() {
    let s = |v: &str| Some(v.to_string());
    let k = host_keyboard(Some("true"), s("pc105"), s("de"), None, s("compose:caps"));
    assert_eq!(published_keyboard(&k, "ctrl:nocaps"), "pc105\nde\n\ncompose:caps,ctrl:nocaps\n");
    let k = host_keyboard(Some("false"), s("pc105"), s("de"), None, s("x"));
    assert_eq!(published_keyboard(&k, "system"), "\n\n\n\n");
}

// ------------------------------------------------------------------- proto ---

#[test]
fn socket_path_matches_python_sha256_prefix() {
    let p = socket_path(Some("/run/user/1000"), "/tmp/veracage-test.vc").unwrap();
    assert_eq!(p, "/run/user/1000/veracage/sessions/fff2a519a88710fa.sock");
    assert_eq!(socket_path(None, "/tmp/veracage-test.vc"), None);
}

#[test]
fn parse_handles_empty_and_json() {
    assert_eq!(parse(b"   \n").as_deref(), Some("{}"));
    assert_eq!(parse(b"{\"ok\":true}\n").as_deref(), Some("{\"ok\":true}"));
    assert_eq!(parse(b"{ \"ok\" : true }\n").as_deref(), Some("{\"ok\":true}"));
    assert_eq!(parse(b"{"), None);
    assert_eq!(parse(b"\"\xff\"\n").as_deref(), Some("\"\u{fffd}\""));
    assert_eq!(value_of_reply("  ", None).as_deref(), Some("{}"));
}

#[test]
fn a_request_is_one_line() {
    assert_eq!(veracage::proto::line(&request(Request::Ping)).as_deref(), Some("{\"cmd\":\"ping\"}\n"));
    assert_eq!(veracage::proto::line("{"), None);
    assert!(reply_complete(&b"{}\n".to_vec()) && !reply_complete(&b"{}".to_vec()));
}

// ----------------------------------------------------------------- publish ---

#[test]
fn the_session_is_told_of_the_configuration() {
    let mut cfg = Config::empty();
    cfg.clip_clear_timeout = 45;
    cfg.auto_dismount = 15;
    cfg.theme = "dark".to_string();
    assert_eq!(clipclear_text(&cfg), "1\n45\n");
    assert_eq!(autodismount_text(&cfg), "15\n");
    assert_eq!(theme_text(&cfg), "dark\n");
    assert_eq!(shortcuts_text(&cfg), "copy_out\tCtrl+Alt+C\npaste_in\tCtrl+Alt+V\n");
    assert_eq!(status_text(""), None);
    assert_eq!(status_text("Unlocking\u{7} x").as_deref(), Some("Unlocking x\n"));
    assert_eq!(font_text("/f.ttf", "12"), "/f.ttf\n12\n");
    assert_eq!(temp_name("status", 9), "status.9.tmp");
    let apps = vec![app("kate", "Ka\tte", "kate"), app("../x", "X", "x")];
    assert_eq!(apps_text(&apps), "kate\tKate\n");
    assert!(icon_is_stale("vi.rgba", &apps) && !icon_is_stale("kate.rgba", &apps));
    assert!(!icon_is_stale("note.txt", &apps));
    assert!(icon_is_wanted("kate", None) && icon_is_wanted("kate", Some(0)));
    assert!(!icon_is_wanted("kate", Some(3)) && !icon_is_wanted("a/b", None));
}

// ------------------------------------------------------------------ broker ---

#[test]
fn verbs_are_dispatched() {
    assert!(matches!(dispatch("open"), Action::Open));
    assert!(matches!(dispatch("exchange"), Action::Exchange));
    assert!(matches!(dispatch("close-volume:a:b"), Action::CloseVolume(l) if l == "a:b"));
    assert!(matches!(dispatch("settings"), Action::Dialog(_)));
    assert!(matches!(dispatch("rm"), Action::Unknown));
    assert!(dialog_opens(&strings(&["a"]), "b") && !dialog_opens(&strings(&["a"]), "a"));
}

#[test]
fn an_open_ends_in_one_of_three_ways() {
    assert!(matches!(open_outcome(Some(0), "/v/w.vc"), Opened::Done));
    assert!(matches!(open_outcome(Some(126), "/v/w.vc"), Opened::Done));
    assert!(matches!(open_outcome(Some(4), "/v/w.vc"), Opened::Retry));
    assert!(matches!(open_outcome(Some(5), "/v/w.vc"), Opened::Failed(m)
        if m == "w.vc was not opened: its filesystem needs a repair."));
    assert!(matches!(open_outcome(Some(1), "/v/w.vc"), Opened::Failed(m)
        if m == "Could not open w.vc (exit 1)."));
    assert_eq!(unlocking_note("/v/w.vc"), "Unlocking w.vc");
}

#[test]
fn a_dismount_goes_on_after_yes() {
    let cfg = vec![app("kate", "Kate", "/usr/bin/kate")];
    let mut d = Dismount::begin("work");
    assert_eq!(d.handle("holders\tkate", &cfg).as_deref(), Some("Close Kate to continue."));
    assert_eq!(d.asked(true), Move::Rest);
    assert_eq!(d.answered(Reply::Yes, Some(5), 1_000), Move::CloseApps);
    assert_eq!(d.drive_apps_wait(Some(5), 2_000), Move::Rest);
    assert_eq!(d.drive_apps_wait(Some(6), 3_000), Move::Go);
    assert_eq!(d.report(Some(0)), None);
}

#[test]
fn a_dismount_is_given_up() {
    let mut d = Dismount::begin("work");
    assert_eq!(d.asked(true), Move::Rest);
    assert_eq!(d.answered(Reply::No, None, 0), Move::HangUp);
    assert_eq!(d.report(Some(6)), None, "the person who cancels knows");

    let mut d = Dismount::begin("work");
    d.last_word("busy\tthe volume is still in use");
    assert_eq!(d.report(Some(6)).as_deref(), Some("work was not closed: the volume is still in use."));
    assert_eq!(Dismount::begin("w").report(Some(6)).as_deref(), Some("w was not closed: it is still in use."));
    assert_eq!(Dismount::begin("w").report(Some(7)), None);
    let mut d = Dismount::begin("w");
    d.last_word("busy\tits device is still in use, so it is still decrypted");
    assert_eq!(
        d.report(Some(6)).as_deref(),
        Some("w was not closed: its device is still in use, so it is still decrypted.")
    );

    let mut d = Dismount::begin("work");
    d.asked(true);
    d.answered(Reply::Yes, None, 1_000);
    let late = 1_000 + APPS_CLOSED_WAIT as u64;
    assert_eq!(d.drive_apps_wait(None, late), Move::HangUp);
    assert_eq!(Dismount::begin("w").asked(false), Move::HangUp);
    assert_eq!(reply_of(true, Some(0)), Reply::Yes);
    assert_eq!(reply_of(false, Some(1)), Reply::No);
}

#[test]
fn holders_are_named_as_configured() {
    assert!(comm_matches("kate", "kate") && comm_matches("libreoffice-cal", "libreoffice-calc"));
    assert!(!comm_matches("lib", "libreoffice-calc"));
    let cfg = vec![app("k", "Kate", "/usr/bin/kate")];
    assert_eq!(holder_app_names("kate, other, kate", &cfg), "Kate");
    assert_eq!(ask_text("vi", &cfg), "Close Apps inside Veracage to continue.");
}

#[test]
fn questions_are_put_by_trusted_tools() {
    assert_eq!(trusted_candidates("kdialog"), strings(&["/usr/bin/kdialog", "/bin/kdialog"]));
    assert_eq!(trusted_tool("x", &strings(&["/bin/x"])).as_deref(), Some("/bin/x"));
    assert_eq!(trusted_tool("x", &strings(&["/home/x"])), None);
    let v = ask_candidates("m", "Yes", "No", Some("/usr/bin/kdialog".to_string()), None);
    assert_eq!(v.len(), 1);
    assert_eq!(v[0].0, "/usr/bin/kdialog");
    assert!(error_candidates("m", None, None).is_empty());
    assert!(passphrase_args("w.vc", true).iter().any(|a| a.contains("w.vc")));
}

#[test]
fn the_broker_outlives_its_compositor_while_it_is_busy() {
    let r = round_end(false, true, true, 0);
    assert!(r.exit && r.close_dialogs && r.seen);
    assert!(!round_end(false, true, false, 0).exit);
    assert!(!round_end(false, false, true, 180_000).exit);
    assert!(round_end(false, false, true, 180_001).exit);
    assert!(request_is_new(Some(2), Some(1)) && !request_is_new(None, Some(1)));
    assert!(file_changed(None, Some(1)) && !file_changed(Some(1), Some(1)));
    assert_eq!(compositor_pid("4242\n"), Some(4242));
    assert_eq!(compositor_pid("x"), None);
    assert!(human_runtime_dir(Some("/run/user/1000")).is_some());
    assert!(human_runtime_dir(None).is_none());
}

// ----------------------------------------------------------------- windows ---

#[test]
fn the_agent_knows_its_windows() {
    assert!(matches!(face(&Vec::new()), Face::Broker));
    assert!(matches!(face(&strings(&["_passphrase", "w"])), Face::Passphrase(n) if n == "w"));
    assert!(matches!(face(&strings(&["_appearance"])), Face::Appearance));
    assert!(matches!(face(&strings(&["/v.vc", "list"])), Face::Ask(v, Request::List) if v == "/v.vc"));
    assert!(matches!(face(&strings(&["/v.vc", "socket-path"])), Face::SocketPath(v) if v == "/v.vc"));
    assert!(matches!(face(&strings(&["/v.vc", "x"])), Face::Unknown(c) if c == "x"));
    assert!(matches!(face(&strings(&["/v.vc"])), Face::Usage));
    assert_eq!(
        configured(Outcome { saved: true, count: 2 }),
        ("veracage: enabled 2 app(s).".to_string(), 0)
    );
    assert_eq!(configured(Outcome { saved: false, count: 2 }).1, 1);
    assert!(picture_ok(2, 2, 16) && !picture_ok(2, 2, 15) && !picture_ok(0, 2, 0));
    assert!(shader_header(true, 3).0.contains("es"));
}

#[test]
fn an_application_is_added_and_removed() {
    let mut p = Picker { apps: Vec::new(), new_command: "  ".to_string(), error: String::new() };
    p.add_custom(true);
    assert_eq!(p.error, "Type a binary name or an absolute path.");
    p.new_command = "nope".to_string();
    p.add_custom(false);
    assert_eq!(p.error, "'nope' is not installed / not on $PATH.");
    p.new_command = "/usr/bin/kate".to_string();
    p.add_custom(true);
    assert!(p.error.is_empty() && p.enabled_basename("kate"));
    assert_eq!(p.apps[0].name, "Kate");
    p.new_command = "kate".to_string();
    p.add_custom(true);
    assert_eq!(p.error, "'kate' is already enabled.");
    p.remove(0);
    assert!(p.apps.is_empty());
    assert_eq!(key_for("/usr/bin/My App", &strings(&["my-app"])), "my-app-2");
    assert_eq!(key_for("Kate", &strings(&["kate", "kate-2"])), "kate-3");
    assert_eq!(key_for("!!", &Vec::new()), "app");
    assert_eq!(key_for("/opt/\u{c9}t\u{e9}_9.0 B\u{fc}ro", &Vec::new()), "t-_9-0-b-ro");
    assert!(is_file_manager("dolphin") && !is_file_manager("kate"));
    assert_eq!(note_for(&Vec::new(), "kate"), None);
    assert_eq!(row_note(Some("x".to_string()), true).as_deref(), Some("x"));
    assert!(row_note(None, false).is_some());
    assert!(saves_on_close(true, false) && !saves_on_close(true, true));
}

#[test]
fn settings_are_labelled_and_chosen() {
    assert_eq!(auto_dismount_label(0), "Off");
    assert_eq!(auto_dismount_label(90), "1 hours 30 minutes");
    assert_eq!(auto_dismount_label(720), "12 hours");
    assert_eq!(window_size_label("nonsense"), "Default");
    assert_eq!(host_font_label(Some("Cantarell".to_string())).contains("Cantarell"), true);
    assert_ne!(clip_clear_label(true, 30), clip_clear_label(false, 30));
    assert_ne!(theme_label("dark"), theme_label("light"));
    let mut cfg = Config::empty();
    choose_setting(&mut cfg, Choice::Theme("dark".to_string()));
    choose_setting(&mut cfg, Choice::ClipAfter(60));
    choose_setting(&mut cfg, Choice::AutoDismount(30));
    assert_eq!((cfg.theme.as_str(), cfg.clip_clear, cfg.clip_clear_timeout, cfg.auto_dismount),
        ("dark", true, 60, 30));
    choose_setting(&mut cfg, Choice::ClipOff);
    assert!(!cfg.clip_clear);
    assert_eq!(exchange_dir_of("  "), None);
    assert!(default_exchange_dir(Some("/h")).starts_with("/h/"));
    assert_eq!(pick_start_dir("/a/b", Some("/h"), &strings(&["/a"])), "/a");
    assert_eq!(action_bar(false, true, false, false, false), (true, false));
    assert_eq!(action_bar(false, false, true, false, false), (false, true));
    assert_eq!(style_changes(&None, &None, &cfg), (true, true));
}

#[test]
fn a_shortcut_is_captured() {
    let held = Held { ctrl: true, alt: true, shift: false };
    assert_eq!(key_char("C"), Some('c'));
    assert_eq!(key_char("Enter"), None);
    assert_eq!(combo_from(held, "X").as_deref(), Some("Ctrl+Alt+X"));
    assert_eq!(combo_from(Held { ctrl: false, alt: false, shift: false }, "X"), None);
    let ev = vec![InputEvent::Other, InputEvent::Key("X".to_string(), true, held)];
    assert!(matches!(capture(false, &ev, held), Captured::Combo(c) if c == "Ctrl+Alt+X"));
    assert!(matches!(capture(true, &ev, held), Captured::Cancelled));
    let mut cfg = Config::empty();
    let mut e = Editor::new();
    assert!(!e.click("paste_in", true));
    assert!(e.click("copy_out", false));
    assert_eq!(e.capturing.as_deref(), Some("copy_out"));
    assert!(e.take(Captured::Combo("Ctrl+Alt+X".to_string()), &mut cfg));
    assert_eq!(bind(&cfg, "copy_out"), "Ctrl+Alt+X");
    assert_eq!(bind(&cfg, "paste_in"), "Ctrl+Alt+V");
    assert!(e.capturing.is_none() && !e.seeded && !e.leave());
}

#[test]
fn a_helper_that_was_hung_up_on_is_not_told_to_go_on() {
    let mut d = Dismount::begin("work");
    assert_eq!(d.asked(true), Move::Rest);
    assert_eq!(d.answered(Reply::Yes, Some(5), 0), Move::CloseApps);
    assert_eq!(d.asked(true), Move::Rest);
    assert_eq!(d.answered(Reply::No, Some(5), 1), Move::HangUp);
    assert_eq!(d.drive_apps_wait(Some(6), 2), Move::Rest);
    assert_eq!(d.drive_apps_wait(Some(7), 3), Move::Rest);
}
