use veracage::clipboard::{admits, pull_step, Answer, Pull};
use veracage::clipio::{goes_on, read_step, served, write_step, Moved, MAX_CLIP_BYTES};
use veracage::fonts::is_scalable_font;
use veracage::hostclip::{
    mimes, pick_mime, plan_clear, selection_text, ClipState, Offers, MAX_OFFER_MIMES,
};
use veracage::icons::{
    coverage, decode_icon_rgba, frame_rgba, hint_icon, ink, premultiply, Stroke,
};
use veracage::input::{
    click, focuses_new_window, may_hold, menu_area, menu_is_refused, pointer_shows, route_key,
    strip_hears, strip_takes, Click, KeyDeed, Strip,
};
use veracage::keybind::{parse, scan, shown, Binds, Modifiers};
use veracage::published::load_icon;
use veracage::publish::icon_blob;
use veracage::toolbar::{
    action_command, apps_menu, clipboard_menu, file_menu, file_ok, help_menu, hint_icon_pos,
    idle_is_over, launch_line, leaders_changed, note_is_left_over, notice_live, painted_rect,
    pick_status, read_status_line, scan_autodismount, scan_clipclear, scan_config_apps, scan_font,
    scan_keyboard, scan_leader, scan_notice, scan_word, settings_menu, volumes_title, ConfigApp,
    LeaderApps, Menu, ToolbarAction, HINT_ICON_PX, STATUS_TTL_BROKER, STATUS_TTL_LAUNCH,
};
use veracage::window::{
    accepts_client, compositor_args, describe_cursor, exit_status, first_size, last_volume_closed,
    log_file, maximized, place, resize, shadow_area, work_area, Cursor, Frames, InForce, Resize,
};

fn strings(v: &[&str]) -> Vec<String> {
    v.iter().map(|s| s.to_string()).collect()
}

// ------------------------------------------------------------------- notes ---

const HOUR_NS: u128 = 3_600_000_000_000;
const START: u128 = HOUR_NS;

fn note_at(stamp: u128, text: &str) -> Option<(u128, String)> {
    Some((stamp, text.to_string()))
}

#[test]
fn broker_note_wins_while_unlocking() {
    let broker = note_at(START, "Unlocking work.vc");
    let leader = note_at(START, "Starting Dolphin");
    for last_window in [0, START + 1] {
        let (shown, _) =
            pick_status(broker.clone(), leader.clone(), last_window, None, START, START);
        assert_eq!(shown, Some("Unlocking work.vc".to_string()));
    }
}

#[test]
fn launch_note_ends_when_a_window_appears_after_it_and_stays_ended() {
    let leader = note_at(START, "Starting Kate");
    let (shown, note) = pick_status(None, leader.clone(), START - 5, None, START, START);
    assert_eq!(shown, Some("Starting Kate".to_string()));
    let (shown, note) = pick_status(None, leader.clone(), START - 5, note, START, START);
    assert_eq!(shown, Some("Starting Kate".to_string()));
    let (shown, note) = pick_status(None, leader.clone(), START + 1, note, START, START);
    assert_eq!(shown, None);
    let (shown, note) = pick_status(None, leader.clone(), START + 1, note, START, START);
    assert_eq!(shown, None);
    let (shown, _) = pick_status(None, leader, 0, note, START, START);
    assert_eq!(shown, None);
}

#[test]
fn a_window_that_maps_before_the_note_is_first_read_still_ends_it() {
    let leader = note_at(START, "Starting Konsole");
    let window_mapped = START + 700_000_000;
    let (shown, note) = pick_status(None, leader, window_mapped, None, START + 1_000_000_000, START);
    assert_eq!(shown, None, "the note should be finished the first time it is seen");
    assert!(note.map_or(false, |n| n.done));
}

#[test]
fn a_launch_that_never_maps_a_window_stops_at_the_ttl() {
    let leader = note_at(START, "Starting Dolphin");
    let inside = START + STATUS_TTL_LAUNCH - 1;
    let outside = START + STATUS_TTL_LAUNCH;
    let (shown, note) = pick_status(None, leader.clone(), 0, None, inside, START);
    assert!(shown.is_some());
    let (shown, _) = pick_status(None, leader, 0, note, outside, START);
    assert_eq!(shown, None);
}

#[test]
fn a_broker_note_that_is_never_deleted_stops_at_its_own_ttl() {
    let broker = note_at(START, "Unlocking work.vc");
    let inside = START + STATUS_TTL_BROKER - 1;
    let outside = START + STATUS_TTL_BROKER;
    assert!(pick_status(broker.clone(), None, 0, None, inside, START).0.is_some());
    assert_eq!(pick_status(broker, None, 0, None, outside, START).0, None);
}

#[test]
fn a_note_from_an_earlier_session_is_never_shown() {
    let before = START - 1;
    let leader = note_at(before, "Starting Konsole");
    let broker = note_at(before, "Unlocking work.vc");
    assert_eq!(pick_status(None, leader, 0, None, START, START).0, None);
    assert_eq!(pick_status(broker, None, 0, None, START, START).0, None);
    let live = note_at(START + 1, "Starting Konsole");
    assert!(pick_status(None, live, 0, None, START + 2, START).0.is_some());
    assert!(note_is_left_over(before, START));
    assert!(!note_is_left_over(START, START));
}

#[test]
fn a_new_note_starts_fresh_after_the_previous_one_finished() {
    let first = note_at(START, "Starting Kate");
    let (_, note) = pick_status(None, first.clone(), 0, None, START, START);
    let (_, note) = pick_status(None, first, START + 1, note, START + 1, START);
    let second = note_at(START + 5, "Starting Dolphin");
    let (shown, _) = pick_status(None, second, START + 1, note, START + 5, START);
    assert_eq!(shown, Some("Starting Dolphin".to_string()));
}

#[test]
fn no_note_published_forgets_the_previous_one() {
    assert_eq!(pick_status(None, None, START, None, START, START), (None, None));
}

#[test]
fn status_line_takes_the_text_from_both_writers_and_the_time_from_the_file() {
    assert_eq!(read_status_line("12345\tStarting Kate\n").as_deref(), Some("Starting Kate"));
    assert_eq!(read_status_line("Unlocking work.vc\n").as_deref(), Some("Unlocking work.vc"));
    assert_eq!(read_status_line("1\t\u{1b}[31mred\u{7}\n").as_deref(), Some("[31mred"));
    assert_eq!(read_status_line("\n"), None);
    assert_eq!(read_status_line(""), None);
    assert!(file_ok(true, 4096, 4096) && !file_ok(true, 4097, 4096) && !file_ok(false, 1, 4096));
}

#[test]
fn a_notice_is_shown_for_a_while() {
    assert_eq!(scan_notice("17\tKate did not start\n"), Some((17, "Kate did not start".to_string())));
    assert_eq!(scan_notice("x\tKate\n"), None);
    assert_eq!(scan_notice("17 Kate\n"), None);
    assert_eq!(scan_notice("17\t\u{7}\n"), None);
    assert!(notice_live(1_000, 6_999) && !notice_live(1_000, 7_000));
}

// ------------------------------------------------------------------ layout ---

#[test]
fn hint_icon_pos_is_centered() {
    let (x, y) = hint_icon_pos(800, 600);
    assert_eq!(x, (800 - HINT_ICON_PX) / 2);
    assert_eq!(y, 600 * 3 / 10);
    assert_eq!(hint_icon_pos(95, -7), (-1 / 2, -21 / 10));
}

#[test]
fn what_was_painted_lies_in_the_window() {
    assert_eq!(painted_rect(-5, 2, 50, 90, 40, 60), Some((0, 2, 40, 58)));
    assert_eq!(painted_rect(41, 2, 50, 90, 40, 60), None);
    assert_eq!(painted_rect(0, 0, 9, 9, -1, 60), None);
    assert_eq!(painted_rect(0, 0, i32::MAX, 9, i32::MAX, i32::MIN), None);
}

// ------------------------------------------------------------------- menus ---

fn leader(volumes: &[&str], names: &[&str]) -> LeaderApps {
    LeaderApps {
        sock: "/run/veracage/rt/a.sock".to_string(),
        label: "Volume".to_string(),
        volumes: strings(volumes),
        opener: None,
        names: strings(names),
    }
}

fn config_app(key: &str, name: &str) -> ConfigApp {
    ConfigApp { key: key.to_string(), name: name.to_string() }
}

#[test]
fn volumes_title_empty_is_veracage() {
    assert_eq!(volumes_title(&Vec::new()), "Veracage");
    assert_eq!(volumes_title(&vec![leader(&["work"], &[])]), "1 volume mounted (work)");
    assert_eq!(
        volumes_title(&vec![leader(&["work"], &[]), leader(&["a", "b"], &[])]),
        "3 volumes mounted (work, a, b)"
    );
}

#[test]
fn the_file_menu_unmounts_what_is_mounted() {
    let rows = file_menu(&vec![leader(&["work"], &[])]);
    let labels: Vec<&str> = rows.iter().map(|r| r.label.as_str()).collect();
    assert_eq!(labels, ["Mount volume...", "Shared directory", "", "work", "", "Quit"]);
    assert_eq!(rows[3].menu, Menu::Unmount);
    assert_eq!(action_command(&rows[0].action).as_deref(), Some("open"));
    assert_eq!(action_command(&rows[3].action).as_deref(), Some("close-volume:work"));
    assert!(matches!(rows[5].action, ToolbarAction::Quit));
    assert_eq!(file_menu(&Vec::new()).len(), 4);
}

#[test]
fn the_clipboard_menu_shows_the_shortcuts() {
    let rows = clipboard_menu("Ctrl+Alt+C", "unset");
    assert!(matches!(rows[0].action, ToolbarAction::ClipPull));
    assert!(matches!(rows[1].action, ToolbarAction::ClipPush));
    assert_eq!((rows[0].shortcut.as_str(), rows[1].shortcut.as_str()), ("Ctrl+Alt+C", "unset"));
}

#[test]
fn applications_are_launched_by_their_session() {
    let cfg = vec![config_app("kate", "Kate"), config_app("k2", "Kate"), config_app("x", "X")];
    let idle = apps_menu(&Vec::new(), &cfg);
    assert_eq!(idle.len(), 5);
    assert!(matches!(idle[0].action, ToolbarAction::Nothing));
    assert_eq!(idle[0].app_icon.as_deref(), Some("kate"));
    assert_eq!(apps_menu(&Vec::new(), &Vec::new())[0].label, "(no apps configured)");

    let rows = apps_menu(&vec![leader(&["w"], &["Dolphin", "Kate"])], &cfg);
    assert_eq!(rows.len(), 4);
    assert_eq!(rows[0].app_icon, None);
    assert_eq!(rows[1].app_icon.as_deref(), Some("k2"));
    assert!(matches!(&rows[1].action, ToolbarAction::LaunchApp { sock, index }
        if sock == "/run/veracage/rt/a.sock" && *index == 1));
    assert_eq!(action_command(&rows[3].action).as_deref(), Some("configure"));
    assert_eq!(launch_line(12), "12\n");
}

#[test]
fn settings_and_help_have_their_windows() {
    let verbs: Vec<Option<String>> = settings_menu().iter().map(|r| action_command(&r.action)).collect();
    assert_eq!(verbs, [
        Some("settings".to_string()),
        Some("appearance".to_string()),
        Some("shortcuts".to_string())
    ]);
    let verbs: Vec<Option<String>> = help_menu().iter().map(|r| action_command(&r.action)).collect();
    assert_eq!(verbs, [Some("help".to_string()), Some("about".to_string())]);
    assert_eq!(action_command(&ToolbarAction::Quit), None);
}

// --------------------------------------------------------- published files ---

#[test]
fn a_session_file_is_read() {
    let l = scan_leader("/run/veracage/rt", "s.sock\nWork\tdisk\nwork\t\tplay\n1\nKate\n\nDolphin\n");
    let l = l.unwrap();
    assert_eq!(l.sock, "/run/veracage/rt/s.sock");
    assert_eq!(l.label, "Work\tdisk");
    assert_eq!(l.volumes, strings(&["work", "play"]));
    assert_eq!(l.opener, Some(1));
    assert_eq!(l.names, strings(&["Kate", "Dolphin"]));
    assert!(scan_leader("/r", "a/b\n").is_none());
    assert!(scan_leader("/r", "..\n").is_none());
    assert!(scan_leader("/r", "\nx\n").is_none());
    assert_eq!(scan_leader("/r", "s\n").unwrap().label, "Volume");
    assert_eq!(scan_leader("/r", "s\nW\n\n2\nKate\n").unwrap().opener, None);
    assert_eq!(scan_leader("/r", "s\nW\n\n-1\nKate\n").unwrap().opener, None);
}

#[test]
fn a_change_of_sessions_is_seen() {
    let a = vec![leader(&["w"], &["Kate"])];
    assert!(!leaders_changed(&vec![leader(&["w"], &["Kate"])], &a));
    assert!(leaders_changed(&vec![leader(&["w"], &["Kate", "X"])], &a));
    assert!(leaders_changed(&vec![leader(&["v"], &["Kate"])], &a));
    assert!(leaders_changed(&Vec::new(), &a));
    assert!(last_volume_closed(&a, &Vec::new()));
    assert!(!last_volume_closed(&a, &a));
    assert!(!last_volume_closed(&vec![leader(&[], &[])], &Vec::new()));
}

#[test]
fn configured_applications_are_read() {
    let long = format!("{}\tx", "k".repeat(65));
    let body = format!("kate\tKate\nplain\ndir/x\tX\n..\tY\nbare\t\n{long}\nz\t{}\n", "n".repeat(129));
    let apps = scan_config_apps(&body);
    let got: Vec<(&str, &str)> = apps.iter().map(|a| (a.key.as_str(), a.name.as_str())).collect();
    assert_eq!(got, [("kate", "Kate"), ("bare", "bare")]);
    let many: String = (0..70).map(|i| format!("k{i}\tn\n")).collect();
    assert_eq!(scan_config_apps(&many).len(), 64);
}

#[test]
fn the_policy_is_read_and_kept_in_range() {
    assert_eq!(scan_clipclear("1\n30\n"), Some((true, 30)));
    assert_eq!(scan_clipclear("0\n0\n"), Some((false, 1)));
    assert_eq!(scan_clipclear("1\n99999\n"), Some((true, 3600)));
    assert_eq!(scan_clipclear("1\n"), None);
    assert_eq!(scan_clipclear("1\nx\n"), None);
}

#[test]
fn small_files_are_read() {
    assert_eq!(scan_word(" 800x600 \n").as_deref(), Some("800x600"));
    assert_eq!(scan_word(" \n"), None);
    assert_eq!(scan_font("/f.ttf \n12.5\n"), ("/f.ttf".to_string(), "12.5".to_string()));
    assert_eq!(scan_font(""), (String::new(), String::new()));
    assert_eq!(scan_autodismount("15\n"), Some(15));
    assert_eq!(scan_autodismount("never"), None);
    assert!(idle_is_over(1, 60_000) && !idle_is_over(1, 59_999) && !idle_is_over(0, u64::MAX));
    let (m, l, v, o) = scan_keyboard("pc105\nde\nnodeadkeys\ncompose:caps\n");
    assert_eq!((m.as_str(), l.as_str(), v.as_str(), o.as_str()), ("pc105", "de", "nodeadkeys", "compose:caps"));
}

#[test]
fn an_icon_is_published_and_read_back() {
    let px: Vec<u8> = (0..24).collect();
    let blob = icon_blob(Some((3, 2, px.clone())));
    assert_eq!(&blob[..8], &[3, 0, 0, 0, 2, 0, 0, 0]);
    assert_eq!(load_icon(&blob), Some((3, 2, px)));
    assert_eq!(load_icon(&icon_blob(None)), None);
    assert_eq!(load_icon(&blob[..31].to_vec()), None);
    assert_eq!(load_icon(&icon_blob(Some((129, 1, vec![0; 516])))), None);
    assert_eq!(load_icon(&icon_blob(Some((0, 1, Vec::new())))), None);
}

// --------------------------------------------------------------- shortcuts ---

#[test]
fn parse_valid_combos() {
    let k = parse("Ctrl+Alt+C").unwrap();
    assert!(k.ctrl && k.alt && !k.shift && !k.logo && k.key == 'c');
    assert_eq!(parse("Shift+Alt+V").unwrap().key, 'v');
    assert_eq!(parse("Super+7").unwrap().key, '7');
    assert_eq!(parse("ctrl+alt+x"), parse("Ctrl+Alt+X"));
}

#[test]
fn parse_rejects_bad() {
    assert!(parse("").is_none());
    assert!(parse("Ctrl+Bogus+C").is_none());
    assert!(parse("Ctrl+Alt+CC").is_none());
    assert!(parse("Ctrl+Alt++").is_none());
}

#[test]
fn label_round_trips_through_parse() {
    for s in ["Ctrl+Alt+C", "Shift+Alt+V", "Super+9"] {
        let k = parse(s).unwrap();
        assert_eq!(parse(&k.label()).as_ref(), Some(&k));
    }
    assert_eq!(parse("Shift+Alt+V").unwrap().label(), "Alt+Shift+V");
}

fn mods(ctrl: bool, alt: bool, shift: bool, logo: bool) -> Modifiers {
    Modifiers { ctrl, alt, shift, logo }
}

#[test]
fn matches_requires_exact_modifiers() {
    let k = parse("Ctrl+Alt+C").unwrap();
    let c = 'c' as u32;
    assert!(k.matches(&mods(true, true, false, false), c));
    assert!(!k.matches(&mods(true, false, false, false), c));
    assert!(!k.matches(&mods(true, true, true, false), c));
    assert!(k.matches(&mods(true, true, false, false), 'C' as u32));
}

#[test]
fn shortcuts_take_their_keys() {
    let b = Binds::default();
    assert_eq!(shown(&b.copy_out), "Ctrl+Alt+C");
    assert_eq!(shown(&None), "unset");
    let m = mods(true, true, false, false);
    assert_eq!(route_key(true, &b.copy_out, &b.paste_in, &m, 'c' as u32), KeyDeed::CopyOut);
    assert_eq!(route_key(true, &b.copy_out, &b.paste_in, &m, 'v' as u32), KeyDeed::PasteIn);
    assert_eq!(route_key(true, &b.copy_out, &b.paste_in, &m, 'x' as u32), KeyDeed::Forward);
    assert_eq!(route_key(false, &b.copy_out, &b.paste_in, &m, 'c' as u32), KeyDeed::Forward);
    assert_eq!(route_key(true, &b.copy_out, &b.copy_out, &m, 'c' as u32), KeyDeed::CopyOut);
    let read = scan("copy_out\tCtrl+Alt+X\npaste_in\tbad bind\n");
    assert_eq!(shown(&read.copy_out), "Ctrl+Alt+X");
}

// ------------------------------------------------------------------- input ---

#[test]
fn the_strip_takes_what_is_on_it() {
    let on = Strip { there: true, over: true, wants: false };
    let menu = Strip { there: true, over: false, wants: true };
    let off = Strip { there: true, over: false, wants: false };
    let none = Strip { there: false, over: true, wants: true };
    assert!(strip_takes(false, &on) && strip_takes(false, &menu));
    assert!(!strip_takes(false, &off) && !strip_takes(false, &none) && !strip_takes(true, &on));
    assert!(strip_hears(false, &off) && !strip_hears(true, &off) && !strip_hears(false, &none));
    assert!(pointer_shows(true, &off) && pointer_shows(false, &on) && !pointer_shows(false, &off));
}

#[test]
fn a_press_raises_a_window() {
    assert_eq!(click(true, false, true), Click::Raise);
    assert_eq!(click(true, false, false), Click::Leave);
    assert_eq!(click(true, true, true), Click::Nothing);
    assert_eq!(click(false, false, true), Click::Nothing);
    assert!(focuses_new_window(false, false) && !focuses_new_window(false, true));
    assert!(!focuses_new_window(true, false));
    assert!(may_hold(true, Some(true)) && !may_hold(true, Some(false)) && !may_hold(true, None));
    assert!(!may_hold(false, Some(true)));
    assert!(menu_is_refused(true, false, false) && !menu_is_refused(true, false, true));
    assert_eq!(menu_area(10, 20, (3, 4), (1, 50)), (6, -34));
}

// ------------------------------------------------------------------ window ---

#[test]
fn a_size_changes_the_window() {
    assert_eq!(resize("max"), Resize::Maximize);
    assert_eq!(resize("default"), Resize::Restore);
    assert_eq!(resize("800x600"), Resize::To(800, 600));
    assert_eq!(resize("10x600"), Resize::Keep);
    assert_eq!(first_size(None), Resize::Keep);
    assert_eq!(first_size(Some("default")), Resize::Keep);
    assert_eq!(first_size(Some("max")), Resize::Maximize);
}

#[test]
fn frames_are_drawn_when_something_changed() {
    let mut f = Frames::new();
    assert!(f.dirty);
    f.resized();
    assert_eq!(
        [f.age(Some(3)), f.age(Some(3)), f.age(Some(3)), f.age(Some(3)), f.age(Some(3))],
        [0, 0, 0, 0, 3]
    );
    assert!(!f.begin(999));
    assert!(!f.dirty);
    assert!(f.begin(1_000));
    assert!(f.take_strip_change());
    assert!(!f.take_strip_change());
    assert_eq!(f.tick(1_500), (false, 500));
    assert_eq!(f.tick(1_990), (false, 16));
    assert_eq!(f.tick(2_000), (true, 16));
    assert!(f.input(true) && f.input(false) && !f.input(false));
    assert_eq!(f.tick(1_500), (true, 16));
    assert!(!f.begin(1_500));
    f.failed();
    assert!(f.dirty && f.strip_changed);
    assert!(f.wants_strip());
    f.strip_made(false);
    assert!(!f.wants_strip());
    f.begin(1_600);
    f.animates(false);
    assert!(!f.dirty);
    f.animates(true);
    assert!(f.dirty);
    f.begin(1_700);
    f.not_shown();
    assert!(f.dirty);
}

#[test]
fn a_change_is_taken_over_once() {
    let mut s = InForce { window_size: "default".to_string(), policy: (true, 30), notice: 5 };
    assert_eq!(s.new_size(Some("max".to_string())).as_deref(), Some("max"));
    assert_eq!(s.new_size(Some("max".to_string())), None);
    assert_eq!(s.new_policy(Some((true, 30))), None);
    assert_eq!(s.new_policy(Some((false, 30))), Some((false, 30)));
    assert_eq!(s.new_policy(None), None);
    assert_eq!(s.new_notice(Some((5, "old".to_string()))), None);
    assert_eq!(s.new_notice(Some((6, "new".to_string()))).as_deref(), Some("new"));
    assert_eq!(s.new_notice(Some((6, "new".to_string()))), None);
}

#[test]
fn windows_stand_below_the_strip() {
    assert_eq!(place(None, 3), (0, 40));
    assert_eq!(place(Some((1000, 800)), 0), (0, 40));
    assert_eq!(place(Some((1000, 800)), 3), (96, 136));
    assert_eq!(place(Some((1000, 800)), 8), (0, 40));
    assert_eq!(place(Some((210, 245)), 3), (10, 45));
    assert_eq!(work_area(800), 760);
    assert_eq!(work_area(10), 1);
    assert_eq!(maximized(0, 0, 1000, 800), (0, 40, 1000, 760));
    assert_eq!(shadow_area(100, 50, 10, 20), (82, 32, 46, 56));
}

#[test]
fn the_compositor_reads_its_arguments() {
    let (s, ignored) = compositor_args(&strings(&["--socket", "wl-vc", "--x"]));
    assert_eq!(s.as_deref(), Some("wl-vc"));
    assert_eq!(ignored, strings(&["--x"]));
    assert_eq!(compositor_args(&strings(&["--socket", "a", "--socket", "b"])).0.as_deref(), Some("b"));
    assert_eq!(compositor_args(&strings(&["--socket", "a", "--socket"])).0, None);
    assert!(accepts_client(Some(7), 7) && !accepts_client(Some(8), 7) && !accepts_client(None, 7));
    assert_eq!(log_file(None), "/run/veracage/rt/compositor.log");
    assert_eq!(log_file(Some("/tmp/l")), "/tmp/l/compositor.log");
    assert_eq!((exit_status(true), exit_status(false)), (1, 0));
}

#[test]
fn a_cursor_is_described() {
    assert_eq!(describe_cursor(&Cursor::Hidden), "hidden");
    assert_eq!(describe_cursor(&Cursor::Named("se-resize".to_string())), "named se-resize");
    let c = Cursor::Surface { id: 7, version: None, alive: true, mapped: Some(false) };
    assert_eq!(describe_cursor(&c), "client surface 7 v- (alive true, mapped Some(false))");
    let c = Cursor::Surface { id: 7, version: Some("2".to_string()), alive: false, mapped: None };
    assert_eq!(describe_cursor(&c), "client surface 7 v2 (alive false, mapped None)");
}

// --------------------------------------------------------------- clipboard ---

const SECRET: &[u8] = b"s3cr3t";

#[test]
fn clipboard_cleared_only_while_owned() {
    assert_eq!(plan_clear(true, false, SECRET, None).0, true);
    assert_eq!(plan_clear(false, false, SECRET, None).0, false);
}

#[test]
fn primary_cleared_only_on_exact_match() {
    assert_eq!(plan_clear(false, true, SECRET, Some(SECRET)).1, true);
    assert_eq!(plan_clear(false, true, SECRET, Some(b"other")).1, false);
    assert_eq!(plan_clear(false, true, SECRET, None).1, false);
}

#[test]
fn primary_untouched_without_v2_support() {
    assert_eq!(plan_clear(true, false, SECRET, Some(SECRET)).1, false);
}

#[test]
fn what_was_copied_out_is_cleared_once() {
    let mut c = ClipState::new(true);
    assert_eq!(c.poll_timeout(0), -1);
    c.store(SECRET.to_vec(), 1_000);
    assert_eq!(c.deadline, Some(31_000));
    assert!(!c.due(30_999) && c.due(31_000));
    assert_eq!((c.poll_timeout(1_000), c.poll_timeout(30_700), c.poll_timeout(31_001)), (1000, 300, 0));
    c.set_policy(false, 30, 2_000);
    assert_eq!(c.deadline, None);
    c.set_policy(true, 10, 3_000);
    assert_eq!(c.deadline, Some(13_000));
    assert!(c.reads_primary());
    assert_eq!(c.clear(Some(b"other")), Some((true, false)));
    assert_eq!(c.clear(Some(SECRET)), None);
    assert!(c.pushed.is_none() && c.deadline.is_none() && !c.owns_clip);
}

#[test]
fn newer_content_of_the_host_is_kept() {
    let mut c = ClipState::new(true);
    c.store(SECRET.to_vec(), 0);
    c.cancelled(false);
    assert!(c.owns_clip);
    c.cancelled(true);
    assert_eq!(c.clear(None), Some((false, false)));
}

#[test]
fn a_selection_is_read_in_the_best_type() {
    assert_eq!(mimes()[0], "text/plain;charset=utf-8");
    assert_eq!(pick_mime(&strings(&["TEXT", "text/plain", "image/png"])).as_deref(), Some("text/plain"));
    assert_eq!(pick_mime(&strings(&["image/png"])), None);
    assert_eq!(selection_text("grüß".as_bytes().to_vec()).as_deref(), Some("grüß"));
    assert_eq!(selection_text(vec![0xff, 0xfe]), None);
    let mut o = Offers::new();
    o.announced();
    for i in 0..70 {
        o.has_type(format!("t{i}"));
    }
    assert_eq!(o.building.len(), MAX_OFFER_MIMES);
    o.selected(false, true);
    assert_eq!((o.clip.len(), o.building.len()), (64, 0));
    o.has_type("TEXT".to_string());
    o.selected(true, true);
    assert_eq!(o.primary, strings(&["TEXT"]));
    o.selected(false, false);
    assert!(o.clip.is_empty() && o.primary.len() == 1);
}

#[test]
fn transfers_are_bounded() {
    assert!(goes_on(0, 1, 899, 900) && !goes_on(1, 1, 0, 900) && !goes_on(0, 1, 900, 900));
    let mut out = vec![0u8; MAX_CLIP_BYTES - 2];
    assert!(read_step(&mut out, &[1, 2, 3], Moved::Bytes(3)));
    assert_eq!(out.len(), MAX_CLIP_BYTES);
    assert_eq!(&out[MAX_CLIP_BYTES - 2..], &[1, 2]);
    assert!(!read_step(&mut out, &[], Moved::Bytes(0)));
    assert!(read_step(&mut out, &[], Moved::NotNow));
    assert!(!read_step(&mut out, &[], Moved::Failed));
    assert_eq!(served(MAX_CLIP_BYTES + 5), MAX_CLIP_BYTES);
    assert_eq!(served(7), 7);
    assert_eq!(write_step(2, 10, Moved::Bytes(3)), (5, true));
    assert_eq!(write_step(2, 10, Moved::Bytes(0)), (2, false));
    assert_eq!(write_step(2, 10, Moved::NotNow), (2, true));
    assert_eq!(write_step(2, 10, Moved::Failed), (2, false));
}

#[test]
fn a_pull_stops_at_the_first_type() {
    assert_eq!(pull_step(0, Answer::Given), Pull::Drain);
    assert_eq!(pull_step(0, Answer::Own), Pull::TakeOwn);
    assert_eq!(pull_step(0, Answer::NotOffered), Pull::Ask(1));
    assert_eq!(pull_step(4, Answer::NotOffered), Pull::Stop);
    assert_eq!(pull_step(2, Answer::NoSelection), Pull::Stop);
    assert!(admits(15, 16) && !admits(16, 16));
    assert_eq!(veracage::clipboard::mimes().len(), 5);
}

// ---------------------------------------------------------------- pictures ---

#[test]
fn only_sfnt_signatures_are_accepted() {
    assert!(!is_scalable_font(b"\x1f\x8b\x08\x00rest"));
    assert!(!is_scalable_font(b"%!PS-AdobeFont-1.0"));
    assert!(!is_scalable_font(b""));
    assert!(!is_scalable_font(b"\x00\x01"));
    assert!(is_scalable_font(b"\x00\x01\x00\x00rest"));
    assert!(is_scalable_font(b"OTTOrest"));
    assert!(is_scalable_font(b"ttcfrest"));
    assert!(is_scalable_font(b"truerest"));
    assert!(is_scalable_font(b"wOF2rest") && is_scalable_font(b"wOFFrest"));
}

fn png(color: png::ColorType, depth: png::BitDepth, w: u32, h: u32, px: &[u8]) -> Vec<u8> {
    let mut out = Vec::new();
    {
        let mut e = png::Encoder::new(&mut out, w, h);
        e.set_color(color);
        e.set_depth(depth);
        let mut wr = e.write_header().unwrap();
        wr.write_image_data(px).unwrap();
    }
    out
}

#[test]
fn a_picture_is_decoded() {
    let eight = png::BitDepth::Eight;
    let px = [1, 2, 3, 4, 5, 6, 7, 8];
    let file = png(png::ColorType::Rgba, eight, 2, 1, &px);
    assert_eq!(decode_icon_rgba(&file), Some((2, 1, px.to_vec())));
    let file = png(png::ColorType::Rgb, eight, 2, 1, &px[..6]);
    assert_eq!(decode_icon_rgba(&file), Some((2, 1, vec![1, 2, 3, 255, 4, 5, 6, 255])));
    let file = png(png::ColorType::Grayscale, eight, 2, 1, &px[..2]);
    assert_eq!(decode_icon_rgba(&file), None);
    let file = png(png::ColorType::Rgba, png::BitDepth::Sixteen, 1, 1, &px);
    assert_eq!(decode_icon_rgba(&file), None);
    assert_eq!(decode_icon_rgba(b"no picture"), None);
    let file = png(png::ColorType::Rgba, eight, 1, 1, &[255, 100, 0, 128]);
    assert_eq!(hint_icon(&file), Some((1, 1, vec![128, 50, 0, 128])));
    assert_eq!(frame_rgba(Some((2, 2, 8, 6, vec![0; 15]))), None);
}

#[test]
fn colours_are_scaled_by_their_opacity() {
    assert_eq!(premultiply(vec![255, 10, 200, 51, 9, 8]), vec![51, 2, 40, 51, 9, 8]);
}

#[test]
fn the_last_shape_decides() {
    let s = |covers, erases| Stroke { covers, erases };
    assert!(!ink(&Vec::new()));
    assert!(ink(&vec![s(true, false), s(false, true)]));
    assert!(!ink(&vec![s(true, false), s(true, true)]));
    assert!(ink(&vec![s(true, true), s(true, false)]));
    assert_eq!((coverage(0), coverage(8), coverage(16)), (0, 127, 255));
}

#[test]
fn only_what_was_copied_out_counts_down() {
    let mut c = ClipState::new(false);
    c.set_policy(true, 5, 0);
    assert!(!c.due(1_000_000));
    assert_eq!(c.poll_timeout(0), -1);
    c.store(b"text".to_vec(), 1_000);
    assert!(!c.due(5_999));
    assert!(c.due(6_000));
    assert_eq!(c.clear(None), Some((true, false)));
    assert!(!c.due(1_000_000));
    assert_eq!(c.clear(None), None);
}
