use steam_wrapper::args::{parse_args, ArgsError};
use steam_wrapper::device::{find_device, parse_device_id};
use steam_wrapper::text::{parent_pid_of, parse_radix_str, window_id_of_line, wm_pid_of_text};
use steam_wrapper::wrapper::{
    ancestry_after_status, ancestry_next, ancestry_visit, focus_action, grabbed_after, split_command, window_to_check,
    AncestryStep, FocusAction,
};

fn strings(v: &[&str]) -> Vec<String> {
    v.iter().map(|s| s.to_string()).collect()
}

#[test]
fn radix_parsing_follows_from_str_radix() {
    assert_eq!(parse_radix_str("046d", 16, 0xffff), Some(0x046d));
    assert_eq!(parse_radix_str("+FF", 16, 0xffff), Some(255));
    assert_eq!(parse_radix_str("+", 16, 0xffff), None);
    assert_eq!(parse_radix_str("", 16, 0xffff), None);
    assert_eq!(parse_radix_str("10000", 16, 0xffff), None);
    assert_eq!(parse_radix_str("-1", 10, u32::MAX), None);
    assert_eq!(parse_radix_str("4294967295", 10, u32::MAX), Some(u32::MAX));
    assert_eq!(parse_radix_str("4294967296", 10, u32::MAX), None);
    assert_eq!(parse_radix_str("12a", 10, u32::MAX), None);
    assert_eq!(parse_radix_str(" 1", 10, u32::MAX), None);
}

#[test]
fn device_id_is_vendor_colon_product() {
    assert_eq!(parse_device_id("046d:c08b"), Some((0x046d, 0xc08b)));
    assert_eq!(parse_device_id("046dc08b"), None);
    assert_eq!(parse_device_id("046d:c08b:1"), None);
    assert_eq!(parse_device_id("xyz:1"), None);
    assert_eq!(parse_device_id(":1"), None);
    let ids = vec![(1, 2), (0x046d, 0xc08b), (0x046d, 0xc08b)];
    assert_eq!(find_device(&ids, (0x046d, 0xc08b)), Some(1));
    assert_eq!(find_device(&ids, (3, 3)), None);
}

#[test]
fn parent_pid_comes_from_the_ppid_line() {
    let status = "Name:\tgame\nUmask:\t0022\nState:\tS (sleeping)\nTgid:\t4242\nPid:\t4242\nPPid:\t1234\nTracerPid:\t0\n";
    assert_eq!(parent_pid_of(status), 1234);
    assert_eq!(parent_pid_of("Name:\tx\nPid:\t3\n"), 0);
    assert_eq!(parent_pid_of("PPid:\n"), 0);
    assert_eq!(parent_pid_of("PPid:1\n"), 0);
    assert_eq!(parent_pid_of("XPPid:\t5\nPPid:  77  \r\n"), 77);
    assert_eq!(parent_pid_of("PPid:\tabc\n"), 0);
    assert_eq!(parent_pid_of(""), 0);
}

#[test]
fn xprop_lines_are_parsed() {
    assert_eq!(window_id_of_line("_NET_ACTIVE_WINDOW(WINDOW): window id # 0x4e00027"), Some(0x4e00027));
    assert_eq!(window_id_of_line("_NET_ACTIVE_WINDOW(WINDOW): window id # 0x0"), Some(0));
    assert_eq!(window_id_of_line("_NET_ACTIVE_WINDOW(WINDOW): window id # 0x"), None);
    assert_eq!(window_id_of_line("no window"), None);
    assert_eq!(wm_pid_of_text("_NET_WM_PID(CARDINAL) = 12345\n"), Some(12345));
    assert_eq!(wm_pid_of_text("_NET_WM_PID:  not found.\n"), None);
    assert_eq!(wm_pid_of_text("a = 7 = 8"), Some(7));
    assert_eq!(wm_pid_of_text("a =  "), None);
}

#[test]
fn arguments_name_profile_and_flags() {
    let a = parse_args(strings(&["cairn"])).ok().unwrap();
    assert_eq!(a.profile_path, "cairn.json5");
    assert!(!a.print_noisy);
    assert!(a.wrap_command.is_none());
    let a = parse_args(strings(&["cairn.json5", "--print-noisy", "other"])).ok().unwrap();
    assert_eq!(a.profile_path, "cairn.json5");
    assert!(a.print_noisy);
    let a = parse_args(strings(&["cairn", "--wrap", "/usr/bin/game", "-flag", "x"])).ok().unwrap();
    assert_eq!(a.wrap_command, Some(strings(&["/usr/bin/game", "-flag", "x"])));
    match parse_args(strings(&["cairn", "-v"])) {
        Err(ArgsError::UnknownFlag(f)) => assert_eq!(f, "-v"),
        _ => panic!("expected an unknown flag"),
    }
    assert!(matches!(parse_args(strings(&["--print-noisy"])), Err(ArgsError::Usage)));
    assert!(matches!(parse_args(vec![]), Err(ArgsError::Usage)));
}

#[test]
fn wrapped_command_and_focus_decisions() {
    let (p, rest) = split_command(&strings(&["game", "-a", "b"])).ok().unwrap();
    assert_eq!(p, "game");
    assert_eq!(rest, strings(&["-a", "b"]));
    assert!(split_command(&vec![]).is_err());
    assert_eq!(ancestry_next(10, "PPid:\t3\n"), Some(3));
    assert_eq!(ancestry_next(10, "PPid:\t10\n"), None);
    assert_eq!(ancestry_next(10, "PPid:\t0\n"), None);
    assert_eq!(window_to_check(Some(0)), None);
    assert_eq!(window_to_check(None), None);
    assert_eq!(window_to_check(Some(7)), Some(7));
    assert_eq!(focus_action(true, false), FocusAction::Grab);
    assert_eq!(focus_action(false, true), FocusAction::Ungrab);
    assert_eq!(focus_action(true, true), FocusAction::Keep);
    assert_eq!(focus_action(false, false), FocusAction::Keep);
    assert!(grabbed_after(false, FocusAction::Grab));
    assert!(!grabbed_after(true, FocusAction::Ungrab));
}

#[test]
fn ancestry_walk_steps() {
    assert_eq!(ancestry_visit(5, 5), AncestryStep::Found);
    assert_eq!(ancestry_visit(7, 5), AncestryStep::ReadStatus(7));
    assert_eq!(ancestry_after_status(7, 5, None), AncestryStep::NotFound);
    assert_eq!(ancestry_after_status(7, 5, Some("Name:\tgame\nPPid:\t5\n")), AncestryStep::Found);
    assert_eq!(ancestry_after_status(7, 5, Some("PPid:\t3\n")), AncestryStep::ReadStatus(3));
    assert_eq!(ancestry_after_status(7, 5, Some("PPid:\t0\n")), AncestryStep::NotFound);
    assert_eq!(ancestry_after_status(7, 5, Some("PPid:\t7\n")), AncestryStep::NotFound);
    assert_eq!(ancestry_after_status(7, 5, Some("no parent line")), AncestryStep::NotFound);
}
