use zcode_switcher::launcher::{
    disable_impl, disable_remote_debug, enable_impl, enable_remote_debug, find_preferred_impl,
    find_preferred_shortcut, from_wide, has_remote_debug_arg, is_zcode_target,
    iter_zcode_shortcuts, pick_zcode_app, preferred_shortcut, saved_count, scan_impl,
    scan_zcode_shortcuts, shortcut_info, strip_remote_debug_arg, with_remote_debug_arg,
    macos_app_bundle, LauncherState, LinkEntry, ShortcutInfo, REMOTE_DEBUG_FLAG,
};

fn link(path: &str, target: &str, args: &str) -> LinkEntry {
    LinkEntry { path: path.to_string(), target: target.to_string(), arguments: args.to_string() }
}

fn info(path: &str, args: &str, has_flag: bool) -> ShortcutInfo {
    ShortcutInfo {
        path: path.to_string(),
        target: "C:\\ZCode\\ZCode.exe".to_string(),
        arguments: args.to_string(),
        has_flag,
    }
}

#[test]
fn debug_flag_detection() {
    assert!(has_remote_debug_arg("--remote-debugging-port=9229"));
    assert!(has_remote_debug_arg("  --foo   --remote-debugging-port=1234 "));
    assert!(!has_remote_debug_arg("--remote-debugging-port"));
    assert!(!has_remote_debug_arg("x--remote-debugging-port=9229"));
    assert!(!has_remote_debug_arg(""));
    assert_eq!(REMOTE_DEBUG_FLAG, "--remote-debugging-port=9229");
}

#[test]
fn adding_the_flag() {
    assert_eq!(with_remote_debug_arg(""), "--remote-debugging-port=9229");
    assert_eq!(with_remote_debug_arg("  --a  "), "--a --remote-debugging-port=9229");
    assert_eq!(with_remote_debug_arg(" --remote-debugging-port=1 "), "--remote-debugging-port=1");
}

#[test]
fn removing_the_flag() {
    assert_eq!(strip_remote_debug_arg("--a --remote-debugging-port=9229  --b"), "--a --b");
    assert_eq!(strip_remote_debug_arg("--remote-debugging-port --remote-debugging-portx=1"), "");
    assert_eq!(strip_remote_debug_arg("  plain\targs "), "plain args");
}

#[test]
fn flag_laws_on_examples() {
    for a in ["", "  --x ", "--remote-debugging-port=1 --y", "a --remote-debugging-port b"] {
        let on = with_remote_debug_arg(a);
        assert!(has_remote_debug_arg(&on));
        assert_eq!(with_remote_debug_arg(&on), on);
        let off = strip_remote_debug_arg(a);
        assert!(!has_remote_debug_arg(&off));
        assert_eq!(strip_remote_debug_arg(&off), off);
        assert_eq!(strip_remote_debug_arg(&on), off);
    }
}

#[test]
fn zcode_targets() {
    assert!(is_zcode_target("C:\\Program Files\\ZCode\\ZCode.exe"));
    assert!(is_zcode_target("d:/apps/zcode.EXE"));
    assert!(is_zcode_target("ZCode.exe"));
    assert!(!is_zcode_target("C:\\ZCode.exe\\other.exe"));
    assert!(!is_zcode_target("C:\\ZCode\\ZCode.exe.bak"));
}

#[test]
fn scanning_shortcuts() {
    let links = vec![
        link("a.lnk", "C:\\ZCode\\ZCode.exe", "--remote-debugging-port=9229"),
        link("b.lnk", "C:\\Other\\other.exe", ""),
        link("c.lnk", "C:/ZCode/zcode.exe", "--x"),
    ];
    let found = iter_zcode_shortcuts(&links);
    assert_eq!(found.len(), 2);
    assert_eq!(found[1].path, "c.lnk");
    let scanned = scan_zcode_shortcuts(&links);
    assert_eq!(scanned.len(), 2);
    assert!(scanned[0].has_flag);
    assert!(!scanned[1].has_flag);
    assert_eq!(scanned[1].arguments, "--x");
}

#[test]
fn enabling_and_disabling_plans() {
    let links = vec![
        link("a.lnk", "ZCode.exe", "--remote-debugging-port=9229"),
        link("b.lnk", "ZCode.exe", " --x "),
        link("c.lnk", "ZCode.exe", ""),
    ];
    let plan = enable_remote_debug(&links);
    assert_eq!(plan.already, 1);
    assert_eq!(plan.total, 3);
    assert_eq!(plan.writes.len(), 2);
    assert!(plan.repoints.is_empty());
    assert_eq!(plan.writes[0].index, 1);
    assert_eq!(plan.writes[0].arguments, "--x --remote-debugging-port=9229");
    assert_eq!(plan.writes[1].index, 2);
    assert_eq!(plan.writes[1].arguments, "--remote-debugging-port=9229");
    assert_eq!(plan.writes.len() + plan.already, plan.total);
    let undo = disable_remote_debug(&links);
    assert_eq!(undo.writes.len(), 1);
    assert_eq!(undo.writes[0].index, 0);
    assert_eq!(undo.writes[0].arguments, "");
    assert!(undo.cleanups.is_empty());
    assert_eq!(saved_count(&vec![true, false, true]), 2);
    assert_eq!(saved_count(&vec![]), 0);
}

#[test]
fn enabling_moves_other_ports_to_9229() {
    let links = vec![
        link("a.lnk", "ZCode.exe", "--x --remote-debugging-port=1234 --y"),
        link("b.lnk", "ZCode.exe", "--remote-debugging-port=9229 --remote-debugging-port=1"),
        link("c.lnk", "ZCode.exe", "--remote-debugging-port"),
    ];
    let plan = enable_remote_debug(&links);
    assert_eq!(plan.already, 2);
    assert_eq!(plan.total, 3);
    assert_eq!(plan.writes.len(), 1);
    assert_eq!(plan.writes[0].index, 2);
    assert_eq!(plan.writes[0].arguments, "--remote-debugging-port --remote-debugging-port=9229");
    assert_eq!(plan.repoints.len(), 1);
    assert_eq!(plan.repoints[0].index, 0);
    assert_eq!(plan.repoints[0].arguments, "--x --y --remote-debugging-port=9229");
    // after the rewrites every shortcut carries the flag itself
    let mut after: Vec<String> = links.iter().map(|l| l.arguments.clone()).collect();
    for w in plan.writes.iter().chain(plan.repoints.iter()) {
        after[w.index] = w.arguments.clone();
    }
    for a in &after {
        assert!(a.split_whitespace().any(|t| t == REMOTE_DEBUG_FLAG), "{}", a);
    }
}

#[test]
fn disabling_removes_every_port_word() {
    let links = vec![
        link("a.lnk", "ZCode.exe", "--remote-debugging-port=9229 --x"),
        link("b.lnk", "ZCode.exe", "--y --remote-debugging-port"),
        link("c.lnk", "ZCode.exe", "--z"),
    ];
    let plan = disable_remote_debug(&links);
    assert_eq!(plan.writes.len(), 1);
    assert_eq!(plan.writes[0].index, 0);
    assert_eq!(plan.writes[0].arguments, "--x");
    assert_eq!(plan.cleanups.len(), 1);
    assert_eq!(plan.cleanups[0].index, 1);
    assert_eq!(plan.cleanups[0].arguments, "--y");
    let mut after: Vec<String> = links.iter().map(|l| l.arguments.clone()).collect();
    for w in plan.writes.iter().chain(plan.cleanups.iter()) {
        after[w.index] = w.arguments.clone();
    }
    for a in &after {
        assert!(!a.split_whitespace().any(|t| t.starts_with("--remote-debugging-port")), "{}", a);
    }
    // disabling again restores nothing
    let relinked: Vec<LinkEntry> = after.iter().map(|a| link("x.lnk", "ZCode.exe", a)).collect();
    let again = disable_remote_debug(&relinked);
    assert!(again.writes.is_empty() && again.cleanups.is_empty());
}

#[test]
fn preferred_entry_follows_the_scan() {
    let links = vec![
        link("a.lnk", "C:\\ZCode\\ZCode.exe", "--x"),
        link("b.lnk", "C:\\Other\\o.exe", "--remote-debugging-port=9229"),
        link("c.lnk", "C:\\ZCode\\ZCode.exe", "--remote-debugging-port=1"),
    ];
    let scanned = scan_zcode_shortcuts(&links);
    let chosen = find_preferred_shortcut(preferred_shortcut(&scanned)).unwrap();
    assert_eq!(chosen.path, "c.lnk");
    assert!(chosen.has_flag);
    let plain = vec![link("a.lnk", "ZCode.exe", "--x"), link("d.lnk", "ZCode.exe", "")];
    let chosen = find_preferred_shortcut(preferred_shortcut(&scan_zcode_shortcuts(&plain))).unwrap();
    assert_eq!(chosen.path, "a.lnk");
    assert!(!chosen.has_flag);
    assert!(find_preferred_shortcut(preferred_shortcut(&scan_zcode_shortcuts(&vec![]))).is_none());
}

#[test]
fn preferred_entry() {
    let list = vec![info("a", "", false), info("b", "--remote-debugging-port=9229", true), info("c", "", true)];
    assert_eq!(preferred_shortcut(&list).unwrap().path, "b");
    let none_flagged = vec![info("a", "", false), info("b", "", false)];
    assert_eq!(preferred_shortcut(&none_flagged).unwrap().path, "a");
    assert!(preferred_shortcut(&vec![]).is_none());
    let fixed = find_preferred_shortcut(Some(info("x", "--remote-debugging-port=9229", false))).unwrap();
    assert!(fixed.has_flag);
    let kept = find_preferred_shortcut(Some(info("y", "", true))).unwrap();
    assert!(kept.has_flag);
    assert!(find_preferred_shortcut(None).is_none());
}

#[test]
fn wide_strings_stop_at_nul() {
    let mut buf: Vec<u16> = "C:\\ZCode.exe".encode_utf16().collect();
    buf.push(0);
    buf.extend([65u16, 66]);
    assert_eq!(from_wide(&buf), "C:\\ZCode.exe");
    let plain: Vec<u16> = "中文".encode_utf16().collect();
    assert_eq!(from_wide(&plain), "中文");
    // an unpaired surrogate becomes U+FFFD
    assert_eq!(from_wide(&[0xD800, 0x41]), "\u{FFFD}A");
}

#[test]
fn bundle_entries() {
    let e = shortcut_info("/Applications/ZCode.app", true);
    assert_eq!(e.path, "/Applications/ZCode.app");
    assert_eq!(e.target, "/Applications/ZCode.app");
    assert_eq!(e.arguments, "--remote-debugging-port=9229");
    assert!(e.has_flag);
    let plain = shortcut_info("/Applications/ZCode.app", false);
    assert_eq!(plain.arguments, "");
    assert_eq!(scan_impl(Some("/A/ZCode.app"), false).len(), 1);
    assert_eq!(scan_impl(None, true).len(), 0);
    assert!(find_preferred_impl(None, true).is_none());
    assert!(find_preferred_impl(Some("/A/ZCode.app"), true).unwrap().has_flag);
}

#[test]
fn bundle_state_changes() {
    let off = LauncherState { enhanced: false, app_path: None };
    let (saved, report) = enable_impl(Some("/A/ZCode.app"), &off);
    let saved = saved.unwrap();
    assert!(saved.enhanced);
    assert_eq!(saved.app_path.as_deref(), Some("/A/ZCode.app"));
    assert_eq!(report, (1, 0, 1));
    let on = LauncherState { enhanced: true, app_path: Some("/A/ZCode.app".into()) };
    let (saved, report) = enable_impl(Some("/A/ZCode.app"), &on);
    assert!(saved.is_none());
    assert_eq!(report, (0, 1, 1));
    let (saved, report) = enable_impl(None, &off);
    assert!(saved.is_none());
    assert_eq!(report, (0, 0, 0));
    let (saved, n) = disable_impl(&on);
    let saved = saved.unwrap();
    assert!(!saved.enhanced);
    assert_eq!(saved.app_path.as_deref(), Some("/A/ZCode.app"));
    assert_eq!(n, 1);
    let (saved, n) = disable_impl(&off);
    assert!(saved.is_none());
    assert_eq!(n, 0);
}

#[test]
fn picking_the_zcode_bundle() {
    let names = |xs: &[&str]| xs.iter().map(|x| x.to_string()).collect::<Vec<String>>();
    assert_eq!(pick_zcode_app(&names(&["Safari.app", "zcode.APP", "ZCode.app"])), Some(2));
    assert_eq!(pick_zcode_app(&names(&["Safari.app", "ZCODE.app.app", "zcode.app"])), Some(1));
    assert_eq!(pick_zcode_app(&names(&["ZCode", "ZCode.txt", "ZCodeX.app"])), None);
    // Unicode lower-casing: the Kelvin sign lowers to k, not to itself
    assert_eq!(pick_zcode_app(&names(&["ZCODE.\u{212A}APP"])), None);
    assert_eq!(pick_zcode_app(&names(&["Ｚcode.app", "zCoDe.app"])), Some(1));
    // the `.app` suffix is dropped only in lower case before comparing
    assert_eq!(pick_zcode_app(&names(&["zCoDe.App"])), None);
}

#[test]
fn bundle_of_an_executable() {
    assert_eq!(
        macos_app_bundle("/Applications/ZCode.app/Contents/MacOS/ZCode").as_deref(),
        Some("/Applications/ZCode.app")
    );
    assert_eq!(macos_app_bundle("/Applications/ZCode.app/").as_deref(), Some("/Applications/ZCode.app/"));
    assert_eq!(macos_app_bundle("/usr/bin/zcode"), None);
    assert_eq!(macos_app_bundle("/x/.app/y"), None);
    // the same answer as `Path::ancestors` on assorted paths
    for p in [
        "/Applications/ZCode.app/Contents/MacOS/ZCode",
        "/A/Outer.app/Inner.app/Contents/x",
        "a//b.app//c/",
        "a/b.app/./",
        "a/b.app/./c",
        "a/b.app/..",
        "./x.app",
        "x.app",
        "/",
        "",
        "a/b.APP/c",
        "a/.app/c",
        "a/..app/c",
    ] {
        let want = std::path::Path::new(p)
            .ancestors()
            .find(|part| part.extension().and_then(|ext| ext.to_str()) == Some("app"))
            .and_then(|q| q.to_str())
            .map(|q| q.to_string());
        assert_eq!(macos_app_bundle(p), want, "bundle of {:?}", p);
    }
}
