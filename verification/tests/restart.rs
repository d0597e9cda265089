use zcode_switcher::launcher::ShortcutInfo;
use zcode_switcher::restart::{
    app_server_pids, app_server_report, command_for, find_main_path, is_app_server_process,
    is_main_process_name, is_zcode_process_name, plan_restart, usable_known_path, zcode_pids,
    watch_step, LaunchPlan, Platform, ProcessEntry, WatchAction, POLL_INTERVAL_MS, RECOVERY_TIMEOUT_MS,
};

fn proc(pid: u32, name: &str, exe: Option<&str>, cmd: &[&str]) -> ProcessEntry {
    ProcessEntry {
        pid,
        name: name.to_string(),
        exe: exe.map(|e| e.to_string()),
        cmd: cmd.iter().map(|c| c.to_string()).collect(),
    }
}

fn strings(xs: &[&str]) -> Vec<String> {
    xs.iter().map(|x| x.to_string()).collect()
}

#[test]
fn process_names_by_platform() {
    assert!(is_zcode_process_name(Platform::Windows, "zcode.EXE"));
    assert!(!is_zcode_process_name(Platform::Windows, "ZCode"));
    assert!(is_zcode_process_name(Platform::MacOs, "ZCode Helper (Renderer)"));
    assert!(is_zcode_process_name(Platform::MacOs, "zcode helper"));
    assert!(!is_main_process_name(Platform::MacOs, "ZCode Helper"));
    assert!(is_main_process_name(Platform::MacOs, "ZCODE"));
    assert!(is_zcode_process_name(Platform::Linux, "zcode"));
    assert!(is_main_process_name(Platform::Linux, "ZCode"));
    assert!(!is_zcode_process_name(Platform::Linux, "zcode-helper"));
}

#[test]
fn app_server_helpers() {
    let cmd = strings(&["ZCode.exe", "app-server", "--stdio", "C:\\x\\zcode.cjs"]);
    assert!(is_app_server_process(Platform::Windows, "ZCode.exe", &cmd));
    assert!(!is_app_server_process(Platform::Windows, "node.exe", &cmd));
    let no_stdio = strings(&["app-server", "zcode.cjs"]);
    assert!(!is_app_server_process(Platform::Windows, "ZCode.exe", &no_stdio));
    let no_script = strings(&["app-server", "--stdio", "main.js"]);
    assert!(!is_app_server_process(Platform::Windows, "ZCode.exe", &no_script));
}

#[test]
fn pids_and_main_path() {
    let procs = vec![
        proc(1, "explorer.exe", Some("C:\\Windows\\explorer.exe"), &[]),
        proc(2, "ZCode.exe", Some(""), &[]),
        proc(3, "ZCode.exe", Some("C:\\ZCode\\ZCode.exe"), &["app-server", "--stdio", "zcode.cjs"]),
        proc(4, "ZCode.exe", Some("D:\\other\\ZCode.exe"), &[]),
    ];
    assert_eq!(zcode_pids(Platform::Windows, &procs), vec![2, 3, 4]);
    assert_eq!(app_server_pids(Platform::Windows, &procs), vec![3]);
    for pid in app_server_pids(Platform::Windows, &procs) {
        assert!(zcode_pids(Platform::Windows, &procs).contains(&pid));
    }
    assert_eq!(find_main_path(Platform::Windows, &procs).as_deref(), Some("C:\\ZCode\\ZCode.exe"));
    assert_eq!(find_main_path(Platform::Linux, &procs), None);
}

#[test]
fn refresh_reports() {
    let r = app_server_report(0, true);
    assert_eq!((r.killed, r.recovered, r.restarted), (0, false, false));
    let r = app_server_report(2, true);
    assert_eq!((r.killed, r.recovered, r.restarted), (2, true, false));
    let r = app_server_report(2, false);
    assert_eq!((r.killed, r.recovered, r.restarted), (2, false, false));
}

#[test]
fn known_paths_must_not_be_blank() {
    assert_eq!(usable_known_path(Some("C:\\ZCode.exe".into())).as_deref(), Some("C:\\ZCode.exe"));
    assert_eq!(usable_known_path(Some("   ".into())), None);
    assert_eq!(usable_known_path(None), None);
}

#[test]
fn restart_plans() {
    let sc = ShortcutInfo {
        path: "z.lnk".into(),
        target: "C:\\ZCode\\ZCode.exe".into(),
        arguments: " --remote-debugging-port=9229  --x ".into(),
        has_flag: true,
    };
    let plan = plan_restart(Platform::Windows, Some("C:\\run\\ZCode.exe".into()), None, Some(sc)).unwrap();
    assert_eq!(plan.target, "C:\\ZCode\\ZCode.exe");
    assert_eq!(plan.args, strings(&["--remote-debugging-port=9229", "--x"]));

    let blank = ShortcutInfo { path: "".into(), target: "  ".into(), arguments: "".into(), has_flag: false };
    let plan = plan_restart(Platform::Windows, None, Some("C:\\known.exe".into()), Some(blank)).unwrap();
    assert_eq!(plan.target, "C:\\known.exe");
    assert!(plan.args.is_empty());

    let plan = plan_restart(Platform::Linux, None, Some("/opt/zcode".into()), None).unwrap();
    assert_eq!(plan.target, "/opt/zcode");
    assert!(plan.args.is_empty());

    let err = plan_restart(Platform::Windows, None, None, None).err().unwrap();
    assert_eq!(err, "找不到 ZCode 进程路径，也没有已保存的安装路径。请手动打开一次 ZCode 后再试。");

    let bundle = ShortcutInfo {
        path: "/Applications/ZCode.app".into(),
        target: "/Applications/ZCode.app".into(),
        arguments: "".into(),
        has_flag: false,
    };
    let plan = plan_restart(Platform::MacOs, None, None, Some(bundle)).unwrap();
    assert_eq!(plan.target, "/Applications/ZCode.app");
    let without_bundle = ShortcutInfo { path: "".into(), target: "/x".into(), arguments: "".into(), has_flag: false };
    assert!(plan_restart(Platform::Linux, None, None, Some(without_bundle)).is_err());
}

#[test]
fn launch_commands() {
    let plan = LaunchPlan { target: "/Applications/ZCode.app/Contents/MacOS/ZCode".into(), args: strings(&["--a"]) };
    let (prog, argv) = command_for(Platform::MacOs, &plan, Some("/Applications/ZCode.app".into()));
    assert_eq!(prog, "/usr/bin/open");
    assert_eq!(argv, strings(&["-n", "/Applications/ZCode.app", "--args", "--a"]));
    let bare = LaunchPlan { target: "/Applications/ZCode.app".into(), args: vec![] };
    let (_, argv) = command_for(Platform::MacOs, &bare, None);
    assert_eq!(argv, strings(&["-n", "/Applications/ZCode.app"]));
    let (prog, argv) = command_for(Platform::Windows, &plan, None);
    assert_eq!(prog, "/Applications/ZCode.app/Contents/MacOS/ZCode");
    assert_eq!(argv, strings(&["--a"]));
}

#[test]
fn watching_for_helpers() {
    assert!(matches!(watch_step(0, 0, None), WatchAction::GaveUp));
    assert!(matches!(watch_step(2, 0, None), WatchAction::SleepThenCount(500)));
    assert!(matches!(watch_step(2, 600, Some(0)), WatchAction::SleepThenCount(500)));
    assert!(matches!(watch_step(2, 600, Some(1)), WatchAction::Recovered));
    assert!(matches!(watch_step(2, 5000, Some(0)), WatchAction::GaveUp));
    assert!(matches!(watch_step(2, 9000, Some(3)), WatchAction::Recovered));
    assert_eq!((POLL_INTERVAL_MS, RECOVERY_TIMEOUT_MS), (500, 5000));
}
