//! Restarting ZCode: which processes are ZCode's, which one is the main
//! process, which are the `app-server --stdio` helpers, and how ZCode is
//! launched again. Listing, killing and spawning processes is the caller's.

use vstd::prelude::*;
use crate::json::owned;
use crate::launcher::{ShortcutInfo, ShortcutView};
use crate::text::{
    chars_of, contains, eq_ignore_ascii_case, eq_ignore_case, has_infix, split_words, string_of,
    trim, trim_chars, words,
};

verus! {

/// The platform ZCode runs on.
#[derive(Clone, Copy, Debug, PartialEq, Eq, Structural)]
pub enum Platform {
    Windows,
    MacOs,
    Linux,
}

/// What a refresh of ZCode's app server did.
#[derive(Debug)]
pub struct RefreshZcodeAppServerReport {
    pub killed: usize,
    pub recovered: bool,
    pub restarted: bool,
}

/// A running process as listed: its id, name, executable path (when it is
/// text) and command line.
pub struct ProcessEntry {
    pub pid: u32,
    pub name: String,
    pub exe: Option<String>,
    pub cmd: Vec<String>,
}

/// The names of ZCode's processes.
pub open spec fn process_names(p: Platform) -> Seq<Seq<char>> {
    match p {
        Platform::Windows => seq!["ZCode.exe"@],
        Platform::MacOs => seq![
            "ZCode"@,
            "ZCode Helper"@,
            "ZCode Helper (GPU)"@,
            "ZCode Helper (Plugin)"@,
            "ZCode Helper (Renderer)"@,
        ],
        Platform::Linux => seq!["zcode"@, "ZCode"@],
    }
}

/// The names of ZCode's main process.
pub open spec fn main_process_names(p: Platform) -> Seq<Seq<char>> {
    match p {
        Platform::MacOs => seq!["ZCode"@],
        _ => process_names(p),
    }
}

/// `name` is one of `names`, in any ASCII case.
pub open spec fn name_in(names: Seq<Seq<char>>, name: Seq<char>) -> bool {
    exists|i: int| 0 <= i < names.len() && eq_ignore_case(#[trigger] names[i], name)
}

fn process_name_list(p: Platform) -> (r: Vec<&'static str>)
    ensures
        r@.map_values(|s: &str| s@) == process_names(p),
{
    let r = match p {
        Platform::Windows => vec!["ZCode.exe"],
        Platform::MacOs => vec![
            "ZCode",
            "ZCode Helper",
            "ZCode Helper (GPU)",
            "ZCode Helper (Plugin)",
            "ZCode Helper (Renderer)",
        ],
        Platform::Linux => vec!["zcode", "ZCode"],
    };
    assert(r@.map_values(|s: &str| s@) =~= process_names(p));
    r
}

fn main_name_list(p: Platform) -> (r: Vec<&'static str>)
    ensures
        r@.map_values(|s: &str| s@) == main_process_names(p),
{
    match p {
        Platform::MacOs => {
            let r = vec!["ZCode"];
            assert(r@.map_values(|s: &str| s@) =~= main_process_names(p));
            r
        },
        _ => process_name_list(p),
    }
}

fn name_listed(names: &Vec<&'static str>, name: &str) -> (r: bool)
    ensures
        r == name_in(names@.map_values(|s: &str| s@), name@),
{
    let ghost nv = names@.map_values(|s: &str| s@);
    let nc = chars_of(name);
    let n = names.len();
    for i in 0..n
        invariant
            n == names@.len(),
            nv == names@.map_values(|s: &str| s@),
            nc@ == name@,
            forall|j: int| 0 <= j < i ==> !eq_ignore_case(#[trigger] nv[j], name@),
    {
        let c = chars_of(names[i]);
        if eq_ignore_ascii_case(c.as_slice(), nc.as_slice()) {
            assert(eq_ignore_case(nv[i as int], name@));
            return true;
        }
    }
    false
}

/// Whether a process name is one of ZCode's.
pub fn is_zcode_process_name(platform: Platform, name: &str) -> (r: bool)
    ensures
        r == name_in(process_names(platform), name@),
{
    let names = process_name_list(platform);
    name_listed(&names, name)
}

/// Whether a process name is ZCode's main process.
pub fn is_main_process_name(platform: Platform, name: &str) -> (r: bool)
    ensures
        r == name_in(main_process_names(platform), name@),
{
    let names = main_name_list(platform);
    name_listed(&names, name)
}

pub open spec fn cmd_views(cmd: Seq<String>) -> Seq<Seq<char>> {
    cmd.map_values(|s: String| s@)
}

/// A ZCode process run as `... app-server --stdio ... zcode.cjs ...`.
pub open spec fn is_app_server(platform: Platform, name: Seq<char>, cmd: Seq<Seq<char>>) -> bool {
    &&& name_in(process_names(platform), name)
    &&& cmd.contains("app-server"@)
    &&& cmd.contains("--stdio"@)
    &&& exists|i: int| 0 <= i < cmd.len() && has_infix(#[trigger] cmd[i], "zcode.cjs"@)
}

fn has_arg(cmd: &Vec<String>, arg: &str) -> (r: bool)
    ensures
        r == cmd_views(cmd@).contains(arg@),
{
    let n = cmd.len();
    for i in 0..n
        invariant
            n == cmd@.len(),
            forall|j: int| 0 <= j < i ==> cmd@[j]@ != arg@,
    {
        if crate::json::str_eq(cmd[i].as_str(), arg) {
            assert(cmd_views(cmd@)[i as int] == arg@);
            return true;
        }
    }
    false
}

/// Whether a process is one of ZCode's `app-server --stdio` helpers.
pub fn is_app_server_process(platform: Platform, name: &str, cmd: &Vec<String>) -> (r: bool)
    ensures
        r == is_app_server(platform, name@, cmd_views(cmd@)),
{
    if !is_zcode_process_name(platform, name) {
        return false;
    }
    if !has_arg(cmd, "app-server") || !has_arg(cmd, "--stdio") {
        return false;
    }
    let pat = chars_of("zcode.cjs");
    let n = cmd.len();
    for i in 0..n
        invariant
            n == cmd@.len(),
            pat@ == "zcode.cjs"@,
            name_in(process_names(platform), name@),
            cmd_views(cmd@).contains("app-server"@),
            cmd_views(cmd@).contains("--stdio"@),
            forall|j: int| 0 <= j < i ==> !has_infix(#[trigger] cmd_views(cmd@)[j], "zcode.cjs"@),
    {
        let c = chars_of(cmd[i].as_str());
        if contains(c.as_slice(), pat.as_slice()) {
            assert(has_infix(cmd_views(cmd@)[i as int], "zcode.cjs"@));
            return true;
        }
    }
    false
}


pub struct ProcessView {
    pub pid: u32,
    pub name: Seq<char>,
    pub exe: Option<Seq<char>>,
    pub cmd: Seq<Seq<char>>,
}

impl View for ProcessEntry {
    type V = ProcessView;

    open spec fn view(&self) -> ProcessView {
        ProcessView {
            pid: self.pid,
            name: self.name@,
            exe: match &self.exe {
                Some(e) => Some(e@),
                None => None,
            },
            cmd: cmd_views(self.cmd@),
        }
    }
}

pub open spec fn process_views(ps: Seq<ProcessEntry>) -> Seq<ProcessView> {
    ps.map_values(|p: ProcessEntry| p@)
}

/// A main ZCode process with a non-empty executable path.
pub open spec fn main_exe_of(platform: Platform, p: ProcessView) -> bool {
    name_in(main_process_names(platform), p.name) && (p.exe matches Some(e) && e.len() > 0)
}

/// The executable of the first listed main ZCode process that has one.
pub open spec fn main_path(platform: Platform, ps: Seq<ProcessView>) -> Option<Seq<char>> {
    if exists|i: int| 0 <= i < ps.len() && main_exe_of(platform, ps[i]) {
        ps[choose|i: int|
            0 <= i < ps.len() && main_exe_of(platform, ps[i]) && forall|j: int|
                0 <= j < i ==> !main_exe_of(platform, ps[j])].exe
    } else {
        None
    }
}

/// The executable path of ZCode's main process, from the process list.
pub fn find_main_path(platform: Platform, procs: &Vec<ProcessEntry>) -> (r: Option<String>)
    ensures
        match r {
            Some(p) => main_path(platform, process_views(procs@)) == Some(p@),
            None => main_path(platform, process_views(procs@)) is None,
        },
{
    let ghost pv = process_views(procs@);
    let n = procs.len();
    for i in 0..n
        invariant
            n == procs@.len(),
            pv == process_views(procs@),
            forall|j: int| 0 <= j < i ==> !main_exe_of(platform, #[trigger] pv[j]),
    {
        let p = &procs[i];
        assert(pv[i as int] == p@);
        if is_main_process_name(platform, p.name.as_str()) {
            match &p.exe {
                Some(e) => {
                    if !e.as_str().is_empty() {
                        proof {
                            assert(main_exe_of(platform, pv[i as int]));
                            let c = choose|k: int|
                                0 <= k < pv.len() && main_exe_of(platform, pv[k]) && forall|j: int|
                                    0 <= j < k ==> !main_exe_of(platform, pv[j]);
                            if c < i {
                                assert(!main_exe_of(platform, pv[c]));
                            } else if c > i {
                                assert(!main_exe_of(platform, pv[i as int]));
                            }
                        }
                        return Some(e.clone());
                    }
                },
                None => {},
            }
        }
    }
    None
}

/// One of ZCode's processes, by name.
pub open spec fn zcode_process(platform: Platform) -> spec_fn(ProcessView) -> bool {
    |p: ProcessView| name_in(process_names(platform), p.name)
}

/// One of ZCode's `app-server --stdio` helpers.
pub open spec fn app_server_process(platform: Platform) -> spec_fn(ProcessView) -> bool {
    |p: ProcessView| is_app_server(platform, p.name, p.cmd)
}

/// The ids of the listed processes that satisfy `keep`, in order.
pub open spec fn pids_where(ps: Seq<ProcessView>, keep: spec_fn(ProcessView) -> bool) -> Seq<u32>
    decreases ps.len(),
{
    if ps.len() == 0 {
        Seq::empty()
    } else {
        pids_where(ps.drop_last(), keep) + if keep(ps.last()) {
            seq![ps.last().pid]
        } else {
            Seq::<u32>::empty()
        }
    }
}

/// The ids of ZCode's processes, to be ended before a restart.
pub fn zcode_pids(platform: Platform, procs: &Vec<ProcessEntry>) -> (r: Vec<u32>)
    ensures
        r@ == pids_where(process_views(procs@), zcode_process(platform)),
{
    let ghost pv = process_views(procs@);
    let ghost keep = zcode_process(platform);
    let mut out: Vec<u32> = Vec::new();
    let n = procs.len();
    for i in 0..n
        invariant
            n == procs@.len(),
            pv == process_views(procs@),
            keep == zcode_process(platform),
            out@ == pids_where(pv.take(i as int), keep),
    {
        assert(pv.take(i + 1).drop_last() == pv.take(i as int));
        assert(pv.take(i + 1).last() == procs@[i as int]@);
        if is_zcode_process_name(platform, procs[i].name.as_str()) {
            out.push(procs[i].pid);
        } else {
            assert(out@ =~= out@ + Seq::<u32>::empty());
        }
    }
    assert(pv.take(n as int) == pv);
    out
}

/// The ids of ZCode's `app-server --stdio` helpers.
pub fn app_server_pids(platform: Platform, procs: &Vec<ProcessEntry>) -> (r: Vec<u32>)
    ensures
        r@ == pids_where(process_views(procs@), app_server_process(platform)),
{
    let ghost pv = process_views(procs@);
    let ghost keep = app_server_process(platform);
    let mut out: Vec<u32> = Vec::new();
    let n = procs.len();
    for i in 0..n
        invariant
            n == procs@.len(),
            pv == process_views(procs@),
            keep == app_server_process(platform),
            out@ == pids_where(pv.take(i as int), keep),
    {
        assert(pv.take(i + 1).drop_last() == pv.take(i as int));
        assert(pv.take(i + 1).last() == procs@[i as int]@);
        if is_app_server_process(platform, procs[i].name.as_str(), &procs[i].cmd) {
            out.push(procs[i].pid);
        } else {
            assert(out@ =~= out@ + Seq::<u32>::empty());
        }
    }
    assert(pv.take(n as int) == pv);
    out
}

proof fn lemma_pids_where_within(
    ps: Seq<ProcessView>,
    narrow: spec_fn(ProcessView) -> bool,
    wide: spec_fn(ProcessView) -> bool,
)
    requires
        forall|p: ProcessView| #[trigger] narrow(p) ==> wide(p),
    ensures
        forall|x: u32| #[trigger] pids_where(ps, narrow).contains(x) ==> pids_where(ps, wide).contains(x),
    decreases ps.len(),
{
    if ps.len() > 0 {
        let d = ps.drop_last();
        lemma_pids_where_within(d, narrow, wide);
        let a = pids_where(d, narrow);
        let b = pids_where(d, wide);
        let ta = if narrow(ps.last()) { seq![ps.last().pid] } else { Seq::<u32>::empty() };
        let tb = if wide(ps.last()) { seq![ps.last().pid] } else { Seq::<u32>::empty() };
        assert(pids_where(ps, narrow) == a + ta);
        assert(pids_where(ps, wide) == b + tb);
        assert forall|x: u32| #[trigger] pids_where(ps, narrow).contains(x) implies pids_where(ps, wide).contains(x) by {
            let k = choose|k: int| 0 <= k < (a + ta).len() && (a + ta)[k] == x;
            if k < a.len() {
                assert(a[k] == x);
                assert(a.contains(x));
                let j = choose|j: int| 0 <= j < b.len() && b[j] == x;
                assert((b + tb)[j] == x);
            } else {
                assert((b + tb)[b.len() as int] == x);
            }
        }
    }
}

/// Every app-server helper found is one of ZCode's processes.
pub proof fn law_app_servers_are_zcode(platform: Platform, ps: Seq<ProcessView>)
    ensures
        forall|x: u32|
            #[trigger] pids_where(ps, app_server_process(platform)).contains(x) ==> pids_where(ps, zcode_process(platform)).contains(x),
{
    lemma_pids_where_within(
        ps,
        app_server_process(platform),
        zcode_process(platform),
    );
}

/// The report of a refresh that ended `killed` helpers and then saw them
/// come back (`recovered`) or not. ZCode itself is never restarted here.
pub fn app_server_report(killed: usize, recovered: bool) -> (r: RefreshZcodeAppServerReport)
    ensures
        r.killed == killed,
        r.recovered == (killed > 0 && recovered),
        !r.restarted,
{
    if killed == 0 {
        return RefreshZcodeAppServerReport { killed, recovered: false, restarted: false };
    }
    if recovered {
        return RefreshZcodeAppServerReport { killed, recovered, restarted: false };
    }
    RefreshZcodeAppServerReport { killed, recovered: false, restarted: false }
}

/// How often the helpers are looked for after they were ended.
pub const POLL_INTERVAL_MS: u64 = 500;

/// How long the helpers are waited for.
pub const RECOVERY_TIMEOUT_MS: u64 = 5000;

/// What to do while waiting for ended helpers to come back.
pub enum WatchAction {
    /// They are back.
    Recovered,
    /// Stop waiting: nothing was ended, or the time is up.
    GaveUp,
    /// Sleep this many milliseconds, then count the helpers again.
    SleepThenCount(u64),
}

/// The last count found helpers running.
pub open spec fn helpers_back(found: Option<usize>) -> bool {
    found matches Some(n) && n > 0
}

/// The next move while waiting for `killed` ended helpers to come back,
/// `elapsed_ms` after they were ended, given how many were found at the last
/// count (none before the first count).
pub fn watch_step(killed: usize, elapsed_ms: u64, helpers_found: Option<usize>) -> (r: WatchAction)
    ensures
        killed == 0 ==> r is GaveUp,
        killed > 0 && helpers_back(helpers_found) ==> r is Recovered,
        killed > 0 && !helpers_back(helpers_found) && elapsed_ms < RECOVERY_TIMEOUT_MS ==> (r matches WatchAction::SleepThenCount(ms)
            && ms == POLL_INTERVAL_MS),
        killed > 0 && !helpers_back(helpers_found) && elapsed_ms >= RECOVERY_TIMEOUT_MS ==> r is GaveUp,
{
    if killed == 0 {
        return WatchAction::GaveUp;
    }
    match helpers_found {
        Some(n) => {
            if n > 0 {
                return WatchAction::Recovered;
            }
        },
        None => {},
    }
    if elapsed_ms < RECOVERY_TIMEOUT_MS {
        WatchAction::SleepThenCount(POLL_INTERVAL_MS)
    } else {
        WatchAction::GaveUp
    }
}

/// A saved executable path is usable only when it is not blank.
pub fn usable_known_path(saved: Option<String>) -> (r: Option<String>)
    ensures
        match saved {
            Some(p) => if trim(p@).len() == 0 {
                r is None
            } else {
                r matches Some(x) && x@ == p@
            },
            None => r is None,
        },
{
    match saved {
        Some(p) => {
            let t = trim_chars(chars_of(p.as_str()).as_slice());
            if t.len() == 0 {
                None
            } else {
                Some(p)
            }
        },
        None => None,
    }
}

// ---------------------------------------------------------------------------
// Launching ZCode again
// ---------------------------------------------------------------------------

/// What to launch: ZCode's executable (or bundle) and its arguments.
pub struct LaunchPlan {
    pub target: String,
    pub args: Vec<String>,
}

/// The error when no path to launch ZCode from is known.
pub open spec fn no_path_error() -> Seq<char> {
    "找不到 ZCode 进程路径，也没有已保存的安装路径。请手动打开一次 ZCode 后再试。"@
}

pub open spec fn text_of(o: Option<String>) -> Option<Seq<char>> {
    match o {
        Some(s) => Some(s@),
        None => None,
    }
}

/// The path ZCode is launched from: the running one, else the saved one,
/// else on macOS the bundle's.
pub open spec fn launch_path(
    platform: Platform,
    running: Option<Seq<char>>,
    known: Option<Seq<char>>,
    preferred: Option<ShortcutView>,
) -> Option<Seq<char>> {
    match running {
        Some(p) => Some(p),
        None => match known {
            Some(k) => Some(k),
            None => if platform == Platform::MacOs {
                match preferred {
                    Some(sc) => Some(sc.target),
                    None => None,
                }
            } else {
                None
            },
        },
    }
}

pub open spec fn arg_views(args: Seq<String>) -> Seq<Seq<char>> {
    args.map_values(|a: String| a@)
}

/// How ZCode is launched again: from the preferred entry's target (or the
/// known path when that is blank) with the entry's arguments split at white
/// space, or from the known path without arguments.
pub fn plan_restart(
    platform: Platform,
    running: Option<String>,
    known: Option<String>,
    preferred: Option<ShortcutInfo>,
) -> (r: Result<LaunchPlan, String>)
    ensures
        match launch_path(
            platform,
            text_of(running),
            text_of(known),
            crate::launcher::option_view(preferred),
        ) {
            None => r matches Err(e) && e@ == no_path_error(),
            Some(path) => r matches Ok(plan) && match preferred {
                Some(sc) => {
                    &&& plan.target@ == (if trim(sc.target@).len() == 0 { path } else { sc.target@ })
                    &&& arg_views(plan.args@) == words(sc.arguments@)
                },
                None => plan.target@ == path && plan.args@.len() == 0,
            },
        },
{
    let path: Option<String> = match running {
        Some(p) => Some(p),
        None => match known {
            Some(k) => Some(k),
            None => match platform {
                Platform::MacOs => match &preferred {
                    Some(sc) => Some(sc.target.clone()),
                    None => None,
                },
                _ => None,
            },
        },
    };
    let path = match path {
        Some(p) => p,
        None => {
            return Err(owned("找不到 ZCode 进程路径，也没有已保存的安装路径。请手动打开一次 ZCode 后再试。"));
        },
    };
    match preferred {
        Some(sc) => {
            let t = trim_chars(chars_of(sc.target.as_str()).as_slice());
            let target = if t.len() == 0 {
                path
            } else {
                sc.target
            };
            let ws = split_words(chars_of(sc.arguments.as_str()).as_slice());
            let mut args: Vec<String> = Vec::new();
            let n = ws.len();
            for i in 0..n
                invariant
                    n == ws@.len(),
                    forall|k: int| 0 <= k < n ==> #[trigger] ws@[k]@ == words(sc.arguments@)[k],
                    args@.len() == i,
                    forall|k: int| 0 <= k < i ==> #[trigger] args@[k]@ == ws@[k]@,
            {
                args.push(string_of(ws[i].as_slice()));
            }
            assert(arg_views(args@) =~= words(sc.arguments@));
            Ok(LaunchPlan { target, args })
        },
        None => Ok(LaunchPlan { target: path, args: Vec::new() }),
    }
}

/// The program and argument list that start ZCode: on macOS
/// `open -n <bundle> [--args <args>]`, elsewhere the target itself.
pub open spec fn launch_command(platform: Platform, target: Seq<char>, bundle: Option<Seq<char>>, args: Seq<Seq<char>>) -> (Seq<char>, Seq<Seq<char>>) {
    if platform == Platform::MacOs {
        let app = match bundle {
            Some(b) => b,
            None => target,
        };
        (
            "/usr/bin/open"@,
            seq!["-n"@, app] + if args.len() > 0 {
                seq!["--args"@] + args
            } else {
                Seq::<Seq<char>>::empty()
            },
        )
    } else {
        (target, args)
    }
}

/// The command for a launch plan; `bundle` is the `.app` that contains the
/// target, if any.
pub fn command_for(platform: Platform, plan: &LaunchPlan, bundle: Option<String>) -> (r: (String, Vec<String>))
    ensures
        (r.0@, arg_views(r.1@)) == launch_command(platform, plan.target@, text_of(bundle), arg_views(plan.args@)),
{
    match platform {
        Platform::MacOs => {
            let app = match bundle {
                Some(b) => b,
                None => plan.target.clone(),
            };
            let mut argv: Vec<String> = vec![owned("-n"), app];
            let n = plan.args.len();
            if n > 0 {
                argv.push(owned("--args"));
                let ghost head = argv@;
                for i in 0..n
                    invariant
                        n == plan.args@.len(),
                        argv@.len() == head.len() + i,
                        forall|k: int| 0 <= k < head.len() ==> #[trigger] argv@[k] == head[k],
                        forall|k: int| 0 <= k < i ==> #[trigger] argv@[head.len() + k]@ == plan.args@[k]@,
                {
                    argv.push(plan.args[i].clone());
                }
                let ghost expect = seq!["-n"@, head[1]@] + (seq!["--args"@] + arg_views(plan.args@));
                assert(head.len() == 3 && head[0]@ == "-n"@ && head[2]@ == "--args"@);
                assert forall|k: int| 0 <= k < argv@.len() implies arg_views(argv@)[k] == expect[k] by {
                    if k >= 3 {
                        assert(argv@[3 + (k - 3)]@ == plan.args@[k - 3]@);
                    }
                }
                assert(arg_views(argv@) =~= expect);
            } else {
                assert(arg_views(argv@) =~= seq!["-n"@, arg_views(argv@)[1]] + Seq::<Seq<char>>::empty());
            }
            (owned("/usr/bin/open"), argv)
        },
        _ => {
            let mut argv: Vec<String> = Vec::new();
            let n = plan.args.len();
            for i in 0..n
                invariant
                    n == plan.args@.len(),
                    argv@.len() == i,
                    forall|k: int| 0 <= k < i ==> #[trigger] argv@[k]@ == plan.args@[k]@,
            {
                argv.push(plan.args[i].clone());
            }
            assert(arg_views(argv@) =~= arg_views(plan.args@));
            (plan.target.clone(), argv)
        },
    }
}

} // verus!
