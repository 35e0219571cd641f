//! The launchd service: where its files go, the property list that runs the
//! proxy, the `launchctl` invocations and reading the process id back.
use vstd::prelude::*;
use crate::cli::ServiceCommands;
use crate::config::{join_path, opt_view, path_join};
use crate::text::{
    chars_of, contains_text, copy_range, decimal, decimal_string, is_ws, is_ws_char, next_line,
    string_of_range, text_contains, text_lines,
};

verus! {

/// The launchd label of the service.
pub const SERVICE_NAME: &'static str = "com.glm-coding-xcode-proxy";

pub const PLIST_HEAD: &'static str = "<?xml version=\"1.0\" encoding=\"UTF-8\"?>\n<!DOCTYPE plist PUBLIC \"-//Apple//DTD PLIST 1.0//EN\" \"http://www.apple.com/DTDs/PropertyList-1.0.dtd\">\n<plist version=\"1.0\">\n<dict>\n    <key>Label</key>\n    <string>";

pub const PLIST_PROGRAM: &'static str = "</string>\n    <key>ProgramArguments</key>\n    <array>\n        <string>";

pub const PLIST_PORT: &'static str = "</string>\n        <string>--port</string>\n        <string>";

pub const PLIST_LOGS: &'static str = "</string>\n    </array>\n    <key>RunAtLoad</key>\n    <true/>\n    <key>KeepAlive</key>\n    <true/>\n    <key>StandardOutPath</key>\n    <string>";

pub const PLIST_STDERR: &'static str = "/stdout.log</string>\n    <key>StandardErrorPath</key>\n    <string>";

pub const PLIST_TAIL: &'static str = "/stderr.log</string>\n</dict>\n</plist>\n";

/// The property list of the service: the label, the program with
/// `--port <port>`, run at load and kept alive, output to `stdout.log` and
/// `stderr.log` in the log directory.
pub open spec fn plist_text(exe_path: Seq<char>, port: u16, log_path: Seq<char>) -> Seq<char> {
    PLIST_HEAD@ + SERVICE_NAME@ + PLIST_PROGRAM@ + exe_path + PLIST_PORT@ + decimal(port as nat)
        + PLIST_LOGS@ + log_path + PLIST_STDERR@ + log_path + PLIST_TAIL@
}

/// The property list file, `Library/LaunchAgents/<label>.plist` under the
/// home directory.
pub fn plist_path(home: &str) -> (r: String)
    ensures
        r@ == join_path(join_path(home@, "Library/LaunchAgents"@), SERVICE_NAME@ + ".plist"@),
{
    proof {
        reveal_strlit("Library/LaunchAgents");
        reveal_strlit("com.glm-coding-xcode-proxy");
    }
    let dir = path_join(home, "Library/LaunchAgents");
    let mut file = SERVICE_NAME.to_owned();
    file.append(".plist");
    path_join(dir.as_str(), file.as_str())
}

/// The log directory, `Library/Logs/glm-coding-xcode-proxy` under the home
/// directory.
pub fn log_dir(home: &str) -> (r: String)
    ensures
        r@ == join_path(home@, "Library/Logs/glm-coding-xcode-proxy"@),
{
    proof {
        reveal_strlit("Library/Logs/glm-coding-xcode-proxy");
    }
    path_join(home, "Library/Logs/glm-coding-xcode-proxy")
}

/// The property list that runs `exe_path --port <port>` with its output in
/// `log_path`.
pub fn generate_plist(exe_path: &str, port: u16, log_path: &str) -> (r: String)
    ensures
        r@ == plist_text(exe_path@, port, log_path@),
{
    let mut r = PLIST_HEAD.to_owned();
    r.append(SERVICE_NAME);
    r.append(PLIST_PROGRAM);
    r.append(exe_path);
    r.append(PLIST_PORT);
    let p = decimal_string(port as u64);
    r.append(p.as_str());
    r.append(PLIST_LOGS);
    r.append(log_path);
    r.append(PLIST_STDERR);
    r.append(log_path);
    r.append(PLIST_TAIL);
    r
}

/// The arguments of `launchctl` for `load` or `unload` of a property list
/// file, or the message for any other subcommand.
pub fn launchctl_args(subcmd: &str, plist: &str) -> (r: Result<Vec<String>, String>)
    ensures
        (subcmd@ == "load"@ || subcmd@ == "unload"@) ==> r is Ok && r->Ok_0@.len() == 3
            && r->Ok_0@[0]@ == subcmd@ && r->Ok_0@[1]@ == "-w"@ && r->Ok_0@[2]@ == plist@,
        !(subcmd@ == "load"@ || subcmd@ == "unload"@) ==> r is Err && r->Err_0@ == "未知 launchctl 子命令: "@
            + subcmd@,
{
    let s = subcmd.to_owned();
    if s == "load".to_owned() || s == "unload".to_owned() {
        let mut args: Vec<String> = Vec::new();
        args.push(s);
        args.push("-w".to_owned());
        args.push(plist.to_owned());
        Ok(args)
    } else {
        let mut m = "未知 launchctl 子命令: ".to_owned();
        m.append(subcmd);
        Err(m)
    }
}

/// The outcome of running `launchctl <subcmd>`: `run` is whether the process
/// exited successfully, or the message of the error that kept it from
/// running.
pub fn launchctl_outcome(subcmd: &str, run: Result<bool, String>) -> (r: Result<(), String>)
    ensures
        match run {
            Ok(true) => r is Ok,
            Ok(false) => r is Err && r->Err_0@ == "launchctl "@ + subcmd@ + " 失败"@,
            Err(e) => r is Err && r->Err_0@ == "执行 launchctl "@ + subcmd@ + " 失败: "@ + e@,
        },
{
    match run {
        Ok(true) => Ok(()),
        Ok(false) => {
            let mut m = "launchctl ".to_owned();
            m.append(subcmd);
            m.append(" 失败");
            Err(m)
        },
        Err(e) => {
            let mut m = "执行 launchctl ".to_owned();
            m.append(subcmd);
            m.append(" 失败: ");
            m.append(e.as_str());
            Err(m)
        },
    }
}

/// The characters at the end of `s` after its last whitespace character.
pub open spec fn token_tail(s: Seq<char>) -> Seq<char>
    decreases s.len(),
{
    if s.len() > 0 && !is_ws(s.last()) {
        token_tail(s.drop_last()).push(s.last())
    } else {
        seq![]
    }
}

/// The last whitespace-separated word of `s` (`split_whitespace().last()`).
pub open spec fn last_token(s: Seq<char>) -> Seq<char>
    decreases s.len(),
{
    if s.len() == 0 {
        seq![]
    } else if is_ws(s.last()) {
        last_token(s.drop_last())
    } else {
        token_tail(s)
    }
}

/// `s` without the `;` characters at its end (`trim_end_matches(';')`).
pub open spec fn without_semicolons(s: Seq<char>) -> Seq<char>
    decreases s.len(),
{
    if s.len() > 0 && s.last() == ';' {
        without_semicolons(s.drop_last())
    } else {
        s
    }
}

/// Index of the first line holding `PID`, or the number of lines.
pub open spec fn pid_line_index(ls: Seq<Seq<char>>) -> int
    decreases ls.len(),
{
    if ls.len() == 0 {
        0
    } else if contains_text(ls[0], "PID"@) {
        0
    } else {
        1 + pid_line_index(ls.skip(1))
    }
}

/// The process id in `launchctl list <label>` output, whose line reads
/// `"PID" = 539;`: the last word of the first line that holds `PID`,
/// without the `;` that ends it.
pub open spec fn pid_of(out: Seq<char>) -> Option<Seq<char>> {
    let ls = text_lines(out);
    let i = pid_line_index(ls);
    if i < ls.len() {
        Some(without_semicolons(last_token(ls[i])))
    } else {
        None
    }
}

proof fn lemma_pid_line_index(ls: Seq<Seq<char>>, n: int)
    requires
        0 <= n <= ls.len(),
        forall|j: int| 0 <= j < n ==> !contains_text(#[trigger] ls[j], "PID"@),
        n < ls.len() ==> contains_text(ls[n], "PID"@),
    ensures
        pid_line_index(ls) == n,
    decreases ls.len(),
{
    if ls.len() > 0 && n > 0 {
        assert(!contains_text(ls[0], "PID"@));
        assert forall|j: int| 0 <= j < n - 1 implies !contains_text(#[trigger] ls.skip(1)[j], "PID"@) by {
            assert(ls.skip(1)[j] == ls[j + 1]);
        }
        lemma_pid_line_index(ls.skip(1), n - 1);
    }
}

/// The last word of `v[lo..hi]`.
fn last_word(v: &Vec<char>, lo: usize, hi: usize) -> (r: String)
    requires
        lo <= hi <= v.len(),
    ensures
        r@ == last_token(v@.subrange(lo as int, hi as int)),
{
    let mut e = hi;
    while e > lo && is_ws_char(v[e - 1])
        invariant
            lo <= e <= hi <= v.len(),
            last_token(v@.subrange(lo as int, hi as int)) == last_token(v@.subrange(lo as int, e as int)),
        decreases e - lo,
    {
        proof {
            assert(v@.subrange(lo as int, e as int).drop_last() =~= v@.subrange(lo as int, e - 1));
        }
        e = e - 1;
    }
    proof {
        if e > lo {
            assert(v@.subrange(lo as int, e as int).last() == v@[e - 1]);
        } else {
            assert(v@.subrange(lo as int, e as int).len() == 0);
        }
    }
    let mut b = e;
    while b > lo && !is_ws_char(v[b - 1])
        invariant
            lo <= b <= e <= hi <= v.len(),
            e > lo ==> last_token(v@.subrange(lo as int, hi as int)) == token_tail(v@.subrange(lo as int, e as int)),
            e == lo ==> last_token(v@.subrange(lo as int, hi as int)) =~= Seq::<char>::empty(),
            token_tail(v@.subrange(lo as int, e as int)) =~= token_tail(v@.subrange(lo as int, b as int))
                + v@.subrange(b as int, e as int),
        decreases b - lo,
    {
        proof {
            let s = v@.subrange(lo as int, b as int);
            assert(s.drop_last() =~= v@.subrange(lo as int, b - 1));
            assert(s.last() == v@[b - 1]);
            assert(v@.subrange(b - 1, e as int) =~= seq![v@[b - 1]] + v@.subrange(b as int, e as int));
        }
        b = b - 1;
    }
    proof {
        let s = v@.subrange(lo as int, b as int);
        if b > lo {
            assert(s.last() == v@[b - 1]);
        }
        assert(token_tail(s) =~= Seq::<char>::empty());
    }
    string_of_range(v, b, e)
}

/// `s` without the `;` characters at its end.
fn strip_semicolons(s: &str) -> (r: String)
    ensures
        r@ == without_semicolons(s@),
{
    let v = chars_of(s);
    let mut e = v.len();
    proof {
        assert(v@.subrange(0, v@.len() as int) =~= s@);
    }
    while e > 0 && v[e - 1] == ';'
        invariant
            e <= v.len(),
            v@ == s@,
            without_semicolons(s@) == without_semicolons(v@.subrange(0, e as int)),
        decreases e,
    {
        proof {
            assert(v@.subrange(0, e as int).drop_last() =~= v@.subrange(0, e - 1));
        }
        e = e - 1;
    }
    proof {
        if e > 0 {
            assert(v@.subrange(0, e as int).last() == v@[e - 1]);
        }
        assert(v@.subrange(0, v@.len() as int) =~= s@);
    }
    string_of_range(&v, 0, e)
}

/// The process id in `launchctl list <label>` output, whose line reads
/// `"PID" = 539;`: the last word of the first line that holds `PID`,
/// without the `;` that ends it.
pub fn get_pid(stdout: &str) -> (r: Option<String>)
    ensures
        match pid_of(stdout@) {
            Some(p) => r is Some && r->0@ == p,
            None => r is None,
        },
{
    let v = chars_of(stdout);
    let pid = chars_of("PID");
    let n = v.len();
    let mut pos: usize = 0;
    let ghost mut done: Seq<Seq<char>> = seq![];
    proof {
        assert(v@.skip(0) =~= v@);
        assert(done + text_lines(v@.skip(0)) =~= text_lines(v@));
    }
    while pos < n
        invariant
            pos <= n == v.len(),
            v@ == stdout@,
            pid@ == "PID"@,
            done + text_lines(v@.skip(pos as int)) == text_lines(v@),
            forall|j: int| 0 <= j < done.len() ==> !contains_text(#[trigger] done[j], "PID"@),
        decreases n - pos,
    {
        let (end, next) = next_line(&v, pos);
        let ghost piece = v@.subrange(pos as int, end as int);
        let line = copy_range(&v, pos, end);
        let ghost ls = text_lines(v@);
        proof {
            assert(ls =~= done + (seq![piece] + text_lines(v@.skip(next as int))));
            assert(ls[done.len() as int] == piece);
            assert forall|j: int| 0 <= j < done.len() implies !contains_text(#[trigger] ls[j], "PID"@) by {
                assert(ls[j] == done[j]);
            }
        }
        if text_contains(&line, &pid) {
            proof {
                lemma_pid_line_index(ls, done.len() as int);
            }
            let word = last_word(&v, pos, end);
            return Some(strip_semicolons(word.as_str()));
        }
        proof {
            assert(done.push(piece) + text_lines(v@.skip(next as int)) =~= ls);
            done = done.push(piece);
        }
        pos = next;
    }
    proof {
        assert(v@.skip(n as int) =~= Seq::<char>::empty());
        assert(text_lines(v@.skip(n as int)) =~= Seq::<Seq<char>>::empty());
        assert(done =~= text_lines(v@));
        lemma_pid_line_index(text_lines(v@), done.len() as int);
    }
    None
}

// ---------------------------------------------------------------------------
// `service status`
/// What `service status` prints: the label and the configuration, property
/// list and log paths, then the state: not installed, running (with the
/// process id when one is found) or stopped.
pub open spec fn status_lines_spec(
    config_dir: Seq<char>,
    plist: Seq<char>,
    log: Seq<char>,
    installed: bool,
    loaded: bool,
    pid: Option<Seq<char>>,
) -> Seq<Seq<char>> {
    seq![
        "服务名称: "@ + SERVICE_NAME@,
        "配置目录: "@ + config_dir,
        "plist 路径: "@ + plist,
        "日志路径: "@ + log,
    ] + if !installed {
        seq!["状态: 未安装"@]
    } else if loaded {
        match pid {
            Some(p) => seq!["状态: 运行中"@, "PID: "@ + p],
            None => seq!["状态: 运行中"@],
        }
    } else {
        seq!["状态: 已停止"@]
    }
}

fn labelled(label: &str, text: &str) -> (r: String)
    ensures
        r@ == label@ + text@,
{
    let mut r = label.to_owned();
    r.append(text);
    r
}

/// The lines of `service status`; `loaded` and `pid` are what `launchctl`
/// reported, asked only where the property list exists and, for the
/// process id, where the service is loaded.
pub fn status_lines(
    config_dir: &str,
    plist: &str,
    log: &str,
    installed: bool,
    loaded: bool,
    pid: Option<String>,
) -> (r: Vec<String>)
    ensures
        r@.len() == status_lines_spec(config_dir@, plist@, log@, installed, loaded, opt_view(pid)).len(),
        forall|i: int|
            0 <= i < r@.len() ==> (#[trigger] r@[i])@ == status_lines_spec(
                config_dir@,
                plist@,
                log@,
                installed,
                loaded,
                opt_view(pid),
            )[i],
{
    let mut r: Vec<String> = Vec::new();
    r.push(labelled("服务名称: ", SERVICE_NAME));
    r.push(labelled("配置目录: ", config_dir));
    r.push(labelled("plist 路径: ", plist));
    r.push(labelled("日志路径: ", log));
    if !installed {
        r.push("状态: 未安装".to_owned());
    } else if loaded {
        r.push("状态: 运行中".to_owned());
        match pid {
            Some(p) => r.push(labelled("PID: ", p.as_str())),
            None => {},
        }
    } else {
        r.push("状态: 已停止".to_owned());
    }
    let ghost want = status_lines_spec(config_dir@, plist@, log@, installed, loaded, opt_view(pid));
    assert(r@.len() == want.len());
    assert forall|i: int| 0 <= i < r@.len() implies (#[trigger] r@[i])@ == want[i] by {
    }
    r
}

// ---------------------------------------------------------------------------
// `service uninstall`, `start` and `stop`
/// What `service uninstall`, `start` or `stop` does once it knows whether
/// the property list exists and whether the service is loaded.
#[derive(Debug, Clone, PartialEq, Eq)]
pub enum ServicePlan {
    /// Print the message as an error and exit with status 1.
    Fail(String),
    /// Run `launchctl` with the subcommand where one is given (a failure
    /// there is printed and ends with status 1), remove the property list
    /// where asked, then print `done`.
    Run { launchctl: Option<String>, remove_plist: bool, done: String },
}

/// What a plan holds, as plain values.
pub enum PlanView {
    Fail(Seq<char>),
    Run { launchctl: Option<Seq<char>>, remove_plist: bool, done: Seq<char> },
}

impl View for ServicePlan {
    type V = PlanView;

    open spec fn view(&self) -> PlanView {
        match self {
            ServicePlan::Fail(m) => PlanView::Fail(m@),
            ServicePlan::Run { launchctl, remove_plist, done } => PlanView::Run {
                launchctl: opt_view(*launchctl),
                remove_plist: *remove_plist,
                done: done@,
            },
        }
    }
}

/// The plan of a command other than `install` and `status`:
/// - `uninstall`: without the property list, fail naming it; else unload
///   the service if it is loaded, remove the property list, `服务已卸载`;
/// - `start` / `stop`: without the property list, fail asking to install
///   first; else `launchctl load` / `unload`, `服务已启动` / `服务已停止`.
pub open spec fn service_plan_spec(
    cmd: ServiceCommands,
    plist: Seq<char>,
    plist_exists: bool,
    loaded: bool,
) -> PlanView {
    match cmd {
        ServiceCommands::Uninstall => if !plist_exists {
            PlanView::Fail("plist 文件不存在: "@ + plist)
        } else {
            PlanView::Run {
                launchctl: if loaded {
                    Some("unload"@)
                } else {
                    None
                },
                remove_plist: true,
                done: "服务已卸载"@,
            }
        },
        ServiceCommands::Start => if !plist_exists {
            PlanView::Fail("plist 文件不存在，请先运行 service install"@)
        } else {
            PlanView::Run { launchctl: Some("load"@), remove_plist: false, done: "服务已启动"@ }
        },
        _ => if !plist_exists {
            PlanView::Fail("plist 文件不存在，请先运行 service install"@)
        } else {
            PlanView::Run { launchctl: Some("unload"@), remove_plist: false, done: "服务已停止"@ }
        },
    }
}

/// Decides `service uninstall`, `start` or `stop`; `loaded` is consulted by
/// `uninstall` only, and only where the property list exists.
pub fn service_plan(cmd: ServiceCommands, plist: &str, plist_exists: bool, loaded: bool) -> (r:
    ServicePlan)
    requires
        cmd == ServiceCommands::Uninstall || cmd == ServiceCommands::Start || cmd
            == ServiceCommands::Stop,
    ensures
        r@ == service_plan_spec(cmd, plist@, plist_exists, loaded),
{
    match cmd {
        ServiceCommands::Uninstall => {
            if !plist_exists {
                let mut m = "plist 文件不存在: ".to_owned();
                m.append(plist);
                ServicePlan::Fail(m)
            } else {
                let launchctl = if loaded {
                    Some("unload".to_owned())
                } else {
                    None
                };
                ServicePlan::Run { launchctl, remove_plist: true, done: "服务已卸载".to_owned() }
            }
        },
        ServiceCommands::Start => {
            if !plist_exists {
                ServicePlan::Fail("plist 文件不存在，请先运行 service install".to_owned())
            } else {
                ServicePlan::Run {
                    launchctl: Some("load".to_owned()),
                    remove_plist: false,
                    done: "服务已启动".to_owned(),
                }
            }
        },
        _ => {
            if !plist_exists {
                ServicePlan::Fail("plist 文件不存在，请先运行 service install".to_owned())
            } else {
                ServicePlan::Run {
                    launchctl: Some("unload".to_owned()),
                    remove_plist: false,
                    done: "服务已停止".to_owned(),
                }
            }
        },
    }
}

/// `start` and `stop` do not depend on whether the service is loaded: once
/// the property list exists, `start` always loads it and `stop` always
/// unloads it, and neither removes the file. `uninstall` of an existing
/// property list unloads exactly a loaded service and always removes the
/// file. Without the property list all three fail and run nothing.
pub proof fn law_service_plans(plist: Seq<char>, loaded: bool)
    ensures
        service_plan_spec(ServiceCommands::Start, plist, true, loaded) == service_plan_spec(
            ServiceCommands::Start,
            plist,
            true,
            !loaded,
        ),
        service_plan_spec(ServiceCommands::Stop, plist, true, loaded) == service_plan_spec(
            ServiceCommands::Stop,
            plist,
            true,
            !loaded,
        ),
        service_plan_spec(ServiceCommands::Start, plist, true, loaded) is Run,
        service_plan_spec(ServiceCommands::Start, plist, true, loaded)->launchctl == Some("load"@),
        !service_plan_spec(ServiceCommands::Start, plist, true, loaded)->remove_plist,
        service_plan_spec(ServiceCommands::Stop, plist, true, loaded) is Run,
        service_plan_spec(ServiceCommands::Stop, plist, true, loaded)->launchctl == Some("unload"@),
        !service_plan_spec(ServiceCommands::Stop, plist, true, loaded)->remove_plist,
        service_plan_spec(ServiceCommands::Uninstall, plist, true, loaded) is Run,
        service_plan_spec(ServiceCommands::Uninstall, plist, true, loaded)->remove_plist,
        service_plan_spec(ServiceCommands::Uninstall, plist, true, loaded)->launchctl == (if loaded {
            Some("unload"@)
        } else {
            None
        }),
        service_plan_spec(ServiceCommands::Start, plist, false, loaded) is Fail,
        service_plan_spec(ServiceCommands::Stop, plist, false, loaded) is Fail,
        service_plan_spec(ServiceCommands::Uninstall, plist, false, loaded) is Fail,
{
}

// ---------------------------------------------------------------------------
// What the process id is
proof fn lemma_token_tail(s: Seq<char>)
    ensures
        token_tail(s).len() <= s.len(),
        token_tail(s) =~= s.subrange(s.len() - token_tail(s).len(), s.len() as int),
        forall|k: int| 0 <= k < token_tail(s).len() ==> !is_ws(#[trigger] token_tail(s)[k]),
        token_tail(s).len() < s.len() ==> is_ws(s[s.len() - token_tail(s).len() - 1]),
    decreases s.len(),
{
    if s.len() > 0 && !is_ws(s.last()) {
        let init = s.drop_last();
        lemma_token_tail(init);
        let t = token_tail(init);
        assert forall|k: int| 0 <= k < t.push(s.last()).len() implies !is_ws(
            #[trigger] t.push(s.last())[k],
        ) by {
            if k < t.len() {
                assert(t.push(s.last())[k] == t[k]);
            }
        }
        if t.len() < init.len() {
            assert(init[init.len() - t.len() - 1] == s[s.len() - t.len() - 2]);
        }
    }
}

/// The last word of `s` ends at some `e` after which only whitespace
/// follows, and starts at the beginning of `s` or after whitespace.
proof fn lemma_last_token(s: Seq<char>) -> (e: int)
    ensures
        last_token(s).len() <= e <= s.len(),
        s.subrange(e - last_token(s).len(), e) == last_token(s),
        forall|q: int| e <= q < s.len() ==> is_ws(#[trigger] s[q]),
        e - last_token(s).len() > 0 ==> is_ws(s[e - last_token(s).len() - 1]),
        forall|k: int| 0 <= k < last_token(s).len() ==> !is_ws(#[trigger] last_token(s)[k]),
    decreases s.len(),
{
    if s.len() == 0 {
        0
    } else if is_ws(s.last()) {
        let init = s.drop_last();
        let e = lemma_last_token(init);
        assert(s.subrange(e - last_token(s).len(), e) =~= init.subrange(e - last_token(s).len(), e));
        assert forall|q: int| e <= q < s.len() implies is_ws(#[trigger] s[q]) by {
            if q < init.len() {
                assert(s[q] == init[q]);
            }
        }
        if e - last_token(s).len() > 0 {
            assert(s[e - last_token(s).len() - 1] == init[e - last_token(s).len() - 1]);
        }
        e
    } else {
        lemma_token_tail(s);
        s.len() as int
    }
}

proof fn lemma_without_semicolons(t: Seq<char>)
    ensures
        without_semicolons(t).len() <= t.len(),
        without_semicolons(t) =~= t.take(without_semicolons(t).len() as int),
        forall|q: int| without_semicolons(t).len() <= q < t.len() ==> #[trigger] t[q] == ';',
        !(without_semicolons(t).len() > 0 && without_semicolons(t).last() == ';'),
    decreases t.len(),
{
    if t.len() > 0 && t.last() == ';' {
        let init = t.drop_last();
        lemma_without_semicolons(init);
        assert forall|q: int| without_semicolons(t).len() <= q < t.len() implies #[trigger] t[q]
            == ';' by {
            if q < init.len() {
                assert(t[q] == init[q]);
            }
        }
    }
}

proof fn lemma_pid_line_first(ls: Seq<Seq<char>>)
    ensures
        0 <= pid_line_index(ls) <= ls.len(),
        forall|j: int| 0 <= j < pid_line_index(ls) ==> !contains_text(#[trigger] ls[j], "PID"@),
        pid_line_index(ls) < ls.len() ==> contains_text(ls[pid_line_index(ls)], "PID"@),
    decreases ls.len(),
{
    if ls.len() > 0 && !contains_text(ls[0], "PID"@) {
        lemma_pid_line_first(ls.skip(1));
        assert forall|j: int| 0 <= j < pid_line_index(ls) implies !contains_text(
            #[trigger] ls[j],
            "PID"@,
        ) by {
            if j > 0 {
                assert(ls[j] == ls.skip(1)[j - 1]);
            }
        }
    }
}

/// The process id is found exactly when a line of the output holds `PID`.
/// It is then taken from the first such line: it holds no whitespace, does
/// not end with `;`, starts at the start of the line or after whitespace,
/// and only `;` and whitespace follow it to the end of the line.
pub proof fn law_pid_is_the_last_word(out: Seq<char>)
    ensures
        pid_of(out) is Some <==> exists|i: int|
            0 <= i < text_lines(out).len() && contains_text(#[trigger] text_lines(out)[i], "PID"@),
        pid_of(out) is Some ==> {
            let ls = text_lines(out);
            let i = pid_line_index(ls);
            let line = ls[i];
            let p = pid_of(out)->0;
            &&& 0 <= i < ls.len()
            &&& contains_text(line, "PID"@)
            &&& forall|j: int| 0 <= j < i ==> !contains_text(#[trigger] ls[j], "PID"@)
            &&& forall|k: int| 0 <= k < p.len() ==> !is_ws(#[trigger] p[k])
            &&& !(p.len() > 0 && p.last() == ';')
            &&& exists|e: int|
                p.len() <= e <= line.len() && #[trigger] line.subrange(e - p.len(), e) == p && (e
                    - p.len() == 0 || is_ws(line[e - p.len() - 1])) && forall|q: int|
                    e <= q < line.len() ==> is_ws(#[trigger] line[q]) || line[q] == ';'
        },
{
    let ls = text_lines(out);
    lemma_pid_line_first(ls);
    let i = pid_line_index(ls);
    if i < ls.len() {
        let line = ls[i];
        let e = lemma_last_token(line);
        let t = last_token(line);
        lemma_without_semicolons(t);
        let p = without_semicolons(t);
        let e2 = e - t.len() + p.len();
        assert(line.subrange(e2 - p.len(), e2) =~= p);
        assert forall|q: int| e2 <= q < line.len() implies is_ws(#[trigger] line[q]) || line[q]
            == ';' by {
            if q < e {
                assert(line[q] == t[q - (e - t.len())]);
            }
        }
        assert forall|k: int| 0 <= k < p.len() implies !is_ws(#[trigger] p[k]) by {
            assert(p[k] == t[k]);
        }
    } else {
        assert forall|j: int| 0 <= j < ls.len() implies !contains_text(#[trigger] ls[j], "PID"@) by {}
    }
}

} // verus!
