use glm_coding_xcode_proxy::cli::ServiceCommands;
use glm_coding_xcode_proxy::service_cmd::{
    generate_plist, get_pid, service_plan, status_lines, ServicePlan, launchctl_args, launchctl_outcome, log_dir, plist_path, SERVICE_NAME,
};

#[test]
fn service_paths() {
    assert_eq!(plist_path("/Users/me"), "/Users/me/Library/LaunchAgents/com.glm-coding-xcode-proxy.plist");
    assert_eq!(log_dir("/Users/me"), "/Users/me/Library/Logs/glm-coding-xcode-proxy");
    assert_eq!(log_dir("/"), "/Library/Logs/glm-coding-xcode-proxy");
}

#[test]
fn plist_text() {
    let expected = format!(
        r#"<?xml version="1.0" encoding="UTF-8"?>
<!DOCTYPE plist PUBLIC "-//Apple//DTD PLIST 1.0//EN" "http://www.apple.com/DTDs/PropertyList-1.0.dtd">
<plist version="1.0">
<dict>
    <key>Label</key>
    <string>{service_name}</string>
    <key>ProgramArguments</key>
    <array>
        <string>{exe_path}</string>
        <string>--port</string>
        <string>{port}</string>
    </array>
    <key>RunAtLoad</key>
    <true/>
    <key>KeepAlive</key>
    <true/>
    <key>StandardOutPath</key>
    <string>{log_path}/stdout.log</string>
    <key>StandardErrorPath</key>
    <string>{log_path}/stderr.log</string>
</dict>
</plist>
"#,
        service_name = SERVICE_NAME,
        exe_path = "/usr/local/bin/proxy",
        port = 9090,
        log_path = "/Users/me/Library/Logs/glm-coding-xcode-proxy",
    );
    assert_eq!(
        generate_plist("/usr/local/bin/proxy", 9090, "/Users/me/Library/Logs/glm-coding-xcode-proxy"),
        expected
    );
    assert!(generate_plist("x", 0, "l").contains("<string>0</string>"));
    assert!(generate_plist("x", 65535, "l").contains("<string>65535</string>"));
}

#[test]
fn launchctl_arguments() {
    assert_eq!(launchctl_args("load", "/p.plist"), Ok(vec!["load".to_string(), "-w".to_string(), "/p.plist".to_string()]));
    assert_eq!(launchctl_args("unload", "/p.plist"), Ok(vec!["unload".to_string(), "-w".to_string(), "/p.plist".to_string()]));
    assert_eq!(launchctl_args("list", "/p.plist"), Err("未知 launchctl 子命令: list".to_string()));
}

#[test]
fn launchctl_outcomes() {
    assert_eq!(launchctl_outcome("load", Ok(true)), Ok(()));
    assert_eq!(launchctl_outcome("load", Ok(false)), Err("launchctl load 失败".to_string()));
    assert_eq!(
        launchctl_outcome("unload", Err("not found".to_string())),
        Err("执行 launchctl unload 失败: not found".to_string())
    );
}

#[test]
fn pid_from_launchctl_output() {
    let out = "{\n\t\"LimitLoadToSessionType\" = \"Aqua\";\n\t\"PID\" = 4321;\n\t\"Program\" = \"x\";\n};\n";
    assert_eq!(get_pid(out), Some("4321".to_string()));
    assert_eq!(get_pid("{\n\t\"PID\" = 539;\n};"), Some("539".to_string()));
    assert_eq!(get_pid("\"PID\" = 7;;\n"), Some("7".to_string()));
    assert_eq!(get_pid("PID 1\r\nPID 2\r\n"), Some("1".to_string()));
    assert_eq!(get_pid("  PID\t77  \n"), Some("77".to_string()));
    assert_eq!(get_pid("{\n\t\"Label\" = \"x\";\n}"), None);
    assert_eq!(get_pid(""), None);
}

#[test]
fn status_reports() {
    let head = vec![
        "服务名称: com.glm-coding-xcode-proxy".to_string(),
        "配置目录: /h/.glm-coding-xcode-proxy".to_string(),
        "plist 路径: /h/p.plist".to_string(),
        "日志路径: /h/logs".to_string(),
    ];
    let with = |tail: &[&str]| -> Vec<String> {
        let mut v = head.clone();
        v.extend(tail.iter().map(|t| t.to_string()));
        v
    };
    let run = |i: bool, l: bool, p: Option<&str>| {
        status_lines("/h/.glm-coding-xcode-proxy", "/h/p.plist", "/h/logs", i, l, p.map(|s| s.to_string()))
    };
    assert_eq!(run(false, false, None), with(&["状态: 未安装"]));
    assert_eq!(run(true, true, Some("539")), with(&["状态: 运行中", "PID: 539"]));
    assert_eq!(run(true, true, None), with(&["状态: 运行中"]));
    assert_eq!(run(true, false, None), with(&["状态: 已停止"]));
}

#[test]
fn service_plans() {
    let run = |l: Option<&str>, remove: bool, done: &str| ServicePlan::Run {
        launchctl: l.map(|x| x.to_string()),
        remove_plist: remove,
        done: done.to_string(),
    };
    assert_eq!(
        service_plan(ServiceCommands::Uninstall, "/p", false, false),
        ServicePlan::Fail("plist 文件不存在: /p".to_string())
    );
    assert_eq!(service_plan(ServiceCommands::Uninstall, "/p", true, true), run(Some("unload"), true, "服务已卸载"));
    assert_eq!(service_plan(ServiceCommands::Uninstall, "/p", true, false), run(None, true, "服务已卸载"));
    assert_eq!(service_plan(ServiceCommands::Start, "/p", true, false), run(Some("load"), false, "服务已启动"));
    assert_eq!(service_plan(ServiceCommands::Stop, "/p", true, true), run(Some("unload"), false, "服务已停止"));
    assert_eq!(
        service_plan(ServiceCommands::Stop, "/p", false, false),
        ServicePlan::Fail("plist 文件不存在，请先运行 service install".to_string())
    );
}
