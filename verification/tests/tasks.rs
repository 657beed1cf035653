use dsh_launcher::config::{Config, DshInstance, DshVersion};
use dsh_launcher::json::Json;
use dsh_launcher::tasks::{
    cancelled_progress, command_echo, dsh_package_spec, finish_task, find_task, git_clone_error,
    github_tag_answer, heartbeat_percent, install_retry_step, is_error_line_exec, list_tasks,
    mark_cancelled, millis_of_reading, parse_pending_builds, npm_view_published, port_offset_of_reading, pending_builds_error, pending_builds_note,
    push_log_locked, register_version, remove_task, retry_note, start_install_version_task,
    stream_percent, streamed_failure_message, template_boot_port, template_failure_message,
    template_ready_line, valid_version_string, version_install_dir, RetryStep, TaskInfo,
    TaskState, MAX_LOG_LINES,
};

fn task(id: &str, created_at: i64) -> TaskInfo {
    TaskInfo {
        id: id.to_string(),
        kind: "create-instance".to_string(),
        label: "l".to_string(),
        version: "1.0.0".to_string(),
        state: TaskState::Running,
        percent: 5,
        created_at,
        message: None,
        instance_id: None,
        instance_name: Some("1.0.0".to_string()),
        reserved_home_path: Some("/d/homes/1.0.0".to_string()),
        logs: vec![],
    }
}

fn strings(xs: &[&str]) -> Vec<String> {
    xs.iter().map(|s| s.to_string()).collect()
}

#[test]
fn valid_version_string_accepts_semver_shapes() {
    assert!(valid_version_string("1.2.3"));
    assert!(valid_version_string("0.1.3-alpha.2"));
    assert!(valid_version_string("0.2.0-rc.8+build.1"));
    assert!(valid_version_string("22.14.0"));
}

#[test]
fn valid_version_string_rejects_path_segments() {
    assert!(!valid_version_string(""));
    assert!(!valid_version_string(".."));
    assert!(!valid_version_string("../evil"));
    assert!(!valid_version_string("a/b"));
    assert!(!valid_version_string("a\\b"));
    assert!(!valid_version_string("v1.2.3\n"));
    assert!(!valid_version_string("1.2.3 "));
    assert!(!valid_version_string("../../evil"));
    assert!(!valid_version_string(&"1".repeat(65)));
}

#[test]
fn log_is_capped() {
    let mut t = task("t", 0);
    for k in 0..(MAX_LOG_LINES + 5) {
        push_log_locked(&mut t, &format!("line {k}"));
    }
    assert_eq!(t.logs.len(), MAX_LOG_LINES);
    assert_eq!(t.logs[0], "line 5");
    assert_eq!(t.logs[MAX_LOG_LINES - 1], format!("line {}", MAX_LOG_LINES + 4));
}

#[test]
fn finishing_records_the_result() {
    let mut t = task("t", 0);
    let ev = finish_task(&mut t, Ok("i-1".to_string())).unwrap();
    assert_eq!(t.state, TaskState::Done);
    assert_eq!(t.percent, 100);
    assert_eq!(ev.instance_id.as_deref(), Some("i-1"));
    assert!(t.reserved_home_path.is_none());

    let mut f = task("f", 0);
    let ev = finish_task(&mut f, Err("boom".to_string())).unwrap();
    assert_eq!(f.state, TaskState::Error);
    assert_eq!(f.logs.last().map(|s| s.as_str()), Some("error: boom"));
    assert_eq!(ev.message.as_deref(), Some("boom"));
    assert_eq!(ev.percent, 5);
}

#[test]
fn a_cancelled_task_stays_cancelled() {
    let mut t = task("t", 0);
    mark_cancelled(&mut t);
    assert_eq!(t.message.as_deref(), Some("已取消"));
    assert!(finish_task(&mut t, Ok("i".to_string())).is_none());
    assert!(finish_task(&mut t, Err("late".to_string())).is_none());
    assert_eq!(t.state, TaskState::Cancelled);
    assert!(t.logs.is_empty());
    let p = cancelled_progress("t");
    assert_eq!(p.state, TaskState::Cancelled);
}

#[test]
fn tasks_list_newest_first_and_remove() {
    let mut ts = vec![task("a", 10), task("b", 30), task("c", 20)];
    let listed: Vec<String> = list_tasks(&ts).into_iter().map(|t| t.id).collect();
    assert_eq!(listed, strings(&["b", "c", "a"]));
    assert_eq!(find_task(&ts, "c"), Some(2));
    assert_eq!(remove_task(&mut ts, "b").unwrap_err(), "任务仍在运行中，请先取消");
    ts[1].state = TaskState::Done;
    assert!(remove_task(&mut ts, "b").is_ok());
    assert_eq!(remove_task(&mut ts, "zzz").unwrap_err(), "任务不存在");
    assert_eq!(ts.len(), 2);
    assert_eq!(find_task(&ts, "b"), None);
}

fn cfg_with(versions: Vec<&str>, instances: Vec<&str>) -> Config {
    let mut cfg = Config::default();
    for v in versions {
        cfg.versions.push(DshVersion { id: format!("v-{v}"), version: v.to_string(), dir: format!("/d/versions/{v}") });
    }
    for n in instances {
        cfg.instances.push(DshInstance {
            id: format!("i-{n}"),
            name: n.to_string(),
            version_id: "v".to_string(),
            home_id: "h".to_string(),
            env_overrides: vec![],
            default_profile: None,
            last_profile: None,
            icon: None,
            port: None,
        });
    }
    cfg
}

#[test]
fn install_task_is_checked_before_it_starts() {
    let cfg = cfg_with(vec![], vec!["2.0.0"]);
    let t = start_install_version_task(&cfg, &vec![], "/d", " 1.0.0 ").unwrap();
    assert_eq!(t.version, "1.0.0");
    assert_eq!(t.label, "下载 DSH 1.0.0 并创建实例");
    assert!(t.id.starts_with("t-"));
    assert_eq!(t.state, TaskState::Running);
    assert_eq!(t.reserved_home_path.as_deref(), Some("/d/homes/1.0.0"));

    assert_eq!(start_install_version_task(&cfg, &vec![], "/d", "  ").unwrap_err(), "实例名称不能为空");
    assert_eq!(
        start_install_version_task(&cfg, &vec![], "/d", "../x").unwrap_err(),
        "版本号格式不合法: ../x"
    );
    assert_eq!(start_install_version_task(&cfg, &vec![], "/d", "2.0.0").unwrap_err(), "同名实例已存在");
    assert!(start_install_version_task(&cfg, &vec![task("t", 0)], "/d", "1.0.0").is_err());
}

#[test]
fn register_version_is_idempotent() {
    let mut vs: Vec<DshVersion> = vec![];
    let a = register_version(&mut vs, "1.0.0", "/d/versions/1.0.0");
    let b = register_version(&mut vs, "1.0.0", "/d/versions/1.0.0");
    assert_eq!(vs.len(), 1);
    assert_eq!(a.id, b.id);
    assert!(a.id.starts_with("v-"));
}

#[test]
fn progress_stays_below_completion() {
    assert_eq!(stream_percent(0), 1);
    assert_eq!(stream_percent(89), 90);
    assert_eq!(stream_percent(95), 90);
    assert_eq!(heartbeat_percent(0), Some(2));
    assert_eq!(heartbeat_percent(89), Some(90));
    assert_eq!(heartbeat_percent(90), Some(91));
    assert_eq!(heartbeat_percent(99), None);
}

#[test]
fn failure_messages_pick_the_error_lines() {
    let logs = strings(&["fetching", "ERR_PNPM_FETCH_404 not found", "detail a", "detail b", "", "detail c"]);
    let m = streamed_failure_message(&logs, "pnpm install", "1");
    assert!(m.starts_with("pnpm install 失败: "), "{m}");
    assert!(m.contains("ERR_PNPM_FETCH_404"), "{m}");
    let quiet = streamed_failure_message(&vec![], "pnpm install", "1");
    assert_eq!(quiet, "pnpm install 失败: pnpm install 退出码 1（子进程未输出任何日志）");
    assert!(is_error_line_exec("Request TIMEOUT"));
    assert!(!is_error_line_exec("ok"));
}

#[test]
fn template_boot_reports() {
    assert!(template_ready_line("  dsh web: http://127.0.0.1:20001/ "));
    assert!(!template_ready_line("starting"));
    assert_eq!(template_failure_message(&vec![]), "生成 web profile 超时或失败");
    let p = template_boot_port();
    assert!((20000..50000).contains(&p));
}

#[test]
fn retry_plan_follows_the_attempts() {
    assert_eq!(install_retry_step(1, false, true, true), (RetryStep::AllowBuildsAndRetry, 1, true));
    assert_eq!(install_retry_step(1, true, true, true), (RetryStep::Retry, 2, true));
    assert_eq!(install_retry_step(1, false, false, true), (RetryStep::Retry, 2, false));
    assert_eq!(install_retry_step(2, false, false, true), (RetryStep::WipeAndRetry, 3, false));
    assert_eq!(install_retry_step(2, false, false, false), (RetryStep::Cancelled, 2, false));
    assert_eq!(install_retry_step(3, false, true, true), (RetryStep::GiveUp, 3, false));
    assert_eq!(retry_note(1), "安装失败，正在重试（第 1 次重试）…");
}

#[test]
fn install_helpers() {
    assert_eq!(version_install_dir("/d", "1.0.0"), "/d/versions/1.0.0");
    assert_eq!(dsh_package_spec("1.0.0"), "@deepseek-ai/dsh@1.0.0");
    assert!(npm_view_published(false, false, ""));
    assert!(!npm_view_published(true, true, "  "));
    assert!(npm_view_published(true, true, "1.0.0\n"));
    assert_eq!(github_tag_answer(Ok(()), "1.0.0"), Ok(true));
    assert_eq!(github_tag_answer(Err("HTTP 404 x".to_string()), "1.0.0"), Ok(false));
    assert!(github_tag_answer(Err("HTTP 429".to_string()), "1.0.0").unwrap_err().contains("限流"));
    assert_eq!(github_tag_answer(Err("boom".to_string()), "1"), Err("boom".to_string()));
    assert_eq!(git_clone_error("program not found"), "源码构建需要安装 Git：program not found");
    assert_eq!(git_clone_error("exit 128"), "exit 128");
}

#[test]
fn pending_builds_texts() {
    let p = strings(&["a@1", "b@2", "c@3", "d@4"]);
    assert_eq!(pending_builds_note(&p), "检测到 4 个依赖的构建脚本未执行（a@1, b@2, c@3…），运行 pnpm rebuild 补建…");
    assert_eq!(pending_builds_error(&strings(&["a@1"])), "pnpm rebuild 后仍有 1 个依赖未完成构建: a@1");
}

#[test]
fn clock_readings_give_millis_and_port_offsets() {
    assert_eq!(millis_of_reading(Some((1, 500_000_000))), 1500);
    assert_eq!(millis_of_reading(Some((1_700_000_000, 999_999_999))), 1_700_000_000_999);
    assert_eq!(millis_of_reading(None), 0);
    assert_eq!(millis_of_reading(Some((u64::MAX, 0))), ((u64::MAX as u128) * 1000) as i64);
    assert_eq!(port_offset_of_reading(Some((7, 123_456))), 3_456);
    assert_eq!(port_offset_of_reading(Some((7, 999_999_999))), 9_999);
    assert_eq!(port_offset_of_reading(None), 0);
}

#[test]
fn the_install_loop_ends_even_when_builds_stay_blocked() {
    // Every attempt fails with blocked build scripts: the approval retry
    // happens once, then the ordinary attempts run out.
    let (mut attempt, mut allowed) = (1u32, false);
    let mut steps = Vec::new();
    loop {
        let (step, a, b) = install_retry_step(attempt, allowed, true, true);
        steps.push(step);
        if matches!(step, RetryStep::GiveUp | RetryStep::Cancelled) {
            break;
        }
        attempt = a;
        allowed = b;
        assert!(steps.len() < 10);
    }
    assert_eq!(
        steps,
        vec![RetryStep::AllowBuildsAndRetry, RetryStep::Retry, RetryStep::WipeAndRetry, RetryStep::GiveUp]
    );
}

fn json_of(v: &serde_json::Value) -> Json {
    match v {
        serde_json::Value::Null => Json::Null,
        serde_json::Value::Bool(b) => Json::Bool(*b),
        serde_json::Value::Number(n) => Json::Number(n.to_string()),
        serde_json::Value::String(s) => Json::Str(s.clone()),
        serde_json::Value::Array(a) => Json::Array(a.iter().map(json_of).collect()),
        serde_json::Value::Object(m) => {
            Json::Object(m.iter().map(|(k, v)| (k.clone(), json_of(v))).collect())
        }
    }
}

/// The pending builds of a `.modules.yaml` text, parsed as the app parses it.
fn pending(raw: &str) -> Vec<String> {
    let doc = serde_yaml::from_str::<serde_json::Value>(raw).ok().map(|v| json_of(&v));
    parse_pending_builds(&doc)
}

#[test]
fn pending_builds_empty_inline_list_is_not_confused_by_following_keys() {
    let raw = r#"{
  "pendingBuilds": [],
  "publicHoistPattern": [],
  "registries": {
    "default": "https://registry.npmjs.org/"
  }
}"#;
    assert!(pending(raw).is_empty());
}

#[test]
fn pending_builds_reads_populated_block_list() {
    let raw = "pendingBuilds:\n  - koffi@3.2.1\n  - protobufjs@7.6.6\npublicHoistPattern: []\n";
    assert_eq!(
        pending(raw),
        vec!["koffi@3.2.1".to_string(), "protobufjs@7.6.6".to_string()]
    );
}

#[test]
fn pending_builds_missing_or_garbage_means_nothing_pending() {
    assert!(pending("").is_empty());
    assert!(pending("not yaml: [unclosed").is_empty());
    assert!(pending("{\"other\": 1}").is_empty());
}

#[test]
fn pending_builds_need_a_list_of_strings() {
    assert_eq!(pending("pendingBuilds:\n  - a\n  - 3\n"), Vec::<String>::new());
    assert_eq!(pending("pendingBuilds: a\n"), Vec::<String>::new());
    assert_eq!(pending("- pendingBuilds\n"), Vec::<String>::new());
    assert_eq!(parse_pending_builds(&None), Vec::<String>::new());
}

#[test]
fn command_lines_are_echoed_with_a_dollar_prompt() {
    let args = vec!["install".to_string(), "--frozen-lockfile".to_string()];
    assert_eq!(command_echo("pnpm", &args), "$ pnpm install --frozen-lockfile");
    assert_eq!(command_echo("git", &Vec::new()), "$ git");
}
