use dsh_launcher::config::InstanceState;
use dsh_launcher::process::{
    adopt_entry, adopted_url, announced_status, exit_status, find_entry, is_web_launch,
    launch_port, list_statuses, looks_like_dsh, lsof_pid, node, npm, pinned_port,
    port_owner_action, register_running, restart_profile, running_contains, still_adopted,
    stop_plan, stopped_status, unregister_running, PortOwnerAction, RunEntry, StopPlan,
};

fn entry(id: &str, profile: &str) -> RunEntry {
    RunEntry { id: id.to_string(), profile: profile.to_string(), url: None, adopted: None }
}

#[test]
fn looks_like_dsh_matches_node_and_dsh_processes() {
    assert!(looks_like_dsh("node"));
    assert!(looks_like_dsh("Node.js"));
    assert!(looks_like_dsh("dsh"));
    assert!(looks_like_dsh("/path/to/dsh-bin"));
    assert!(!looks_like_dsh("Python"));
    assert!(!looks_like_dsh("Google Chrome"));
    assert!(!looks_like_dsh(""));
}

#[test]
fn program_names_are_plain() {
    assert_eq!(npm(), "npm");
    assert_eq!(node(), "node");
}

#[test]
fn lsof_pid_reads_the_first_pid_line() {
    assert_eq!(lsof_pid("p4242\nfcwd\n"), Some(4242));
    assert_eq!(lsof_pid("f1\np17\np18\n"), Some(17));
    assert_eq!(lsof_pid(""), None);
    assert_eq!(lsof_pid("pabc\n"), None);
}

#[test]
fn port_owner_is_adopted_or_refused() {
    assert!(matches!(port_owner_action(3099, 12, "node"), PortOwnerAction::Adopt));
    match port_owner_action(3099, 12, "Python") {
        PortOwnerAction::Refuse(e) => assert_eq!(
            e,
            "端口 3099 已被其他进程占用（pid 12，Python），请先释放该端口或修改实例端口"
        ),
        _ => panic!("a foreign listener must be refused"),
    }
    match port_owner_action(80, -1, "") {
        PortOwnerAction::Refuse(e) => assert!(e.contains("pid -1，未知进程"), "{e}"),
        _ => panic!("an unnamed listener must be refused"),
    }
}

#[test]
fn web_ports_only_for_web_profiles() {
    assert!(is_web_launch(true, true, "bot"));
    assert!(!is_web_launch(true, false, "web"));
    assert!(is_web_launch(false, false, "web"));
    assert_eq!(pinned_port(true, Some(3099)), Some(3099));
    assert_eq!(pinned_port(false, Some(3099)), None);
    assert_eq!(launch_port(true, None), Some(0));
    assert_eq!(launch_port(true, Some(8080)), Some(8080));
    assert_eq!(launch_port(false, Some(8080)), None);
}

#[test]
fn registry_registers_and_unregisters() {
    let mut es: Vec<RunEntry> = Vec::new();
    register_running(&mut es, entry("a", "web"));
    register_running(&mut es, entry("b", "bot"));
    register_running(&mut es, entry("a", "bot"));
    assert_eq!(es.len(), 2);
    assert_eq!(find_entry(&es, "a"), Some(0));
    assert_eq!(es[0].profile, "bot");
    assert!(running_contains(&es, "b"));
    assert_eq!(restart_profile(&es, "b").unwrap(), "bot");
    unregister_running(&mut es, "a");
    assert!(!running_contains(&es, "a"));
    assert_eq!(restart_profile(&es, "a").unwrap_err(), "实例未在运行");
}

#[test]
fn adoption_never_replaces_an_entry() {
    let mut es = vec![entry("a", "web")];
    assert!(!adopt_entry(&mut es, "a", "web", 3099, "127.0.0.1", 7));
    assert!(es[0].adopted.is_none());
    assert!(adopt_entry(&mut es, "b", "web", 3099, "127.0.0.1", 7));
    assert_eq!(es[1].url.as_deref(), Some("http://127.0.0.1:3099"));
    assert!(still_adopted(&es, "b", 7));
    assert!(!still_adopted(&es, "b", 8));
    assert!(!still_adopted(&es, "a", 7));
    assert_eq!(adopted_url("localhost", 80), "http://localhost:80");
}

#[test]
fn announced_url_is_recorded_and_reported() {
    let mut es = vec![entry("a", "web")];
    let st = announced_status(&mut es, "a", "web", "[info] dsh web: http://127.0.0.1:3099/?token=x more")
        .unwrap();
    assert_eq!(st.state, InstanceState::Running);
    assert_eq!(st.url.as_deref(), Some("http://127.0.0.1:3099/?token=x"));
    assert_eq!(es[0].url.as_deref(), Some("http://127.0.0.1:3099/?token=x"));
    assert!(announced_status(&mut es, "a", "web", "dsh web: ftp://x").is_none());
    assert!(announced_status(&mut es, "a", "web", "plain log line").is_none());
}

#[test]
fn statuses_list_every_running_entry() {
    let mut es = vec![entry("a", "web"), entry("b", "bot")];
    es[0].url = Some("http://x".to_string());
    let st = list_statuses(&es);
    assert_eq!(st.len(), 2);
    assert_eq!(st[0].url.as_deref(), Some("http://x"));
    assert_eq!(st[1].profile.as_deref(), Some("bot"));
    assert!(st.iter().all(|s| s.state == InstanceState::Running));
}

#[test]
fn stop_plans_and_final_statuses() {
    let mut es = vec![entry("a", "web")];
    assert!(matches!(stop_plan(&es, "zzz"), StopPlan::AlreadyStopped));
    assert!(matches!(stop_plan(&es, "a"), StopPlan::SignalChild));
    assert!(adopt_entry(&mut es, "b", "web", 3099, "127.0.0.1", 42));
    assert!(matches!(stop_plan(&es, "b"), StopPlan::KillPid(42)));
    let s = exit_status("a", "web", false, Some(1));
    assert_eq!(s.state, InstanceState::Exited);
    assert_eq!(s.exit_code, Some(1));
    let s = exit_status("a", "web", true, None);
    assert_eq!(s.state, InstanceState::Stopped);
    let s = stopped_status("a");
    assert_eq!(s.state, InstanceState::Stopped);
    assert!(s.profile.is_none());
}

#[test]
fn stopping_twice_converges_on_stopped() {
    let mut es = vec![entry("a", "web"), entry("b", "web")];
    assert!(matches!(stop_plan(&es, "a"), StopPlan::SignalChild));
    unregister_running(&mut es, "a");
    assert!(matches!(stop_plan(&es, "a"), StopPlan::AlreadyStopped));
    unregister_running(&mut es, "a");
    assert!(matches!(stop_plan(&es, "a"), StopPlan::AlreadyStopped));
    assert!(matches!(stop_plan(&es, "b"), StopPlan::SignalChild));
}
