use dsh_launcher::config::{BoundTool, Config, ToolchainBinding};
use dsh_launcher::runtime::{
    candidate_paths, detected_managers, merge_path_dirs, node_for_spawn,
    node_install_command, node_is_below_recommended, node_missing_error, runtime_status,
    ToolStatus, ToolchainRequirements, PROBE_CWD, RECOMMENDED_NODE_MAJOR,
};
use dsh_launcher::toolchain::{node_major, MIN_PNPM_MAJOR, PNPM_INSTALL_HINT};

fn strings(xs: &[&str]) -> Vec<String> {
    xs.iter().map(|s| s.to_string()).collect()
}

#[test]
fn probe_runs_with_a_neutral_cwd() {
    assert_eq!(PROBE_CWD, "/");
}

#[test]
fn node_major_parses_version_output() {
    assert_eq!(node_major("v22.14.0"), Some(22));
    assert_eq!(node_major("22.14.0\n"), Some(22));
    assert_eq!(node_major("  v20.11.1  "), Some(20));
    assert_eq!(node_major("not-a-version"), None);
    assert_eq!(node_major(""), None);
}

#[test]
fn node_below_recommended_flags_only_old_parsable_versions() {
    let with = |v: Option<&str>| ToolStatus {
        installed: v.is_some(),
        version: v.map(|s| s.to_string()),
        path: None,
    };
    assert!(node_is_below_recommended(&with(Some("v18.19.0"))));
    assert!(!node_is_below_recommended(&with(Some("v20.0.0"))));
    assert!(!node_is_below_recommended(&with(Some("v24.16.0"))));
    assert!(!node_is_below_recommended(&with(None)));
    assert!(!node_is_below_recommended(&with(Some("weird"))));
}

#[test]
fn node_install_command_extends_whatever_manager_exists() {
    let m = |xs: &[&str]| strings(xs);
    assert_eq!(node_install_command(&m(&["nvm"])), "nvm install --lts");
    assert_eq!(node_install_command(&m(&["fnm"])), "fnm install --lts");
    assert_eq!(node_install_command(&m(&["brew"])), "brew install node");
    assert_eq!(node_install_command(&m(&["nvm", "brew"])), "nvm install --lts");
    assert_eq!(node_install_command(&m(&["fnm", "brew"])), "fnm install --lts");
    let bare = node_install_command(&m(&[]));
    assert!(bare.contains("nvm-sh/nvm"), "should install nvm first: {bare}");
    assert!(bare.contains("nvm install --lts"));
}

#[test]
fn managers_are_listed_in_preference_order() {
    assert_eq!(detected_managers(true, false, true), strings(&["nvm", "brew"]));
    assert_eq!(detected_managers(false, true, false), strings(&["fnm"]));
    assert!(detected_managers(false, false, false).is_empty());
}

#[test]
fn candidates_follow_path_then_fallbacks_without_repeats() {
    let path = strings(&["/usr/bin", "", "/opt/bin"]);
    let fallback = strings(&["/opt/bin", "/opt/homebrew/bin"]);
    assert_eq!(
        candidate_paths("node", &path, &fallback),
        strings(&["/usr/bin/node", "node", "/opt/bin/node", "/opt/homebrew/bin/node"])
    );
}

#[test]
fn merged_path_appends_only_new_dirs() {
    let parts = strings(&["/usr/bin", "/bin"]);
    let extra = strings(&["/bin", "/opt/homebrew/bin", "/opt/homebrew/bin"]);
    assert_eq!(merge_path_dirs(&parts, &extra), strings(&["/usr/bin", "/bin", "/opt/homebrew/bin"]));
}

#[test]
fn node_for_spawn_prefers_a_live_binding() {
    let mut cfg = Config::default();
    assert_eq!(node_for_spawn(&cfg, true), "node");
    cfg.settings.toolchain.node =
        Some(BoundTool { path: "/opt/n/bin/node".to_string(), version: "v22.1.0".to_string() });
    assert_eq!(node_for_spawn(&cfg, true), "/opt/n/bin/node");
    assert_eq!(node_for_spawn(&cfg, false), "node");
}

#[test]
fn runtime_status_reports_the_binding() {
    let binding = ToolchainBinding {
        node: Some(BoundTool { path: "/n".to_string(), version: "v18.0.0".to_string() }),
        pnpm: None,
    };
    let st = runtime_status(&binding, strings(&["brew"]));
    assert!(st.node.installed);
    assert_eq!(st.node.version.as_deref(), Some("v18.0.0"));
    assert!(st.node_below_recommended);
    assert!(!st.pnpm.installed);
    assert_eq!(st.requirements.node_install_command, "brew install node");
}

#[test]
fn requirements_state_the_floors() {
    let r = ToolchainRequirements::current(&vec![]);
    assert_eq!(r.min_pnpm_major, MIN_PNPM_MAJOR);
    assert_eq!(r.recommended_node_major, RECOMMENDED_NODE_MAJOR);
    assert_eq!(r.pnpm_install_command, PNPM_INSTALL_HINT);
    assert!(node_missing_error().contains("Node.js"));
}

#[test]
fn probe_candidates_live_on_the_spawn_path() {
    let path = strings(&["/usr/bin", "/bin"]);
    let extra = strings(&["/opt/homebrew/bin", "/bin"]);
    let spawn_path = merge_path_dirs(&path, &extra);
    let cands = candidate_paths("pnpm", &path, &extra);
    let joined: Vec<String> = spawn_path.iter().map(|d| format!("{d}/pnpm")).collect();
    assert_eq!(cands, joined);
}
