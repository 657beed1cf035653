use dsh_launcher::config::{Config, DshHome, DshInstance};
use dsh_launcher::launch::{
    checkout_marker, instance_command, instance_env, node_runtime_flags, plugin_command,
    proxy_applies_to_dsh, template_boot_command, terminal_bin_dir, terminal_env_pairs,
    terminal_path_dirs, version_bin, web_app_startup_path, web_app_supports_no_open,
    wrapper_needs_write, wrapper_script,
};

const NODE: &str = "/opt/test/bin/node";
const VDIR: &str = "/tmp/dsh-launch-test";

fn npm_bin() -> String {
    version_bin(VDIR, false)
}

#[test]
fn web_app_supports_no_open_feature_detects_flag() {
    // No startup.js yet: nothing to read, so no flag.
    assert!(!web_app_supports_no_open(""));
    assert!(!web_app_supports_no_open(
        "const p = new Command().option('--host <host>').option('--port <port>')"
    ));
    assert!(web_app_supports_no_open(
        "const p = new Command().option('--no-open', 'do not open the Web UI in the default browser')"
    ));
    assert_eq!(
        web_app_startup_path(VDIR, false),
        "/tmp/dsh-launch-test/node_modules/.pnpm/node_modules/@deepseek-ai/dsh-web-app/lib/startup.js"
    );
}

#[test]
fn version_bin_detects_source_checkout_layout() {
    assert!(version_bin(VDIR, false).ends_with("node_modules/@deepseek-ai/dsh/lib/bin.js"));
    assert_eq!(checkout_marker(VDIR), "/tmp/dsh-launch-test/apps/cli/package.json");
    assert_eq!(version_bin(VDIR, true), "/tmp/dsh-launch-test/apps/cli/lib/bin.js");
}

#[test]
fn web_app_no_open_detects_flag_in_source_checkout() {
    assert_eq!(
        web_app_startup_path(VDIR, true),
        "/tmp/dsh-launch-test/packages/bundle/web-app/lib/startup.js"
    );
    assert!(web_app_supports_no_open("const p = new Command().option('--no-open', 'x')"));
}

#[test]
fn instance_command_orders_flags_before_script_and_profile() {
    let bin = npm_bin();
    let cmd = instance_command(NODE, &bin, true, "web", Some(3099), false, false).unwrap();
    assert_eq!(cmd.program, NODE);
    let argv = &cmd.args;
    assert!(argv[0].ends_with("bin.js"));
    assert_eq!(argv[1], "--profile");
    assert_eq!(argv[2], "web");
    assert_eq!(argv[3], "--port");
    assert_eq!(argv[4], "3099");
    assert!(!argv.iter().any(|a| a == "--host"));

    let plain = instance_command(NODE, &bin, true, "bot", None, false, false).unwrap();
    assert!(!plain.args.iter().any(|a| a.starts_with("--port")));
    assert!(!plain.args.iter().any(|a| a == "--no-open"));
}

#[test]
fn preserve_symlinks_setting_controls_the_node_flag() {
    let bin = npm_bin();
    let argv_of = |preserve_symlinks: bool| -> Vec<String> {
        instance_command(NODE, &bin, true, "web", Some(3099), false, preserve_symlinks)
            .unwrap()
            .args
    };
    let on = argv_of(true);
    assert_eq!(on[0], "--preserve-symlinks");
    assert!(on[1].ends_with("bin.js"));
    let off = argv_of(false);
    assert_eq!(off, on[1..].to_vec());
    assert!(!off.iter().any(|a| a == "--preserve-symlinks"));
}

#[test]
fn template_boot_passes_host_and_pinned_port() {
    let cmd = template_boot_command(NODE, &npm_bin(), true, "/tmp/home", 20001, false).unwrap();
    let argv = &cmd.args;
    let host = argv.iter().position(|a| a == "--host").unwrap();
    assert_eq!(argv[host + 1], "127.0.0.1");
    let port = argv.iter().position(|a| a == "--port").unwrap();
    assert_eq!(argv[port + 1], "20001");
    assert!(argv[0].ends_with("bin.js"));
    assert_eq!(argv[1], "--profile");
    assert_eq!(argv[2], "web");
    assert_eq!(cmd.env, vec![("DSH_HOME".to_string(), "/tmp/home".to_string())]);
    assert!(cmd.piped);
}

#[test]
fn an_incomplete_install_is_refused() {
    let bin = npm_bin();
    assert!(instance_command(NODE, &bin, false, "web", None, false, false).is_err());
    assert!(template_boot_command(NODE, &bin, false, "/h", 1, false).is_err());
}

#[test]
fn web_instance_adds_no_open_when_supported() {
    let cmd = instance_command(NODE, "b.js", true, "web", Some(0), true, false).unwrap();
    assert_eq!(cmd.args, vec!["b.js", "--profile", "web", "--port", "0", "--no-open"]);
}

#[test]
fn plugin_command_puts_pinned_pnpm_first_on_path() {
    let args = vec!["add".to_string(), "x".to_string()];
    let cmd = plugin_command(NODE, "b.js", true, "/h", "web", &args, "/d/tools/pnpm", "/usr/bin", false)
        .unwrap();
    assert_eq!(cmd.args, vec!["b.js", "plugin", "--profile", "web", "add", "x"]);
    assert_eq!(
        cmd.env,
        vec![
            ("DSH_HOME".to_string(), "/h".to_string()),
            ("CI".to_string(), "true".to_string()),
            ("PATH".to_string(), "/d/tools:/usr/bin".to_string()),
        ]
    );
}

fn cfg_with_instance(env: Vec<(&str, &str)>) -> Config {
    let mut cfg = Config::default();
    cfg.homes.push(DshHome { id: "h".to_string(), name: "h".to_string(), path: "/homes/h".to_string() });
    cfg.instances.push(DshInstance {
        id: "i".to_string(),
        name: "Main".to_string(),
        version_id: "v".to_string(),
        home_id: "h".to_string(),
        env_overrides: env.into_iter().map(|(k, v)| (k.to_string(), v.to_string())).collect(),
        default_profile: None,
        last_profile: None,
        icon: None,
        port: None,
    });
    cfg
}

#[test]
fn instance_env_reserves_dsh_home() {
    let cfg = cfg_with_instance(vec![("DSH_HOME", "/evil"), ("FOO", "1")]);
    let env = instance_env(&cfg, "i").unwrap();
    assert_eq!(
        env,
        vec![
            ("DSH_HOME".to_string(), "/homes/h".to_string()),
            ("DSH_LAUNCHER_INSTANCE".to_string(), "Main".to_string()),
            ("FOO".to_string(), "1".to_string()),
        ]
    );
    assert_eq!(instance_env(&cfg, "nope").unwrap_err(), "实例不存在");
    let mut broken = cfg_with_instance(vec![]);
    broken.homes.clear();
    assert_eq!(instance_env(&broken, "i").unwrap_err(), "DSH_HOME 不存在");
}

#[test]
fn terminal_env_drops_reserved_overrides() {
    let ov = vec![("PATH".to_string(), "/x".to_string()), ("A".to_string(), "b".to_string())];
    let env = terminal_env_pairs("/h", "Main", &ov);
    assert_eq!(env.len(), 3);
    assert_eq!(env[2], ("A".to_string(), "b".to_string()));
    assert!(proxy_applies_to_dsh(true, true));
    assert!(!proxy_applies_to_dsh(true, false));
}

#[test]
fn terminal_wrapper_is_written_only_when_ours_and_stale() {
    assert_eq!(terminal_bin_dir("/v"), "/v/node_modules/.bin");
    assert_eq!(wrapper_script("/v/b.js", false, false), None);
    let w = wrapper_script("/v/b.js", true, true).unwrap();
    assert_eq!(w, "#!/bin/sh\nexec node --preserve-symlinks \"/v/b.js\" \"$@\"\n");
    assert!(wrapper_needs_write(&None, false, &w));
    assert!(!wrapper_needs_write(&Some(w.clone()), true, &w));
    assert!(wrapper_needs_write(&Some("#!/bin/sh\nexec node  \"/old\"".to_string()), true, &w));
    assert!(!wrapper_needs_write(&Some("#!/usr/bin/env node\n".to_string()), true, &w));
    assert_eq!(terminal_path_dirs(Some("/v/node_modules/.bin".to_string())), vec!["/v/node_modules/.bin"]);
    assert!(terminal_path_dirs(None).is_empty());
    assert!(node_runtime_flags(false).is_empty());
}
