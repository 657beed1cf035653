use dsh_launcher::json::Json;
use dsh_launcher::plugins::{
    command_failure_text, declares_link_dependency, ensure_build_scripts_allowed,
    ensure_profile_npmrc, github_api_url, is_web_profile, linked_store_dir,
    list_installed_plugins, logs_mention_ignored_builds, needs_relink, plugin_retry,
    set_plugins_enabled, store_paths_match, summarize_output, uninstall_cleanup, PluginRetry,
};
use dsh_launcher::profile::cordis_id_of;

fn s(x: &str) -> Json {
    Json::Str(x.to_string())
}

fn obj(members: Vec<(&str, Json)>) -> Json {
    Json::Object(members.into_iter().map(|(k, v)| (k.to_string(), v)).collect())
}

#[test]
fn plugins_cordis_id_of_strips_scope_and_org() {
    assert_eq!(cordis_id_of("@dsh-plugin/dsh-auxiliary"), "dsh-auxiliary");
    assert_eq!(cordis_id_of("@dsh-external/dsh-sidechain"), "dsh-sidechain");
    assert_eq!(cordis_id_of("dsh-better-sidebar"), "dsh-better-sidebar");
    assert_eq!(cordis_id_of("@canglongcl/dsh-web-review"), "dsh-web-review");
}

#[test]
fn store_paths_match_handles_versioned_subdir_and_slashes() {
    let base = "/Users/x/Library/Application Support/in.dsh-plug.dsh-launcher/.pnpm-store";
    assert!(store_paths_match(&format!("{base}/v11"), base));
    assert!(store_paths_match(
        "/Users/x/Library/Application Support/in.dsh-plug.dsh-launcher/.pnpm-store/v11/",
        base
    ));
    assert!(!store_paths_match("/Users/x/Library/pnpm/store/v11", base));
}

#[test]
fn linked_store_dir_reads_modules_yaml() {
    let raw = "hoist: true\nstoreDir: C:\\Users\\x\\AppData\\Local\\pnpm\\store\\v11\nvirtualStoreDir: ...\n";
    assert_eq!(
        linked_store_dir(raw, None).as_deref(),
        Some("C:\\Users\\x\\AppData\\Local\\pnpm\\store\\v11")
    );
    // Missing file: nothing to relink.
    assert_eq!(linked_store_dir("", None), None);
}

#[test]
fn linked_store_dir_reads_json_modules_yaml() {
    let raw = "{\n  \"hoistPattern\": [\"*\"],\n  \"packageManager\": \"pnpm@11.21.0\",\n  \"storeDir\": \"/Users/x/Library/pnpm/store/v11\",\n  \"virtualStoreDir\": \".pnpm\",\n  \"layoutVersion\": 5\n}\n";
    let doc = obj(vec![
        ("hoistPattern", Json::Array(vec![s("*")])),
        ("packageManager", s("pnpm@11.21.0")),
        ("storeDir", s("/Users/x/Library/pnpm/store/v11")),
        ("virtualStoreDir", s(".pnpm")),
        ("layoutVersion", Json::Number("5".to_string())),
    ]);
    assert_eq!(
        linked_store_dir(raw, Some(&doc)).as_deref(),
        Some("/Users/x/Library/pnpm/store/v11")
    );
}

#[test]
fn summarize_output_keeps_last_three_meaningful_lines() {
    let out = "ERR_PNPM_UNEXPECTED_STORE: some long diagnostic\nmiddle line\n\nlast line\n";
    assert_eq!(
        summarize_output(out),
        "ERR_PNPM_UNEXPECTED_STORE: some long diagnostic | middle line | last line"
    );
    assert_eq!(summarize_output("\n  \n"), "");
}

#[test]
fn summarize_output_drops_older_lines() {
    assert_eq!(summarize_output("a\nb\nc\nd\n"), "b | c | d");
}

#[test]
fn ensure_build_scripts_allowed_converts_placeholders_and_adds_sections() {
    // Fresh profile: no workspace file yet -> packages + both sections.
    let fresh = ensure_build_scripts_allowed("").unwrap();
    assert!(fresh.contains("packages:"), "fresh: {fresh}");
    assert!(fresh.contains("onlyBuiltDependencies"), "fresh: {fresh}");
    assert!(fresh.contains("allowBuilds:"), "fresh: {fresh}");

    let fixed = ensure_build_scripts_allowed(
        "packages:\n  - .\nallowBuilds:\n  node-pty: set this to true or false\n",
    )
    .unwrap();
    assert!(fixed.contains("node-pty: true"), "fixed: {fixed}");
    assert!(!fixed.contains("set this to true or false"), "fixed: {fixed}");
    assert!(fixed.contains("onlyBuiltDependencies"), "fixed: {fixed}");

    // Idempotent: a second run has nothing to change.
    assert_eq!(ensure_build_scripts_allowed(&fixed), None, "must be idempotent");
}

#[test]
fn ensure_profile_npmrc_pins_auto_install_peers_false() {
    let fresh = ensure_profile_npmrc("").unwrap();
    assert!(fresh.contains("auto-install-peers=false"), "fresh: {fresh}");
    // Idempotent.
    assert_eq!(ensure_profile_npmrc(&fresh), None);

    let fixed =
        ensure_profile_npmrc("registry=https://example.com/\nauto-install-peers=true\n").unwrap();
    assert!(fixed.contains("auto-install-peers=false"), "fixed: {fixed}");
    assert!(!fixed.contains("auto-install-peers=true"), "fixed: {fixed}");
    assert!(fixed.contains("registry=https://example.com/"), "other keys must survive: {fixed}");

    let commented = ensure_profile_npmrc("# auto-install-peers=true\n").unwrap();
    assert!(commented.contains("\nauto-install-peers=false"), "commented: {commented}");
}

#[test]
fn declares_link_dependency_reads_the_manifest() {
    // No manifest (or an unparsable one) declares nothing.
    assert!(!declares_link_dependency(None));
    let plain = obj(vec![("dependencies", obj(vec![("@dsh-plugin/plain", s("^0.3.1"))]))]);
    assert!(!declares_link_dependency(Some(&plain)));
    let private = obj(vec![("private", Json::Bool(true))]);
    assert!(!declares_link_dependency(Some(&private)));
    let linked = obj(vec![(
        "dependencies",
        obj(vec![("@dsh-plugin/plain", s("^0.3.1")), ("my-plugin", s("link:../my-plugin"))]),
    )]);
    assert!(declares_link_dependency(Some(&linked)));
}

fn manifest(bundles: Vec<&str>) -> Json {
    obj(vec![
        ("name", s("dsh-profile-test")),
        ("private", Json::Bool(true)),
        ("dependencies", obj(vec![])),
        (
            "dsh",
            obj(vec![("profile", obj(vec![("bundles", Json::Array(bundles.into_iter().map(s).collect()))]))]),
        ),
    ])
}

#[test]
fn is_web_profile_detects_web_app_bundle() {
    assert!(!is_web_profile(None));
    let web = manifest(vec!["@deepseek-ai/dsh-base", "@deepseek-ai/dsh-web-app"]);
    assert!(is_web_profile(Some(&web)));
    let bot = manifest(vec!["@deepseek-ai/dsh-base"]);
    assert!(!is_web_profile(Some(&bot)));
}

#[test]
fn installed_plugins_are_sorted_and_marked() {
    let doc = obj(vec![
        (
            "dependencies",
            obj(vec![
                ("@deepseek-ai/dsh", s("1.0.0")),
                ("@dsh-plugin/zeta", s("^1.0.0")),
                ("@dsh-plugin/alpha", s("^2.0.0")),
            ]),
        ),
        (
            "dsh",
            obj(vec![(
                "profile",
                obj(vec![("bundles", Json::Array(vec![s("@deepseek-ai/dsh-base"), s("extra-bundle"), s("@dsh-plugin/alpha")]))]),
            )]),
        ),
    ]);
    let patch = "- id: zeta\n  disabled: true\n";
    let ps = list_installed_plugins(&doc, patch);
    let ids: Vec<&str> = ps.iter().map(|p| p.id.as_str()).collect();
    assert_eq!(ids, vec!["@dsh-plugin/alpha", "@dsh-plugin/zeta", "extra-bundle"]);
    assert_eq!(ps[0].version.as_deref(), Some("^2.0.0"));
    assert!(ps[0].enabled);
    assert!(!ps[1].enabled);
    assert_eq!(ps[1].cordis_id.as_deref(), Some("zeta"));
    assert_eq!(ps[2].version, None);
}

#[test]
fn set_plugins_enabled_disables_each_cordis_id() {
    let ids = vec!["@dsh-plugin/a".to_string(), "b".to_string()];
    let out = set_plugins_enabled("[]\n", &ids, false);
    assert!(out.contains("- id: a\n  disabled: true"), "out: {out}");
    assert!(out.contains("- id: b\n  disabled: true"), "out: {out}");
    let back = set_plugins_enabled(&out, &ids, true);
    assert!(!back.contains("disabled"), "back: {back}");
}

#[test]
fn uninstall_cleanup_reports_no_change() {
    assert_eq!(uninstall_cleanup("- id: other\n  disabled: true\n", "@dsh-plugin/a"), None);
    let out = uninstall_cleanup("- id: a\n  disabled: true\n", "@dsh-plugin/a").unwrap();
    assert!(!out.contains("- id: a"), "out: {out}");
}

#[test]
fn plugin_retry_follows_the_first_failure_only() {
    assert!(matches!(plugin_retry(1, "add", "ERR_PNPM_IGNORED_BUILDS x"), PluginRetry::AllowBuilds));
    assert!(matches!(plugin_retry(1, "add", "ERR_PNPM_UNEXPECTED_STORE"), PluginRetry::Relink));
    match plugin_retry(2, "add", "ERR_PNPM_IGNORED_BUILDS x\n") {
        PluginRetry::Fail(e) => assert_eq!(e, "dsh plugin add 失败: ERR_PNPM_IGNORED_BUILDS x"),
        _ => panic!("a second failure must give up"),
    }
}

#[test]
fn relink_only_for_a_foreign_store() {
    assert!(!needs_relink(&None, "/s"));
    assert!(!needs_relink(&Some("/s/v11".to_string()), "/s"));
    assert!(needs_relink(&Some("/other/v11".to_string()), "/s"));
}

#[test]
fn ignored_builds_are_found_in_logs() {
    assert!(logs_mention_ignored_builds(&vec!["ok".to_string(), "Ignored build scripts: x".to_string()]));
    assert!(!logs_mention_ignored_builds(&vec!["ok".to_string()]));
}

#[test]
fn command_failure_text_falls_back_to_the_status() {
    assert_eq!(command_failure_text("", " ", "1"), "退出码 1");
    assert_eq!(command_failure_text("out", "err", "1"), "out\nerr");
}

#[test]
fn github_api_url_adds_the_client_id() {
    assert_eq!(
        github_api_url("/repos/x/y/releases"),
        "https://api.github.com/repos/x/y/releases?client_id=Ov23li6vtlVd83282YL6"
    );
    assert_eq!(
        github_api_url("/repos/x/y/tags?per_page=5"),
        "https://api.github.com/repos/x/y/tags?per_page=5&client_id=Ov23li6vtlVd83282YL6"
    );
}

#[test]
fn a_batch_disable_keeps_every_earlier_plugin_disabled() {
    let raw = "- id: dsh-sidechain\n  config:\n    x: 1\n- id: dsh-auxiliary\n  disabled: false\n";
    let ids = vec![
        "@dsh-plugin/dsh-auxiliary".to_string(),
        "@dsh-external/dsh-sidechain".to_string(),
        "dsh-better-sidebar".to_string(),
    ];
    let out = set_plugins_enabled(raw, &ids, false);
    let disabled = dsh_launcher::profile::parse_disabled_ids(&out);
    for id in ["dsh-auxiliary", "dsh-sidechain", "dsh-better-sidebar"] {
        assert!(disabled.iter().any(|d| d == id), "{id} missing in {out}");
    }
}

#[test]
fn a_batch_enable_clears_every_plugin_of_the_batch() {
    let raw = "- id: dsh-auxiliary\n  disabled: true\n\n- id: keep\n  disabled: true\n\nid: dsh-sidechain\ndisabled: true\n";
    let ids = vec![
        "@dsh-plugin/dsh-auxiliary".to_string(),
        "@dsh-external/dsh-sidechain".to_string(),
    ];
    let out = set_plugins_enabled(raw, &ids, true);
    let disabled = dsh_launcher::profile::parse_disabled_ids(&out);
    assert_eq!(disabled, vec!["keep".to_string()], "out: {out}");
}
