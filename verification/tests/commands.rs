use dsh_launcher::commands::{
    add_home, apply_settings_patch, autostart_change, clear_profile_refs, default_dedicated_home_path,
    delete_profile_check, drop_version_records, external_url, github_release_version,
    is_user_default_home, list_profiles, merge_remote_versions, normalize_port,
    npm_remote_versions, parse_log_level, plan_home_record, remove_home, rename_profile_refs,
    resolve_instance_paths, set_instance_port, set_last_profile, shell_quote, template_source,
    terminal_label, terminal_script, terminal_script_path, update_instance, version_removal,
    HomePlan, TemplateSource,
};
use dsh_launcher::config::{Config, DshHome, DshInstance, DshVersion, LauncherSettings, RemoteVersion, SettingsPatch};
use dsh_launcher::json::Json;

fn instance(id: &str, name: &str, version_id: &str, home_id: &str) -> DshInstance {
    DshInstance {
        id: id.to_string(),
        name: name.to_string(),
        version_id: version_id.to_string(),
        home_id: home_id.to_string(),
        env_overrides: vec![],
        default_profile: Some("web".to_string()),
        last_profile: Some("web".to_string()),
        icon: None,
        port: None,
    }
}

fn sample() -> Config {
    let mut cfg = Config::default();
    cfg.homes = vec![
        DshHome { id: "h1".to_string(), name: "one".to_string(), path: "/d/homes/1.0.0".to_string() },
        DshHome { id: "h2".to_string(), name: "two".to_string(), path: "/d/homes/2.0.0".to_string() },
    ];
    cfg.versions = vec![
        DshVersion { id: "v1".to_string(), version: "1.0.0".to_string(), dir: "/d/versions/1.0.0".to_string() },
        DshVersion { id: "v2".to_string(), version: "2.0.0".to_string(), dir: "/d/versions/2.0.0".to_string() },
    ];
    cfg.instances = vec![instance("i1", "1.0.0", "v1", "h1"), instance("i2", "2.0.0", "v2", "h2")];
    cfg
}

fn empty_patch() -> SettingsPatch {
    SettingsPatch {
        locale: None,
        minimize_to_tray: None,
        autostart: None,
        last_instance_id: None,
        theme: None,
        log_level: None,
        proxy_enabled: None,
        proxy_url: None,
        proxy_port: None,
        no_proxy: None,
        proxy_apply_dsh: None,
        terminal: None,
        preserve_symlinks: None,
    }
}

#[test]
fn home_requests_reuse_the_same_path() {
    let cfg = sample();
    let home = Some("/Users/me".to_string());
    match plan_home_record(&cfg, " x ", "/d/homes/1.0.0/", home.clone()).unwrap() {
        HomePlan::Existing(h) => assert_eq!(h.id, "h1"),
        _ => panic!("the existing record must be reused"),
    }
    match plan_home_record(&cfg, " x ", "~/.dsh", home.clone()).unwrap() {
        HomePlan::Create { name, path } => {
            assert_eq!(name, "x");
            assert_eq!(path, "/Users/me/.dsh");
        },
        _ => panic!("a new path needs a record"),
    }
    assert_eq!(plan_home_record(&cfg, "  ", "/x", home.clone()).unwrap_err(), "名称不能为空");
    assert!(plan_home_record(&cfg, "x", "relative", home).is_err());
}

#[test]
fn homes_are_added_and_removed() {
    let mut cfg = sample();
    let h = add_home(&mut cfg, "n".to_string(), "/p".to_string());
    assert!(h.id.starts_with("h-"));
    assert_eq!(cfg.homes.len(), 3);
    assert_eq!(remove_home(&mut cfg, "h1").unwrap_err(), "该 DSH_HOME 仍被实例引用，无法删除");
    assert!(remove_home(&mut cfg, &h.id).is_ok());
    assert_eq!(cfg.homes.len(), 2);
    assert_eq!(default_dedicated_home_path("/d", "a/b"), "/d/homes/a_b");
}

#[test]
fn removing_a_version_drops_its_instances() {
    let mut cfg = sample();
    cfg.settings.last_instance_id = Some("i1".to_string());
    let (v, ids) = version_removal(&cfg, "v1").unwrap();
    assert_eq!(v.version, "1.0.0");
    assert_eq!(ids, vec!["i1".to_string()]);
    assert_eq!(version_removal(&cfg, "nope").unwrap_err(), "版本不存在");
    drop_version_records(&mut cfg, "v1");
    assert_eq!(cfg.versions.len(), 1);
    assert_eq!(cfg.instances.len(), 1);
    assert_eq!(cfg.settings.last_instance_id, None);
}

#[test]
fn instances_are_edited_with_checks() {
    let mut cfg = sample();
    let mut edit = instance("i1", "  renamed ", "v1", "h1");
    edit.port = Some(1);
    let out = update_instance(&mut cfg, edit).unwrap();
    assert_eq!(out.name, "renamed");
    assert_eq!(cfg.instances[0].name, "renamed");
    assert_eq!(cfg.instances[0].port, None, "the port has its own command");
    assert!(update_instance(&mut cfg, instance("i1", "2.0.0", "v1", "h1")).is_err());
    assert!(update_instance(&mut cfg, instance("i1", "x", "v9", "h1")).is_err());
    assert!(update_instance(&mut cfg, instance("zz", "y", "v1", "h1")).is_err());
}

#[test]
fn ports_are_normalized() {
    assert_eq!(normalize_port(Some(3099)), Some(3099));
    assert_eq!(normalize_port(Some(0)), None);
    assert_eq!(normalize_port(Some(-1)), None);
    assert_eq!(normalize_port(Some(70000)), None);
    assert_eq!(normalize_port(None), None);
    let mut cfg = sample();
    assert_eq!(set_instance_port(&mut cfg, "i2", Some(8080)).unwrap().port, Some(8080));
    assert_eq!(cfg.instances[1].port, Some(8080));
    assert_eq!(set_instance_port(&mut cfg, "zz", Some(1)).unwrap_err(), "实例不存在");
    set_last_profile(&mut cfg, "i2", "bot".to_string());
    assert_eq!(cfg.instances[1].last_profile.as_deref(), Some("bot"));
}

#[test]
fn instance_paths_resolve() {
    let cfg = sample();
    let (h, d, v) = resolve_instance_paths(&cfg, "i2").unwrap();
    assert_eq!((h.as_str(), d.as_str(), v.as_str()), ("/d/homes/2.0.0", "/d/versions/2.0.0", "2.0.0"));
    assert!(resolve_instance_paths(&cfg, "zz").is_err());
}

#[test]
fn profile_references_follow_renames_and_deletes() {
    let mut cfg = sample();
    rename_profile_refs(&mut cfg, "h1", "web", "site");
    assert_eq!(cfg.instances[0].default_profile.as_deref(), Some("site"));
    assert_eq!(cfg.instances[1].default_profile.as_deref(), Some("web"));
    clear_profile_refs(&mut cfg, "h2", "web");
    assert_eq!(cfg.instances[1].last_profile, None);
    assert!(delete_profile_check("__temp__").is_err());
    assert!(delete_profile_check("node_modules").is_err());
    assert!(delete_profile_check("bot").is_ok());
}

#[test]
fn profiles_are_listed_sorted_without_reserved_names() {
    let entries = vec![
        ("web".to_string(), true),
        ("__temp__".to_string(), true),
        ("bot".to_string(), true),
        ("notes.txt".to_string(), false),
        ("node_modules".to_string(), true),
    ];
    assert_eq!(list_profiles(&entries), vec!["bot".to_string(), "web".to_string()]);
}

#[test]
fn template_comes_from_the_right_place() {
    assert!(matches!(template_source(true, true, true), TemplateSource::DedicatedHomes));
    assert!(matches!(template_source(false, true, true), TemplateSource::OwnTemplate));
    assert!(matches!(template_source(false, false, true), TemplateSource::FromWebProfile));
    assert!(matches!(template_source(false, false, false), TemplateSource::DedicatedHomes));
    assert!(is_user_default_home("home-user-dsh", "/x", None));
    assert!(is_user_default_home("h", "/Users/me/.dsh/", Some("/Users/me".to_string())));
    assert!(!is_user_default_home("h", "/Users/me/other", Some("/Users/me".to_string())));
}

#[test]
fn log_levels_are_parsed() {
    assert_eq!(parse_log_level(" DEBUG ").as_deref(), Some("debug"));
    assert_eq!(parse_log_level("warn").as_deref(), Some("warn"));
    assert_eq!(parse_log_level("verbose"), None);
}

#[test]
fn settings_patch_applies_in_order() {
    let mut s = LauncherSettings::default();
    let mut p = empty_patch();
    p.locale = Some("en".to_string());
    p.theme = Some("dark".to_string());
    p.log_level = Some("Error".to_string());
    p.proxy_url = Some(" http://10.0.0.1/ ".to_string());
    p.no_proxy = Some(" localhost ".to_string());
    p.terminal = Some("ghostty".to_string());
    assert_eq!(autostart_change(&s, &p), None);
    apply_settings_patch(&mut s, p, Ok(())).unwrap();
    assert_eq!(s.locale, "en");
    assert_eq!(s.theme, "dark");
    assert_eq!(s.log_level, "error");
    assert_eq!(s.proxy_url, "http://10.0.0.1");
    assert_eq!(s.no_proxy, "localhost");
    assert_eq!(s.terminal, "ghostty");
}

#[test]
fn settings_patch_refusals() {
    let mut s = LauncherSettings::default();
    let mut p = empty_patch();
    p.theme = Some("blue".to_string());
    assert_eq!(apply_settings_patch(&mut s, p, Ok(())).unwrap_err(), "无效的主题: blue");
    assert_eq!(s.theme, "system");

    let mut p = empty_patch();
    p.theme = Some("light".to_string());
    p.terminal = Some("xterm".to_string());
    assert_eq!(apply_settings_patch(&mut s, p, Ok(())).unwrap_err(), "无效的终端: xterm");
    assert_eq!(s.theme, "light", "fields before the refused one stay applied");

    let mut p = empty_patch();
    p.locale = Some("en".to_string());
    p.autostart = Some(true);
    assert_eq!(autostart_change(&s, &p), Some(true));
    assert_eq!(
        apply_settings_patch(&mut s, p, Err("denied".to_string())).unwrap_err(),
        "设置开机自启失败: denied"
    );
    assert!(!s.autostart);
    assert_eq!(s.locale, "en");
}

#[test]
fn external_urls_must_be_http() {
    assert_eq!(external_url(" https://x.dev ").unwrap(), "https://x.dev");
    assert!(external_url("file:///etc/passwd").is_err());
}

#[test]
fn terminal_scripts_quote_values() {
    assert_eq!(shell_quote("it's"), "'it'\\''s'");
    let env = vec![("DSH_HOME".to_string(), "/h 1".to_string())];
    let script = terminal_script(&vec!["/v/.bin".to_string()], &env, "/h 1", "/bin/zsh");
    assert_eq!(
        script,
        "#!/bin/sh\nexport PATH=\"/v/.bin:$PATH\"\nexport DSH_HOME='/h 1'\ncd '/h 1'\nclear\nexec /bin/zsh -l\n"
    );
    assert_eq!(terminal_label("Main", "/h"), "DSH Main (/h)");
    assert_eq!(terminal_script_path("/d", "i1"), "/d/scripts/term_i1.sh");
}

#[test]
fn remote_versions_merge() {
    assert_eq!(github_release_version(false, Some("dsh-v0.2.0".to_string())).as_deref(), Some("0.2.0"));
    assert_eq!(github_release_version(true, Some("dsh-v0.2.0".to_string())), None);
    assert_eq!(github_release_version(false, Some("v0.2.0".to_string())), None);
    assert_eq!(github_release_version(false, Some("dsh-v../x".to_string())), None);
    let rv = |v: &str, src: Option<&str>| RemoteVersion {
        version: v.to_string(),
        released_at: None,
        source: src.map(|s| s.to_string()),
    };
    let merged = merge_remote_versions(vec![rv("1.0.0", None)], vec![rv("1.0.0", Some("github")), rv("0.9.0", Some("github"))]);
    let vs: Vec<&str> = merged.iter().map(|r| r.version.as_str()).collect();
    assert_eq!(vs, vec!["1.0.0", "0.9.0"]);
    let times = Json::Object(vec![("1.0.0".to_string(), Json::Str("2024-01-01".to_string()))]);
    let out = npm_remote_versions(&vec!["1.0.0".to_string(), "1.1.0".to_string()], &times);
    assert_eq!(out[0].released_at.as_deref(), Some("2024-01-01"));
    assert_eq!(out[1].released_at, None);
}

fn dark_autostart_patch() -> SettingsPatch {
    let mut p = empty_patch();
    p.autostart = Some(true);
    p.theme = Some("dark".to_string());
    p.log_level = Some(" WARN ".to_string());
    p.proxy_url = Some("http://proxy:8080//".to_string());
    p
}

#[test]
fn resubmitting_a_settings_patch_changes_nothing() {
    let mut s = LauncherSettings::default();
    apply_settings_patch(&mut s, dark_autostart_patch(), Ok(())).unwrap();
    assert!(s.autostart);
    assert_eq!(s.log_level, "warn");
    assert_eq!(s.proxy_url, "http://proxy:8080");
    let once = (s.autostart, s.theme.clone(), s.log_level.clone(), s.proxy_url.clone());
    // No registration is attempted the second time, so its failure is moot.
    assert_eq!(autostart_change(&s, &dark_autostart_patch()), None);
    apply_settings_patch(&mut s, dark_autostart_patch(), Err("unused".to_string())).unwrap();
    assert_eq!((s.autostart, s.theme.clone(), s.log_level.clone(), s.proxy_url.clone()), once);
}

#[test]
fn npm_version_lists_parse_or_are_refused() {
    assert_eq!(
        dsh_launcher::commands::parse_version_list("[\"0.1.0\", \"0.2.0-alpha.1\"]").unwrap(),
        vec!["0.1.0".to_string(), "0.2.0-alpha.1".to_string()]
    );
    assert!(dsh_launcher::commands::parse_version_list("{}").unwrap_err().starts_with("解析版本列表失败: "));
}

#[test]
fn terminal_applescript_escapes_the_script_path() {
    let s = dsh_launcher::commands::terminal_applescript("/d/scripts/a \"b\"\\c.sh");
    assert!(s.starts_with("tell application \"Terminal\"\nset wasRunning to running\n"));
    assert!(s.contains("do script \"exec \\\"/d/scripts/a \\\"b\\\"\\\\c.sh\\\"\" in tab 1 of front window\n"));
    assert!(s.ends_with("do script \"exec \\\"/d/scripts/a \\\"b\\\"\\\\c.sh\\\"\"\nactivate\nend tell"));
}
