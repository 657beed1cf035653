use dsh_launcher::config::{
    cleanup_orphan_homes, dedupe_homes, ensure_user_dsh_home,
    migrate_instances_to_dedicated_homes, new_id, paths_equal, sanitize_name, BoundTool, Config,
    DshHome, DshInstance, DshVersion, LauncherSettings, ToolchainBinding,
};
use dsh_launcher::paths::normalize_dir_path;

const HOME: &str = "/Users/me";

fn home(id: &str, path: &str) -> DshHome {
    DshHome { id: id.to_string(), name: id.to_string(), path: path.to_string() }
}

fn instance(id: &str, version_id: &str, home_id: &str) -> DshInstance {
    DshInstance {
        id: id.to_string(),
        name: id.to_string(),
        version_id: version_id.to_string(),
        home_id: home_id.to_string(),
        env_overrides: vec![],
        default_profile: None,
        last_profile: None,
        icon: None,
        port: None,
    }
}

fn version(id: &str, v: &str) -> DshVersion {
    DshVersion { id: id.to_string(), version: v.to_string(), dir: format!("/d/versions/{v}") }
}

#[test]
fn normalize_expands_tilde() {
    let h = Some(HOME.to_string());
    assert_eq!(normalize_dir_path("~/.dsh", h.clone()).unwrap(), "/Users/me/.dsh");
    assert_eq!(normalize_dir_path("~", h.clone()).unwrap(), HOME);
    assert_eq!(normalize_dir_path("  ~/.dsh  ", h).unwrap(), "/Users/me/.dsh");
}

#[test]
fn normalize_drops_trailing_separator_and_dot_segments() {
    assert_eq!(normalize_dir_path("/tmp/dsh-home/", None).unwrap(), "/tmp/dsh-home");
    assert_eq!(normalize_dir_path("/tmp/./dsh-home", None).unwrap(), "/tmp/dsh-home");
    assert_eq!(normalize_dir_path("/tmp/other/../dsh-home", None).unwrap(), "/tmp/dsh-home");
}

#[test]
fn normalize_rejects_relative_and_tilde_user_paths() {
    let h = Some(HOME.to_string());
    assert!(normalize_dir_path("relative/dsh", h.clone()).is_err());
    assert!(normalize_dir_path("~/../x", h.clone()).is_ok(), ".. inside an absolute path is fine");
    assert!(normalize_dir_path("~someone/.dsh", h.clone()).is_err());
    assert!(normalize_dir_path("", h.clone()).is_err());
    assert!(normalize_dir_path("   ", h).is_err());
}

#[test]
fn normalize_tilde_and_explicit_home_are_the_same_path() {
    let explicit = format!("{HOME}/.dsh");
    let via_tilde = normalize_dir_path("~/.dsh", Some(HOME.to_string())).unwrap();
    assert!(paths_equal(&explicit, &via_tilde));
}

#[test]
fn normalize_without_home_refuses_tilde() {
    assert!(normalize_dir_path("~/.dsh", None).is_err());
    assert!(normalize_dir_path("/a/b/../../..", None).is_err());
    assert_eq!(normalize_dir_path("/a/b/../..", None).unwrap(), "/");
}

#[test]
fn normalize_is_idempotent_on_examples() {
    for raw in ["/tmp/x/", "/a/./b/../c", "~/y/", "/"] {
        let once = normalize_dir_path(raw, Some(HOME.to_string())).unwrap();
        let twice = normalize_dir_path(&once, Some(HOME.to_string())).unwrap();
        assert_eq!(once, twice);
    }
}

#[test]
fn bound_tool_is_stale_when_its_path_disappears() {
    let binding = ToolchainBinding {
        node: Some(BoundTool { path: "/tmp/bound/node".to_string(), version: "v22.0.0".to_string() }),
        pnpm: None,
    };
    assert!(binding.node_is_fresh(true));
    assert!(!binding.pnpm_is_fresh(true), "an absent binding is never fresh");
    assert!(!binding.node_is_fresh(false), "a vanished path must be stale");
}

#[test]
fn toolchain_binding_defaults_are_absent() {
    let binding = ToolchainBinding::default();
    assert!(binding.node.is_none());
    assert!(binding.pnpm.is_none());
    assert!(!binding.node_is_fresh(true));
}

#[test]
fn default_settings_have_documented_values() {
    let s = LauncherSettings::default();
    assert_eq!(s.locale, "zh-CN");
    assert!(s.minimize_to_tray);
    assert!(!s.autostart);
    assert_eq!(s.theme, "system");
    assert_eq!(s.log_level, "info");
    assert_eq!(s.terminal, "system");
    assert!(s.toolchain.node.is_none());
}

#[test]
fn sanitize_name_replaces_unsafe_characters() {
    assert_eq!(sanitize_name("0.2.0-rc.1"), "0.2.0-rc.1");
    assert_eq!(sanitize_name("a/b:c"), "a_b_c");
    assert_eq!(sanitize_name("  "), "instance");
    assert_eq!(sanitize_name(" x "), "x");
}

#[test]
fn new_id_has_prefix_and_uuid() {
    let a = new_id("h");
    let b = new_id("h");
    assert!(a.starts_with("h-"));
    assert_eq!(a.len(), 38);
    assert_ne!(a, b);
    let u: Vec<char> = a[2..].chars().collect();
    for (i, c) in u.iter().enumerate() {
        if [8, 13, 18, 23].contains(&i) {
            assert_eq!(*c, '-');
        } else {
            assert!(c.is_ascii_hexdigit() && !c.is_ascii_uppercase());
        }
    }
    assert_eq!(u[14], '4');
}

#[test]
fn paths_equal_folds_case() {
    assert!(paths_equal("/Users/Me/.dsh", "/users/me/.DSH"));
    assert!(!paths_equal("/a", "/b"));
}

#[test]
fn orphan_homes_are_removed_only_when_missing_and_unreferenced() {
    let mut cfg = Config::default();
    cfg.homes = vec![home("a", "/a"), home("b", "/b"), home("c", "/c")];
    cfg.instances = vec![instance("i", "v", "b")];
    // a is missing and unreferenced, b is missing but referenced, c exists.
    cleanup_orphan_homes(&mut cfg, &vec![false, false, true]);
    let ids: Vec<&str> = cfg.homes.iter().map(|h| h.id.as_str()).collect();
    assert_eq!(ids, vec!["b", "c"]);
}

#[test]
fn duplicate_homes_merge_into_the_first() {
    let mut cfg = Config::default();
    cfg.homes = vec![home("a", "/x/Home"), home("b", "/other"), home("c", "/x/home")];
    cfg.instances = vec![instance("i", "v", "c")];
    dedupe_homes(&mut cfg);
    let ids: Vec<&str> = cfg.homes.iter().map(|h| h.id.as_str()).collect();
    assert_eq!(ids, vec!["a", "b"]);
    assert_eq!(cfg.instances[0].home_id, "a");
}

#[test]
fn user_dsh_home_is_added_once() {
    let mut cfg = Config::default();
    ensure_user_dsh_home(&mut cfg, Some("/Users/me/.dsh".to_string()));
    ensure_user_dsh_home(&mut cfg, Some("/Users/me/.dsh".to_string()));
    assert_eq!(cfg.homes.len(), 1);
    assert_eq!(cfg.homes[0].id, "home-user-dsh");
    ensure_user_dsh_home(&mut cfg, None);
    assert_eq!(cfg.homes.len(), 1);
}

#[test]
fn migration_gives_every_version_one_instance_and_home() {
    let mut cfg = Config::default();
    cfg.versions = vec![version("v1", "1.0.0"), version("v2", "2.0.0")];
    cfg.instances = vec![instance("i1", "v1", "missing"), instance("gone", "v9", "x")];
    let changed = migrate_instances_to_dedicated_homes("/d", &mut cfg);
    assert!(changed);
    assert_eq!(cfg.instances.len(), 2);
    assert_eq!(cfg.instances[0].id, "i1");
    assert_eq!(cfg.instances[0].name, "1.0.0");
    assert_eq!(cfg.instances[1].version_id, "v2");
    assert_eq!(cfg.instances[1].default_profile.as_deref(), Some("web"));
    assert!(cfg.instances[1].id.starts_with("i-"));
    let paths: Vec<&str> = cfg.homes.iter().map(|h| h.path.as_str()).collect();
    assert_eq!(paths, vec!["/d/homes/1.0.0", "/d/homes/2.0.0"]);
    assert_eq!(cfg.instances[0].home_id, cfg.homes[0].id);
    // A second run has nothing left to do.
    assert!(!migrate_instances_to_dedicated_homes("/d", &mut cfg));
}

#[test]
fn deduping_twice_changes_nothing_more() {
    let mut cfg = Config::default();
    cfg.homes = vec![home("a", "/x/Home"), home("b", "/x/home/"), home("c", "/y")];
    cfg.instances = vec![instance("i", "v", "b"), instance("j", "v", "c")];
    dedupe_homes(&mut cfg);
    let homes_once: Vec<String> = cfg.homes.iter().map(|h| h.id.clone()).collect();
    let refs_once: Vec<String> = cfg.instances.iter().map(|i| i.home_id.clone()).collect();
    dedupe_homes(&mut cfg);
    let homes_twice: Vec<String> = cfg.homes.iter().map(|h| h.id.clone()).collect();
    let refs_twice: Vec<String> = cfg.instances.iter().map(|i| i.home_id.clone()).collect();
    assert_eq!(homes_once, homes_twice);
    assert_eq!(refs_once, refs_twice);
}

#[test]
fn sanitized_names_hold_no_separator_or_control_character() {
    assert_eq!(sanitize_name("a\u{85}b\u{7}c/d\\e"), "a_b_c_d_e");
    assert_eq!(sanitize_name("\u{9f}"), "_");
    assert_eq!(sanitize_name("  \t "), "_");
    assert_eq!(sanitize_name("   "), "instance");
    assert_eq!(sanitize_name("版本 1.0"), "版本 1.0");
}

#[test]
fn migration_keeps_one_instance_per_version() {
    let mut cfg = Config::default();
    cfg.versions = vec![version("v1", "1.0.0")];
    cfg.homes = vec![home("h", "/d/homes/1.0.0")];
    cfg.instances = vec![instance("a", "v1", "h"), instance("b", "v1", "h")];
    assert!(migrate_instances_to_dedicated_homes("/d", &mut cfg));
    assert_eq!(cfg.instances.len(), 1);
    assert_eq!(cfg.instances[0].id, "a");
    assert_eq!(cfg.instances[0].name, "1.0.0");
    assert!(!migrate_instances_to_dedicated_homes("/d", &mut cfg));
}

#[test]
fn migration_settles_with_a_repeated_version_record() {
    let mut cfg = Config::default();
    cfg.versions = vec![version("v1", "1.0.0"), version("v1", "1.0.0")];
    assert!(migrate_instances_to_dedicated_homes("/d", &mut cfg));
    assert_eq!(cfg.instances.len(), 1);
    assert_eq!(cfg.homes.len(), 1);
    assert!(!migrate_instances_to_dedicated_homes("/d", &mut cfg));
    assert_eq!(cfg.instances.len(), 1);
}
