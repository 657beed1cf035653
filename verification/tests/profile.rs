use dsh_launcher::profile::{
    cordis_id_of, parse_disabled_ids, profile_dir, scrub_port_pin, set_disabled_row,
    set_lan_bind_port, strip_cordis_rows, validate_profile_name, LAN_BIND_BLOCK_BEGIN,
    LAN_BIND_BLOCK_END,
};

#[test]
fn profile_cordis_id_of_strips_scope_and_org() {
    assert_eq!(cordis_id_of("@dsh-plugin/dsh-auxiliary"), "dsh-auxiliary");
    assert_eq!(cordis_id_of("@dsh-external/dsh-sidechain"), "dsh-sidechain");
    assert_eq!(cordis_id_of("dsh-better-sidebar"), "dsh-better-sidebar");
    assert_eq!(cordis_id_of("@canglongcl/dsh-web-review"), "dsh-web-review");
}

#[test]
fn set_disabled_row_adds_and_removes() {
    let raw = "# comment\n- id: other-plugin\n  config:\n    a: 1\n";
    let out = set_disabled_row(raw, "dsh-auxiliary", false);
    assert!(out.contains("- id: dsh-auxiliary"), "out: {out}");
    assert!(out.contains("  disabled: true"), "out: {out}");
    assert!(out.contains("other-plugin"), "out: {out}");
    assert!(out.contains("config"), "out: {out}");
    assert!(out.contains("a: 1"), "out: {out}");

    let back = set_disabled_row(&out, "dsh-auxiliary", true);
    assert!(!back.contains("dsh-auxiliary"), "back: {back}");
    assert!(back.contains("other-plugin"), "back: {back}");
    assert!(back.contains("config"), "back: {back}");
}

#[test]
fn set_disabled_row_replaces_existing() {
    let raw = "- id: dsh-auxiliary\n  disabled: true\n";
    let out = set_disabled_row(raw, "dsh-auxiliary", true);
    assert!(!out.contains("dsh-auxiliary"), "out: {out}");
    let out2 = set_disabled_row(&out, "dsh-auxiliary", false);
    assert!(out2.contains("- id: dsh-auxiliary"), "out2: {out2}");
    assert!(out2.contains("  disabled: true"), "out2: {out2}");
}

#[test]
fn parse_disabled_ids_handles_blocks() {
    let raw = "# header\n- id: ui-dsh-aionui-panel\n  disabled: true\n\n- id: live-stats\n  disabled: true\n\n- id: keep\n  config:\n    x: 1\n";
    let set = parse_disabled_ids(raw);
    assert!(set.iter().any(|s| s == "ui-dsh-aionui-panel"));
    assert!(set.iter().any(|s| s == "live-stats"));
    assert!(!set.iter().any(|s| s == "keep"));
}

#[test]
fn strip_cordis_rows_removes_insert_and_disabled_blocks() {
    let raw = "# header\n- insert:\n    - id: dsh-auxiliary\n      name: '@dsh-plugin/dsh-auxiliary'\n\n- id: dsh-thought-buddy\n  disabled: true\n\n- id: keep\n  config:\n    x: 1\n";
    let out = strip_cordis_rows(raw, "dsh-auxiliary", "@dsh-plugin/dsh-auxiliary");
    assert!(!out.contains("dsh-auxiliary"), "insert row removed: {out}");
    assert!(out.contains("dsh-thought-buddy"), "other block kept: {out}");
    assert!(out.contains("keep"), "config block kept: {out}");
    assert!(out.contains("x: 1"), "config content kept: {out}");
}

#[test]
fn strip_cordis_rows_restores_placeholder_when_empty() {
    let raw = "# header\n- id: dsh-auxiliary\n  disabled: true\n";
    let out = strip_cordis_rows(raw, "dsh-auxiliary", "@dsh-plugin/dsh-auxiliary");
    assert!(out.contains("[]"), "placeholder restored: {out}");
    assert!(!out.contains("dsh-auxiliary"), "entry removed: {out}");
}

#[test]
fn scrub_port_pin_rewrites_webserver_block_only() {
    let raw = "- id: webserver\n  port: 8080\n- id: other\n  port: 9090\n";
    let out = scrub_port_pin(raw);
    assert!(out.contains("port: 0"), "out: {out}");
    assert!(out.contains("port: 9090"), "unrelated port kept: {out}");
}

#[test]
fn scrub_port_pin_noop_without_block() {
    let raw = "- id: other\n  port: 9090\n";
    assert_eq!(scrub_port_pin(raw), raw);
}

#[test]
fn set_lan_bind_port_rewrites_managed_block_only() {
    let raw = format!(
        "- id: webserver\n  port: 1\n{LAN_BIND_BLOCK_BEGIN}\nport: 8080\nhost: 0.0.0.0\n{LAN_BIND_BLOCK_END}\n"
    );
    let out = set_lan_bind_port(&raw, 1234);
    assert!(out.contains("port: 1234"), "out: {out}");
    assert!(out.contains("host: 0.0.0.0"), "sibling row kept: {out}");
    assert!(out.contains("port: 1"), "block outside managed area kept: {out}");
}

#[test]
fn set_lan_bind_port_noop_without_markers() {
    let raw = "- id: webserver\n  port: 8080\n";
    assert_eq!(set_lan_bind_port(raw, 1234), raw);
}

#[test]
fn profile_dir_rejects_traversal_names() {
    assert!(profile_dir("/h", "../evil").is_err());
    assert!(profile_dir("/h", "..").is_err());
    assert!(profile_dir("/h", "a/b").is_err());
    assert!(profile_dir("/h", "a\\b").is_err());
    assert!(profile_dir("/h", "").is_err());
    assert_eq!(profile_dir("/h", "web").unwrap(), "/h/profiles/web");
}

#[test]
fn disabling_then_reading_reports_the_id() {
    let raw = "- id: keep\n  config:\n    x: 1\n";
    let out = set_disabled_row(raw, "dsh-sidechain", false);
    let ids = parse_disabled_ids(&out);
    assert!(ids.iter().any(|s| s == "dsh-sidechain"), "out: {out}");
    assert!(!ids.iter().any(|s| s == "keep"));
}

#[test]
fn set_disabled_row_does_not_duplicate_rows() {
    let raw = "- id: a\n  disabled: true\n";
    let out = set_disabled_row(raw, "a", false);
    assert_eq!(out.matches("- id: a").count(), 1, "out: {out}");
}

#[test]
fn enabling_the_last_row_restores_the_placeholder() {
    let out = set_disabled_row("- id: a\n  disabled: true\n", "a", true);
    assert!(out.contains("[]"), "out: {out}");
}

#[test]
fn scrub_port_pin_keeps_a_zero_pin() {
    let raw = "- id: webserver\n  port: 0\n";
    assert_eq!(scrub_port_pin(raw), raw);
}

#[test]
fn profile_names_are_validated() {
    assert!(validate_profile_name("web").is_ok());
    assert!(validate_profile_name("my-bot_2").is_ok());
    assert!(validate_profile_name("").is_err());
    assert!(validate_profile_name("a b").is_err());
    assert!(validate_profile_name("../x").is_err());
}

const MANAGED_BLOCK: &str = "# --- remote-web-ui lan-bind block (managed - do not edit) ---\n\
- id: webserver\n  \
name: '@deepseek-ai/dsh-host-webserver'\n  \
config:\n    host: '0.0.0.0'\n    port: 3080\n    compression: gzip\n\
# --- end remote-web-ui lan-bind block ---\n";

#[test]
fn assert_lan_bind_port_rewrites_only_the_managed_port() {
    let text = set_lan_bind_port(MANAGED_BLOCK, 3099);
    assert!(text.contains("port: 3099"), "{text}");
    assert!(!text.contains("port: 3080"), "{text}");
    assert!(text.contains("host: '0.0.0.0'"), "{text}");
    assert!(text.contains("compression: gzip"), "{text}");
}

#[test]
fn assert_lan_bind_port_leaves_unmanaged_profiles_alone() {
    let raw = "[]\n\n- id: webserver\n  config:\n    port: 3080\n";
    assert_eq!(set_lan_bind_port(raw, 3099), raw);
}

#[test]
fn assert_lan_bind_port_refuses_path_traversal_profile() {
    assert!(profile_dir("/home", "../web").is_err());
    assert!(profile_dir("/home", "..").is_err());
    assert!(profile_dir("/home", "/tmp/evil").is_err());
}

#[test]
fn uninstall_strips_the_disabled_row() {
    let raw = "- id: a\n  disabled: true\n- id: b\n  disabled: true\n";
    let out = strip_cordis_rows(raw, "a", "@dsh-plugin/a");
    let ids = parse_disabled_ids(&out);
    assert!(!ids.iter().any(|s| s == "a"), "out: {out}");
    assert!(ids.iter().any(|s| s == "b"), "out: {out}");
}

#[test]
fn disabling_twice_is_disabling_once() {
    let raw = "# comment\n- id: other-plugin\n  config:\n    a: 1\n";
    let once = set_disabled_row(raw, "dsh-auxiliary", false);
    let twice = set_disabled_row(&once, "dsh-auxiliary", false);
    assert_eq!(once, twice);
    assert_eq!(
        once,
        "# comment\n- id: other-plugin\n  config:\n    a: 1\n\n- id: dsh-auxiliary\n  disabled: true\n"
    );
}

#[test]
fn enabling_after_disabling_restores_the_document() {
    let raw = "# comment\n- id: other-plugin\n  config:\n    a: 1\n";
    let disabled = set_disabled_row(raw, "dsh-auxiliary", false);
    let back = set_disabled_row(&disabled, "dsh-auxiliary", true);
    assert_eq!(back, raw);
    assert_eq!(back, set_disabled_row(raw, "dsh-auxiliary", true));
}

#[test]
fn enabling_twice_is_enabling_once() {
    let raw = "- id: dsh-auxiliary\n  disabled: true\n";
    let once = set_disabled_row(raw, "dsh-auxiliary", true);
    assert_eq!(once, "\n[]\n");
    assert_eq!(set_disabled_row(&once, "dsh-auxiliary", true), once);
}

#[test]
fn setting_the_lan_bind_port_twice_is_setting_it_once() {
    let raw = format!("{LAN_BIND_BLOCK_BEGIN}\r\n\tport: 8080\r\n{LAN_BIND_BLOCK_END}\r\n");
    let once = set_lan_bind_port(&raw, 1234);
    assert_eq!(once, format!("{LAN_BIND_BLOCK_BEGIN}\n port: 1234\n{LAN_BIND_BLOCK_END}\n"));
    assert_eq!(set_lan_bind_port(&once, 1234), once);
}

#[test]
fn scrubbing_the_port_pin_twice_is_scrubbing_it_once() {
    let raw = "- id: webserver\n    port: 8080\n- id: other\n  port: 9090";
    let once = scrub_port_pin(raw);
    assert_eq!(once, "- id: webserver\n    port: 0\n- id: other\n  port: 9090\n");
    assert_eq!(scrub_port_pin(&once), once);
}

#[test]
fn enabling_keeps_a_block_with_other_content_whole() {
    let raw = "- id: x\n  config:\n    a: 1\n";
    assert_eq!(set_disabled_row(raw, "x", true), raw);
    let raw = "- id: x\n  config:\n    a: 1\n  disabled: true\n";
    assert_eq!(set_disabled_row(raw, "x", true), "- id: x\n  config:\n    a: 1\n");
}

#[test]
fn toggling_one_plugin_leaves_the_others_alone() {
    let raw = "- id: y\n  config: 1\n- id: x\n  config: 2\n  disabled: true\n";
    let out = set_disabled_row(raw, "x", true);
    assert_eq!(out, "- id: y\n  config: 1\n- id: x\n  config: 2\n");
    assert!(parse_disabled_ids(&out).is_empty());
    let raw = "- id: y\n  disabled: true\n\n- id: x\n  disabled: true\n\n- id: z\n  config: 3\n";
    let out = set_disabled_row(raw, "x", true);
    assert_eq!(parse_disabled_ids(&out), vec!["y".to_string()]);
    let out = set_disabled_row(&out, "z", false);
    let mut ids = parse_disabled_ids(&out);
    ids.sort();
    assert_eq!(ids, vec!["y".to_string(), "z".to_string()]);
}

#[test]
fn toggling_a_document_that_already_has_rows_of_the_plugin() {
    let raw = "- id: x\n  config:\n    a: 1\n  disabled: true\n\n- id: y\n  disabled: true\n- id: x\n\n  disabled: false\n";
    let disabled = set_disabled_row(raw, "x", false);
    assert_eq!(set_disabled_row(&disabled, "x", false), disabled);
    let enabled = set_disabled_row(raw, "x", true);
    assert_eq!(set_disabled_row(&disabled, "x", true), enabled);
    assert_eq!(set_disabled_row(&enabled, "x", true), enabled);
    assert_eq!(enabled, "- id: x\n  config:\n    a: 1\n\n- id: y\n  disabled: true\n");
}
