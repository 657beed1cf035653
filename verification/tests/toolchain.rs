use dsh_launcher::toolchain::{
    is_required_pnpm, local_pnpm_path, pnpm_fetch_flags, pnpm_missing_error, pnpm_major,
    registry_mirror, store_dir, tools_dir, REQUIRED_PNPM_MAJOR,
};

#[test]
fn pnpm_major_parses_version_output() {
    assert_eq!(pnpm_major("11.17.0\n"), Some(11));
    assert_eq!(pnpm_major("  10.4.1  "), Some(10));
    assert_eq!(pnpm_major("12.0.0-beta.1"), Some(12));
    assert_eq!(pnpm_major(""), None);
    assert_eq!(pnpm_major("not-a-version"), None);
}

#[test]
fn required_pnpm_major_is_the_profile_toolchain() {
    assert_eq!(REQUIRED_PNPM_MAJOR, 11);
}

#[test]
fn fetch_flags_pair_up() {
    assert!(pnpm_fetch_flags().len() % 2 == 0);
}

#[test]
fn fetch_flags_are_name_value_pairs() {
    let f = pnpm_fetch_flags();
    for pair in f.chunks(2) {
        assert!(pair[0].starts_with("--"));
        assert!(!pair[1].starts_with("--"));
    }
    assert!(!f.iter().any(|x| x == "--network-concurrency" || x == "--fetch-retries"));
}

#[test]
fn bootstrap_spec_pins_the_major() {
    assert_eq!(pnpm_missing_error(), "未找到可用的 pnpm（需要 11 或更高版本），请在终端运行：npm install -g pnpm@11");
    assert!(is_required_pnpm(Some(11)));
    assert!(is_required_pnpm(Some(12)));
    assert!(!is_required_pnpm(Some(10)));
    assert!(!is_required_pnpm(None));
}

#[test]
fn launcher_owned_dirs() {
    assert_eq!(store_dir("/d"), "/d/.pnpm-store");
    assert_eq!(tools_dir("/d"), "/d/tools");
    assert_eq!(local_pnpm_path("/d/tools"), "/d/tools/pnpm");
}

#[test]
fn registry_mirror_ignores_blank_values() {
    assert_eq!(registry_mirror(None), None);
    assert_eq!(registry_mirror(Some("  ".to_string())), None);
    assert_eq!(registry_mirror(Some(" https://r.example/ ".to_string())).as_deref(), Some("https://r.example/"));
}
