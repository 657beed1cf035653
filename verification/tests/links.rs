use dsh_launcher::links::{deep_link_from_args, is_launch_link};

fn strings(xs: &[&str]) -> Vec<String> {
    xs.iter().map(|s| s.to_string()).collect()
}

#[test]
fn the_first_deep_link_argument_is_taken() {
    let args = strings(&["/Applications/DSH Launcher", "--flag", "dsh-launcher://pack?url=a", "dsh-launcher://launch/x"]);
    assert_eq!(deep_link_from_args(&args).as_deref(), Some("dsh-launcher://pack?url=a"));
    assert_eq!(deep_link_from_args(&strings(&["app", "https://x"])), None);
    assert_eq!(deep_link_from_args(&vec![]), None);
}

#[test]
fn launch_links_are_recognised() {
    assert!(is_launch_link(&Some("dsh-launcher://launch?id=i-1".to_string())));
    assert!(!is_launch_link(&Some("dsh-launcher://pack?url=a".to_string())));
    assert!(!is_launch_link(&None));
}
