use udp_forwarder::cli::{config_path_arg, run_mode, RunMode};

fn args(a: &[&str]) -> Vec<String> {
    a.iter().map(|s| s.to_string()).collect()
}

#[test]
fn modes() {
    assert_eq!(run_mode(&args(&["udp-forwarder"])), RunMode::Gui);
    assert_eq!(run_mode(&args(&["udp-forwarder", "--version"])), RunMode::Version);
    assert_eq!(run_mode(&args(&["udp-forwarder", "-v", "cfg.ini"])), RunMode::Version);
    assert_eq!(run_mode(&args(&["udp-forwarder", "--headless"])), RunMode::Headless);
    assert_eq!(run_mode(&args(&["udp-forwarder", "my-config.ini"])), RunMode::Headless);
    assert_eq!(run_mode(&args(&["udp-forwarder", "--other"])), RunMode::Gui);
    assert_eq!(run_mode(&args(&[])), RunMode::Gui);
}

#[test]
fn config_argument() {
    assert_eq!(config_path_arg(&args(&["p"])), None);
    assert_eq!(config_path_arg(&args(&["p", "--headless"])), None);
    assert_eq!(config_path_arg(&args(&["p", "--headless", "a.ini", "b.ini"])), Some("a.ini".to_string()));
    assert_eq!(config_path_arg(&args(&["p", ""])), Some(String::new()));
}
