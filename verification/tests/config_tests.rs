use udp_forwarder::config::{config_from_sections, config_sections, load_config, render_config, IniSection, LineEnding};

fn pair(a: &str, b: &str) -> (String, String) {
    (a.to_string(), b.to_string())
}

#[test]
fn loads_readme_example() {
    let text = "[general]\nlisten_port = 5300\n\n[forward.1]\nip = 127.0.0.1\nport = 5301\n\n[forward.2]\nip = 192.168.1.100\nport = 5300\n";
    let c = load_config(text).expect("config");
    assert_eq!(c.listen_port, 5300);
    assert_eq!(c.targets, vec![pair("127.0.0.1:5301", ""), pair("192.168.1.100:5300", "")]);
    assert!(!c.launch_on_startup);
    assert!(!c.minimize_to_tray);
}

#[test]
fn loads_flags_and_notes() {
    let text = "[general]\nlisten_port=5300\nlaunch_on_startup=true\nminimize_to_tray=false\n[forward.1]\nip=10.0.0.2\nport=05301\nnote=RaceIQ\n";
    let c = load_config(text).expect("config");
    assert!(c.launch_on_startup);
    assert!(!c.minimize_to_tray);
    // the port is written back in canonical decimal
    assert_eq!(c.targets, vec![pair("10.0.0.2:5301", "RaceIQ")]);
}

#[test]
fn flag_must_be_exactly_true() {
    let c = load_config("[general]\nlisten_port=1\nlaunch_on_startup=yes\n").expect("config");
    assert!(!c.launch_on_startup);
    assert!(c.targets.is_empty());
}

#[test]
fn missing_general_fails() {
    assert!(load_config("[forward.1]\nip=1.2.3.4\nport=1\n").is_none());
}

#[test]
fn bad_listen_port_fails() {
    assert!(load_config("[general]\nlisten_port=70000\n").is_none());
    assert!(load_config("[general]\nlisten_port=abc\n").is_none());
    assert!(load_config("[general]\n").is_none());
}

#[test]
fn bad_target_fails_whole_load() {
    assert!(load_config("[general]\nlisten_port=1\n[forward.1]\nport=5\n").is_none());
    assert!(load_config("[general]\nlisten_port=1\n[forward.1]\nip=a\nport=x\n").is_none());
}

#[test]
fn any_forward_prefix_counts() {
    let c = load_config("[general]\nlisten_port=1\n[forwarder]\nip=h\nport=2\n[other]\nip=x\nport=3\n").expect("config");
    assert_eq!(c.targets, vec![pair("h:2", "")]);
}

#[test]
fn parse_error_fails() {
    assert!(load_config("[general]\nlisten_port=1\n=nokey\n").is_none());
}

#[test]
fn sections_for_settings() {
    let secs = config_sections("5300", &[pair("127.0.0.1:5301", "RaceIQ"), pair("nohost", "")], true, false);
    assert_eq!(secs.len(), 3);
    assert_eq!(secs[0].name.as_deref(), Some("general"));
    assert_eq!(secs[0].properties, vec![pair("listen_port", "5300"), pair("launch_on_startup", "true"), pair("minimize_to_tray", "false")]);
    assert_eq!(secs[1].name.as_deref(), Some("forward.1"));
    assert_eq!(secs[1].properties, vec![pair("ip", "127.0.0.1"), pair("port", "5301"), pair("note", "RaceIQ")]);
    assert_eq!(secs[2].name.as_deref(), Some("forward.2"));
    assert_eq!(secs[2].properties, vec![pair("ip", "nohost"), pair("port", "0")]);
}

#[test]
fn sections_load_back() {
    let targets = vec![pair("127.0.0.1:5301", "RaceIQ"), pair("example.com:80", "")];
    let secs = config_sections("5300", &targets, false, true);
    let c = config_from_sections(&secs).expect("config");
    assert_eq!(c.listen_port, 5300);
    assert_eq!(c.targets, targets);
    assert!(!c.launch_on_startup);
    assert!(c.minimize_to_tray);
}

#[test]
fn rendered_text() {
    let text = render_config("5300", &[pair("127.0.0.1:5301", "RaceIQ")], false, true, LineEnding::Lf);
    assert_eq!(
        text,
        "[general]\nlisten_port=5300\nlaunch_on_startup=false\nminimize_to_tray=true\n\n[forward.1]\nip=127.0.0.1\nport=5301\nnote=RaceIQ\n"
    );
    let crlf = render_config("1", &[], false, false, LineEnding::CrLf);
    assert_eq!(crlf, "[general]\r\nlisten_port=1\r\nlaunch_on_startup=false\r\nminimize_to_tray=false\r\n");
}

#[test]
fn rendered_text_loads_back() {
    let targets = vec![pair("10.0.0.1:5301", "a note"), pair("host.example:9", "")];
    let text = render_config("4843", &targets, true, false, LineEnding::Lf);
    let c = load_config(&text).expect("config");
    assert_eq!(c.listen_port, 4843);
    assert_eq!(c.targets, targets);
    assert!(c.launch_on_startup);
    assert!(!c.minimize_to_tray);
}

#[test]
fn first_section_of_a_name_wins() {
    let secs = vec![
        IniSection { name: Some("general".to_string()), properties: vec![pair("listen_port", "7")] },
        IniSection { name: Some("forward.1".to_string()), properties: vec![pair("ip", "a"), pair("port", "1")] },
        IniSection { name: Some("forward.1".to_string()), properties: vec![pair("ip", "b"), pair("port", "2")] },
    ];
    let c = config_from_sections(&secs).expect("config");
    assert_eq!(c.targets, vec![pair("a:1", ""), pair("a:1", "")]);
}
