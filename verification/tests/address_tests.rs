use udp_forwarder::address::{address_host, is_ipv4_address, is_valid_hostname, target_address_problem, validate_target_address, AddressProblem};

#[test]
fn hostnames() {
    assert!(is_valid_hostname("localhost"));
    assert!(is_valid_hostname("example.com"));
    assert!(is_valid_hostname("my-host.local"));
    assert!(is_valid_hostname("a1.b2.c3"));
    assert!(!is_valid_hostname(""));
    assert!(!is_valid_hostname("-bad.com"));
    assert!(!is_valid_hostname("bad-.com"));
    assert!(!is_valid_hostname("a..b"));
    assert!(!is_valid_hostname("trailing."));
    assert!(!is_valid_hostname(".leading"));
    assert!(!is_valid_hostname("under_score"));
    assert!(!is_valid_hostname("héllo"));
}

#[test]
fn hostname_lengths() {
    let label63 = "a".repeat(63);
    let label64 = "a".repeat(64);
    assert!(is_valid_hostname(&label63));
    assert!(!is_valid_hostname(&label64));
    // 4 labels of 63 with 3 dots: 255 characters, too long
    let long = vec![label63.clone(); 4].join(".");
    assert_eq!(long.len(), 255);
    assert!(!is_valid_hostname(&long));
    // 253 characters exactly
    let ok = format!("{}.{}.{}.{}", label63, label63, label63, "a".repeat(61));
    assert_eq!(ok.len(), 253);
    assert!(is_valid_hostname(&ok));
}

#[test]
fn ipv4_addresses() {
    assert!(is_ipv4_address("127.0.0.1"));
    assert!(is_ipv4_address("0.0.0.0"));
    assert!(is_ipv4_address("255.255.255.255"));
    assert!(!is_ipv4_address("256.0.0.1"));
    assert!(!is_ipv4_address("1.2.3"));
    assert!(!is_ipv4_address("1.2.3.4.5"));
    assert!(!is_ipv4_address("01.2.3.4"));
    assert!(!is_ipv4_address("1..3.4"));
    assert!(!is_ipv4_address("+1.2.3.4"));
    assert!(!is_ipv4_address("1.2.3.1000"));
    assert!(!is_ipv4_address(""));
}

#[test]
fn host_part() {
    assert_eq!(address_host("127.0.0.1:5300"), "127.0.0.1");
    assert_eq!(address_host("::1:80"), "::1");
    assert_eq!(address_host("nocolon"), "nocolon");
}

#[test]
fn empty_address_is_fine() {
    assert_eq!(validate_target_address("", false), "");
}

#[test]
fn valid_addresses() {
    assert_eq!(validate_target_address("127.0.0.1:5301", false), "");
    assert_eq!(validate_target_address("example.com:80", false), "");
    assert_eq!(validate_target_address("localhost:0", false), "");
    assert_eq!(validate_target_address("host:+80", false), "");
    assert_eq!(validate_target_address("::1:5300", true), "");
}

#[test]
fn each_problem() {
    assert_eq!(validate_target_address("http://host:80", false), "Remove http:// or https:// — enter host:port only");
    assert_eq!(validate_target_address("https://host:80", false), "Remove http:// or https:// — enter host:port only");
    assert_eq!(validate_target_address("127.0.0.1", false), "Missing port — use host:port format (e.g. 127.0.0.1:5301)");
    assert_eq!(validate_target_address(":5300", false), "Missing host address");
    assert_eq!(validate_target_address("127.0.0.1:", false), "Missing port number");
    assert_eq!(validate_target_address("127.0.0.1:65536", false), "Invalid port number (must be 1-65535)");
    assert_eq!(validate_target_address("127.0.0.1:abc", false), "Invalid port number (must be 1-65535)");
    assert_eq!(validate_target_address("bad_host:80", false), "Invalid IP address or hostname");
    assert_eq!(validate_target_address("::1:5300", false), "Invalid IP address or hostname");
}

#[test]
fn problems_as_values() {
    assert_eq!(target_address_problem("", false), None);
    assert_eq!(target_address_problem("x", false), Some(AddressProblem::MissingPort));
    assert_eq!(target_address_problem("a:b:c", false), Some(AddressProblem::InvalidPort));
    assert_eq!(target_address_problem("[::1]:80", true), None);
    assert_eq!(target_address_problem("[::1]:80", false), Some(AddressProblem::InvalidHost));
}

#[test]
fn hostname_and_port_always_accepted() {
    for host in ["a", "example.org", "10.1.2.3", "x-y.z"] {
        for port in [0u16, 1, 80, 5300, 65535] {
            let addr = format!("{}:{}", host, port);
            assert_eq!(validate_target_address(&addr, false), "", "{}", addr);
        }
    }
}
