use offkilter::cli::{parse_port, server_options, ArgError};

fn args(a: &[&str]) -> Vec<String> {
    a.iter().map(|s| s.to_string()).collect()
}

#[test]
fn the_command_line_sets_data_static_port_and_cookies() {
    let o = server_options(&args(&[])).unwrap();
    assert_eq!(o.data, "data");
    assert_eq!(o.static_dir, None);
    assert_eq!(o.port, 8080);
    assert!(!o.secure_cookies && !o.help);
    let o = server_options(&args(&["--data", "/srv", "--static", "web", "--port", "9000", "--secure-cookies"])).unwrap();
    assert_eq!(o.data, "/srv");
    assert_eq!(o.static_dir, Some("web".to_string()));
    assert_eq!(o.port, 9000);
    assert!(o.secure_cookies);
    let o = server_options(&args(&["--help", "--bogus"])).unwrap();
    assert!(o.help);
}

#[test]
fn bad_command_lines_say_what_is_wrong() {
    assert_eq!(
        server_options(&args(&["--data"])).err(),
        Some(ArgError::Missing("--data needs a path".to_string()))
    );
    assert_eq!(server_options(&args(&["--port", "70000"])).err(), Some(ArgError::BadPort));
    assert_eq!(
        server_options(&args(&["--verbose"])).err(),
        Some(ArgError::Unknown("--verbose".to_string()))
    );
    assert_eq!(parse_port("+80"), Some(80));
    assert_eq!(parse_port("65535"), Some(65535));
    assert_eq!(parse_port("65536"), None);
    assert_eq!(parse_port(""), None);
    assert_eq!(parse_port("+"), None);
    assert_eq!(parse_port("-1"), None);
    assert_eq!(parse_port("8o"), None);
}
