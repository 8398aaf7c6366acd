use file_agent::config::{parse_config, render_config, Config};

#[test]
fn defaults_when_empty() {
    let c = parse_config("");
    assert_eq!(c.token, "default-token-12345");
    assert_eq!(c.port, 8767);
}

#[test]
fn parses_settings_file() {
    let c = parse_config("[Settings]\nport=9001\ntoken=my-secret\n");
    assert_eq!(c.port, 9001);
    assert_eq!(c.token, "my-secret");
}

#[test]
fn lines_are_trimmed_and_later_lines_win() {
    let c = parse_config("  port=1\t\r\ntoken=a\nport=2\ntoken=b\n");
    assert_eq!(c.port, 2);
    assert_eq!(c.token, "b");
}

#[test]
fn bad_port_keeps_previous_value() {
    let c = parse_config("port=9001\nport=not-a-number\nport=70000\nport=\n");
    assert_eq!(c.port, 9001);
    // A port line that fails to parse does not fall through to tokens.
    assert_eq!(c.token, "default-token-12345");
}

#[test]
fn unknown_lines_are_ignored() {
    let c = parse_config("[Settings]\n# comment\nportly=5\ntoken=x\n");
    assert_eq!(c.port, 8767);
    assert_eq!(c.token, "x");
}

#[test]
fn renders_settings_file() {
    let c = Config { token: "abc".to_string(), port: 8767 };
    assert_eq!(render_config(&c), "[Settings]\nport=8767\ntoken=abc\n");
    let d = Config { token: String::new(), port: 7 };
    assert_eq!(render_config(&d), "[Settings]\nport=7\ntoken=\n");
}

#[test]
fn render_then_parse_round_trips() {
    let c = Config { token: "round-trip-token".to_string(), port: 65535 };
    let parsed = parse_config(&render_config(&c));
    assert_eq!(parsed.port, 65535);
    assert_eq!(parsed.token, "round-trip-token");
}
