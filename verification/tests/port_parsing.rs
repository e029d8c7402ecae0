use procscope::model::{CommandCapture, PortInfo, ProcError};
use procscope::ports::{collect_ports, count_open_file_handles, parse_endpoint, parse_lsof_line};
use procscope::text::{parse_i32, parse_u16};

fn capture(success: bool, code: Option<i32>, stdout: &str) -> CommandCapture {
    CommandCapture { success, code, stdout: stdout.to_string() }
}

#[test]
fn parses_tcp_listen_line() {
    let line = "chrome 123 u IPv4 0x0 0t0 TCP *:8080 (LISTEN)";
    let p = parse_lsof_line(line).expect("line should parse");
    assert_eq!(p.protocol, "TCP");
    assert_eq!(p.local_address, "*");
    assert_eq!(p.port, 8080);
    assert_eq!(p.state.as_deref(), Some("LISTEN"));
    assert_eq!(p.pid, Some(123));
    assert_eq!(p.process_name.as_deref(), Some("chrome"));
}

#[test]
fn header_line_yields_nothing() {
    let line = "COMMAND PID USER FD TYPE DEVICE SIZE/OFF NODE NAME";
    assert!(parse_lsof_line(line).is_none());
}

#[test]
fn short_line_yields_nothing() {
    let line = "chrome 123 u IPv4 0x0 0t0 TCP *:8080";
    assert!(parse_lsof_line(line).is_none());
}

#[test]
fn empty_line_yields_nothing() {
    assert!(parse_lsof_line("").is_none());
    assert!(parse_lsof_line("   ").is_none());
}

#[test]
fn udp_line_has_no_state() {
    let line = "mdns 44 u IPv4 0x0 0t0 UDP *:5353->1.2.3.4:9 -";
    let p = parse_lsof_line(line).expect("line should parse");
    assert_eq!(p.protocol, "UDP");
    assert_eq!(p.local_address, "*");
    assert_eq!(p.port, 5353);
    assert!(p.state.is_none());
}

#[test]
fn lowercase_protocol_is_uppercased() {
    let line = "srv 9 u IPv4 0x0 0t0 tcp 127.0.0.1:80 (LISTEN)";
    let p = parse_lsof_line(line).expect("line should parse");
    assert_eq!(p.protocol, "TCP");
    assert_eq!(p.local_address, "127.0.0.1");
}

#[test]
fn endpoint_with_peer_uses_local_side() {
    let r = parse_endpoint("10.0.0.1:5432->10.0.0.9:61234").expect("should parse");
    assert_eq!(r.0, "10.0.0.1");
    assert_eq!(r.1, 5432);
}

#[test]
fn endpoint_bracketed_ipv6_is_stripped() {
    let r = parse_endpoint("[::1]:8443").expect("should parse");
    assert_eq!(r.0, "::1");
    assert_eq!(r.1, 8443);
}

#[test]
fn endpoint_empty_address_is_wildcard() {
    let r = parse_endpoint(":9000").expect("should parse");
    assert_eq!(r.0, "*");
    assert_eq!(r.1, 9000);
}

#[test]
fn endpoint_without_colon_is_rejected() {
    assert!(parse_endpoint("nothing here").is_none());
    assert!(parse_endpoint("*:70000").is_none());
    assert!(parse_endpoint("*:no").is_none());
}

#[test]
fn collect_ports_dedupes_identical_lines() {
    let text = "chrome 123 u IPv4 0x0 0t0 TCP *:8080 (LISTEN)\n\
                chrome 123 u IPv4 0x0 0t0 TCP *:8080 (LISTEN)\n";
    let ports = collect_ports(Ok(capture(true, Some(0), text))).expect("should succeed");
    assert_eq!(ports.len(), 1);
    assert_eq!(ports[0].port, 8080);
}

#[test]
fn collect_ports_sorts_by_port_then_protocol_then_pid() {
    let text = "b 20 u IPv4 0x0 0t0 UDP *:53->9.9.9.9:53 -\n\
                a 10 u IPv4 0x0 0t0 TCP *:53 (LISTEN)\n\
                c 5 u IPv4 0x0 0t0 TCP *:22 (LISTEN)\n\
                d 3 u IPv4 0x0 0t0 TCP *:53 (LISTEN)\n";
    let ports = collect_ports(Ok(capture(true, Some(0), text))).expect("should succeed");
    let summary: Vec<(u16, String, Option<i32>)> =
        ports.iter().map(|p| (p.port, p.protocol.clone(), p.pid)).collect();
    assert_eq!(
        summary,
        vec![
            (22, "TCP".to_string(), Some(5)),
            (53, "TCP".to_string(), Some(3)),
            (53, "TCP".to_string(), Some(10)),
            (53, "UDP".to_string(), Some(20)),
        ]
    );
}

#[test]
fn collect_ports_skips_header_and_junk_lines() {
    let text = "COMMAND PID USER FD TYPE DEVICE SIZE/OFF NODE NAME\n\
                garbage\n\
                sshd 77 u IPv4 0x0 0t0 TCP *:22 (LISTEN)\n";
    let ports = collect_ports(Ok(capture(true, Some(0), text))).expect("should succeed");
    assert_eq!(ports.len(), 1);
    assert_eq!(ports[0].process_name.as_deref(), Some("sshd"));
}

#[test]
fn collect_ports_spawn_failure_is_error() {
    let r = collect_ports(Err("no such tool".to_string()));
    assert_eq!(r, Err(ProcError::ToolSpawn("no such tool".to_string())));
}

#[test]
fn collect_ports_nonzero_exit_is_error() {
    let r = collect_ports(Ok(capture(false, Some(2), "")));
    assert_eq!(r, Err(ProcError::ToolStatus(Some(2))));
}

#[test]
fn collect_ports_empty_success_is_empty_table() {
    let r = collect_ports(Ok(capture(true, Some(0), "")));
    assert_eq!(r, Ok(Vec::<PortInfo>::new()));
}

#[test]
fn count_file_handles_is_line_count_minus_header() {
    let c = capture(true, Some(0), "HEADER\nfd1\nfd2\nfd3\n");
    assert_eq!(count_open_file_handles(&Some(c)), Some(3));
}

#[test]
fn count_file_handles_failed_probe_is_absent() {
    assert_eq!(count_open_file_handles(&None), None);
    let c = capture(false, Some(1), "whatever");
    assert_eq!(count_open_file_handles(&Some(c)), None);
}

#[test]
fn parse_numbers_exactly() {
    assert_eq!(parse_u16("8080"), Some(8080));
    assert_eq!(parse_u16("+7"), Some(7));
    assert_eq!(parse_u16("65535"), Some(65535));
    assert_eq!(parse_u16("65536"), None);
    assert_eq!(parse_u16(""), None);
    assert_eq!(parse_u16("12a"), None);
    assert_eq!(parse_i32("-5"), Some(-5));
    assert_eq!(parse_i32("2147483647"), Some(2147483647));
    assert_eq!(parse_i32("-2147483648"), Some(-2147483648));
    assert_eq!(parse_i32("2147483648"), None);
    assert_eq!(parse_i32("007"), Some(7));
}
