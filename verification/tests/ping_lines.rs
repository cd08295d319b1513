use azurepath::ping::{extract_latency_text, parse_ping_output, parse_unix_ping_line, parse_windows_ping_line, PingLine};

/// The time in milliseconds as the application reads it (-1 when absent).
fn ms(latency: &Option<String>) -> f64 {
    latency.as_ref().and_then(|s| s.parse::<f64>().ok()).unwrap_or(-1.0)
}

fn latency_ms(p: &PingLine) -> f64 {
    ms(&p.latency)
}

fn extract_latency_ms(line: &str) -> f64 {
    ms(&extract_latency_text(line))
}

#[test]
fn test_windows_success_english() {
    let line = "Reply from 8.8.8.8: bytes=32 time=11ms TTL=118";
    let result = parse_windows_ping_line(line).unwrap();
    assert_eq!(result.status, "success");
    assert!((latency_ms(&result) - 11.0).abs() < 1e-9);
    assert_eq!(result.ttl, 118);
}

#[test]
fn test_windows_success_decimal() {
    let line = "Reply from 8.8.8.8: bytes=32 time=11.2ms TTL=118";
    let result = parse_windows_ping_line(line).unwrap();
    assert_eq!(result.status, "success");
    assert!((latency_ms(&result) - 11.2).abs() < 1e-9);
    assert_eq!(result.ttl, 118);
}

#[test]
fn test_windows_success_chinese() {
    let line = "来自 8.8.8.8 的回复: 字节=32 时间=11ms TTL=118";
    let result = parse_windows_ping_line(line).unwrap();
    assert_eq!(result.status, "success");
    assert!((latency_ms(&result) - 11.0).abs() < 1e-9);
    assert_eq!(result.ttl, 118);
}

#[test]
fn test_windows_timeout_english() {
    let line = "Request timed out.";
    let result = parse_windows_ping_line(line).unwrap();
    assert_eq!(result.status, "timeout");
    assert_eq!(latency_ms(&result), -1.0);
    assert_eq!(result.ttl, 0);
}

#[test]
fn test_windows_timeout_chinese() {
    let line = "请求超时。";
    let result = parse_windows_ping_line(line).unwrap();
    assert_eq!(result.status, "timeout");
    assert_eq!(latency_ms(&result), -1.0);
}

#[test]
fn test_windows_unreachable_english() {
    let line = "Reply from 10.0.0.99: Destination host unreachable.";
    let result = parse_windows_ping_line(line).unwrap();
    assert_eq!(result.status, "unreachable");
    assert_eq!(latency_ms(&result), -1.0);
}

#[test]
fn test_windows_unreachable_chinese() {
    let line = "来自 10.0.0.99 的回复: 无法访问目标主机。";
    let result = parse_windows_ping_line(line).unwrap();
    assert_eq!(result.status, "unreachable");
}

#[test]
fn test_windows_no_match() {
    let line = "Pinging 8.8.8.8 with 32 bytes of data:";
    assert!(parse_windows_ping_line(line).is_none());
}

#[test]
fn test_windows_empty_line() {
    assert!(parse_windows_ping_line("").is_none());
}

#[test]
fn test_unix_success() {
    let line = "64 bytes from 8.8.8.8: icmp_seq=1 ttl=118 time=11.2 ms";
    let result = parse_unix_ping_line(line).unwrap();
    assert_eq!(result.status, "success");
    assert!((latency_ms(&result) - 11.2).abs() < 1e-9);
    assert_eq!(result.ttl, 118);
    assert_eq!(result.seq, 1);
}

#[test]
fn test_unix_success_no_space_before_ms() {
    let line = "64 bytes from 8.8.8.8: icmp_seq=1 ttl=118 time=11.2ms";
    let result = parse_unix_ping_line(line).unwrap();
    assert_eq!(result.status, "success");
    assert!((latency_ms(&result) - 11.2).abs() < 1e-9);
    assert_eq!(result.ttl, 118);
}

#[test]
fn test_unix_missing_time_is_not_success() {
    let line = "64 bytes from 8.8.8.8: icmp_seq=1 ttl=118";
    assert!(parse_unix_ping_line(line).is_none());
}

#[test]
fn test_unix_no_match() {
    let line = "PING 8.8.8.8 (8.8.8.8): 56 data bytes";
    assert!(parse_unix_ping_line(line).is_none());
}

#[test]
fn test_unix_empty_line() {
    assert!(parse_unix_ping_line("").is_none());
}

#[test]
fn test_unix_large_seq() {
    let line = "64 bytes from 8.8.8.8: icmp_seq=99999 ttl=118 time=10.0 ms";
    let result = parse_unix_ping_line(line).unwrap();
    assert_eq!(result.seq, 99999);
    assert!((latency_ms(&result) - 10.0).abs() < 1e-9);
}

#[test]
fn test_extract_latency_normal() {
    assert!((extract_latency_ms("time=42ms") - 42.0).abs() < 1e-9);
}

#[test]
fn test_extract_latency_decimal() {
    assert!((extract_latency_ms("time=42.5ms") - 42.5).abs() < 1e-9);
}

#[test]
fn test_extract_latency_zero() {
    assert!((extract_latency_ms("time=0ms") - 0.0).abs() < 1e-9);
}

#[test]
fn test_extract_latency_no_ms() {
    assert!((extract_latency_ms("no milliseconds here") - (-1.0)).abs() < 1e-9);
}

#[test]
fn test_extract_latency_empty() {
    assert!((extract_latency_ms("") - (-1.0)).abs() < 1e-9);
}

#[test]
fn test_extract_latency_chinese_utf8() {
    let line = "来自 8.8.8.8 的回复: 字节=32 时间=11ms TTL=118";
    assert!((extract_latency_ms(line) - 11.0).abs() < 1e-9);
}

#[test]
fn test_parse_output_empty() {
    let results = parse_ping_output("", false);
    assert!(results.is_empty());
}

#[test]
fn test_parse_output_mixed_lines() {
    let output = "\n  \nline without match\n";
    assert!(parse_ping_output(output, false).is_empty());
    assert!(parse_ping_output(output, true).is_empty());
}

#[test]
fn unix_output_in_order() {
    let output = "PING 8.8.8.8 (8.8.8.8): 56 data bytes\n64 bytes from 8.8.8.8: icmp_seq=0 ttl=118 time=9.1 ms\n  64 bytes from 8.8.8.8: icmp_seq=1 ttl=117 time=9.3 ms  \n\n--- stats ---\n";
    let results = parse_ping_output(output, false);
    assert_eq!(results.len(), 2);
    assert_eq!((results[0].seq, results[0].ttl), (0, 118));
    assert_eq!((results[1].seq, results[1].ttl), (1, 117));
    assert!((latency_ms(&results[1]) - 9.3).abs() < 1e-9);
}

#[test]
fn windows_latency_takes_rightmost_valid_number() {
    assert_eq!(extract_latency_text("a=1ms b=2ms"), Some("2".to_string()));
    assert_eq!(extract_latency_text("a=1ms b=1.2.3ms"), Some("1".to_string()));
    assert_eq!(extract_latency_text("time<1ms"), None);
    assert_eq!(extract_latency_text("time=.ms"), None);
    assert_eq!(extract_latency_text("ms"), None);
}

#[test]
fn unix_invalid_time_text_is_no_result() {
    assert!(parse_unix_ping_line("64 bytes from x: icmp_seq=1 ttl=1 time=1.2.3 ms").is_none());
    assert!(parse_unix_ping_line("64 bytes from x: icmp_seq=1 ttl=1 time=. ms").is_none());
    let r = parse_unix_ping_line("64 bytes from x: icmp_seq=99999999999 ttl=1 time=.5 ms").unwrap();
    assert_eq!(r.seq, 0);
}
