use logpulse::{build_report, log_lines, parse_log_line, AggregatedStats, ParsedLogRecord};

fn rec(status: u16, latency: f64, path: &str, ip: &str, bytes: u64) -> ParsedLogRecord {
    ParsedLogRecord {
        status,
        latency_ms: latency.to_bits(),
        path: path.to_string(),
        ip: ip.to_string(),
        bytes,
    }
}

fn aggregate(records: Vec<ParsedLogRecord>) -> AggregatedStats {
    let mut s = AggregatedStats::new();
    for r in records {
        s.record(r);
    }
    s
}

fn sample() -> Vec<ParsedLogRecord> {
    vec![
        rec(200, 5.0, "/a", "1.1.1.1", 10),
        rec(301, 0.0, "/b", "2.2.2.2", 20),
        rec(404, -3.0, "/a", "1.1.1.1", 30),
        rec(503, f64::INFINITY, "/c", "3.3.3.3", 40),
        rec(199, f64::NAN, "/a", "2.2.2.2", 50),
        rec(600, 1.5, "/b", "1.1.1.1", 60),
    ]
}

#[test]
fn record_counts_classes_keys_and_positive_latencies() {
    let s = aggregate(sample());
    assert_eq!(s.total_requests, 6);
    assert_eq!(s.total_bytes, 210);
    assert_eq!(s.status_2xx, 1);
    assert_eq!(s.status_3xx, 1);
    assert_eq!(s.status_4xx, 1);
    assert_eq!(s.status_5xx, 1);
    assert_eq!(s.path_counts.get(&"/a".to_string()), 3);
    assert_eq!(s.path_counts.get(&"/b".to_string()), 2);
    assert_eq!(s.path_counts.get(&"/c".to_string()), 1);
    assert_eq!(s.path_counts.get(&"/z".to_string()), 0);
    assert_eq!(s.ip_counts.get(&"1.1.1.1".to_string()), 3);
    assert_eq!(s.ip_counts.len(), 3);
    let lat: Vec<f64> = s.latencies.iter().map(|b| f64::from_bits(*b)).collect();
    assert_eq!(lat, vec![5.0, f64::INFINITY, 1.5]);
}

#[test]
fn merge_of_chunks_equals_counting_in_order() {
    let all = aggregate(sample());
    let records = sample();
    let (left, right) = records.split_at(2);
    let mut a = aggregate(left.to_vec());
    let b = aggregate(right.to_vec());
    a.merge(b);
    assert_eq!(a.total_requests, all.total_requests);
    assert_eq!(a.total_bytes, all.total_bytes);
    assert_eq!(a.status_2xx, all.status_2xx);
    assert_eq!(a.status_4xx, all.status_4xx);
    assert_eq!(a.latencies, all.latencies);
    for k in ["/a", "/b", "/c"] {
        assert_eq!(a.path_counts.get(&k.to_string()), all.path_counts.get(&k.to_string()));
    }
    for k in ["1.1.1.1", "2.2.2.2", "3.3.3.3"] {
        assert_eq!(a.ip_counts.get(&k.to_string()), all.ip_counts.get(&k.to_string()));
    }
    // merging with nothing changes nothing
    let mut e = AggregatedStats::default();
    e.merge(aggregate(sample()));
    assert_eq!(e.total_requests, 6);
    assert_eq!(e.path_counts.len(), 3);
}

#[test]
fn report_percentiles_and_top_entries() {
    let mut recs = Vec::new();
    for i in 1..=10 {
        recs.push(rec(200, i as f64, if i % 3 == 0 { "/x" } else { "/y" }, "ip", 1));
    }
    recs.push(rec(500, 0.0, "/z", "other", 1));
    let report = build_report(aggregate(recs), 2);
    assert_eq!(report.total_requests, 11);
    assert_eq!(report.error_requests, 1);
    let f = |b: u64| f64::from_bits(b);
    assert_eq!(f(report.min_latency_ms), 1.0);
    assert_eq!(f(report.p50_latency_ms), 6.0);
    assert_eq!(f(report.p90_latency_ms), 10.0);
    assert_eq!(f(report.p95_latency_ms), 10.0);
    assert_eq!(f(report.p99_latency_ms), 10.0);
    assert_eq!(f(report.max_latency_ms), 10.0);
    let sorted: Vec<f64> = report.sorted_latencies.iter().map(|b| f(*b)).collect();
    assert_eq!(sorted, (1..=10).map(|i| i as f64).collect::<Vec<_>>());
    assert_eq!(report.top_paths, vec![("/y".to_string(), 7), ("/x".to_string(), 3)]);
    assert_eq!(report.top_ips, vec![("ip".to_string(), 10), ("other".to_string(), 1)]);
}

#[test]
fn report_of_nothing_is_zero() {
    let report = build_report(AggregatedStats::new(), 5);
    assert_eq!(report.total_requests, 0);
    assert_eq!(report.min_latency_ms, 0);
    assert_eq!(report.max_latency_ms, 0);
    assert_eq!(report.p99_latency_ms, 0);
    assert!(report.top_paths.is_empty());
    assert!(report.sorted_latencies.is_empty());
}

#[test]
fn top_entries_ties_keep_first_seen_order_and_truncate() {
    let recs = vec![
        rec(200, 1.0, "/b", "i", 0),
        rec(200, 1.0, "/a", "i", 0),
        rec(200, 1.0, "/c", "i", 0),
        rec(200, 1.0, "/a", "i", 0),
    ];
    let report = build_report(aggregate(recs), 2);
    assert_eq!(report.top_paths, vec![("/a".to_string(), 2), ("/b".to_string(), 1)]);
    let report = build_report(aggregate(vec![rec(200, 1.0, "/q", "i", 0)]), 0);
    assert!(report.top_paths.is_empty());
}

#[test]
fn percentile_indices_for_one_hundred_values() {
    let recs: Vec<ParsedLogRecord> = (1..=100).rev().map(|i| rec(200, i as f64, "/", "i", 0)).collect();
    let r = build_report(aggregate(recs), 1);
    let f = |b: u64| f64::from_bits(b);
    assert_eq!(f(r.p50_latency_ms), 51.0);
    assert_eq!(f(r.p90_latency_ms), 91.0);
    assert_eq!(f(r.p95_latency_ms), 96.0);
    assert_eq!(f(r.p99_latency_ms), 100.0);
    assert_eq!(f(r.min_latency_ms), 1.0);
    assert_eq!(f(r.max_latency_ms), 100.0);
}

#[test]
fn lines_split_at_newlines_and_drop_carriage_returns() {
    assert_eq!(log_lines(b"a\r\nb\n\nc"), vec!["a", "b", "", "c"]);
    assert_eq!(log_lines(b"x\n"), vec!["x"]);
    assert_eq!(log_lines(b"x\n\n"), vec!["x", ""]);
    assert_eq!(log_lines(b""), Vec::<String>::new());
    assert_eq!(log_lines(b"\n"), vec![""]);
    assert_eq!(log_lines(b"end\r"), vec!["end"]);
    assert_eq!(log_lines(b"ok\xffok\n\xe2\x82\xac"), vec!["ok\u{fffd}ok", "\u{20ac}"]);
}

/// The sample log of the README: 100,000 lines alternating JSON and common
/// format over 7 paths, 5 addresses and 10 statuses.
#[test]
fn readme_sample_distribution() {
    let paths = ["/api/v1/users", "/api/v1/orders", "/api/v1/products", "/healthz", "/checkout", "/login", "/search"];
    let ips = ["192.168.1.10", "192.168.1.25", "10.0.0.15", "172.16.0.4", "10.0.0.99"];
    let statuses = [200u16, 200, 200, 201, 204, 301, 400, 404, 500, 502];
    let mut text = String::new();
    let mut decoded = Vec::new();
    for i in 0..100_000usize {
        let p = paths[i % paths.len()];
        let ip = ips[i % ips.len()];
        let status = statuses[i % statuses.len()];
        let latency = 5.0 + ((i * 37) % 450) as f64 + ((i % 10) as f64 * 0.3);
        let bytes = 120 + ((i * 83) % 4096);
        if i % 2 == 0 {
            text.push_str(&format!(
                r#"{{"timestamp":"2026-08-30T02:50:{:02}Z","status":{},"latency_ms":{:.2},"path":"{}","ip":"{}","bytes":{}}}"#,
                i % 60, status, latency, p, ip, bytes
            ));
            let shown: f64 = format!("{:.2}", latency).parse().unwrap();
            decoded.push(Some(logpulse::JsonLogLine {
                status: Some(status),
                status_code: None,
                latency_ms: Some(shown.to_bits()),
                response_time: None,
                duration_ms: None,
                path: Some(p.to_string()),
                uri: None,
                url: None,
                ip: Some(ip.to_string()),
                client_ip: None,
                bytes: Some(bytes as u64),
                bytes_sent: None,
            }));
        } else {
            text.push_str(&format!(
                r#"{} - - [30/Aug/2026:02:50:{:02} +0000] "GET {} HTTP/1.1" {} {} {:.2}"#,
                ip, i % 60, p, status, bytes, latency
            ));
            decoded.push(None);
        }
        text.push('\n');
    }
    let lines = log_lines(text.as_bytes());
    assert_eq!(lines.len(), 100_000);
    let mut stats = AggregatedStats::new();
    for (line, json) in lines.iter().zip(decoded) {
        let latency = logpulse::latency_token(line).and_then(|t| t.parse::<f64>().ok()).map(f64::to_bits);
        let r = parse_log_line(line, json, latency).expect("every sample line parses");
        stats.record(r);
    }
    let report = build_report(stats, 5);
    assert_eq!(report.total_requests, 100_000);
    assert_eq!(report.status_2xx, 50_000);
    assert_eq!(report.status_3xx, 10_000);
    assert_eq!(report.status_4xx, 20_000);
    assert_eq!(report.status_5xx, 20_000);
    let expected_paths: Vec<(String, u64)> = paths[..5].iter().map(|p| (p.to_string(), 14_286)).collect();
    assert_eq!(report.top_paths, expected_paths);
    let expected_ips: Vec<(String, u64)> = ips.iter().map(|p| (p.to_string(), 20_000)).collect();
    assert_eq!(report.top_ips, expected_ips);
    assert_eq!(f64::from_bits(report.min_latency_ms), 5.0);
    assert_eq!(report.sorted_latencies.len(), 100_000);
}

#[test]
fn count_table_entries_in_first_seen_order() {
    let s = aggregate(sample());
    let (k, c) = s.path_counts.entry(0);
    assert_eq!((k.as_str(), c), ("/a", 3));
    let (k, c) = s.path_counts.entry(2);
    assert_eq!((k.as_str(), c), ("/c", 1));
    let copy = s.clone();
    assert_eq!(copy.total_requests, 6);
}

#[test]
fn reordered_records_give_the_same_report() {
    let mut recs = sample();
    for i in 0..20u64 {
        recs.push(rec(200 + (i % 4) as u16 * 100, i as f64 + 0.5, ["/p", "/q", "/r"][(i % 3) as usize], "ip", i));
    }
    let mut reversed = recs.clone();
    reversed.reverse();
    let a = build_report(aggregate(recs), 3);
    let b = build_report(aggregate(reversed), 3);
    assert_eq!(a.total_requests, b.total_requests);
    assert_eq!(a.total_bytes, b.total_bytes);
    assert_eq!(a.error_requests, b.error_requests);
    assert_eq!(a.sorted_latencies, b.sorted_latencies);
    assert_eq!(a.p90_latency_ms, b.p90_latency_ms);
    let counts = |v: &Vec<(String, u64)>| v.iter().map(|e| e.1).collect::<Vec<_>>();
    assert_eq!(counts(&a.top_paths), counts(&b.top_paths));
    assert_eq!(counts(&a.top_ips), counts(&b.top_ips));
}
