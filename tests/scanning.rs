use portscan::range::{parse_ip_range, parse_port_range};
use portscan::scan::{forwards, plan_tasks, status_line, ProbeResult, ProbeTask, ScanSession};

fn verdict(t: &ProbeTask, open: bool) -> ProbeResult {
    ProbeResult { ip: t.ip.clone(), port: t.port, open }
}

fn entries(doc: &str) -> Vec<(String, u16, bool)> {
    let v = json::parse(doc).unwrap();
    assert!(v.is_array());
    v.members()
        .map(|e| {
            (
                e["ip"].as_str().unwrap().to_string(),
                e["port"].as_u16().unwrap(),
                e["status"].as_bool().unwrap(),
            )
        })
        .collect()
}

#[test]
fn tasks_are_row_major() {
    let ips = parse_ip_range("10.0.0.1-2");
    let ports = parse_port_range("22-24");
    let tasks = plan_tasks(&ips, &ports, 50);
    assert_eq!(tasks.len(), ips.len() * ports.len());
    let got: Vec<(String, u16, u64)> =
        tasks.iter().map(|t| (t.ip.clone(), t.port, t.timeout_ms)).collect();
    assert_eq!(
        got,
        vec![
            ("10.0.0.1".to_string(), 22, 50),
            ("10.0.0.1".to_string(), 23, 50),
            ("10.0.0.1".to_string(), 24, 50),
            ("10.0.0.2".to_string(), 22, 50),
            ("10.0.0.2".to_string(), 23, 50),
            ("10.0.0.2".to_string(), 24, 50),
        ]
    );
}

#[test]
fn three_addresses_one_port() {
    let ips = parse_ip_range("10.0.0.1-3");
    let ports = parse_port_range("22");
    let tasks = plan_tasks(&ips, &ports, 100);
    assert_eq!(tasks.len(), 3);
    for (t, ip) in tasks.iter().zip(["10.0.0.1", "10.0.0.2", "10.0.0.3"]) {
        assert_eq!(t.ip, ip);
        assert_eq!(t.port, 22);
        assert_eq!(t.timeout_ms, 100);
    }
    let mut s = ScanSession::new(tasks.len(), false, true);
    for t in &tasks {
        assert!(s.record(verdict(t, false)).is_none());
    }
    assert!(s.is_drained());
    let doc = s.into_document();
    assert_eq!(entries(&doc).len(), 3);
}

#[test]
fn one_port_range_one_task() {
    let ips = parse_ip_range("127.0.0.1");
    let ports = parse_port_range("80-80");
    let tasks = plan_tasks(&ips, &ports, 100);
    assert_eq!(tasks.len(), 1);
    let mut s = ScanSession::new(tasks.len(), false, true);
    s.record(verdict(&tasks[0], true));
    let e = entries(&s.into_document());
    assert_eq!(e, vec![("127.0.0.1".to_string(), 80, true)]);
}

#[test]
fn malformed_port_gives_empty_document() {
    let ips = parse_ip_range("10.0.0.1");
    let ports = parse_port_range("abc");
    assert!(ports.is_empty());
    let tasks = plan_tasks(&ips, &ports, 100);
    assert!(tasks.is_empty());
    let s = ScanSession::new(tasks.len(), false, true);
    assert!(s.is_drained());
    assert_eq!(s.into_document(), "[]");
}

#[test]
fn filter_on_drops_closed_ports() {
    let tasks = plan_tasks(&parse_ip_range("10.0.0.1-2"), &parse_port_range("1-2"), 10);
    let mut s = ScanSession::new(tasks.len(), true, true);
    for (k, t) in tasks.iter().enumerate() {
        s.record(verdict(t, k % 2 == 0));
    }
    assert_eq!(s.completed(), 4);
    assert!(s.is_drained());
    assert_eq!(s.results().len(), 2);
    let e = entries(&s.into_document());
    assert_eq!(e.len(), 2);
    assert!(e.iter().all(|x| x.2));
}

#[test]
fn filter_off_keeps_every_result() {
    let tasks = plan_tasks(&parse_ip_range("10.0.0.1-2"), &parse_port_range("1-3"), 10);
    let mut s = ScanSession::new(tasks.len(), false, true);
    for (k, t) in tasks.iter().enumerate() {
        s.record(verdict(t, k == 4));
    }
    let e = entries(&s.into_document());
    assert_eq!(e.len(), 6);
    assert_eq!(e.iter().filter(|x| x.2).count(), 1);
}

#[test]
fn document_round_trip_keeps_entries() {
    let results = vec![
        ("10.0.0.1", 22, true),
        ("10.0.0.2", 443, false),
        ("host\"quoted", 65535, true),
    ];
    let mut s = ScanSession::new(results.len(), false, true);
    for (ip, port, open) in &results {
        s.record(ProbeResult { ip: ip.to_string(), port: *port, open: *open });
    }
    let mut got = entries(&s.into_document());
    let mut want: Vec<(String, u16, bool)> =
        results.iter().map(|(i, p, o)| (i.to_string(), *p, *o)).collect();
    got.sort();
    want.sort();
    assert_eq!(got, want);
}

#[test]
fn text_mode_returns_lines_and_buffers_nothing() {
    let mut s = ScanSession::new(3, true, false);
    let t = ProbeResult { ip: "10.0.0.1".to_string(), port: 22, open: true };
    assert_eq!(s.record(t).unwrap(), "Status: Port 22 on IP 10.0.0.1 is OPEN");
    let c = ProbeResult { ip: "10.0.0.1".to_string(), port: 23, open: false };
    assert!(s.record(c).is_none());
    assert!(!s.is_drained());
    assert!(s.results().is_empty());
}

#[test]
fn status_line_text() {
    let c = ProbeResult { ip: "192.168.0.9".to_string(), port: 8080, open: false };
    assert_eq!(status_line(&c), "Status: Port 8080 on IP 192.168.0.9 is CLOSED");
}

#[test]
fn filter_policy() {
    assert!(forwards(false, false));
    assert!(forwards(false, true));
    assert!(forwards(true, true));
    assert!(!forwards(true, false));
}
