use imonitor::error::RegistryError;
use imonitor::registry::{install_command, node_status, NodeRecord, NodeStatus, Registry, Report};
use imonitor::token::TOKEN_LEN;

fn report(token: &str, hostname: &str, ip: &str) -> Report {
    Report {
        token: token.to_string(),
        hostname: hostname.to_string(),
        ip_address: ip.to_string(),
        meta: "{\"os\":\"Linux\"}".to_string(),
        metrics: "{\"cpu\":1.5}".to_string(),
    }
}

fn node_with(reg: &Registry, token: &str) -> Option<usize> {
    reg.find_token(&token.to_string())
}

#[test]
fn reserve_mints_hex_token_and_id() {
    let mut reg = Registry::new();
    let n = reg.reserve(Some("web".to_string()), 1000).unwrap();
    assert_eq!(n.token.len(), TOKEN_LEN);
    assert!(n.token.chars().all(|c| c.is_ascii_digit() || ('a'..='f').contains(&c)));
    assert_eq!(n.node_id.len(), 36);
    assert_eq!(reg.len(), 1);
    let rec = reg.node(0);
    assert_eq!(rec.token, n.token);
    assert_eq!(rec.id, n.node_id);
    assert_eq!(rec.label, Some("web".to_string()));
    assert_eq!(rec.hostname, "");
    assert_eq!(rec.ip_address, "");
    assert_eq!(rec.created_at, 1000);
    assert_eq!(rec.last_seen, None);
}

#[test]
fn reserve_tokens_are_unique() {
    let mut reg = Registry::new();
    let mut seen: Vec<String> = Vec::new();
    for i in 0..50u64 {
        let n = reg.reserve(None, i).unwrap();
        assert!(!seen.contains(&n.token));
        seen.push(n.token);
    }
    assert_eq!(reg.len(), 50);
}

#[test]
fn reserve_with_taken_token_is_refused() {
    let mut reg = Registry::new();
    assert_eq!(reg.reserve_with("a".to_string(), "t1".to_string(), None, 1), Ok(()));
    assert_eq!(
        reg.reserve_with("b".to_string(), "t1".to_string(), None, 2),
        Err(RegistryError::TokenTaken)
    );
    assert_eq!(reg.len(), 1);
}

#[test]
fn report_unknown_token_is_not_found() {
    let mut reg = Registry::new();
    reg.reserve_with("a".to_string(), "t1".to_string(), None, 1).unwrap();
    assert_eq!(reg.report(&report("nope", "h", "10.0.0.1"), 5), Err(RegistryError::NotFound));
    assert_eq!(reg.len(), 1);
    assert_eq!(reg.node(0).last_seen, None);
    let mut empty = Registry::new();
    assert_eq!(empty.report(&report("nope", "h", "10.0.0.1"), 5), Err(RegistryError::NotFound));
    assert_eq!(empty.len(), 0);
}

#[test]
fn report_without_meta_or_metrics_is_bad_request() {
    let mut reg = Registry::new();
    reg.reserve_with("a".to_string(), "t1".to_string(), None, 1).unwrap();
    let mut r = report("t1", "h", "10.0.0.1");
    r.meta = "{}".to_string();
    assert_eq!(reg.report(&r, 5), Err(RegistryError::BadRequest));
    let mut r = report("t1", "h", "10.0.0.1");
    r.metrics = String::new();
    assert_eq!(reg.report(&r, 5), Err(RegistryError::BadRequest));
    assert_eq!(reg.node(0).last_seen, None);
}

#[test]
fn report_updates_the_node() {
    let mut reg = Registry::new();
    reg.reserve_with("a".to_string(), "t1".to_string(), None, 1).unwrap();
    assert_eq!(reg.report(&report("t1", "box1", "10.0.0.5"), 7000), Ok(()));
    let n = reg.node(0);
    assert_eq!(n.hostname, "box1");
    assert_eq!(n.label, Some("box1".to_string()));
    assert_eq!(n.ip_address, "10.0.0.5");
    assert_eq!(n.last_seen, Some(7000));
    assert_eq!(n.meta, Some("{\"os\":\"Linux\"}".to_string()));
    assert_eq!(n.metrics, Some("{\"cpu\":1.5}".to_string()));
    assert_eq!(n.created_at, 1);
}

#[test]
fn second_report_hostname_recorded_label_kept() {
    let mut reg = Registry::new();
    reg.reserve_with("a".to_string(), "t1".to_string(), None, 1).unwrap();
    reg.report(&report("t1", "first", "10.0.0.1"), 10).unwrap();
    reg.report(&report("t1", "second", "10.0.0.1"), 20).unwrap();
    let n = reg.node(0);
    assert_eq!(n.hostname, "second");
    assert_eq!(n.label, Some("first".to_string()));
    assert_eq!(n.last_seen, Some(20));
}

#[test]
fn report_keeps_operator_label() {
    let mut reg = Registry::new();
    reg.reserve_with("a".to_string(), "t1".to_string(), Some("db".to_string()), 1).unwrap();
    reg.report(&report("t1", "host", "10.0.0.1"), 10).unwrap();
    assert_eq!(reg.node(0).label, Some("db".to_string()));
}

#[test]
fn report_empty_hostname_keeps_previous() {
    let mut reg = Registry::new();
    reg.reserve_with("a".to_string(), "t1".to_string(), None, 1).unwrap();
    reg.report(&report("t1", "box", "10.0.0.1"), 10).unwrap();
    reg.report(&report("t1", "", "10.0.0.2"), 20).unwrap();
    assert_eq!(reg.node(0).hostname, "box");
    assert_eq!(reg.node(0).ip_address, "10.0.0.2");
}

#[test]
fn duplicate_hostname_evicts_other_node() {
    let mut reg = Registry::new();
    reg.reserve_with("a".to_string(), "ta".to_string(), None, 1).unwrap();
    reg.reserve_with("b".to_string(), "tb".to_string(), None, 2).unwrap();
    reg.report(&report("ta", "h1", "10.0.0.1"), 10).unwrap();
    reg.report(&report("tb", "h1", "10.0.0.2"), 20).unwrap();
    assert_eq!(reg.len(), 1);
    assert_eq!(node_with(&reg, "ta"), None);
    let b = node_with(&reg, "tb").unwrap();
    assert_eq!(reg.node(b).hostname, "h1");
}

#[test]
fn duplicate_address_evicts_other_node() {
    let mut reg = Registry::new();
    reg.reserve_with("a".to_string(), "ta".to_string(), None, 1).unwrap();
    reg.reserve_with("b".to_string(), "tb".to_string(), None, 2).unwrap();
    reg.reserve_with("c".to_string(), "tc".to_string(), None, 3).unwrap();
    reg.report(&report("ta", "ha", "10.0.0.9"), 10).unwrap();
    reg.report(&report("tc", "hc", "10.0.0.3"), 10).unwrap();
    reg.report(&report("tb", "hb", "10.0.0.9"), 20).unwrap();
    assert_eq!(reg.len(), 2);
    assert_eq!(node_with(&reg, "ta"), None);
    assert_eq!(reg.node(0).token, "tb");
    assert_eq!(reg.node(1).token, "tc");
}

#[test]
fn empty_identity_does_not_evict() {
    let mut reg = Registry::new();
    reg.reserve_with("a".to_string(), "ta".to_string(), None, 1).unwrap();
    reg.reserve_with("b".to_string(), "tb".to_string(), None, 2).unwrap();
    reg.report(&report("ta", "", ""), 10).unwrap();
    assert_eq!(reg.len(), 2);
}

#[test]
fn status_by_last_seen() {
    let now = 100_000u64;
    assert_eq!(node_status(Some(now - 5_000), now, 10), NodeStatus::Online);
    assert_eq!(node_status(Some(now - 15_000), now, 10), NodeStatus::Offline);
    assert_eq!(node_status(None, now, 10), NodeStatus::Pending);
    assert_eq!(node_status(Some(now - 10_000), now, 10), NodeStatus::Online);
    assert_eq!(node_status(Some(now - 10_001), now, 10), NodeStatus::Offline);
    assert_eq!(node_status(Some(now + 3_000), now, 10), NodeStatus::Online);
    assert_eq!(NodeStatus::Online.as_str(), "online");
    assert_eq!(NodeStatus::Offline.as_str(), "offline");
    assert_eq!(NodeStatus::Pending.as_str(), "pending");
}

#[test]
fn listing_statuses_share_one_now() {
    let mut reg = Registry::new();
    reg.reserve_with("a".to_string(), "ta".to_string(), None, 1).unwrap();
    reg.reserve_with("b".to_string(), "tb".to_string(), None, 2).unwrap();
    reg.reserve_with("c".to_string(), "tc".to_string(), None, 3).unwrap();
    reg.report(&report("ta", "ha", "10.0.0.1"), 95_000).unwrap();
    reg.report(&report("tb", "hb", "10.0.0.2"), 85_000).unwrap();
    let st = reg.statuses(100_000, 10);
    assert_eq!(st, vec![NodeStatus::Online, NodeStatus::Offline, NodeStatus::Pending]);
}

#[test]
fn delete_twice() {
    let mut reg = Registry::new();
    reg.reserve_with("a".to_string(), "t1".to_string(), None, 1).unwrap();
    reg.reserve_with("b".to_string(), "t2".to_string(), None, 2).unwrap();
    assert_eq!(reg.delete(&"t1".to_string()), Ok(()));
    assert_eq!(reg.delete(&"t1".to_string()), Err(RegistryError::NotFound));
    assert_eq!(reg.len(), 1);
    assert_eq!(reg.node(0).token, "t2");
}

#[test]
fn rename_sets_label() {
    let mut reg = Registry::new();
    reg.reserve_with("a".to_string(), "t1".to_string(), None, 1).unwrap();
    reg.report(&report("t1", "box", "10.0.0.1"), 10).unwrap();
    assert_eq!(reg.rename(&"t1".to_string(), Some("prod".to_string())), Ok(()));
    assert_eq!(reg.node(0).label, Some("prod".to_string()));
    assert_eq!(reg.rename(&"t1".to_string(), None), Ok(()));
    assert_eq!(reg.node(0).label, None);
    assert_eq!(reg.rename(&"zz".to_string(), Some("x".to_string())), Err(RegistryError::NotFound));
}

#[test]
fn restore_refuses_conflicts() {
    let rec = |token: &str, host: &str, ip: &str| NodeRecord {
        id: format!("id-{token}"),
        token: token.to_string(),
        label: None,
        hostname: host.to_string(),
        ip_address: ip.to_string(),
        created_at: 1,
        last_seen: Some(2),
        meta: None,
        metrics: None,
    };
    let mut reg = Registry::new();
    assert_eq!(reg.restore(rec("t1", "h1", "10.0.0.1")), Ok(()));
    assert_eq!(reg.restore(rec("t1", "h2", "10.0.0.2")), Err(RegistryError::Conflict));
    assert_eq!(reg.restore(rec("t2", "h1", "10.0.0.2")), Err(RegistryError::Conflict));
    assert_eq!(reg.restore(rec("t2", "h2", "10.0.0.1")), Err(RegistryError::Conflict));
    assert_eq!(reg.restore(rec("t2", "", "")), Ok(()));
    assert_eq!(reg.restore(rec("t3", "", "")), Ok(()));
    assert_eq!(reg.len(), 3);
}

#[test]
fn end_to_end_report_and_list() {
    let mut reg = Registry::new();
    let n = reg.reserve(None, 1_000).unwrap();
    reg.report(&report(&n.token, "box1", "10.0.0.5"), 50_000).unwrap();
    assert_eq!(reg.len(), 1);
    assert_eq!(reg.statuses(52_000, 10), vec![NodeStatus::Online]);
    assert_eq!(reg.node(0).hostname, "box1");
    assert_eq!(reg.node(0).ip_address, "10.0.0.5");
    reg.report(&report(&n.token, "box1", ""), 60_000).unwrap();
    assert_eq!(reg.node(0).ip_address, "");
}

#[test]
fn install_command_text() {
    let c = install_command(&"http://mon:8080".to_string(), &"abc123".to_string());
    assert_eq!(
        c,
        "curl -fsSL http://mon:8080/install.sh | bash -s -- --token=abc123 --endpoint=http://mon:8080"
    );
}

#[test]
fn error_status_codes() {
    assert_eq!(RegistryError::NotFound.status_code(), 404);
    assert_eq!(RegistryError::Unauthorized.status_code(), 401);
    assert_eq!(RegistryError::BadRequest.status_code(), 400);
    assert_eq!(RegistryError::TokenTaken.status_code(), 500);
    assert_eq!(RegistryError::Conflict.status_code(), 500);
    assert_eq!(RegistryError::NotFound.detail(), "not found");
    assert_eq!(RegistryError::Unauthorized.detail(), "unauthorized");
}

#[test]
fn reserve_on_empty_registry_succeeds() {
    let mut reg = Registry::new();
    assert!(reg.reserve(None, 5).is_ok());
    assert_eq!(reg.len(), 1);
}

#[test]
fn reserve_ids_are_unique() {
    let mut reg = Registry::new();
    let a = reg.reserve(None, 1).unwrap();
    let b = reg.reserve(None, 2).unwrap();
    assert_ne!(a.node_id, b.node_id);
    assert_eq!(reg.find_id(&a.node_id), Some(0));
    assert_eq!(reg.find_id(&b.node_id), Some(1));
    assert_eq!(reg.find_id(&"missing".to_string()), None);
}

#[test]
fn reserve_with_taken_id_is_refused() {
    let mut reg = Registry::new();
    reg.reserve_with("a".to_string(), "t1".to_string(), None, 1).unwrap();
    assert_eq!(
        reg.reserve_with("a".to_string(), "t2".to_string(), None, 2),
        Err(RegistryError::Conflict)
    );
    assert_eq!(
        reg.reserve_with("a".to_string(), "t1".to_string(), None, 2),
        Err(RegistryError::TokenTaken)
    );
    assert_eq!(reg.len(), 1);
}

#[test]
fn restore_refuses_duplicate_id() {
    let rec = |id: &str, token: &str| NodeRecord {
        id: id.to_string(),
        token: token.to_string(),
        label: None,
        hostname: String::new(),
        ip_address: String::new(),
        created_at: 1,
        last_seen: None,
        meta: None,
        metrics: None,
    };
    let mut reg = Registry::new();
    assert_eq!(reg.restore(rec("x", "t1")), Ok(()));
    assert_eq!(reg.restore(rec("x", "t2")), Err(RegistryError::Conflict));
    assert_eq!(reg.len(), 1);
}

#[test]
fn report_keeps_nonempty_label_with_any_hostname() {
    let mut reg = Registry::new();
    reg.reserve_with("a".to_string(), "t1".to_string(), Some("keep".to_string()), 1).unwrap();
    reg.report(&report("t1", "", "10.0.0.1"), 10).unwrap();
    reg.report(&report("t1", "other", "10.0.0.1"), 20).unwrap();
    assert_eq!(reg.node(0).label, Some("keep".to_string()));
    assert_eq!(reg.node(0).hostname, "other");
}
