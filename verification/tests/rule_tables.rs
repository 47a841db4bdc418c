//! The rule table and the check of server names.

use zeromasque::addr::SocketAddr;
use zeromasque::authority::split_host_port;
use zeromasque::endpoint::EndpointError;
use zeromasque::quic::sni_allowed;
use zeromasque::rules::RuleSpec;
use zeromasque::rules::RuleTable;
use zeromasque::rules::RulesError;

fn address(text: &str) -> Option<SocketAddr> {
    let (host, port) = split_host_port(text).ok()?;
    let mut ip: u32 = 0;
    for part in host.split('.') {
        ip = ip * 256 + part.parse::<u8>().ok()? as u32;
    }
    Some(SocketAddr::V4 { ip, port })
}

fn specs(json: &str) -> Vec<RuleSpec> {
    let value: serde_json::Value = serde_json::from_str(json).unwrap();
    value
        .as_array()
        .unwrap()
        .iter()
        .map(|r| RuleSpec {
            endpoint: r["endpoint"].as_str().unwrap().to_string(),
            target: address(r["target"].as_str().unwrap()),
            transparent: r["transparent"].as_bool().unwrap_or(false),
            fwmark: r["fwmark"].as_u64().map(|n| n as u32),
            idle_timeout: r["idle_timeout"].as_u64(),
        })
        .collect()
}

fn load(json: &str) -> Result<RuleTable, RulesError> {
    RuleTable::load(&specs(json))
}

fn target(t: &RuleTable, authority: &str, path: &str) -> Option<SocketAddr> {
    t.match_target(authority, path).map(|m| m.target)
}

#[test]
fn matches_authority_and_path_ignoring_query() {
    let t = load(
        r#"[
              {"endpoint":"https://a.example.com/masque","target":"127.0.0.1:1234"},
              {"endpoint":"https://b.example.com/connect","target":"127.0.0.1:5678"}
            ]"#,
    )
    .unwrap();
    assert_eq!(t.len(), 2);
    assert_eq!(
        target(&t, "a.example.com", "/masque"),
        address("127.0.0.1:1234")
    );
    // Query is ignored on the path match.
    assert_eq!(
        target(&t, "a.example.com", "/masque?h=1.2.3.4&p=53"),
        address("127.0.0.1:1234")
    );
    assert_eq!(
        target(&t, "b.example.com", "/connect"),
        address("127.0.0.1:5678")
    );
    assert!(address("127.0.0.1:1234").is_some());
    // Right path, wrong host -> no match.
    assert_eq!(target(&t, "b.example.com", "/masque"), None);
    // Right host, wrong path -> no match.
    assert_eq!(target(&t, "a.example.com", "/other"), None);
}

#[test]
fn transparent_defaults_off_and_parses_when_set() {
    let t = load(
        r#"[
              {"endpoint":"https://a/x","target":"127.0.0.1:1","transparent":true},
              {"endpoint":"https://b/y","target":"127.0.0.1:2"}
            ]"#,
    )
    .unwrap();
    assert!(t.match_target("a", "/x").unwrap().transparent);
    assert!(!t.match_target("b", "/y").unwrap().transparent);
    assert_eq!(t.transparent_count(), 1);
}

#[test]
fn rejects_empty_table() {
    assert!(load("[]").is_err());
}

#[test]
fn table_errors_name_the_first_wrong_rule() {
    assert_eq!(load("[]").err(), Some(RulesError::Empty));
    assert_eq!(
        load(
            r#"[
              {"endpoint":"https://a/x","target":"127.0.0.1:1"},
              {"endpoint":"/y","target":"nowhere"},
              {"endpoint":"https:///z","target":"127.0.0.1:1"}
            ]"#
        )
        .err(),
        Some(RulesError::Endpoint {
            index: 1,
            error: EndpointError::NotAbsolute
        })
    );
    assert_eq!(
        load(r#"[{"endpoint":"https://a/x","target":"nowhere"}]"#).err(),
        Some(RulesError::Target { index: 0 })
    );
}

#[test]
fn first_matching_rule_wins() {
    let t = load(
        r#"[
              {"endpoint":"https://a/x","target":"127.0.0.1:1"},
              {"endpoint":"https://a/x","target":"127.0.0.1:2"}
            ]"#,
    )
    .unwrap();
    assert_eq!(target(&t, "a", "/x"), address("127.0.0.1:1"));
}

#[test]
fn idle_timeout_defaults_and_can_be_disabled() {
    let t = load(
        r#"[
              {"endpoint":"https://a/d","target":"127.0.0.1:1"},
              {"endpoint":"https://a/s","target":"127.0.0.1:1","idle_timeout":60,"fwmark":100},
              {"endpoint":"https://a/z","target":"127.0.0.1:1","idle_timeout":0}
            ]"#,
    )
    .unwrap();
    assert_eq!(
        t.match_target("a", "/d").unwrap().idle_timeout,
        Some(35_000_000_000)
    );
    let s = t.match_target("a", "/s").unwrap();
    assert_eq!(s.idle_timeout, Some(60_000_000_000));
    assert_eq!(s.fwmark, Some(100));
    assert_eq!(t.match_target("a", "/z").unwrap().idle_timeout, None);
}

#[test]
fn only_endpoint_hosts_are_served() {
    let t = load(
        r#"[
              {"endpoint":"https://Dns.example:4433/connect","target":"127.0.0.1:1"},
              {"endpoint":"https://[2001:db8::1]/x","target":"127.0.0.1:2"}
            ]"#,
    )
    .unwrap();
    let hosts = t.endpoint_hosts();
    assert_eq!(
        hosts,
        vec!["Dns.example".to_string(), "2001:db8::1".to_string()]
    );
    assert!(sni_allowed(&hosts, Some("dns.EXAMPLE")));
    assert!(sni_allowed(&hosts, Some("2001:db8::1")));
    assert!(!sni_allowed(&hosts, Some("ntp.example")));
    assert!(!sni_allowed(&hosts, Some("dns.example.")));
    assert!(!sni_allowed(&hosts, None));
}
