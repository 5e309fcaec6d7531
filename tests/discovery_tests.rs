use node_controller::discovery::{
    advertised_host_name, advertisement_properties, interface_type_label, lookup_property,
    unique_service_name, NodeInfo, PeerRegistry, AGENT_VERSION, EXPIRY_MILLIS,
};
use node_controller::ident::new_identifier;
use node_controller::interface::{InterfaceType, NetworkInterface};

fn node(id: &str, name: &str, ip: &str) -> NodeInfo {
    NodeInfo {
        id: id.to_string(),
        name: name.to_string(),
        ip: ip.to_string(),
        port: 54321,
        interface_type: "Ethernet".to_string(),
        capabilities: vec!["discovery".to_string()],
        version: "0.1.0".to_string(),
    }
}

fn ids(v: &[NodeInfo]) -> Vec<String> {
    let mut r: Vec<String> = v.iter().map(|n| n.id.clone()).collect();
    r.sort();
    r
}

#[test]
fn stale_peer_expires() {
    let mut reg = PeerRegistry::new("me".to_string());
    reg.observe(node("a", "alpha", "10.0.0.1"), 0);
    reg.observe(node("b", "beta", "10.0.0.2"), 0);
    assert_eq!(ids(&reg.get_discovered_nodes(EXPIRY_MILLIS)), vec!["a", "b"]);
    assert_eq!(ids(&reg.get_discovered_nodes(EXPIRY_MILLIS + 1)), Vec::<String>::new());
}

#[test]
fn refreshed_peer_stays() {
    let mut reg = PeerRegistry::new("me".to_string());
    let mut t = 0u64;
    for _ in 0..20 {
        reg.observe(node("a", "alpha", "10.0.0.1"), t);
        t += 50_000;
        assert_eq!(ids(&reg.get_discovered_nodes(t)), vec!["a"]);
    }
    assert_eq!(ids(&reg.get_discovered_nodes(t + 71_000)), Vec::<String>::new());
}

#[test]
fn clock_before_last_seen_counts_as_fresh() {
    let mut reg = PeerRegistry::new("me".to_string());
    reg.observe(node("a", "alpha", "10.0.0.1"), 500_000);
    assert_eq!(ids(&reg.get_discovered_nodes(1)), vec!["a"]);
}

#[test]
fn local_node_is_never_listed() {
    let mut reg = PeerRegistry::new("me".to_string());
    reg.observe(node("me", "self", "10.0.0.9"), 0);
    assert!(reg.nodes().is_empty());
}

#[test]
fn changed_address_replaces_entry() {
    let mut reg = PeerRegistry::new("me".to_string());
    reg.observe(node("a", "alpha", "10.0.0.1"), 0);
    reg.observe(node("a", "alpha", "10.0.0.7"), 10);
    let n = reg.nodes();
    assert_eq!(n.len(), 1);
    assert_eq!(n[0].ip, "10.0.0.7");
}

#[test]
fn withdrawn_service_removes_named_peer() {
    let mut reg = PeerRegistry::new("me".to_string());
    reg.observe(node("a", "alpha", "10.0.0.1"), 0);
    reg.observe(node("b", "beta", "10.0.0.2"), 0);
    reg.remove_service("alpha_1234._node-controller._tcp.local.");
    assert_eq!(ids(&reg.nodes()), vec!["b"]);
}

fn prop(k: &str, v: &str) -> (String, Option<Vec<u8>>) {
    (k.to_string(), Some(v.as_bytes().to_vec()))
}

#[test]
fn advertisement_is_parsed() {
    let props = vec![
        prop("id", "n1"),
        prop("name", "alpha"),
        prop("interface_type", "Wifi"),
        prop("capabilities", "discovery,transfer"),
        prop("version", "0.1.0"),
        ("name".to_string(), Some(vec![0xff])),
        ("extra".to_string(), None),
    ];
    let n = NodeInfo::from_service_info(Some("10.1.1.1".to_string()), 7000, &props).unwrap();
    assert_eq!(n.id, "n1");
    assert_eq!(n.name, "alpha");
    assert_eq!(n.ip, "10.1.1.1");
    assert_eq!(n.port, 7000);
    assert_eq!(n.interface_type, "Wifi");
    assert_eq!(n.capabilities, vec!["discovery".to_string(), "transfer".to_string()]);
    assert_eq!(n.version, "0.1.0");
}

#[test]
fn malformed_advertisement_is_ignored() {
    let props = vec![prop("id", "n1"), prop("name", "alpha"), prop("version", "0.1.0")];
    assert!(NodeInfo::from_service_info(Some("10.1.1.1".to_string()), 1, &props).is_none());
    let full = vec![
        prop("id", "n1"),
        prop("name", "alpha"),
        prop("interface_type", "Wifi"),
        prop("capabilities", ""),
        prop("version", "0.1.0"),
    ];
    assert!(NodeInfo::from_service_info(None, 1, &full).is_none());
    let n = NodeInfo::from_service_info(Some("h".to_string()), 1, &full).unwrap();
    assert_eq!(n.capabilities, vec!["".to_string()]);
}

#[test]
fn last_valid_property_wins() {
    let props = vec![prop("k", "one"), prop("k", "two"), ("k".to_string(), Some(vec![0xc3]))];
    assert_eq!(lookup_property(&props, "k"), Some("two".to_string()));
    assert_eq!(lookup_property(&props, "missing"), None);
}

#[test]
fn advertisement_round_trip() {
    let mut n = node("n1", "alpha", "10.0.0.1");
    n.capabilities = vec!["discovery".to_string(), "transfer".to_string()];
    let props = advertisement_properties(&n);
    let keys: Vec<&str> = props.iter().map(|p| p.0.as_str()).collect();
    assert_eq!(keys, vec!["id", "name", "interface_type", "capabilities", "version"]);
    assert_eq!(props[3].1, "discovery,transfer");
    let raw: Vec<(String, Option<Vec<u8>>)> =
        props.iter().map(|(k, v)| (k.clone(), Some(v.as_bytes().to_vec()))).collect();
    let back = NodeInfo::from_service_info(Some(n.ip.clone()), n.port, &raw).unwrap();
    assert_eq!(back.id, n.id);
    assert_eq!(back.capabilities, n.capabilities);
}

#[test]
fn local_identity() {
    let iface = NetworkInterface::new("en5".into(), "169.254.1.1".into(), InterfaceType::Thunderbolt);
    let n = NodeInfo::new("alpha".to_string(), &iface, 54321);
    assert_eq!(n.id.len(), 36);
    assert_eq!(n.ip, "169.254.1.1");
    assert_eq!(n.interface_type, "Thunderbolt");
    assert_eq!(n.capabilities, vec!["discovery".to_string()]);
    assert_eq!(n.version, AGENT_VERSION);
    let other = NodeInfo::new("alpha".to_string(), &iface, 54321);
    assert_ne!(n.id, other.id);
    assert_eq!(interface_type_label(InterfaceType::Wifi), "Wifi");
}

#[test]
fn service_names_are_unique() {
    let a = unique_service_name("alpha");
    let b = unique_service_name("alpha");
    assert_ne!(a, b);
    assert!(a.starts_with("alpha_"));
    assert_eq!(a.len(), 5 + 1 + 36);
    assert_eq!(advertised_host_name(&"10.0.0.1".to_string()), "10.0.0.1.local.");
    let id = new_identifier();
    let dashes: Vec<usize> = id.char_indices().filter(|(_, c)| *c == '-').map(|(i, _)| i).collect();
    assert_eq!(dashes, vec![8, 13, 18, 23]);
}
