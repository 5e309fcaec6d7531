use node_controller::interface::{
    get_best_interface, rank_interfaces, select_interfaces, AddressCandidate, InterfaceError,
    InterfaceType, NetworkInterface,
};

fn cand(name: &str, ip: &str, loopback: bool) -> AddressCandidate {
    AddressCandidate {
        name: name.to_string(),
        ip: ip.to_string(),
        is_loopback_address: loopback,
        is_unspecified: false,
        is_multicast: false,
    }
}

#[test]
fn bridge_outranks_the_rest() {
    let c = vec![
        cand("lo", "127.0.0.1", true),
        cand("en0", "192.168.1.2", false),
        cand("en5", "169.254.3.4", false),
        cand("wl0", "192.168.1.3", false),
    ];
    let ranked = select_interfaces(&c);
    let names: Vec<&str> = ranked.iter().map(|i| i.name.as_str()).collect();
    assert_eq!(names, vec!["en5", "en0", "wl0", "lo"]);
    let best = get_best_interface(&ranked).unwrap();
    assert_eq!(best.name, "en5");
    assert_eq!(best.interface_type, InterfaceType::Thunderbolt);
    assert_eq!(best.priority, 100);
}

#[test]
fn classification_by_name() {
    let t = NetworkInterface::detect_interface_type;
    assert_eq!(t("lo0", false), InterfaceType::Loopback);
    assert_eq!(t("xyz", true), InterfaceType::Loopback);
    assert_eq!(t("bridge0", false), InterfaceType::Thunderbolt);
    assert_eq!(t("thunderbolt1", false), InterfaceType::Thunderbolt);
    assert_eq!(t("en6", false), InterfaceType::Thunderbolt);
    assert_eq!(t("eth0", false), InterfaceType::Ethernet);
    assert_eq!(t("wlan0", false), InterfaceType::Wifi);
    assert_eq!(t("wi-fi", false), InterfaceType::Wifi);
    assert_eq!(t("utun3", false), InterfaceType::Other);
}

#[test]
fn unusable_addresses_are_skipped() {
    let mut m = cand("eth0", "224.0.0.1", false);
    m.is_multicast = true;
    let mut u = cand("eth1", "0.0.0.0", false);
    u.is_unspecified = true;
    let r = select_interfaces(&vec![m, u, cand("eth2", "10.0.0.2", false)]);
    assert_eq!(r.len(), 1);
    assert_eq!(r[0].name, "eth2");
    assert_eq!(r[0].ip, "10.0.0.2");
}

#[test]
fn ranking_keeps_order_among_equals() {
    let l = vec![
        NetworkInterface::new("a".into(), "1".into(), InterfaceType::Wifi),
        NetworkInterface::new("b".into(), "2".into(), InterfaceType::Ethernet),
        NetworkInterface::new("c".into(), "3".into(), InterfaceType::Wifi),
        NetworkInterface::new("d".into(), "4".into(), InterfaceType::Other),
    ];
    let r = rank_interfaces(&l);
    let names: Vec<&str> = r.iter().map(|i| i.name.as_str()).collect();
    assert_eq!(names, vec!["b", "a", "c", "d"]);
    assert_eq!(InterfaceType::Wifi.priority(), 60);
    assert_eq!(InterfaceType::Loopback.priority(), 10);
    assert_eq!(InterfaceType::Other.priority(), 1);
}

#[test]
fn only_loopback_means_none() {
    let r = select_interfaces(&vec![cand("lo", "127.0.0.1", true)]);
    assert_eq!(get_best_interface(&r).unwrap_err(), InterfaceError::NoInterfaceAvailable);
    assert_eq!(get_best_interface(&vec![]).unwrap_err(), InterfaceError::NoInterfaceAvailable);
}
