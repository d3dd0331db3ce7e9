use statmon::interface::{Class, Interface, Probe};
use statmon::netlink::{IfModMsg, IPADD, IPRMV};
use statmon::network::{ConnStat, NetError, Network};

fn probe(name: &str, flags: u32, index: i32, wireless: bool, ipv4: u32) -> Probe {
    Probe { name: String::from(name), flags, index, wireless, ipv4 }
}

#[test]
fn enumeration_excludes_loopback_and_noarp() {
    let probes = vec![
        probe("lo", 0x8, 1, false, 0x0100007F),
        probe("eth0", 0x1, 2, false, 0),
        probe("dummy0", 0x80, 3, false, 0),
    ];
    let ifaces = statmon::interface::list(&probes);
    assert_eq!(ifaces.len(), 1);
    assert_eq!(ifaces[0].index, 2);
}

#[test]
fn enumeration_deduplicates_by_name() {
    // the address table yields one entry per address family
    let probes = vec![
        probe("eth0", 0, 2, false, 5),
        probe("eth0", 0, 2, false, 5),
        probe("wlan0", 0, 3, true, 0),
    ];
    let ifaces = statmon::interface::list(&probes);
    assert_eq!(ifaces.len(), 2);
    assert_eq!(ifaces[0].index, 2);
    assert!(matches!(ifaces[0].class, Class::Eth));
    assert_eq!(ifaces[1].index, 3);
    assert!(matches!(ifaces[1].class, Class::Wlan));
}

#[test]
fn classification_follows_the_wireless_query_outcome() {
    assert!(matches!(Interface::classify(true), Class::Wlan));
    assert!(matches!(Interface::classify(false), Class::Eth));
    // same outcome, same class, every call
    assert_eq!(Interface::classify(true), Interface::classify(true));
    assert_eq!(Interface::classify(false), Interface::classify(false));
}

#[test]
fn running_means_having_an_address() {
    let up = Interface::new(2, false, 0x0100007F);
    let down = Interface::new(2, false, 0);
    assert!(up.is_running());
    assert!(!down.is_running());
}

#[test]
fn display_filter_checks_the_two_flags() {
    assert!(Interface::can_display(0));
    assert!(Interface::can_display(0x1 | 0x40));
    assert!(!Interface::can_display(0x8));
    assert!(!Interface::can_display(0x80));
    assert!(!Interface::can_display(0x88));
}

#[test]
fn conn_stat_bits() {
    let mut c = ConnStat::new();
    assert!(c.is_off());
    assert!(!c.is_wired());
    assert!(!c.is_wireless());
    c.set_wired();
    assert!(c.is_wired());
    assert!(!c.is_wireless());
    assert!(!c.is_off());
    c.set_wireless();
    assert!(c.is_wired());
    assert!(c.is_wireless());
    c.reset();
    assert!(c.is_off());
}

#[test]
fn add_then_matching_remove_clears_the_address() {
    let mut net = Network::new(vec![Interface::new(3, false, 0)]);
    let add = vec![IfModMsg { devidx: 3, modop: IPADD, ipv4: 0x0100007F }];
    assert_eq!(net.update(&add), Ok(true));
    assert_eq!(net.ifaces()[0].ipv4, 0x0100007F);
    assert!(net.ifaces()[0].is_running());
    let rmv = vec![IfModMsg { devidx: 3, modop: IPRMV, ipv4: 0x0100007F }];
    assert_eq!(net.update(&rmv), Ok(true));
    assert_eq!(net.ifaces()[0].ipv4, 0);
    assert!(!net.ifaces()[0].is_running());
}

#[test]
fn mismatched_remove_is_fatal_and_changes_nothing() {
    let a = 0x0A000001u32;
    let b = 0x0A000002u32;
    let mut net = Network::new(vec![Interface::new(3, false, a)]);
    let rmv = vec![IfModMsg { devidx: 3, modop: IPRMV, ipv4: b }];
    assert_eq!(net.update(&rmv), Err(NetError::Desync));
    assert_eq!(net.ifaces()[0].ipv4, a);
    assert!(net.status().is_wired());
}

#[test]
fn unknown_operation_is_fatal() {
    let mut net = Network::new(vec![Interface::new(3, false, 0)]);
    let msgs = vec![IfModMsg { devidx: 3, modop: 9, ipv4: 1 }];
    assert_eq!(net.update(&msgs), Err(NetError::InvalidOp(9)));
}

#[test]
fn events_for_untracked_indices_are_dropped() {
    let mut net = Network::new(vec![Interface::new(3, false, 0)]);
    let msgs = vec![IfModMsg { devidx: 1, modop: IPRMV, ipv4: 77 }];
    assert_eq!(net.update(&msgs), Ok(false));
    assert_eq!(net.ifaces()[0].ipv4, 0);
}

#[test]
fn latest_add_wins() {
    let mut net = Network::new(vec![Interface::new(3, false, 0)]);
    let msgs = vec![
        IfModMsg { devidx: 3, modop: IPADD, ipv4: 1 },
        IfModMsg { devidx: 3, modop: IPADD, ipv4: 2 },
    ];
    assert_eq!(net.update(&msgs), Ok(true));
    assert_eq!(net.ifaces()[0].ipv4, 2);
}

#[test]
fn empty_batch_means_no_data_yet() {
    let mut net = Network::new(vec![Interface::new(3, true, 9)]);
    assert_eq!(net.update(&Vec::new()), Ok(false));
    assert!(net.status().is_wireless());
}

#[test]
fn summary_reflects_running_interfaces_per_class() {
    let net = Network::new(vec![
        Interface::new(2, false, 5),
        Interface::new(3, true, 0),
    ]);
    assert!(net.status().is_wired());
    assert!(!net.status().is_wireless());
    assert!(!net.status().is_off());

    let net2 = Network::new(vec![
        Interface::new(2, false, 0),
        Interface::new(3, true, 0),
    ]);
    assert!(net2.status().is_off());
}

#[test]
fn update_reports_summary_changes_only() {
    let mut net = Network::new(vec![
        Interface::new(2, false, 5),
        Interface::new(4, false, 0),
    ]);
    assert!(net.status().is_wired());
    // a second wired interface coming up does not change the summary
    let msgs = vec![IfModMsg { devidx: 4, modop: IPADD, ipv4: 8 }];
    assert_eq!(net.update(&msgs), Ok(false));
    assert_eq!(net.ifaces()[1].ipv4, 8);
}
