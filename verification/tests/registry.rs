use horizoncast::discovery::registry::preference_rank;
use horizoncast::discovery::registry::DeviceRegistry;
use horizoncast::discovery::registry::Observation;
use horizoncast::discovery::service::default_ttl;
use horizoncast::discovery::service::scan_interval;
use horizoncast::discovery::service::Publisher;
use horizoncast::pipeline::address::IpAddr;
use horizoncast::pipeline::address::Ipv4Addr;
use horizoncast::pipeline::address::Ipv6Addr;
use horizoncast::pipeline::time::Duration;
use horizoncast::pipeline::types::Protocol;

fn ip(d: u8) -> IpAddr {
    IpAddr::V4(Ipv4Addr::new(192, 168, 1, d))
}

fn zero() -> Duration {
    Duration::from_secs(0)
}

fn obs(addr: IpAddr, name: Option<&str>, proto: Protocol, port: u16) -> Observation {
    Observation {
        address: addr,
        port,
        name: name.map(str::to_string),
        stable_id: None,
        protocol: proto,
        dlna_control_url: None,
        dlna_location: None,
    }
}

fn obs_id(addr: IpAddr, name: Option<&str>, proto: Protocol, port: u16, id: &str) -> Observation {
    Observation {
        stable_id: Some(id.to_string()),
        ..obs(addr, name, proto, port)
    }
}

#[test]
fn single_observation_yields_one_device() {
    let mut reg = DeviceRegistry::new(Duration::from_secs(10));
    reg.observe(
        obs(ip(10), Some("Samsung TV"), Protocol::AirPlayMirror, 7000),
        zero(),
    );
    let devices = reg.devices();
    assert_eq!(devices.len(), 1);
    assert_eq!(devices[0].name, "Samsung TV");
    assert_eq!(devices[0].port, 7000);
    assert_eq!(devices[0].protocols, vec![Protocol::AirPlayMirror]);
}

#[test]
fn same_ip_merges_protocols_ordered_by_preference() {
    let mut reg = DeviceRegistry::new(Duration::from_secs(10));
    reg.observe(obs(ip(10), None, Protocol::Dlna, 9197), zero());
    reg.observe(
        obs(
            ip(10),
            Some("Living Room TV"),
            Protocol::AirPlayMirror,
            7000,
        ),
        Duration::from_secs(1),
    );
    let devices = reg.devices();
    assert_eq!(devices.len(), 1, "same IP must merge into one device");
    assert_eq!(devices[0].name, "Living Room TV");
    assert_eq!(
        devices[0].protocols,
        vec![Protocol::AirPlayMirror, Protocol::Dlna]
    );
}

#[test]
fn duplicate_protocol_is_not_added_twice() {
    let mut reg = DeviceRegistry::new(Duration::from_secs(10));
    reg.observe(obs(ip(10), None, Protocol::Dlna, 0), zero());
    reg.observe(obs(ip(10), None, Protocol::Dlna, 0), Duration::from_secs(1));
    assert_eq!(reg.devices()[0].protocols, vec![Protocol::Dlna]);
}

#[test]
fn good_name_is_not_overwritten_by_empty() {
    let mut reg = DeviceRegistry::new(Duration::from_secs(10));
    reg.observe(
        obs(ip(10), Some("Real Name"), Protocol::AirPlayMirror, 7000),
        zero(),
    );
    reg.observe(
        obs(ip(10), Some(""), Protocol::Dlna, 0),
        Duration::from_secs(1),
    );
    assert_eq!(reg.devices()[0].name, "Real Name");
}

#[test]
fn port_is_backfilled_when_first_sighting_had_none() {
    let mut reg = DeviceRegistry::new(Duration::from_secs(10));
    reg.observe(obs(ip(10), None, Protocol::Dlna, 0), zero());
    reg.observe(
        obs(ip(10), None, Protocol::AirPlayMirror, 7000),
        Duration::from_secs(1),
    );
    assert_eq!(reg.devices()[0].port, 7000);
}

#[test]
fn unknown_name_falls_back_to_address() {
    let mut reg = DeviceRegistry::new(Duration::from_secs(10));
    reg.observe(obs(ip(42), None, Protocol::Dlna, 9197), zero());
    assert_eq!(reg.devices()[0].name, "Unknown device (192.168.1.42)");
}

#[test]
fn expiry_removes_stale_but_keeps_fresh() {
    let mut reg = DeviceRegistry::new(Duration::from_secs(10));
    reg.observe(obs(ip(1), Some("Old"), Protocol::Dlna, 0), zero());
    reg.observe(
        obs(ip(2), Some("New"), Protocol::Dlna, 0),
        Duration::from_secs(8),
    );
    reg.expire(Duration::from_secs(12));
    let names: Vec<_> = reg.devices().into_iter().map(|d| d.name).collect();
    assert_eq!(names, vec!["New".to_string()]);
}

#[test]
fn refreshing_keeps_device_alive() {
    let mut reg = DeviceRegistry::new(Duration::from_secs(10));
    reg.observe(obs(ip(1), Some("TV"), Protocol::Dlna, 0), zero());
    reg.observe(
        obs(ip(1), Some("TV"), Protocol::Dlna, 0),
        Duration::from_secs(8),
    );
    reg.expire(Duration::from_secs(12));
    assert_eq!(reg.len(), 1);
}

#[test]
fn entry_lives_exactly_its_time() {
    let mut reg = DeviceRegistry::new(Duration::from_secs(10));
    reg.observe(obs(ip(1), None, Protocol::Dlna, 0), Duration::from_secs(2));
    reg.expire(Duration::from_secs(12));
    assert_eq!(reg.len(), 1);
    reg.expire(Duration::new(12, 1));
    assert!(reg.is_empty());
}

#[test]
fn list_ordered_airplay_before_dlna_then_by_name() {
    let mut reg = DeviceRegistry::new(Duration::from_secs(10));
    reg.observe(
        obs(ip(1), Some("Zeta DLNA"), Protocol::Dlna, 0),
        zero(),
    );
    reg.observe(
        obs(ip(2), Some("Alpha AirPlay"), Protocol::AirPlayMirror, 7000),
        zero(),
    );
    reg.observe(
        obs(ip(3), Some("Beta AirPlay"), Protocol::AirPlayMirror, 7000),
        zero(),
    );
    let names: Vec<_> = reg.devices().into_iter().map(|d| d.name).collect();
    assert_eq!(
        names,
        vec![
            "Alpha AirPlay".to_string(),
            "Beta AirPlay".to_string(),
            "Zeta DLNA".to_string(),
        ]
    );
}

#[test]
fn same_name_is_ordered_by_address() {
    let mut reg = DeviceRegistry::new(Duration::from_secs(10));
    for d in [9u8, 3, 7] {
        reg.observe(obs(ip(d), Some("TV"), Protocol::Dlna, 0), zero());
    }
    let addresses: Vec<_> = reg.devices().into_iter().map(|d| d.address).collect();
    assert_eq!(addresses, vec![ip(3), ip(7), ip(9)]);
}

#[test]
fn control_url_is_captured_and_kept() {
    let mut reg = DeviceRegistry::new(Duration::from_secs(10));
    reg.observe(obs(ip(10), None, Protocol::Dlna, 9197), zero());
    let enriched = Observation {
        name: Some("Samsung TV".into()),
        dlna_control_url: Some("http://192.168.1.10:9197/upnp/control/AVTransport1".into()),
        ..obs(ip(10), None, Protocol::Dlna, 0)
    };
    reg.observe(enriched, Duration::from_secs(1));
    let d = &reg.devices()[0];
    assert_eq!(d.name, "Samsung TV");
    assert_eq!(
        d.dlna_control_url.as_deref(),
        Some("http://192.168.1.10:9197/upnp/control/AVTransport1")
    );
}

#[test]
fn same_device_on_ipv4_and_ipv6_coalesces_with_ipv4_primary() {
    // Mirrors the real-hardware case: one TV seen on IPv4 (AirPlay + DLNA) and on
    // its IPv6 link-local (AirPlay), sharing one mDNS instance name.
    let mut reg = DeviceRegistry::new(Duration::from_secs(30));
    let v4 = IpAddr::V4(Ipv4Addr::new(192, 168, 1, 158));
    let v6 = IpAddr::V6(Ipv6Addr::new(
        0xfe80, 0, 0, 0, 0x96e6, 0xbaff, 0xfe1d, 0xe02a,
    ));
    let mdns = "55\" Crystal UHD._airplay._tcp.local.";

    reg.observe(
        obs_id(
            v4,
            Some("55\" Crystal UHD"),
            Protocol::AirPlayMirror,
            7000,
            mdns,
        ),
        zero(),
    );
    reg.observe(
        obs_id(
            v6,
            Some("55\" Crystal UHD"),
            Protocol::AirPlayMirror,
            7000,
            mdns,
        ),
        zero(),
    );
    // DLNA on the IPv4 address carries a different identity (the SSDP USN).
    reg.observe(
        obs_id(v4, None, Protocol::Dlna, 9197, "uuid:abcd-1234"),
        Duration::from_secs(1),
    );

    let devices = reg.devices();
    assert_eq!(devices.len(), 1, "one physical TV, not multiple entries");
    assert_eq!(devices[0].address, v4, "primary must be the routable IPv4");
    assert_eq!(
        devices[0].protocols,
        vec![Protocol::AirPlayMirror, Protocol::Dlna]
    );
    assert_eq!(devices[0].name, "55\" Crystal UHD");
}

#[test]
fn coalescing_is_order_independent() {
    // DLNA (USN) seen on IPv4 *before* mDNS still groups with the IPv6 mDNS entry.
    let mut reg = DeviceRegistry::new(Duration::from_secs(30));
    let v4 = IpAddr::V4(Ipv4Addr::new(10, 0, 0, 5));
    let v6 = IpAddr::V6(Ipv6Addr::new(0xfe80, 0, 0, 0, 0, 0, 0, 1));
    let mdns = "TV._airplay._tcp.local.";

    reg.observe(obs_id(v4, None, Protocol::Dlna, 9197, "uuid:x"), zero());
    reg.observe(
        obs_id(v4, Some("TV"), Protocol::AirPlayMirror, 7000, mdns),
        zero(),
    );
    reg.observe(
        obs_id(v6, Some("TV"), Protocol::AirPlayMirror, 7000, mdns),
        zero(),
    );
    assert_eq!(reg.devices().len(), 1);
}

#[test]
fn chains_of_identities_make_one_device() {
    // 1 and 2 share A, 3 and 4 share B, 2 and 4 share C: all four belong together.
    let mut reg = DeviceRegistry::new(Duration::from_secs(30));
    for (d, id) in [(1u8, "A"), (2, "A"), (3, "B"), (4, "B"), (2, "C"), (4, "C")] {
        reg.observe(obs_id(ip(d), None, Protocol::Dlna, 0, id), zero());
    }
    reg.observe(obs_id(ip(5), None, Protocol::Cast, 0, "D"), zero());
    let devices = reg.devices();
    assert_eq!(devices.len(), 2);
    assert_eq!(devices[0].address, ip(5));
    assert_eq!(devices[0].id, "D");
    assert_eq!(devices[1].address, ip(1));
    assert_eq!(devices[1].id, "A", "the least identity is the id");
}

#[test]
fn distinct_devices_are_not_coalesced() {
    let mut reg = DeviceRegistry::new(Duration::from_secs(30));
    reg.observe(
        obs_id(
            ip(1),
            Some("TV A"),
            Protocol::AirPlayMirror,
            7000,
            "A._airplay._tcp.local.",
        ),
        zero(),
    );
    reg.observe(
        obs_id(
            ip(2),
            Some("TV B"),
            Protocol::AirPlayMirror,
            7000,
            "B._airplay._tcp.local.",
        ),
        zero(),
    );
    assert_eq!(reg.devices().len(), 2);
}

#[test]
fn merged_device_takes_the_first_details_by_address() {
    let mut reg = DeviceRegistry::new(Duration::from_secs(30));
    let loopback = IpAddr::V4(Ipv4Addr::new(127, 0, 0, 1));
    let link_local = IpAddr::V6(Ipv6Addr::new(0xfebf, 0, 0, 0, 0, 0, 0, 9));
    let global = IpAddr::V6(Ipv6Addr::new(0x2001, 0xdb8, 0, 0, 0, 0, 0, 9));
    reg.observe(
        Observation {
            dlna_location: Some("http://loop/".into()),
            ..obs_id(loopback, None, Protocol::Dlna, 1, "X")
        },
        zero(),
    );
    reg.observe(
        Observation {
            dlna_location: Some("http://link/".into()),
            ..obs_id(link_local, Some("Link"), Protocol::Miracast, 2, "X")
        },
        zero(),
    );
    reg.observe(
        obs_id(global, Some("Global"), Protocol::AirPlayVideo, 3, "X"),
        zero(),
    );
    let devices = reg.devices();
    assert_eq!(devices.len(), 1);
    let d = &devices[0];
    assert_eq!(d.address, global, "global IPv6 beats link-local and loopback");
    assert_eq!(d.port, 3);
    assert_eq!(d.name, "Global", "2001:db8::9 is below febf::9");
    assert_eq!(d.dlna_location.as_deref(), Some("http://loop/"));
    assert_eq!(d.dlna_control_url, None);
    assert_eq!(
        d.protocols,
        vec![
            Protocol::AirPlayVideo,
            Protocol::Miracast,
            Protocol::Dlna
        ]
    );
}

#[test]
fn one_device_per_group_in_any_order() {
    let sightings = [
        obs_id(ip(1), Some("A"), Protocol::Dlna, 1, "x"),
        obs_id(ip(2), None, Protocol::AirPlayMirror, 2, "x"),
        obs_id(ip(2), None, Protocol::Dlna, 2, "y"),
        obs_id(ip(3), Some("B"), Protocol::Cast, 3, "y"),
        obs(ip(4), Some("C"), Protocol::Dlna, 4),
        obs_id(ip(5), Some("D"), Protocol::Miracast, 5, "z"),
        obs(ip(6), None, Protocol::Dlna, 6),
    ];
    for turn in 0..sightings.len() {
        let mut reg = DeviceRegistry::new(Duration::from_secs(30));
        assert!(reg.devices().is_empty() && reg.is_empty());
        for i in 0..sightings.len() {
            let k = (i * 3 + turn) % sightings.len();
            reg.observe(sightings[k].clone(), zero());
        }
        let list = reg.devices();
        // 1, 2 and 3 are one device; 4, 5 and 6 are one each.
        assert_eq!(list.len(), 4);
        assert_eq!(reg.len(), 6);
        for (i, d) in list.iter().enumerate() {
            assert!(!d.protocols.is_empty());
            assert!(d
                .protocols
                .windows(2)
                .all(|w| preference_rank(w[0]) < preference_rank(w[1])));
            assert!(list[i + 1..].iter().all(|o| o.address != d.address));
        }
        assert_eq!(list[0].address, ip(1));
        assert_eq!(list[0].name, "A");
        assert_eq!(list[0].id, "x");
        assert_eq!(list, reg.devices());
    }
}

#[test]
fn merging_a_group_does_not_depend_on_its_order() {
    let link_local = IpAddr::V6(Ipv6Addr::new(0xfe80, 0, 0, 0, 0, 0, 0, 1));
    let global = IpAddr::V6(Ipv6Addr::new(0x2001, 0xdb8, 0, 0, 0, 0, 0, 1));
    let loopback = IpAddr::V4(Ipv4Addr::new(127, 0, 0, 1));
    let mut reg = DeviceRegistry::new(Duration::from_secs(30));
    reg.observe(obs(ip(9), None, Protocol::Dlna, 9), zero());
    reg.observe(obs_id(link_local, Some("L"), Protocol::Cast, 1, "b"), zero());
    reg.observe(obs_id(global, Some("G"), Protocol::AirPlayMirror, 2, "a"), zero());
    reg.observe(obs(loopback, None, Protocol::Dlna, 3), zero());

    let d = reg.merge_group(&[link_local, ip(9), loopback, global]);
    assert_eq!(d, reg.merge_group(&[global, loopback, ip(9), link_local]));
    assert_eq!((d.address, d.port), (ip(9), 9));
    assert_eq!(d.id, "a");
    assert_eq!(d.name, "G"); // 2001:db8::1 comes before fe80::1
    assert_eq!(
        d.protocols,
        vec![Protocol::AirPlayMirror, Protocol::Cast, Protocol::Dlna]
    );
    assert_eq!(reg.merge_group(&[loopback, link_local]).address, link_local);
    assert_eq!(reg.merge_group(&[link_local, global]).address, global);
    assert_eq!(reg.merge_group(&[loopback]).name, "Unknown device (127.0.0.1)");
    assert_eq!(reg.merge_group(&[loopback]).id, "127.0.0.1");
}

#[test]
fn preference_rank_orders_low_latency_first() {
    assert!(preference_rank(Protocol::AirPlayMirror) < preference_rank(Protocol::AirPlayVideo));
    assert!(preference_rank(Protocol::AirPlayVideo) < preference_rank(Protocol::Dlna));
    assert!(preference_rank(Protocol::Cast) < preference_rank(Protocol::Dlna));
}

#[test]
fn empty_registry_reports_empty() {
    let reg = DeviceRegistry::new(Duration::from_secs(10));
    assert!(reg.is_empty());
    assert_eq!(reg.len(), 0);
    assert!(reg.devices().is_empty());
}

#[test]
fn publisher_publishes_only_changes() {
    let mut reg = DeviceRegistry::new(default_ttl());
    let mut publisher = Publisher::new();
    assert!(publisher.end_pass(&mut reg, scan_interval()).is_none());
    reg.observe(obs(ip(1), Some("TV"), Protocol::Dlna, 0), Duration::from_secs(4));
    let list = publisher.end_pass(&mut reg, Duration::from_secs(6)).unwrap();
    assert_eq!(list.len(), 1);
    assert!(publisher.end_pass(&mut reg, Duration::from_secs(9)).is_none());
    // Fifteen seconds after its last sighting the device is still there, and then it is gone.
    assert!(publisher.end_pass(&mut reg, Duration::from_secs(19)).is_none());
    let list = publisher.end_pass(&mut reg, Duration::from_secs(20)).unwrap();
    assert!(list.is_empty());
}

#[test]
fn address_texts() {
    let v6 = |s: [u16; 8]| {
        IpAddr::V6(Ipv6Addr::new(s[0], s[1], s[2], s[3], s[4], s[5], s[6], s[7])).to_text()
    };
    assert_eq!(ip(10).to_text(), "192.168.1.10");
    assert_eq!(v6([0; 8]), "::");
    assert_eq!(v6([0, 0, 0, 0, 0, 0, 0, 1]), "::1");
    assert_eq!(v6([0xfe80, 0, 0, 0, 0, 0, 0, 1]), "fe80::1");
    assert_eq!(v6([1, 0, 2, 0, 0, 3, 0, 0]), "1:0:2::3:0:0");
    assert_eq!(v6([1, 0, 2, 3, 4, 5, 6, 7]), "1:0:2:3:4:5:6:7");
    assert_eq!(v6([0x2001, 0xdb8, 0, 0, 0, 0, 0xab, 0]), "2001:db8::ab:0");
    assert_eq!(v6([0, 0, 0, 0, 0, 0xffff, 0xc0a8, 0x010a]), "::ffff:192.168.1.10");
    assert_eq!(v6([0xabcd, 0x10, 0, 1, 2, 3, 0, 0]), "abcd:10:0:1:2:3::");
}

#[test]
fn address_order() {
    let low = IpAddr::V4(Ipv4Addr::new(9, 255, 255, 255));
    let high = IpAddr::V4(Ipv4Addr::new(10, 0, 0, 0));
    let v6 = IpAddr::V6(Ipv6Addr::new(0, 0, 0, 0, 0, 0, 0, 0));
    assert!(low.precedes(&high) && !high.precedes(&low));
    assert!(high.precedes(&v6) && !v6.precedes(&high));
    assert!(!low.precedes(&low));
}
