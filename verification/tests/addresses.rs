use kaboodle::addr::{sort_addrs, IpAddr, SocketAddr};
use kaboodle::errors::KaboodleError;
use kaboodle::networking::{
    best_available_interface, choose_interface, create_broadcast_sockets, get_interface,
    my_ipv4_addrs, non_loopback_interfaces, Interface, MULTICAST_IP,
};

fn v4(a: u32, b: u32, c: u32, d: u32) -> u32 {
    a * 0x100_0000 + b * 0x1_0000 + c * 0x100 + d
}

fn v6(groups: [u128; 8]) -> u128 {
    let mut ip: u128 = 0;
    for group in groups {
        ip = ip * 0x1_0000 + group;
    }
    ip
}

fn interface(name: &str, ip: IpAddr, index: Option<u32>) -> Interface {
    Interface { name: name.to_string(), ip, index }
}

fn host() -> Vec<Interface> {
    vec![
        interface("lo", IpAddr::V4(v4(127, 0, 0, 1)), Some(1)),
        interface("lo", IpAddr::V6(1), Some(1)),
        interface("en0", IpAddr::V4(v4(192, 168, 1, 7)), Some(2)),
        interface("en0", IpAddr::V6(v6([0xfe80, 0, 0, 0, 0, 0, 0, 5])), Some(2)),
        interface("en1", IpAddr::V4(v4(10, 0, 0, 7)), None),
        interface("en1", IpAddr::V6(v6([0xfe80, 0, 0, 0, 0, 0, 0, 6])), None),
    ]
}

#[test]
fn ipv4_addresses_in_words() {
    assert_eq!(IpAddr::V4(0).to_string(), "0.0.0.0");
    assert_eq!(IpAddr::V4(v4(255, 255, 255, 255)).to_string(), "255.255.255.255");
    assert_eq!(IpAddr::V4(v4(192, 168, 10, 1)).to_string(), "192.168.10.1");
    let addr = SocketAddr::V4 { ip: v4(10, 0, 0, 1), port: 7475 };
    assert_eq!(addr.to_string(), "10.0.0.1:7475");
}

#[test]
fn ipv6_addresses_in_words() {
    assert_eq!(IpAddr::V6(0).to_string(), "::");
    assert_eq!(IpAddr::V6(1).to_string(), "::1");
    assert_eq!(IpAddr::V6(v6([0xfe80, 0, 0, 0, 0, 0, 0, 0])).to_string(), "fe80::");
    assert_eq!(
        IpAddr::V6(v6([0x2001, 0xdb8, 0, 0, 1, 0, 0, 0])).to_string(),
        "2001:db8:0:0:1::"
    );
    assert_eq!(
        IpAddr::V6(v6([0x2001, 0xdb8, 0, 0, 1, 0, 0, 2])).to_string(),
        "2001:db8::1:0:0:2"
    );
    assert_eq!(
        IpAddr::V6(v6([1, 0, 3, 4, 5, 6, 7, 8])).to_string(),
        "1:0:3:4:5:6:7:8"
    );
    assert_eq!(
        IpAddr::V6(v6([0, 0, 0, 0, 0, 0xffff, 0xc0a8, 0x0a01])).to_string(),
        "::ffff:192.168.10.1"
    );
    assert_eq!(IpAddr::V6(MULTICAST_IP).to_string(), "ff02::1213:1989");
}

#[test]
fn addresses_in_full() {
    assert_eq!(IpAddr::V4(v4(10, 0, 0, 7)).to_full_string(), "10.0.0.7");
    assert_eq!(IpAddr::V4(v4(10, 0, 0, 7)).to_uncompressed_string(), "10.0.0.7");
    let ip = IpAddr::V6(v6([0x2001, 0xdb8, 0, 0, 1, 0xab, 0xabc, 0xffff]));
    assert_eq!(ip.to_uncompressed_string(), "2001:db8:0:0:1:ab:abc:ffff");
    assert_eq!(ip.to_full_string(), "2001:0db8:0000:0000:0001:00ab:0abc:ffff");
}

#[test]
fn ipv6_endpoints_in_words() {
    let ip = v6([0xfe80, 0, 0, 0, 0, 0, 0, 1]);
    let plain = SocketAddr::V6 { ip, port: 80, flowinfo: 9, scope_id: 0 };
    assert_eq!(plain.to_string(), "[fe80::1]:80");
    let scoped = SocketAddr::V6 { ip, port: 9000, flowinfo: 0, scope_id: 12 };
    assert_eq!(scoped.to_string(), "[fe80::1%12]:9000");
}

#[test]
fn addresses_are_put_in_order() {
    let a = SocketAddr::V4 { ip: 9, port: 1 };
    let b = SocketAddr::V4 { ip: 10, port: 0 };
    let c = SocketAddr::V4 { ip: 10, port: 1 };
    let d = SocketAddr::V6 { ip: 1, port: 1, flowinfo: 0, scope_id: 0 };
    let e = SocketAddr::V6 { ip: 1, port: 1, flowinfo: 0, scope_id: 1 };
    let f = SocketAddr::V6 { ip: 1, port: 1, flowinfo: 1, scope_id: 0 };
    let g = SocketAddr::V6 { ip: 1, port: 2, flowinfo: 0, scope_id: 0 };
    let sorted = sort_addrs(&vec![g, c, e, a, f, b, d]);
    assert_eq!(sorted, vec![a, b, c, d, e, f, g]);
    assert!(a.precedes(&d) && !d.precedes(&a) && !a.precedes(&a));
}

#[test]
fn loopback_interfaces_are_left_out() {
    let found = non_loopback_interfaces(&host());
    let names: Vec<String> = found.iter().map(|i| i.ip.to_string()).collect();
    assert_eq!(names, vec!["192.168.1.7", "fe80::5", "10.0.0.7", "fe80::6"]);
    let odd = interface("lo2", IpAddr::V4(v4(127, 9, 9, 9)), None);
    assert!(odd.is_loopback());
    assert!(non_loopback_interfaces(&vec![odd]).is_empty());
}

#[test]
fn the_best_interface_is_the_first_with_ipv6() {
    let best = best_available_interface(&host()).unwrap();
    assert_eq!(best.ip.to_string(), "fe80::5");
    let only_v4: Vec<Interface> =
        host().into_iter().filter(|i| matches!(i.ip, IpAddr::V4(_))).collect();
    assert_eq!(best_available_interface(&only_v4).unwrap().ip.to_string(), "192.168.1.7");
    let loopback: Vec<Interface> = host().into_iter().take(2).collect();
    assert!(matches!(
        best_available_interface(&loopback),
        Err(KaboodleError::NoAvailableInterfaces)
    ));
}

#[test]
fn a_preferred_interface_is_used() {
    let preferred = interface("lo", IpAddr::V4(v4(127, 0, 0, 1)), None);
    let chosen = choose_interface(Some(preferred), &host()).unwrap();
    assert_eq!(chosen.name, "lo");
    assert_eq!(choose_interface(None, &host()).unwrap().name, "en0");
    assert!(matches!(
        choose_interface(None, &vec![]),
        Err(KaboodleError::NoAvailableInterfaces)
    ));
}

#[test]
fn interfaces_are_found_by_kind_address_or_name() {
    assert_eq!(get_interface(&host(), "ipv4").unwrap().ip.to_string(), "192.168.1.7");
    assert_eq!(get_interface(&host(), "ipv6").unwrap().ip.to_string(), "fe80::5");
    assert_eq!(get_interface(&host(), "en1").unwrap().ip.to_string(), "10.0.0.7");
    assert_eq!(get_interface(&host(), "fe80::6").unwrap().name, "en1");
    assert!(get_interface(&host(), "127.0.0.1").is_none());
    assert_eq!(get_interface(&host(), "fe80:0:0:0:0:0:0:6").unwrap().name, "en1");
    assert_eq!(
        get_interface(&host(), "fe80:0000:0000:0000:0000:0000:0000:0006").unwrap().name,
        "en1"
    );
    assert!(get_interface(&host(), "fe80:0:0:0:0:0:0:7").is_none());
    assert!(get_interface(&host(), "lo").is_none());
}

#[test]
fn ipv4_addresses_of_the_host() {
    assert_eq!(my_ipv4_addrs(&host()), vec![v4(192, 168, 1, 7), v4(10, 0, 0, 7)]);
}

#[test]
fn sockets_for_ipv4() {
    let sockets = create_broadcast_sockets(&host()[4], &7475).unwrap();
    assert_eq!(sockets.inbound.bind.to_string(), "0.0.0.0:7475");
    assert_eq!(sockets.broadcast_addr.to_string(), "255.255.255.255:7475");
    assert!(sockets.inbound.broadcast);
    assert!(sockets.outbound.is_none());
    assert!(sockets.inbound.join_multicast.is_none());
}

#[test]
fn sockets_for_one_to_one_messages() {
    assert_eq!(host()[2].bind_addr().to_string(), "192.168.1.7:0");
    assert_eq!(host()[3].bind_addr().to_string(), "[fe80::5]:0");
}

#[test]
fn sockets_for_ipv6() {
    let sockets = create_broadcast_sockets(&host()[3], &7475).unwrap();
    assert_eq!(sockets.inbound.bind.to_string(), "[::]:7475");
    assert_eq!(sockets.inbound.join_multicast, Some((MULTICAST_IP, 2)));
    assert!(sockets.inbound.only_v6);
    let outbound = sockets.outbound.unwrap();
    assert_eq!(outbound.bind.to_string(), "[::]:0");
    assert_eq!(outbound.multicast_if, Some(2));
    assert!(!outbound.only_v6);
    assert_eq!(sockets.broadcast_addr.to_string(), "[ff02::1213:1989]:7475");
}

#[test]
fn ipv6_needs_the_number_of_the_interface() {
    assert!(matches!(
        create_broadcast_sockets(&host()[5], &7475),
        Err(KaboodleError::UnableToFindInterfaceNumber)
    ));
}

#[test]
fn errors_in_words() {
    assert_eq!(
        KaboodleError::IoError("broken".to_string()).to_string(),
        "std::io::Error: broken"
    );
    assert_eq!(
        KaboodleError::NoAvailableInterfaces.to_string(),
        "No available interfaces meet our requirements"
    );
    assert_eq!(
        KaboodleError::UnableToFindInterfaceNumber.to_string(),
        "Unable to find interface number for the given networking interface"
    );
    assert_eq!(
        KaboodleError::StoppingFailed("gone".to_string()).to_string(),
        "Unable to stop: gone"
    );
    assert_eq!(
        KaboodleError::NotRunning.to_string(),
        "Functionality unavailable because the mesh is not currently running"
    );
    assert_eq!(
        KaboodleError::InvalidOperation("no".to_string()).to_string(),
        "Invalid operation: no"
    );
}

#[test]
fn ports_keep_meshes_apart() {
    for interface in [&host()[3], &host()[4]] {
        let one = create_broadcast_sockets(interface, &7475).unwrap();
        let other = create_broadcast_sockets(interface, &7476).unwrap();
        assert!(one.inbound.bind != other.inbound.bind);
        assert!(one.broadcast_addr != other.broadcast_addr);
    }
    let far = interface("en7", IpAddr::V6(v6([0xfe80, 0, 0, 0, 0, 0, 0, 9])), Some(7));
    let one = create_broadcast_sockets(&host()[3], &7475).unwrap();
    let other = create_broadcast_sockets(&far, &7476).unwrap();
    assert!(one.inbound.bind != other.inbound.bind);
    assert!(one.broadcast_addr != other.broadcast_addr);
}
