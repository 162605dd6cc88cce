use spritz::host::{HostIp, IpAddr};
use spritz::ssdp::{
    alive_messages, answer_search, byebye_messages, delay_ms, header_value, local_ip_for_peer,
    location_for_peer, location_ip_for_family, multicast_interface, nt_usn_pairs, parse_mx,
    parse_search, search_answers, st_is_relevant, v4_interfaces, v6_interfaces, IfAddr, Interface,
    MULTICAST_V4,
};

const UUID: &str = "11111111-2222-3333-4444-555555555555";

fn v4(loopback: bool, ip: [u8; 4], prefix: u32) -> Interface {
    Interface {
        loopback,
        addr: IfAddr::V4 {
            ip: u32::from_be_bytes(ip),
            netmask: if prefix == 0 { 0 } else { u32::MAX << (32 - prefix) },
        },
        text: format!("{}.{}.{}.{}", ip[0], ip[1], ip[2], ip[3]),
        index: None,
    }
}

fn v6(ip: u128, text: &str, index: Option<u32>) -> Interface {
    Interface {
        loopback: false,
        addr: IfAddr::V6 { ip, netmask: u128::MAX << 64 },
        text: text.into(),
        index,
    }
}

const GLOBAL: u128 = 0x2001_0db8_0000_0000_0000_0000_0000_0001;
const LINK: u128 = 0xfe80_0000_0000_0000_0000_0000_0000_0001;

fn interfaces() -> Vec<Interface> {
    vec![
        v4(true, [127, 0, 0, 1], 8),
        v6(LINK, "fe80::1", Some(2)),
        v4(false, [172, 17, 0, 1], 16),
        v6(GLOBAL, "2001:db8::1", Some(2)),
        v4(false, [192, 168, 1, 4], 24),
        v6(GLOBAL + 1, "2001:db8::2", Some(3)),
    ]
}

fn local() -> HostIp {
    HostIp { ip: IpAddr::V4(0x0a00_0001), text: "10.0.0.1".into() }
}

fn local6() -> HostIp {
    HostIp { ip: IpAddr::V6(9), text: "::9".into() }
}

#[test]
fn st_is_relevant_accepts_ssdp_all() {
    assert!(st_is_relevant("ssdp:all", UUID));
}

#[test]
fn st_is_relevant_accepts_each_advertised_nt() {
    for a in nt_usn_pairs(UUID) {
        let nt = a.nt;
        assert!(st_is_relevant(&nt, UUID), "should accept ST={nt}");
    }
}

#[test]
fn st_is_relevant_rejects_unrelated_search_targets() {
    for st in [
        "",
        "ssdp:discover",
        "urn:dial-multiscreen-org:service:dial:1",
        "urn:schemas-upnp-org:device:InternetGatewayDevice:1",
        "urn:schemas-upnp-org:device:MediaServer:2",
        "uuid:someone-else",
    ] {
        assert!(!st_is_relevant(st, UUID), "should reject ST={st}");
    }
}

#[test]
fn parse_mx_clamps_to_zero_through_five() {
    assert_eq!(parse_mx(""), 0);
    assert_eq!(parse_mx("M-SEARCH * HTTP/1.1\r\nMX: 3\r\n"), 3);
    assert_eq!(parse_mx("M-SEARCH * HTTP/1.1\r\nMX: 0\r\n"), 0);
    assert_eq!(parse_mx("M-SEARCH * HTTP/1.1\r\nMX: 99\r\n"), 5);
    assert_eq!(parse_mx("M-SEARCH * HTTP/1.1\r\nmx: 2\r\n"), 2);
    assert_eq!(parse_mx("M-SEARCH * HTTP/1.1\r\nMX: no\r\n"), 0);
}

#[test]
fn header_value_is_case_insensitive() {
    let msg = "M-SEARCH * HTTP/1.1\r\nHOST: 239.255.255.250:1900\r\nST: ssdp:all\r\n";
    assert_eq!(header_value(msg, "ST").as_deref(), Some("ssdp:all"));
    assert_eq!(header_value(msg, "st").as_deref(), Some("ssdp:all"));
    assert_eq!(header_value(msg, "Host").as_deref(), Some("239.255.255.250:1900"));
    assert_eq!(header_value(msg, "MX"), None);
}

#[test]
fn pairs_name_the_server_and_its_services() {
    let pairs = nt_usn_pairs("U");
    assert_eq!(pairs.len(), 6);
    assert_eq!((pairs[0].nt.as_str(), pairs[0].usn.as_str()), ("upnp:rootdevice", "uuid:U::upnp:rootdevice"));
    assert_eq!((pairs[1].nt.as_str(), pairs[1].usn.as_str()), ("uuid:U", "uuid:U"));
    assert_eq!(pairs[5].usn, "uuid:U::urn:microsoft.com:service:X_MS_MediaReceiverRegistrar:1");
}

#[test]
fn searches_are_read_from_datagrams() {
    let msg = b"M-SEARCH * HTTP/1.1\r\nST: upnp:rootdevice\r\nMX: 2\r\n\r\n";
    let search = parse_search(msg, UUID).unwrap();
    assert_eq!((search.st.as_str(), search.mx), ("upnp:rootdevice", 2));
    assert!(parse_search(b"NOTIFY * HTTP/1.1\r\nST: ssdp:all\r\n\r\n", UUID).is_none());
    assert!(parse_search(b"M-SEARCH * HTTP/1.1\r\nST: roku:ecp\r\n\r\n", UUID).is_none());
    assert!(parse_search(b"M-SEARCH * HTTP/1.1\r\n\r\n", UUID).is_none());
    assert!(parse_search(b"M-SEARCH \xff\r\nST: ssdp:all\r\n", UUID).is_none());
}

#[test]
fn relevant_searches_are_answered() {
    assert_eq!(search_answers("ssdp:all", "D", "L", UUID).len(), 6);
    assert!(search_answers("roku:ecp", "D", "L", UUID).is_empty());
    let own = search_answers("upnp:rootdevice", "D", "http://h/d.xml", "U");
    assert_eq!(
        own,
        ["HTTP/1.1 200 OK\r\nCACHE-CONTROL: max-age=1800\r\nDATE: D\r\nEXT:\r\nLOCATION: http://h/d.xml\r\n\
          SERVER: Linux/5.0 UPnP/1.0 Spritz/0.1.6\r\nST: upnp:rootdevice\r\nUSN: uuid:U::upnp:rootdevice\r\n\r\n"]
    );
}

#[test]
fn answers_are_dated() {
    let answers = answer_search("uuid:U", 784_111_777, "L", "U");
    assert_eq!(answers.len(), 1);
    assert!(answers[0].contains("DATE: Sun, 06 Nov 1994 08:49:37 GMT\r\n"), "{}", answers[0]);
    let epoch = answer_search("uuid:U", 0, "L", "U");
    assert!(epoch[0].contains("DATE: Thu, 01 Jan 1970 00:00:00 GMT\r\n"), "{}", epoch[0]);
    let last = answer_search("uuid:U", 253_402_300_799, "L", "U");
    assert!(last[0].contains("DATE: Fri, 31 Dec 9999 23:59:59 GMT\r\n"), "{}", last[0]);
}

#[test]
fn delays_stay_below_the_limit() {
    assert_eq!(delay_ms(0, 12345), 0);
    assert_eq!(delay_ms(3, 12_345), 345);
    assert!(delay_ms(5, u64::MAX) < 5000);
}

#[test]
fn announcements_name_host_and_location() {
    let alive = alive_messages(MULTICAST_V4, "http://h/d.xml", "U");
    assert_eq!(alive.len(), 6);
    assert_eq!(
        alive[1],
        "NOTIFY * HTTP/1.1\r\nHOST: 239.255.255.250:1900\r\nCACHE-CONTROL: max-age=1800\r\n\
         LOCATION: http://h/d.xml\r\nNT: uuid:U\r\nNTS: ssdp:alive\r\n\
         SERVER: Linux/5.0 UPnP/1.0 Spritz/0.1.6\r\nUSN: uuid:U\r\n\r\n"
    );
    let bye = byebye_messages("[FF02::C]:1900", "U");
    assert_eq!(
        bye[0],
        "NOTIFY * HTTP/1.1\r\nHOST: [FF02::C]:1900\r\nNT: upnp:rootdevice\r\nNTS: ssdp:byebye\r\n\
         USN: uuid:U::upnp:rootdevice\r\n\r\n"
    );
}

#[test]
fn clients_are_told_an_address_on_their_own_network() {
    let peer = IpAddr::V4(u32::from_be_bytes([192, 168, 1, 77]));
    assert_eq!(local_ip_for_peer(peer, &interfaces()).unwrap().text, "192.168.1.4");
    assert_eq!(
        location_for_peer(peer, &local(), 8080, &interfaces()),
        "http://192.168.1.4:8080/upnp/description.xml"
    );
    let far = IpAddr::V4(u32::from_be_bytes([8, 8, 8, 8]));
    assert_eq!(location_for_peer(far, &local(), 80, &interfaces()), "http://10.0.0.1/upnp/description.xml");
    let loopback = IpAddr::V4(u32::from_be_bytes([127, 0, 0, 9]));
    assert!(local_ip_for_peer(loopback, &interfaces()).is_none());
    assert_eq!(
        location_for_peer(IpAddr::V6(GLOBAL + 99), &local(), 8080, &interfaces()),
        "http://[2001:db8::1]:8080/upnp/description.xml"
    );
    assert!(local_ip_for_peer(IpAddr::V6(LINK + 1), &interfaces()).is_none());
    assert!(local_ip_for_peer(far, &vec![v4(false, [1, 2, 3, 4], 0)]).is_none());
}

#[test]
fn addresses_go_by_family() {
    assert_eq!(location_ip_for_family(true, &local(), &interfaces()).text, "2001:db8::1");
    assert_eq!(location_ip_for_family(true, &local(), &vec![]).text, "10.0.0.1");
    assert_eq!(location_ip_for_family(false, &local(), &interfaces()).text, "10.0.0.1");
    assert_eq!(location_ip_for_family(false, &local6(), &interfaces()).text, "172.17.0.1");
    assert_eq!(location_ip_for_family(false, &local6(), &vec![]).text, "::9");
    assert_eq!(multicast_interface(&local(), &interfaces()), 0x0a00_0001);
    assert_eq!(multicast_interface(&local6(), &interfaces()), 0xac11_0001);
    assert_eq!(multicast_interface(&local6(), &vec![]), 0);
}

#[test]
fn listening_covers_each_interface_once() {
    assert_eq!(v4_interfaces(&interfaces()), [0xac11_0001, 0xc0a8_0104]);
    assert_eq!(v6_interfaces(&interfaces()), [2, 3]);
    assert_eq!(v6_interfaces(&vec![v6(1, "::1", None), v6(2, "::2", None)]), [0]);
}
