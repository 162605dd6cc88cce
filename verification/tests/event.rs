use spritz::event::{
    admit_subscription, callback_host, callback_targets_peer, cd_event_body, cm_event_body,
    event_body_for, handle, handle_with, mrr_event_body, notify_message, parse_callback_target,
    parse_callback_url, parse_timeout_seconds, propertyset, renew_subscription, EventHub,
    EventRequest, EventService,
};
use spritz::host::IpAddr;

const SECOND: u128 = 1_000_000_000;

fn v4(a: u8, b: u8, c: u8, d: u8) -> IpAddr {
    IpAddr::V4(u32::from_be_bytes([a, b, c, d]))
}

fn dotted(host: &str) -> Option<IpAddr> {
    let parts: Vec<Option<u8>> = host.split('.').map(|s| s.parse().ok()).collect();
    match parts[..] {
        [Some(a), Some(b), Some(c), Some(d)] => Some(v4(a, b, c, d)),
        _ => None,
    }
}

fn targets(header: &str, peer: IpAddr) -> bool {
    let target = callback_host(header).and_then(|h| dotted(&h));
    callback_targets_peer(header, target, peer)
}

fn request(method: &str) -> EventRequest {
    EventRequest {
        method: method.into(),
        timeout: None,
        sid: None,
        callback: None,
        target: None,
        peer: None,
    }
}

fn newcomer() -> EventRequest {
    EventRequest {
        timeout: Some("Second-300".into()),
        callback: Some("<http://127.0.0.1:1/evt>".into()),
        target: Some(v4(127, 0, 0, 1)),
        peer: Some(v4(127, 0, 0, 1)),
        ..request("SUBSCRIBE")
    }
}

#[test]
fn parse_callback_url_reads_bracketed_url() {
    assert_eq!(
        parse_callback_url("<http://192.168.1.9:54000/evt>").as_deref(),
        Some("http://192.168.1.9:54000/evt")
    );
    assert_eq!(
        parse_callback_url(" <http://10.0.0.5:1/> ").as_deref(),
        Some("http://10.0.0.5:1/")
    );
    assert_eq!(parse_callback_url("https://evil"), None);
    assert_eq!(parse_callback_url(""), None);
}

#[test]
fn parse_callback_url_counts_bytes() {
    assert_eq!(parse_callback_url("http://h"), None);
    assert_eq!(parse_callback_url("http://hh").as_deref(), Some("http://hh"));
    assert_eq!(parse_callback_url("http://é").as_deref(), Some("http://é"));
    assert_eq!(parse_callback_url("<http://10.0.0.5"), None);
}

#[test]
fn parse_timeout_seconds_clamps() {
    assert_eq!(parse_timeout_seconds(None), 1800);
    assert_eq!(parse_timeout_seconds(Some("Second-300")), 300);
    assert_eq!(parse_timeout_seconds(Some("Second-infinite")), 1800);
    assert_eq!(parse_timeout_seconds(Some("Second-5")), 30);
    assert_eq!(parse_timeout_seconds(Some("Second-99999")), 1800);
    assert_eq!(parse_timeout_seconds(Some(" second-60 ")), 60);
    assert_eq!(parse_timeout_seconds(Some("90")), 90);
    assert_eq!(parse_timeout_seconds(Some("SECOND-60")), 1800);
    assert_eq!(parse_timeout_seconds(Some("SECOND-Infinite")), 1800);
    assert_eq!(parse_timeout_seconds(Some("Second-4294967296")), 1800);
}

#[test]
fn propertyset_wraps_state_variables() {
    let xml = cd_event_body();
    assert!(xml.contains("<SystemUpdateID>1</SystemUpdateID>"));
    assert!(xml.contains("urn:schemas-upnp-org:event-1-0"));
}

#[test]
fn events_tell_the_whole_state() {
    assert_eq!(
        propertyset(&[("A", "1"), ("B", "")]),
        "<?xml version=\"1.0\"?><e:propertyset xmlns:e=\"urn:schemas-upnp-org:event-1-0\">\
         <e:property><A>1</A></e:property><e:property><B></B></e:property></e:propertyset>"
    );
    assert!(cm_event_body("src").contains("<SourceProtocolInfo>src</SourceProtocolInfo>"));
    assert!(mrr_event_body().contains("<ValidationRevokedUpdateID>1</ValidationRevokedUpdateID>"));
    assert_eq!(event_body_for(EventService::ContentDirectory, "s"), cd_event_body());
    assert_eq!(event_body_for(EventService::ConnectionManager, "s"), cm_event_body("s"));
    assert_eq!(event_body_for(EventService::MediaReceiverRegistrar, "s"), mrr_event_body());
}

#[test]
fn callback_targets_are_taken_apart() {
    let t = parse_callback_target("http://10.0.0.5:81/a/b?c").unwrap();
    assert_eq!((t.host.as_str(), t.port, t.hostport.as_str(), t.path.as_str()), ("10.0.0.5", 81, "10.0.0.5:81", "/a/b?c"));
    let t = parse_callback_target("http://[fe80::1]:8080").unwrap();
    assert_eq!((t.host.as_str(), t.port, t.hostport.as_str(), t.path.as_str()), ("fe80::1", 8080, "[fe80::1]:8080", "/"));
    let t = parse_callback_target("http://h:nope/").unwrap();
    assert_eq!((t.host.as_str(), t.port), ("h", 80));
    let t = parse_callback_target("http://[::1]x/").unwrap();
    assert_eq!((t.host.as_str(), t.port), ("::1", 80));
    assert!(parse_callback_target("http://:80/").is_none());
    assert!(parse_callback_target("http://[::1/").is_none());
    assert!(parse_callback_target("ftp://h/").is_none());
}

#[test]
fn callback_must_target_the_peer_ip() {
    let peer = v4(192, 168, 1, 9);
    assert!(targets("<http://192.168.1.9:54000/evt>", peer));
    assert!(!targets("<http://127.0.0.1:80/>", peer));
    assert!(!targets("<http://evil.example/x>", peer));
    assert!(!targets("<https://192.168.1.9/>", peer));
    let mapped = IpAddr::V6(0xffff_c0a8_0109);
    assert!(targets("<http://192.168.1.9:1/>", mapped));
}

#[test]
fn subscriptions_expire_and_honor_the_cap() {
    let now = 5 * SECOND;
    let mut map = EventHub::new();
    assert!(admit_subscription(&mut map, "uuid:a", 30 * SECOND, now, 1));
    assert!(!admit_subscription(&mut map, "uuid:b", 30 * SECOND, now, 1));
    assert!(renew_subscription(&mut map, "uuid:a", 30 * SECOND, now));
    assert!(!renew_subscription(&mut map, "uuid:missing", 30 * SECOND, now));

    let mut expired = EventHub::new();
    assert!(admit_subscription(&mut expired, "uuid:a", SECOND, now, 1));
    let later = now + 2 * SECOND;
    assert!(admit_subscription(&mut expired, "uuid:b", 30 * SECOND, later, 1));
    assert!(!expired.contains_key("uuid:a"));
    assert!(expired.contains_key("uuid:b"));
}

#[test]
fn subscriptions_last_for_their_time() {
    let mut map = EventHub::new();
    assert!(admit_subscription(&mut map, "uuid:a", 30, 100, 2));
    assert!(admit_subscription(&mut map, "uuid:a", 30, 110, 2));
    assert_eq!(map.rows.len(), 1);
    assert!(renew_subscription(&mut map, "uuid:a", 30, 139));
    assert!(!renew_subscription(&mut map, "uuid:a", 30, 169));
    assert!(!map.contains_key("uuid:a"));
}

#[test]
fn send_notify_posts_to_callback() {
    let target = parse_callback_target("http://127.0.0.1:4000/n").unwrap();
    let req = notify_message(&target, "uuid:abc", 0, "<e:propertyset/>");
    assert!(req.starts_with("NOTIFY /n HTTP/1.1"), "{req}");
    assert!(req.contains("SID: uuid:abc"), "{req}");
    assert!(req.contains("SEQ: 0"), "{req}");
    assert!(req.contains("NTS: upnp:propchange"), "{req}");
    assert!(req.contains("HOST: 127.0.0.1:4000\r\n"), "{req}");
    assert!(req.ends_with("CONTENT-LENGTH: 16\r\nCONNECTION: close\r\n\r\n<e:propertyset/>"), "{req}");
    let wide = notify_message(&target, "s", 7, "é");
    assert!(wide.contains("SEQ: 7\r\nCONTENT-LENGTH: 2\r\n"), "{wide}");
}

#[test]
fn a_peer_can_subscribe_renew_and_leave() {
    let mut hub = EventHub::new();
    let service = EventService::ContentDirectory;
    let reply = handle(&mut hub, &newcomer(), service, "", 0);
    assert_eq!(reply.status, 200);
    assert_eq!(reply.timeout.as_deref(), Some("Second-300"));
    let notice = reply.notice.unwrap();
    let sid = reply.sid.unwrap();
    assert_eq!((notice.target.host.as_str(), notice.target.port), ("127.0.0.1", 1));
    assert!(notice.message.starts_with("NOTIFY /evt HTTP/1.1\r\nHOST: 127.0.0.1:1\r\n"));
    assert!(notice.message.contains(&format!("\r\nSID: {sid}\r\nSEQ: 0\r\n")));
    assert!(notice.message.ends_with(&format!("\r\n\r\n{}", cd_event_body())));
    assert!(uuid::Uuid::parse_str(&sid["uuid:".len()..]).is_ok(), "{sid}");
    assert!(hub.contains_key(&sid));
    let another = handle(&mut hub, &newcomer(), service, "", 0);
    assert_ne!(another.sid.as_deref(), Some(sid.as_str()));

    let again = EventRequest { sid: Some(sid.clone()), ..request("SUBSCRIBE") };
    let reply = handle(&mut hub, &again, service, "", SECOND);
    assert_eq!((reply.status, reply.sid.as_deref()), (200, Some(sid.as_str())));
    assert_eq!(reply.timeout.as_deref(), Some("Second-1800"));
    assert!(reply.notice.is_none());

    let bye = EventRequest { sid: Some(sid.clone()), ..request("UNSUBSCRIBE") };
    assert_eq!(handle(&mut hub, &bye, service, "", SECOND).status, 200);
    assert!(!hub.contains_key(&sid));
    assert_eq!(handle(&mut hub, &again, service, "", SECOND).status, 412);
}

#[test]
fn subscriptions_that_may_not_be_are_refused() {
    let mut hub = EventHub::new();
    let service = EventService::ConnectionManager;
    let elsewhere = EventRequest { target: Some(v4(10, 0, 0, 1)), ..newcomer() };
    let by_name = EventRequest { target: None, ..newcomer() };
    let nowhere = EventRequest { callback: None, ..newcomer() };
    let nobody = EventRequest { peer: None, ..newcomer() };
    let secure = EventRequest { callback: Some("<https://127.0.0.1/>".into()), ..newcomer() };
    for req in [elsewhere, by_name, nowhere, nobody, secure] {
        let reply = handle_with(&mut hub, &req, service, "", "f", 0);
        assert_eq!((reply.status, reply.names_server), (412, true));
    }
    assert!(hub.rows.is_empty());
    let reply = handle_with(&mut hub, &request("GET"), service, "", "f", 0);
    assert_eq!((reply.status, reply.names_server), (405, false));
    for i in 0..128 {
        let fresh = format!("{i}");
        assert_eq!(handle_with(&mut hub, &newcomer(), service, "", &fresh, 0).status, 200);
    }
    assert_eq!(handle_with(&mut hub, &newcomer(), service, "", "x", 0).status, 503);
    assert_eq!(handle_with(&mut hub, &newcomer(), service, "", "x", 301 * SECOND).status, 200);
    assert_eq!(hub.rows.len(), 1);
}
