use spritz::date::{civil_from_days, dc_date};
use spritz::host::{
    advertised_ip, format_http_authority, ipv6_same_net, normalize_ip, playlist_host, public_base,
    same_ip, usable_ipv6, valid_http_host, HostIp, IpAddr,
};
use spritz::identity::{friendly_name, machine_identity, stable_device_uuid, uuid_from_identity};
use spritz::number::{decimal_text, padded_text, parse_unsigned};
use spritz::soap::{extract_tag_value, fault, parse_action, response};
use spritz::text::{split_text, to_ascii_lowercase, trim, trim_char};
use spritz::xml::xml_escape;

fn v4(a: u8, b: u8, c: u8, d: u8) -> HostIp {
    HostIp {
        ip: IpAddr::V4(u32::from_be_bytes([a, b, c, d])),
        text: format!("{a}.{b}.{c}.{d}"),
    }
}

fn doc_v6() -> HostIp {
    HostIp {
        ip: IpAddr::V6(0x2001_0db8_0000_0000_0000_0000_0000_0001),
        text: "2001:db8::1".into(),
    }
}

#[test]
fn dc_date_formats_unix_epoch() {
    assert_eq!(dc_date(0), "1970-01-01");
}

#[test]
fn moments_before_1970_count_as_its_first_day() {
    for secs in [-1, -86_400, -62_167_219_201, i64::MIN] {
        assert_eq!(dc_date(secs), "1970-01-01");
    }
}

#[test]
fn dates_follow_the_calendar() {
    assert_eq!(dc_date(951_782_400), "2000-02-29");
    assert_eq!(dc_date(1_709_164_799), "2024-02-28");
    assert_eq!(dc_date(1_709_164_800), "2024-02-29");
    assert_eq!(dc_date(4_107_542_399), "2100-02-28");
    assert_eq!(dc_date(4_107_542_400), "2100-03-01");
    assert_eq!(civil_from_days(19_723), (2024, 1, 1));
    assert_eq!(civil_from_days(-1), (1969, 12, 31));
    assert_eq!(civil_from_days(-719_468), (0, 3, 1));
}

#[test]
fn every_day_of_four_hundred_years_has_its_own_date() {
    let mut last = (0i32, 0u8, 0u8);
    for z in -10_000..146_097 {
        let date = civil_from_days(z);
        assert!(date > last, "{z}");
        last = date;
    }
}

#[test]
fn valid_http_host_rejects_injection() {
    assert!(valid_http_host("10.0.0.8:9000"));
    assert!(valid_http_host("example.local"));
    assert!(valid_http_host("[2001:db8::1]:8080"));
    assert!(!valid_http_host(""));
    assert!(!valid_http_host("evil.com/path"));
    assert!(!valid_http_host("evil.com\\path"));
    assert!(!valid_http_host("host with space"));
    assert!(!valid_http_host("host\r\nX-Injected: 1"));
}

#[test]
fn hosts_with_spaces_are_not_valid() {
    assert!(!valid_http_host(" example.local"));
    assert!(!valid_http_host("example.local "));
    assert_eq!(playlist_host(Some(" example.local")), "127.0.0.1");
    assert_eq!(public_base(Some(" nas:1 "), &v4(10, 0, 0, 8), 80), "nas:1");
}

#[test]
fn format_http_authority_brackets_ipv6() {
    assert_eq!(format_http_authority(&v4(192, 0, 2, 1), 8080), "192.0.2.1:8080");
    assert_eq!(format_http_authority(&v4(192, 0, 2, 1), 80), "192.0.2.1");
    assert_eq!(format_http_authority(&doc_v6(), 8080), "[2001:db8::1]:8080");
    assert_eq!(format_http_authority(&doc_v6(), 80), "[2001:db8::1]");
}

#[test]
fn public_base_prefers_host_header() {
    assert_eq!(public_base(Some("10.0.0.8:9000"), &v4(127, 0, 0, 1), 8080), "10.0.0.8:9000");
    assert_eq!(public_base(Some(" nas.local "), &v4(127, 0, 0, 1), 8080), "nas.local");
}

#[test]
fn public_base_falls_back_to_configured_ip() {
    assert_eq!(public_base(None, &v4(192, 168, 1, 4), 8080), "192.168.1.4:8080");
    assert_eq!(public_base(None, &v4(192, 168, 1, 4), 80), "192.168.1.4");
    assert_eq!(public_base(None, &doc_v6(), 8080), "[2001:db8::1]:8080");
    assert_eq!(public_base(Some("evil.com/x"), &v4(192, 168, 1, 4), 80), "192.168.1.4");
}

#[test]
fn playlists_use_a_safe_host() {
    assert_eq!(playlist_host(Some("nas:8080")), "nas:8080");
    assert_eq!(playlist_host(Some("a b")), "127.0.0.1");
    assert_eq!(playlist_host(None), "127.0.0.1");
}

#[test]
fn advertised_ip_prefers_a_specific_bind_address() {
    let discovered = v4(10, 0, 0, 1);
    assert_eq!(advertised_ip(&v4(192, 168, 1, 5), Some(&discovered)).text, "192.168.1.5");
    assert_eq!(advertised_ip(&v4(0, 0, 0, 0), Some(&discovered)).text, "10.0.0.1");
    assert_eq!(advertised_ip(&v4(0, 0, 0, 0), None).text, "127.0.0.1");
    let any6 = HostIp { ip: IpAddr::V6(0), text: "::".into() };
    assert_eq!(advertised_ip(&any6, None).ip, IpAddr::V4(0x7f00_0001));
}

#[test]
fn mapped_addresses_are_the_same() {
    let plain = IpAddr::V4(0xc0a8_0109);
    let mapped = IpAddr::V6(0xffff_c0a8_0109);
    assert!(same_ip(plain, mapped));
    assert_eq!(normalize_ip(mapped), plain);
    assert!(!same_ip(IpAddr::V6(0xc0a8_0109), plain));
}

#[test]
fn ipv6_same_net_uses_prefix_mask() {
    let a = 0x2001_0db8_0001_0000_0000_0000_0000_0001;
    let b = 0x2001_0db8_0001_0000_0000_0000_0000_0009;
    let other = 0x2001_0db8_0002_0000_0000_0000_0000_0001;
    let mask = 0xffff_ffff_ffff_0000_0000_0000_0000_0000;
    assert!(ipv6_same_net(a, b, mask));
    assert!(!ipv6_same_net(a, other, mask));
    assert!(!ipv6_same_net(a, b, 0));
}

#[test]
fn usable_ipv6_skips_link_local() {
    assert!(usable_ipv6(0x2001_0db8_0000_0000_0000_0000_0000_0001));
    assert!(!usable_ipv6(0xfe80_0000_0000_0000_0000_0000_0000_0001));
    assert!(!usable_ipv6(1));
    assert!(!usable_ipv6(0xfebf_ffff_0000_0000_0000_0000_0000_0001));
    assert!(usable_ipv6(0xfec0_0000_0000_0000_0000_0000_0000_0001));
    assert!(!usable_ipv6(0xff02_0000_0000_0000_0000_0000_0000_000c));
}

#[test]
fn uuid_from_identity_is_stable_for_the_same_input() {
    let a = uuid_from_identity("host-abc");
    let b = uuid_from_identity("host-abc");
    assert_eq!(a, b);
    assert_ne!(a, uuid_from_identity("host-xyz"));
}

#[test]
fn uuid_from_identity_is_a_canonical_uuid_string() {
    let id = uuid_from_identity("nas-1");
    assert!(uuid::Uuid::parse_str(&id).is_ok(), "{id}");
    assert_eq!(id.len(), 36);
    assert_eq!(
        id,
        uuid::Uuid::new_v5(&uuid::Uuid::NAMESPACE_URL, b"https://github.com/dfallman/spritz#nas-1")
            .to_string()
    );
}

#[test]
fn machine_identity_takes_the_first_id_that_is_there() {
    let none: Option<String> = None;
    let host = Some("nas".to_string());
    let ids = vec![None, Some("  \n".to_string()), Some(" abc\n".to_string())];
    assert_eq!(machine_identity(&ids, &host), "abc");
    assert_eq!(machine_identity(&vec![None, None], &host), "nas");
    assert_eq!(machine_identity(&vec![], &none), "spritz-unknown");
    assert_eq!(machine_identity(&vec![], &Some(String::new())), "spritz-unknown");
    assert_eq!(stable_device_uuid(&ids, &none), uuid_from_identity("abc"));
}

#[test]
fn friendly_name_defaults_and_truncates() {
    assert_eq!(friendly_name(""), "Spritz Media Server");
    assert_eq!(friendly_name("  Living Room  "), "Living Room");
    assert_eq!(friendly_name(&"x".repeat(80)).len(), 64);
    assert_eq!(friendly_name(&"å".repeat(80)).chars().count(), 64);
}

#[test]
fn numbers_read_and_write() {
    assert_eq!(decimal_text(0), "0");
    assert_eq!(decimal_text(u128::MAX), u128::MAX.to_string());
    assert_eq!(padded_text(7, 3), "007");
    assert_eq!(padded_text(1234, 3), "1234");
    assert_eq!(parse_unsigned("+42", 100), Some(42));
    assert_eq!(parse_unsigned("101", 100), None);
    assert_eq!(parse_unsigned("", 100), None);
    assert_eq!(parse_unsigned("+", 100), None);
    assert_eq!(parse_unsigned("-1", 100), None);
    assert_eq!(parse_unsigned("18446744073709551615", u64::MAX), Some(u64::MAX));
    assert_eq!(parse_unsigned("18446744073709551616", u64::MAX), None);
}

#[test]
fn text_helpers_follow_std() {
    for s in ["", "  a b \t", "\u{2003}x\u{3000}", "\u{85}\u{a0}", "plain"] {
        assert_eq!(trim(s), s.trim());
        assert_eq!(to_ascii_lowercase(s), s.to_ascii_lowercase());
    }
    assert_eq!(to_ascii_lowercase("ÄbC"), "Äbc");
    assert_eq!(trim_char("\"\"a\"b\"", '"'), "a\"b");
    assert_eq!(split_text("a/b//c", '/'), ["a", "b", "", "c"]);
    assert_eq!(split_text("", '/'), [""]);
}

#[test]
fn xml_escape_leaves_no_markup() {
    assert_eq!(xml_escape("a<b>&\"c'd"), "a&lt;b&gt;&amp;&quot;c&apos;d");
    assert_eq!(xml_escape("Tom & Jerry"), "Tom &amp; Jerry");
    assert_eq!(xml_escape("&amp;"), "&amp;amp;");
}

#[test]
fn parse_action_reads_the_name_after_the_hash() {
    assert_eq!(
        parse_action(r#""urn:schemas-upnp-org:service:ContentDirectory:1#Browse""#),
        "Browse"
    );
    assert_eq!(
        parse_action("urn:schemas-upnp-org:service:ContentDirectory:1#GetSystemUpdateID"),
        "GetSystemUpdateID"
    );
}

#[test]
fn extract_tag_value_reads_plain_and_namespaced_tags() {
    assert_eq!(extract_tag_value("<ObjectID>V</ObjectID>", "ObjectID").as_deref(), Some("V"));
    assert_eq!(extract_tag_value("<u:ObjectID>A</u:ObjectID>", "ObjectID").as_deref(), Some("A"));
}

#[test]
fn extract_tag_value_reads_tags_with_attributes() {
    assert_eq!(
        extract_tag_value(
            r#"<ObjectID xmlns="urn:schemas-upnp-org:service:ContentDirectory:1">f:2</ObjectID>"#,
            "ObjectID"
        )
        .as_deref(),
        Some("f:2")
    );
    assert_eq!(
        extract_tag_value("<u:ObjectID xmlns:u=\"urn:x\">m:1</u:ObjectID>", "ObjectID").as_deref(),
        Some("m:1")
    );
}

#[test]
fn extract_tag_value_reads_the_first_element() {
    let read = |xml: &str| extract_tag_value(xml, "ObjectID");
    assert_eq!(read("<u:ObjectID>A</u:ObjectID><ObjectID>B</ObjectID>").as_deref(), Some("A"));
    assert_eq!(read("<ObjectID>B</ObjectID><u:ObjectID>A</u:ObjectID>").as_deref(), Some("B"));
    assert_eq!(read("<x>u:ObjectID </x><ObjectID>B</ObjectID>").as_deref(), Some("B"));
    assert_eq!(read("</u:ObjectID><ObjectID>B</ObjectID>").as_deref(), Some("B"));
    assert_eq!(read("<ObjectID>B"), None);
    assert_eq!(read("<ObjectID"), None);
}

#[test]
fn extract_tag_value_wants_the_whole_name() {
    assert_eq!(
        extract_tag_value("<ObjectIDs>x</ObjectIDs><ObjectID> y </ObjectID>", "ObjectID").as_deref(),
        Some("y")
    );
    assert_eq!(extract_tag_value("<ObjectID>unclosed", "ObjectID"), None);
    assert_eq!(extract_tag_value("<Other>x</Other>", "ObjectID"), None);
}

#[test]
fn soap_envelopes_hold_what_they_are_given() {
    let ok = response("Browse", "urn:x", "<A/>");
    assert!(ok.starts_with("<?xml version=\"1.0\" encoding=\"utf-8\"?>\n<s:Envelope "));
    assert!(ok.contains("<u:BrowseResponse xmlns:u=\"urn:x\">\n      <A/>\n    </u:BrowseResponse>"));
    let err = fault(701, "No Such Object");
    assert!(err.contains("<errorCode>701</errorCode>"));
    assert!(err.contains("<errorDescription>No Such Object</errorDescription>"));
}
