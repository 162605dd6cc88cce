//! Addresses and host names: what the server says it can be reached under.

use crate::number;
use crate::text;
use vstd::prelude::*;

verus! {

/// An IP address, as the number that its bits spell.
#[derive(Clone, Copy, Debug, PartialEq, Eq, Structural)]
pub enum IpAddr {
    V4(u32),
    V6(u128),
}

/// An IP address together with its usual spelling.
#[derive(Debug)]
pub struct HostIp {
    pub ip: IpAddr,
    pub text: String,
}

impl HostIp {
    /// A copy of the address.
    pub fn copy(&self) -> (r: HostIp)
        ensures
            r.ip == self.ip,
            r.text@ == self.text@,
    {
        HostIp { ip: self.ip, text: self.text.clone() }
    }
}

/// An address and its spelling, as plain values.
pub open spec fn host_view(h: HostIp) -> (IpAddr, Seq<char>) {
    (h.ip, h.text@)
}

/// `host:port` for IPv4 and `[host]:port` for IPv6, without the port where that
/// is 80.
pub open spec fn authority(ip: IpAddr, spelled: Seq<char>, port: u16) -> Seq<char> {
    match (ip, port == 80) {
        (IpAddr::V4(_), true) => spelled,
        (IpAddr::V4(_), false) => spelled + ":"@ + number::decimal(port as nat),
        (IpAddr::V6(_), true) => "["@ + spelled + "]"@,
        (IpAddr::V6(_), false) => "["@ + spelled + "]:"@ + number::decimal(port as nat),
    }
}

/// Writes the host part of a URL.
pub fn format_http_authority(host: &HostIp, port: u16) -> (r: String)
    ensures
        r@ == authority(host.ip, host.text@, port),
{
    match host.ip {
        IpAddr::V4(_) => {
            let mut r = host.text.clone();
            if port != 80 {
                r.append(":");
                number::push_decimal(&mut r, port as u128);
            }
            r
        },
        IpAddr::V6(_) => {
            let mut r = String::from_str("[");
            r.append(host.text.as_str());
            if port == 80 {
                r.append("]");
            } else {
                r.append("]:");
                number::push_decimal(&mut r, port as u128);
            }
            r
        },
    }
}

/// A character that may stand in a host name with or without a port.
pub open spec fn is_host_char(c: char) -> bool {
    let n = c as int;
    ||| 48 <= n <= 57
    ||| 65 <= n <= 90
    ||| 97 <= n <= 122
    ||| c == '.'
    ||| c == '-'
    ||| c == ':'
    ||| c == '['
    ||| c == ']'
    ||| c == '_'
}

/// Decides `is_host_char`.
fn host_char(c: char) -> (r: bool)
    ensures
        r == is_host_char(c),
{
    let n: u32 = c as u32;
    (48 <= n && n <= 57) || (65 <= n && n <= 90) || (97 <= n && n <= 122) || c == '.' || c == '-'
        || c == ':' || c == '[' || c == ']' || c == '_'
}

/// A host name, with or without a port, that may stand in a URL.
pub open spec fn is_valid_host(host: Seq<char>) -> bool {
    host.len() > 0 && forall|i: int| 0 <= i < host.len() ==> is_host_char(#[trigger] host[i])
}

/// Decides whether a host name may stand in a URL: not empty, and without slashes,
/// spaces or line breaks.
pub fn valid_http_host(host: &str) -> (r: bool)
    ensures
        r == is_valid_host(host@),
{
    let v = text::to_chars(host);
    if v.len() == 0 {
        return false;
    }
    let mut i: usize = 0;
    while i < v.len()
        invariant
            v@ == host@,
            i <= v@.len(),
            forall|k: int| 0 <= k < i ==> is_host_char(#[trigger] v@[k]),
        decreases v@.len() - i,
    {
        if !host_char(v[i]) {
            assert(!is_host_char(v@[i as int]));
            return false;
        }
        i += 1;
    }
    true
}

/// The host that URLs are made with: the one that the client asked for, spaces
/// around it aside, where it may stand in a URL, and else the server's own address.
pub open spec fn public_base_of(
    host: Option<Seq<char>>,
    ip: IpAddr,
    spelled: Seq<char>,
    port: u16,
) -> Seq<char> {
    match host {
        Some(h) => if is_valid_host(text::trimmed(h)) {
            text::trimmed(h)
        } else {
            authority(ip, spelled, port)
        },
        None => authority(ip, spelled, port),
    }
}

/// The host and port for the URLs in a reply, given the request's `Host` header.
pub fn public_base(host: Option<&str>, fallback: &HostIp, port: u16) -> (r: String)
    ensures
        r@ == public_base_of(
            match host {
                Some(h) => Some(h@),
                None => None,
            },
            fallback.ip,
            fallback.text@,
            port,
        ),
{
    if let Some(h) = host {
        let t = text::trim(h);
        if valid_http_host(t.as_str()) {
            return t;
        }
    }
    format_http_authority(fallback, port)
}

/// The host that a playlist's URLs are made with.
pub open spec fn playlist_host_of(host: Option<Seq<char>>) -> Seq<char> {
    match host {
        Some(h) => if is_valid_host(h) {
            h
        } else {
            "127.0.0.1"@
        },
        None => "127.0.0.1"@,
    }
}

/// The host for a playlist's URLs, given the request's `Host` header.
pub fn playlist_host(host: Option<&str>) -> (r: String)
    ensures
        r@ == playlist_host_of(
            match host {
                Some(h) => Some(h@),
                None => None,
            },
        ),
{
    match host {
        Some(h) => {
            if valid_http_host(h) {
                return h.to_owned();
            }
            String::from_str("127.0.0.1")
        },
        None => String::from_str("127.0.0.1"),
    }
}

/// The address that stands for every address of a host.
pub open spec fn is_unspecified(ip: IpAddr) -> bool {
    match ip {
        IpAddr::V4(v) => v == 0,
        IpAddr::V6(v) => v == 0,
    }
}

/// The address to advertise, as plain values.
pub open spec fn advertised_of(
    bind: (IpAddr, Seq<char>),
    discovered: Option<(IpAddr, Seq<char>)>,
) -> (IpAddr, Seq<char>) {
    if !is_unspecified(bind.0) {
        bind
    } else {
        match discovered {
            Some(d) => d,
            None => (IpAddr::V4(0x7f00_0001), "127.0.0.1"@),
        }
    }
}

/// The address to advertise: the one that the server is bound to, or where that
/// is every address, the host's own, or else the loopback address.
pub fn advertised_ip(bind: &HostIp, discovered: Option<&HostIp>) -> (r: HostIp)
    ensures
        host_view(r) == advertised_of(
            host_view(*bind),
            match discovered {
                Some(d) => Some(host_view(*d)),
                None => None,
            },
        ),
{
    let unspecified = match bind.ip {
        IpAddr::V4(v) => v == 0,
        IpAddr::V6(v) => v == 0,
    };
    if !unspecified {
        return bind.copy();
    }
    match discovered {
        Some(d) => d.copy(),
        None => HostIp { ip: IpAddr::V4(0x7f00_0001), text: String::from_str("127.0.0.1") },
    }
}

/// An address with an IPv4 address that is mapped into IPv6 taken as IPv4.
pub open spec fn normalized(ip: IpAddr) -> IpAddr {
    match ip {
        IpAddr::V6(v) => if v / 0x1_0000_0000 == 0xffff {
            IpAddr::V4((v % 0x1_0000_0000) as u32)
        } else {
            ip
        },
        IpAddr::V4(_) => ip,
    }
}

/// Takes an IPv4 address that is mapped into IPv6 as IPv4.
pub fn normalize_ip(ip: IpAddr) -> (r: IpAddr)
    ensures
        r == normalized(ip),
{
    match ip {
        IpAddr::V6(v) => {
            if v / 0x1_0000_0000 == 0xffff {
                let low: u128 = v % 0x1_0000_0000;
                IpAddr::V4(low as u32)
            } else {
                ip
            }
        },
        IpAddr::V4(_) => ip,
    }
}

/// Decides whether two addresses name the same host.
pub fn same_ip(a: IpAddr, b: IpAddr) -> (r: bool)
    ensures
        r == (normalized(a) == normalized(b)),
{
    normalize_ip(a) == normalize_ip(b)
}

/// An IPv6 address to advertise: not loopback, multicast or link-local.
pub open spec fn is_usable_ipv6(v: u128) -> bool {
    &&& v != 1
    &&& v / 0x100_0000_0000_0000_0000_0000_0000_0000 != 0xff
    &&& v / 0x40_0000_0000_0000_0000_0000_0000_0000 != 0x3fa
}

/// Decides whether an IPv6 address can be advertised: `::1`, `ff00::/8` and
/// `fe80::/10` cannot.
pub fn usable_ipv6(v: u128) -> (r: bool)
    ensures
        r == is_usable_ipv6(v),
{
    v != 1 && v / 0x100_0000_0000_0000_0000_0000_0000_0000 != 0xff && v
        / 0x40_0000_0000_0000_0000_0000_0000_0000 != 0x3fa
}

/// Decides whether two IPv6 addresses agree under a netmask that is not empty.
pub fn ipv6_same_net(a: u128, b: u128, mask: u128) -> (r: bool)
    ensures
        r == (mask != 0 && a & mask == b & mask),
{
    mask != 0 && (a & mask) == (b & mask)
}

/// Decides whether two IPv4 addresses agree under a netmask that is not empty.
pub fn ipv4_same_net(a: u32, b: u32, mask: u32) -> (r: bool)
    ensures
        r == (mask != 0 && a & mask == b & mask),
{
    mask != 0 && (a & mask) == (b & mask)
}

/// The host part that replies put into URLs never holds a slash, a space or a
/// line break that the client sent.
pub proof fn law_public_base_is_clean(
    host: Seq<char>,
    ip: IpAddr,
    spelled: Seq<char>,
    port: u16,
    i: int,
)
    requires
        is_valid_host(text::trimmed(host)),
        0 <= i < public_base_of(Some(host), ip, spelled, port).len(),
    ensures
        public_base_of(Some(host), ip, spelled, port)[i] != '/',
        public_base_of(Some(host), ip, spelled, port)[i] != '\\',
        !text::is_white_space(public_base_of(Some(host), ip, spelled, port)[i]),
{
    let t = text::trimmed(host);
    assert(is_host_char(t[i]));
}

/// The host part of a playlist's URLs never holds a slash or a space, whatever the
/// client sent.
pub proof fn law_playlist_host_is_clean(host: Option<Seq<char>>, i: int)
    requires
        0 <= i < playlist_host_of(host).len(),
    ensures
        is_host_char(playlist_host_of(host)[i]),
        playlist_host_of(host)[i] != '/',
        !text::is_white_space(playlist_host_of(host)[i]),
{
    reveal_strlit("127.0.0.1");
    assert(is_host_char(playlist_host_of(host)[i]));
}

/// The address of the playlist, for people: without a port where it is HTTP's own.
pub open spec fn share_text(spelled: Seq<char>, port: u16) -> Seq<char> {
    if port == 80 {
        "http://"@ + spelled + "/spritz"@
    } else {
        "http://"@ + spelled + ":"@ + number::decimal(port as nat) + "/spritz"@
    }
}

/// Writes the address of the playlist, for people.
pub fn share_url(host: &HostIp, port: u16) -> (r: String)
    ensures
        r@ == share_text(host.text@, port),
{
    let mut r = String::from_str("http://");
    r.append(host.text.as_str());
    if port != 80 {
        r.append(":");
        number::push_decimal(&mut r, port as u128);
    }
    r.append("/spritz");
    r
}

/// A character that a host name, an address or a port is written with.
pub open spec fn is_name_char(c: char) -> bool {
    'a' <= c <= 'z' || 'A' <= c <= 'Z' || '0' <= c <= '9' || c == '.' || c == '-' || c == '_' || c
        == ':' || c == '[' || c == ']'
}

/// A request that names the host by letters, digits and the signs of an address
/// is answered with URLs on that host, blanks around the name aside; a playlist
/// has the same host.
pub proof fn law_the_named_host_is_used(
    before: Seq<char>,
    h: Seq<char>,
    after: Seq<char>,
    ip: IpAddr,
    spelled: Seq<char>,
    port: u16,
)
    requires
        text::all_blank(before),
        text::all_blank(after),
        h.len() > 0,
        forall|i: int| 0 <= i < h.len() ==> is_name_char(#[trigger] h[i]),
    ensures
        public_base_of(Some(before + h + after), ip, spelled, port) == h,
        playlist_host_of(Some(h)) == h,
{
    assert(is_name_char(h[0]) && is_name_char(h[h.len() - 1]));
    text::law_blanks_are_trimmed(before, h, after);
    assert forall|i: int| 0 <= i < h.len() implies is_host_char(#[trigger] h[i]) by {
        assert(is_name_char(h[i]));
    }
}

/// A request that names no host, or one with any other character in it, is
/// answered with URLs on the server's own address; a playlist is then for the
/// machine itself.
pub proof fn law_a_bad_host_is_not_used(
    h: Seq<char>,
    i: int,
    ip: IpAddr,
    spelled: Seq<char>,
    port: u16,
)
    requires
        text::is_tight(h),
        0 <= i < h.len(),
        !is_name_char(h[i]),
    ensures
        public_base_of(Some(h), ip, spelled, port) == authority(ip, spelled, port),
        public_base_of(Some(Seq::empty()), ip, spelled, port) == authority(ip, spelled, port),
        public_base_of(None, ip, spelled, port) == authority(ip, spelled, port),
        playlist_host_of(Some(h)) == "127.0.0.1"@,
        playlist_host_of(Some(Seq::empty())) == "127.0.0.1"@,
        playlist_host_of(None) == "127.0.0.1"@,
{
    text::lemma_tight_is_trimmed(h);
    text::lemma_tight_is_trimmed(Seq::empty());
    assert(!is_host_char(h[i]));
}

/// The port stands behind the host unless it is the usual one, and an IPv6
/// address stands in brackets.
pub proof fn law_the_port_is_told(v4: u32, v6: u128, spelled: Seq<char>, port: u16)
    ensures
        port != 80 ==> authority(IpAddr::V4(v4), spelled, port) == spelled + ":"@
            + number::decimal(port as nat),
        authority(IpAddr::V4(v4), spelled, 80) == spelled,
        authority(IpAddr::V6(v6), spelled, port) == authority(
            IpAddr::V4(v4),
            "["@ + spelled + "]"@,
            port,
        ),
        share_text(spelled, port) == "http://"@ + authority(IpAddr::V4(v4), spelled, port)
            + "/spritz"@,
{
    reveal_strlit("]");
    reveal_strlit("]:");
    reveal_strlit(":");
    assert("]"@ + ":"@ =~= "]:"@);
    let d = number::decimal(port as nat);
    assert("["@ + spelled + "]:"@ + d =~= "["@ + spelled + "]"@ + ":"@ + d);
    assert("http://"@ + spelled + ":"@ + d + "/spritz"@ =~= "http://"@ + (spelled + ":"@ + d)
        + "/spritz"@);
}

/// The server is advertised under the address that it is bound to. Bound to
/// every address, it is advertised under the one that was found, and without one
/// on the machine itself.
pub proof fn law_what_address_is_advertised(
    ip: IpAddr,
    spelled: Seq<char>,
    found: (IpAddr, Seq<char>),
)
    ensures
        ip != IpAddr::V4(0) && ip != IpAddr::V6(0) ==> advertised_of((ip, spelled), Some(found))
            == (ip, spelled) && advertised_of((ip, spelled), None) == (ip, spelled),
        ip == IpAddr::V4(0) || ip == IpAddr::V6(0) ==> advertised_of((ip, spelled), Some(found))
            == found && advertised_of((ip, spelled), None) == (
            IpAddr::V4(0x7f00_0001),
            "127.0.0.1"@,
        ),
{
}

/// An IPv4 address is the same host as the IPv6 address `::ffff:a.b.c.d`, and
/// every other address is only its own.
pub proof fn law_mapped_addresses_are_the_same_host(v: u32, w: u128)
    ensures
        normalized(IpAddr::V6((0xffff_0000_0000 + v) as u128)) == normalized(IpAddr::V4(v)),
        normalized(IpAddr::V4(v)) == IpAddr::V4(v),
        w < 0xffff_0000_0000 || w > 0xffff_ffff_ffff ==> normalized(IpAddr::V6(w)) == IpAddr::V6(w),
{
    let m: int = 0xffff_0000_0000 + v;
    assert(m / 0x1_0000_0000 == 0xffff && m % 0x1_0000_0000 == v);
}

/// `::1`, the multicast addresses from `ff00::` on and the link-local addresses
/// from `fe80::` to `febf::` are not usable, and every other IPv6 address is.
pub proof fn law_what_ipv6_is_usable(v: u128)
    ensures
        is_usable_ipv6(v) <==> {
            &&& v != 1
            &&& v < 0xff00_0000_0000_0000_0000_0000_0000_0000
            &&& (v < 0xfe80_0000_0000_0000_0000_0000_0000_0000 || v
                >= 0xfec0_0000_0000_0000_0000_0000_0000_0000)
        },
{
}

} // verus!
