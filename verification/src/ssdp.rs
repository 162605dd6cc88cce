//! Discovery: announcements, and answers to searches.

use crate::encoding;
use crate::host;
use crate::host::HostIp;
use crate::host::IpAddr;
use crate::date;
use crate::description;
use crate::number;
use crate::seqs;
use crate::soap;
use crate::text;
use vstd::prelude::*;
use vstd::utf8;

verus! {

/// Where discovery listens on IPv4.
pub const MULTICAST_V4: &'static str = "239.255.255.250:1900";

/// Where discovery listens on IPv6.
pub const MULTICAST_V6: &'static str = "[FF02::C]:1900";

/// A kind of thing that the server is, and the unique name of the server as one.
pub struct Advertised {
    pub nt: String,
    pub usn: String,
}

/// What is advertised, as plain values.
pub open spec fn advertised_view(a: Advertised) -> (Seq<char>, Seq<char>) {
    (a.nt@, a.usn@)
}

/// The contents of a list of what is advertised.
pub open spec fn advertised_views(v: Seq<Advertised>) -> Seq<(Seq<char>, Seq<char>)> {
    v.map_values(|a: Advertised| advertised_view(a))
}

/// The server as a thing of the kind `nt`.
pub open spec fn as_kind(uuid: Seq<char>, nt: Seq<char>) -> (Seq<char>, Seq<char>) {
    (nt, "uuid:"@ + uuid + "::"@ + nt)
}

/// Everything that the server advertises itself as.
pub open spec fn nt_usn(uuid: Seq<char>) -> Seq<(Seq<char>, Seq<char>)> {
    seq![
        as_kind(uuid, "upnp:rootdevice"@),
        ("uuid:"@ + uuid, "uuid:"@ + uuid),
        as_kind(uuid, "urn:schemas-upnp-org:device:MediaServer:1"@),
        as_kind(uuid, "urn:schemas-upnp-org:service:ContentDirectory:1"@),
        as_kind(uuid, "urn:schemas-upnp-org:service:ConnectionManager:1"@),
        as_kind(uuid, "urn:microsoft.com:service:X_MS_MediaReceiverRegistrar:1"@),
    ]
}

/// The server as a thing of a kind.
fn advertise_as(uuid: &str, nt: &str) -> (r: Advertised)
    ensures
        advertised_view(r) == as_kind(uuid@, nt@),
{
    let mut usn = String::from_str("uuid:");
    usn.append(uuid);
    usn.append("::");
    usn.append(nt);
    Advertised { nt: nt.to_owned(), usn }
}

/// Lists everything that the server advertises itself as.
pub fn nt_usn_pairs(uuid: &str) -> (r: Vec<Advertised>)
    ensures
        advertised_views(r@) == nt_usn(uuid@),
{
    let mut own = String::from_str("uuid:");
    own.append(uuid);
    let mut r: Vec<Advertised> = Vec::new();
    r.push(advertise_as(uuid, "upnp:rootdevice"));
    r.push(Advertised { nt: own.clone(), usn: own });
    r.push(advertise_as(uuid, "urn:schemas-upnp-org:device:MediaServer:1"));
    r.push(advertise_as(uuid, "urn:schemas-upnp-org:service:ContentDirectory:1"));
    r.push(advertise_as(uuid, "urn:schemas-upnp-org:service:ConnectionManager:1"));
    r.push(advertise_as(uuid, "urn:microsoft.com:service:X_MS_MediaReceiverRegistrar:1"));
    assert(advertised_views(r@) =~= nt_usn(uuid@));
    r
}

/// A search for `st` is one for `nt`, or for everything.
pub open spec fn is_sought(st: Seq<char>, nt: Seq<char>) -> bool {
    st == "ssdp:all"@ || st == nt
}

/// A search that the server answers.
pub open spec fn is_relevant(st: Seq<char>, uuid: Seq<char>) -> bool {
    st == "ssdp:all"@ || exists|i: int|
        0 <= i < nt_usn(uuid).len() && st == (#[trigger] nt_usn(uuid)[i]).0
}

/// Decides whether the server answers a search.
pub fn st_is_relevant(st: &str, uuid: &str) -> (r: bool)
    ensures
        r == is_relevant(st@, uuid@),
{
    if text::same_text(st, "ssdp:all") {
        return true;
    }
    let pairs = nt_usn_pairs(uuid);
    let ghost all = nt_usn(uuid@);
    let mut i: usize = 0;
    while i < pairs.len()
        invariant
            i <= pairs@.len(),
            advertised_views(pairs@) == all,
            all == nt_usn(uuid@),
            forall|k: int| 0 <= k < i ==> st@ != (#[trigger] all[k]).0,
        decreases pairs@.len() - i,
    {
        assert(all[i as int] == advertised_view(pairs@[i as int]));
        if text::same_text(st, pairs[i].nt.as_str()) {
            assert(st@ == nt_usn(uuid@)[i as int].0);
            return true;
        }
        i += 1;
    }
    assert(st@ != "ssdp:all"@);
    false
}

/// What a header starts with, in lower case.
pub open spec fn header_prefix(name: Seq<char>) -> Seq<char> {
    text::lower(name) + ":"@
}

/// The value of the first header `name` in `lines` from `from` on.
pub open spec fn header_from(lines: Seq<Seq<char>>, name: Seq<char>, from: int) -> Option<Seq<char>>
    decreases lines.len() - from,
{
    if from >= lines.len() {
        None
    } else if text::starts_with(text::lower(lines[from]), header_prefix(name)) {
        Some(
            text::trimmed(
                lines[from].subrange(
                    header_prefix(name).len() as int,
                    lines[from].len() as int,
                ),
            ),
        )
    } else {
        header_from(lines, name, from + 1)
    }
}

/// The value of a header in a message; the case of its name makes no difference.
pub open spec fn header_of(msg: Seq<char>, name: Seq<char>) -> Option<Seq<char>> {
    header_from(seqs::split(msg, '\n'), name, 0)
}

/// Reads a header from a message.
pub fn header_value(msg: &str, name: &str) -> (r: Option<String>)
    ensures
        match r {
            Some(v) => header_of(msg@, name@) == Some(v@),
            None => header_of(msg@, name@) is None,
        },
{
    let mut prefix = text::to_ascii_lowercase(name);
    prefix.append(":");
    let skip: usize = text::to_chars(prefix.as_str()).len();
    let lines = text::split_text(msg, '\n');
    let ghost all = text::texts(lines@);
    let mut i: usize = 0;
    while i < lines.len()
        invariant
            i <= lines@.len(),
            all == text::texts(lines@),
            all == seqs::split(msg@, '\n'),
            prefix@ == header_prefix(name@),
            skip == prefix@.len(),
            header_from(all, name@, 0) == header_from(all, name@, i as int),
        decreases lines@.len() - i,
    {
        assert(all[i as int] == lines@[i as int]@);
        let low = text::to_ascii_lowercase(lines[i].as_str());
        if text::has_prefix(low.as_str(), prefix.as_str()) {
            let v = text::to_chars(lines[i].as_str());
            let value = text::text_of(&v, skip, v.len());
            return Some(text::trim(value.as_str()));
        }
        i += 1;
    }
    None
}

/// How many seconds an answer to a search may wait: what the `MX` header says,
/// at most five, and none without one.
pub open spec fn mx_of(msg: Seq<char>) -> nat {
    match header_of(msg, "MX"@) {
        None => 0,
        Some(v) => match number::unsigned(v, u64::MAX as nat) {
            None => 0,
            Some(n) => if n > 5 {
                5
            } else {
                n
            },
        },
    }
}

/// Reads how many seconds an answer to a search may wait.
pub fn parse_mx(msg: &str) -> (r: u64)
    ensures
        r == mx_of(msg@),
{
    match header_value(msg, "MX") {
        None => 0,
        Some(v) => match number::parse_unsigned(v.as_str(), u64::MAX) {
            None => 0,
            Some(n) => if n > 5 {
                5
            } else {
                n
            },
        },
    }
}

/// An answer waits at most five seconds.
pub proof fn law_mx_is_bounded(msg: Seq<char>)
    ensures
        mx_of(msg) <= 5,
{
}

/// How many milliseconds to wait before an answer, given a random number.
pub fn delay_ms(mx: u64, seed: u64) -> (r: u64)
    requires
        mx <= 5,
    ensures
        mx == 0 ==> r == 0,
        mx > 0 ==> r == seed % (mx * 1000) as u64 && r < mx * 1000,
{
    if mx == 0 {
        0
    } else {
        seed % (mx * 1000)
    }
}

/// A search that the server answers: what is sought, and how long the answer may wait.
pub struct SearchRequest {
    pub st: String,
    pub mx: u64,
}

/// What a search asks for, as plain values; nothing for a message that is not a
/// search, or one that the server does not answer.
pub open spec fn search_of(datagram: Seq<u8>, uuid: Seq<char>) -> Option<(Seq<char>, nat)> {
    if !utf8::valid_utf8(datagram) {
        None
    } else {
        let msg = utf8::decode_utf8(datagram);
        let st = match header_of(msg, "ST"@) {
            Some(v) => v,
            None => Seq::empty(),
        };
        if text::starts_with(msg, "M-SEARCH"@) && is_relevant(st, uuid) {
            Some((st, mx_of(msg)))
        } else {
            None
        }
    }
}

/// Reads a search from a datagram.
pub fn parse_search(datagram: &[u8], uuid: &str) -> (r: Option<SearchRequest>)
    ensures
        match r {
            Some(s) => search_of(datagram@, uuid@) == Some((s.st@, s.mx as nat)),
            None => search_of(datagram@, uuid@) is None,
        },
{
    let msg = match encoding::from_utf8(datagram) {
        Some(msg) => msg,
        None => {
            return None;
        },
    };
    if !text::has_prefix(msg.as_str(), "M-SEARCH") {
        return None;
    }
    let st = match header_value(msg.as_str(), "ST") {
        Some(st) => st,
        None => {
            let none = String::new();
            assert(none@ =~= Seq::<char>::empty());
            none
        },
    };
    if !st_is_relevant(st.as_str(), uuid) {
        return None;
    }
    let mx: u64 = parse_mx(msg.as_str());
    Some(SearchRequest { st, mx })
}

/// Where the server is described.
pub open spec fn location_of(ip: IpAddr, spelled: Seq<char>, port: u16) -> Seq<char> {
    "http://"@ + host::authority(ip, spelled, port) + "/upnp/description.xml"@
}

/// Says where the server is described.
pub fn location(host: &HostIp, port: u16) -> (r: String)
    ensures
        r@ == location_of(host.ip, host.text@, port),
{
    let mut r = String::from_str("http://");
    r.append(host::format_http_authority(host, port).as_str());
    r.append("/upnp/description.xml");
    r
}

/// The announcement that the server is there as one kind of thing.
pub open spec fn alive_text(group: Seq<char>, place: Seq<char>, nt: Seq<char>, usn: Seq<char>) -> Seq<
    char,
> {
    "NOTIFY * HTTP/1.1\r\nHOST: "@ + group + "\r\nCACHE-CONTROL: max-age=1800\r\nLOCATION: "@ + place
        + "\r\nNT: "@ + nt + "\r\nNTS: ssdp:alive\r\nSERVER: "@ + soap::SERVER@ + "\r\nUSN: "@ + usn
        + "\r\n\r\n"@
}

/// The announcements that the server is there.
pub open spec fn alive_texts(group: Seq<char>, place: Seq<char>, uuid: Seq<char>) -> Seq<Seq<char>> {
    nt_usn(uuid).map_values(|p: (Seq<char>, Seq<char>)| alive_text(group, place, p.0, p.1))
}

/// Writes the announcements that the server is there.
pub fn alive_messages(multicast_host: &str, location: &str, uuid: &str) -> (r: Vec<String>)
    ensures
        text::texts(r@) == alive_texts(multicast_host@, location@, uuid@),
{
    let pairs = nt_usn_pairs(uuid);
    let ghost all = nt_usn(uuid@);
    let ghost want = alive_texts(multicast_host@, location@, uuid@);
    let mut r: Vec<String> = Vec::new();
    let mut i: usize = 0;
    while i < pairs.len()
        invariant
            i <= pairs@.len(),
            advertised_views(pairs@) == all,
            all == nt_usn(uuid@),
            want == alive_texts(multicast_host@, location@, uuid@),
            text::texts(r@) =~= want.take(i as int),
        decreases pairs@.len() - i,
    {
        assert(all[i as int] == advertised_view(pairs@[i as int]));
        let mut m = String::from_str("NOTIFY * HTTP/1.1\r\nHOST: ");
        m.append(multicast_host);
        m.append("\r\nCACHE-CONTROL: max-age=1800\r\nLOCATION: ");
        m.append(location);
        m.append("\r\nNT: ");
        m.append(pairs[i].nt.as_str());
        m.append("\r\nNTS: ssdp:alive\r\nSERVER: ");
        m.append(soap::SERVER);
        m.append("\r\nUSN: ");
        m.append(pairs[i].usn.as_str());
        m.append("\r\n\r\n");
        assert(m@ == want[i as int]);
        let ghost before = text::texts(r@);
        let ghost it = m@;
        r.push(m);
        assert(text::texts(r@) =~= before.push(it));
        i += 1;
    }
    assert(want.take(i as int) =~= want);
    r
}

/// The announcement that the server leaves as one kind of thing.
pub open spec fn byebye_text(group: Seq<char>, nt: Seq<char>, usn: Seq<char>) -> Seq<char> {
    "NOTIFY * HTTP/1.1\r\nHOST: "@ + group + "\r\nNT: "@ + nt + "\r\nNTS: ssdp:byebye\r\nUSN: "@ + usn
        + "\r\n\r\n"@
}

/// The announcements that the server leaves.
pub open spec fn byebye_texts(group: Seq<char>, uuid: Seq<char>) -> Seq<Seq<char>> {
    nt_usn(uuid).map_values(|p: (Seq<char>, Seq<char>)| byebye_text(group, p.0, p.1))
}

/// Writes the announcements that the server leaves.
pub fn byebye_messages(multicast_host: &str, uuid: &str) -> (r: Vec<String>)
    ensures
        text::texts(r@) == byebye_texts(multicast_host@, uuid@),
{
    let pairs = nt_usn_pairs(uuid);
    let ghost all = nt_usn(uuid@);
    let ghost want = byebye_texts(multicast_host@, uuid@);
    let mut r: Vec<String> = Vec::new();
    let mut i: usize = 0;
    while i < pairs.len()
        invariant
            i <= pairs@.len(),
            advertised_views(pairs@) == all,
            all == nt_usn(uuid@),
            want == byebye_texts(multicast_host@, uuid@),
            text::texts(r@) =~= want.take(i as int),
        decreases pairs@.len() - i,
    {
        assert(all[i as int] == advertised_view(pairs@[i as int]));
        let mut m = String::from_str("NOTIFY * HTTP/1.1\r\nHOST: ");
        m.append(multicast_host);
        m.append("\r\nNT: ");
        m.append(pairs[i].nt.as_str());
        m.append("\r\nNTS: ssdp:byebye\r\nUSN: ");
        m.append(pairs[i].usn.as_str());
        m.append("\r\n\r\n");
        assert(m@ == want[i as int]);
        let ghost before = text::texts(r@);
        let ghost it = m@;
        r.push(m);
        assert(text::texts(r@) =~= before.push(it));
        i += 1;
    }
    assert(want.take(i as int) =~= want);
    r
}

/// The answer to a search for one kind of thing.
pub open spec fn answer_text(when: Seq<char>, place: Seq<char>, nt: Seq<char>, usn: Seq<char>) -> Seq<
    char,
> {
    "HTTP/1.1 200 OK\r\nCACHE-CONTROL: max-age=1800\r\nDATE: "@ + when
        + "\r\nEXT:\r\nLOCATION: "@ + place + "\r\nSERVER: "@ + soap::SERVER@ + "\r\nST: "@ + nt
        + "\r\nUSN: "@ + usn + "\r\n\r\n"@
}

/// The answers to a search, for those of the first `n` kinds that are sought.
pub open spec fn answers_upto(
    pairs: Seq<(Seq<char>, Seq<char>)>,
    st: Seq<char>,
    when: Seq<char>,
    place: Seq<char>,
    n: int,
) -> Seq<Seq<char>>
    decreases n,
{
    if n <= 0 {
        Seq::empty()
    } else {
        let before = answers_upto(pairs, st, when, place, n - 1);
        let (nt, usn) = pairs[n - 1];
        if is_sought(st, nt) {
            before.push(answer_text(when, place, nt, usn))
        } else {
            before
        }
    }
}

/// The answers to a search.
pub open spec fn answers(st: Seq<char>, when: Seq<char>, place: Seq<char>, uuid: Seq<char>) -> Seq<
    Seq<char>,
> {
    answers_upto(nt_usn(uuid), st, when, place, nt_usn(uuid).len() as int)
}

/// Writes the answers to a search, given when they are sent.
pub fn search_answers(st: &str, when: &str, location: &str, uuid: &str) -> (r: Vec<String>)
    ensures
        text::texts(r@) == answers(st@, when@, location@, uuid@),
{
    let pairs = nt_usn_pairs(uuid);
    let ghost all = nt_usn(uuid@);
    let every = text::same_text(st, "ssdp:all");
    let mut r: Vec<String> = Vec::new();
    let mut i: usize = 0;
    assert(text::texts(r@) =~= answers_upto(all, st@, when@, location@, 0));
    while i < pairs.len()
        invariant
            i <= pairs@.len(),
            advertised_views(pairs@) == all,
            every == (st@ == "ssdp:all"@),
            text::texts(r@) == answers_upto(all, st@, when@, location@, i as int),
        decreases pairs@.len() - i,
    {
        assert(all[i as int] == advertised_view(pairs@[i as int]));
        let ghost before = text::texts(r@);
        if every || text::same_text(st, pairs[i].nt.as_str()) {
            let mut m = String::from_str(
                "HTTP/1.1 200 OK\r\nCACHE-CONTROL: max-age=1800\r\nDATE: ",
            );
            m.append(when);
            m.append("\r\nEXT:\r\nLOCATION: ");
            m.append(location);
            m.append("\r\nSERVER: ");
            m.append(soap::SERVER);
            m.append("\r\nST: ");
            m.append(pairs[i].nt.as_str());
            m.append("\r\nUSN: ");
            m.append(pairs[i].usn.as_str());
            m.append("\r\n\r\n");
            let ghost it = m@;
            r.push(m);
            assert(text::texts(r@) =~= before.push(it));
        }
        i += 1;
    }
    r
}

/// A search is answered exactly where it is one that the server answers.
pub proof fn law_relevant_searches_are_answered(
    st: Seq<char>,
    when: Seq<char>,
    place: Seq<char>,
    uuid: Seq<char>,
)
    ensures
        is_relevant(st, uuid) == (answers(st, when, place, uuid).len() > 0),
{
    let pairs = nt_usn(uuid);
    let n = pairs.len() as int;
    lemma_answered(pairs, st, when, place, n);
    if st == "ssdp:all"@ {
        assert(is_sought(st, pairs[0].0));
    }
    if is_relevant(st, uuid) && st != "ssdp:all"@ {
        let i = choose|i: int| 0 <= i < pairs.len() && st == (#[trigger] pairs[i]).0;
        assert(is_sought(st, pairs[i].0));
    }
}

/// There is an answer exactly where one of the kinds is sought.
proof fn lemma_answered(
    pairs: Seq<(Seq<char>, Seq<char>)>,
    st: Seq<char>,
    when: Seq<char>,
    place: Seq<char>,
    n: int,
)
    requires
        0 <= n <= pairs.len(),
    ensures
        (answers_upto(pairs, st, when, place, n).len() > 0) == exists|i: int|
            0 <= i < n && is_sought(st, (#[trigger] pairs[i]).0),
    decreases n,
{
    if n > 0 {
        lemma_answered(pairs, st, when, place, n - 1);
        assert(is_sought(st, pairs[n - 1].0) ==> exists|i: int|
            0 <= i < n && is_sought(st, (#[trigger] pairs[i]).0));
    }
}

/// The name of the weekday of day `z` after 1970-01-01.
pub open spec fn weekday(z: int) -> Seq<char> {
    let w = (z + 3) % 7;
    if w == 0 {
        "Mon"@
    } else if w == 1 {
        "Tue"@
    } else if w == 2 {
        "Wed"@
    } else if w == 3 {
        "Thu"@
    } else if w == 4 {
        "Fri"@
    } else if w == 5 {
        "Sat"@
    } else {
        "Sun"@
    }
}

/// The name of a month.
pub open spec fn month_name(m: int) -> Seq<char> {
    if m == 1 {
        "Jan"@
    } else if m == 2 {
        "Feb"@
    } else if m == 3 {
        "Mar"@
    } else if m == 4 {
        "Apr"@
    } else if m == 5 {
        "May"@
    } else if m == 6 {
        "Jun"@
    } else if m == 7 {
        "Jul"@
    } else if m == 8 {
        "Aug"@
    } else if m == 9 {
        "Sep"@
    } else if m == 10 {
        "Oct"@
    } else if m == 11 {
        "Nov"@
    } else {
        "Dec"@
    }
}

/// A number with two digits.
pub open spec fn two_digits(n: int) -> Seq<char> {
    number::zero_padded(number::decimal(n as nat), 2)
}

/// A moment, in seconds since 1970 began, as HTTP headers write it:
/// `Sun, 06 Nov 1994 08:49:37 GMT`.
pub open spec fn http_date_text(secs: int) -> Seq<char> {
    let z = secs / 86_400;
    let (y, m, d) = date::date_of(z);
    let t = secs % 86_400;
    weekday(z) + ", "@ + two_digits(d) + " "@ + month_name(m) + " "@ + number::zero_padded(
        number::decimal(y as nat),
        4,
    ) + " "@ + two_digits(t / 3600) + ":"@ + two_digits(t / 60 % 60) + ":"@ + two_digits(t % 60)
        + " GMT"@
}

/// `httpdate::fmt_http_date` of the moment `secs` seconds after the Unix epoch:
/// the date in the fixed form of HTTP headers. It does not take moments from the
/// year 10000 on.
#[verifier::external_body]
fn http_date(secs: u64) -> (s: String)
    requires
        secs < 253_402_300_800,
    ensures
        s@ == http_date_text(secs as int),
{
    httpdate::fmt_http_date(std::time::UNIX_EPOCH + std::time::Duration::from_secs(secs))
}

/// Writes the answers to a search, sent at `secs` seconds after 1970 began.
pub fn answer_search(st: &str, secs: u64, location: &str, uuid: &str) -> (r: Vec<String>)
    requires
        secs < 253_402_300_800,
    ensures
        text::texts(r@) == answers(st@, http_date_text(secs as int), location@, uuid@),
{
    let when = http_date(secs);
    search_answers(st, when.as_str(), location, uuid)
}

/// The address of a network interface, and its netmask.
#[allow(inconsistent_fields)]
#[derive(Clone, Copy, Debug, PartialEq, Eq, Structural)]
pub enum IfAddr {
    V4 { ip: u32, netmask: u32 },
    V6 { ip: u128, netmask: u128 },
}

/// A network interface.
pub struct Interface {
    pub loopback: bool,
    pub addr: IfAddr,
    /// The usual spelling of the address.
    pub text: String,
    pub index: Option<u32>,
}

/// The address of an interface.
pub open spec fn interface_ip(i: Interface) -> IpAddr {
    match i.addr {
        IfAddr::V4 { ip, .. } => IpAddr::V4(ip),
        IfAddr::V6 { ip, .. } => IpAddr::V6(ip),
    }
}

/// The address of an interface and its spelling.
pub open spec fn interface_host(i: Interface) -> (IpAddr, Seq<char>) {
    (interface_ip(i), i.text@)
}

/// What an interface is looked for by.
#[derive(Clone, Copy, Debug, PartialEq, Eq, Structural)]
pub enum Wanted {
    /// An IPv4 address.
    AnyV4,
    /// An IPv6 address that can be advertised.
    PublicV6,
    /// An address on the same network as this one.
    SameNet(IpAddr),
}

/// An interface is what is looked for. A loopback interface never is.
pub open spec fn is_wanted(i: Interface, w: Wanted) -> bool {
    !i.loopback && match (w, i.addr) {
        (Wanted::AnyV4, IfAddr::V4 { .. }) => true,
        (Wanted::PublicV6, IfAddr::V6 { ip, .. }) => host::is_usable_ipv6(ip),
        (Wanted::SameNet(IpAddr::V4(peer)), IfAddr::V4 { ip, netmask }) => netmask != 0 && ip
            & netmask == peer & netmask,
        (Wanted::SameNet(IpAddr::V6(peer)), IfAddr::V6 { ip, netmask }) => host::is_usable_ipv6(ip)
            && netmask != 0 && ip & netmask == peer & netmask,
        _ => false,
    }
}

/// The address of the first interface from `from` on that is looked for.
pub open spec fn first_wanted(ifaces: Seq<Interface>, w: Wanted, from: int) -> Option<
    (IpAddr, Seq<char>),
>
    decreases ifaces.len() - from,
{
    if from >= ifaces.len() {
        None
    } else if is_wanted(ifaces[from], w) {
        Some(interface_host(ifaces[from]))
    } else {
        first_wanted(ifaces, w, from + 1)
    }
}

/// Decides whether an interface is what is looked for.
fn fits(i: &Interface, w: Wanted) -> (r: bool)
    ensures
        r == is_wanted(*i, w),
{
    if i.loopback {
        return false;
    }
    match (w, i.addr) {
        (Wanted::AnyV4, IfAddr::V4 { .. }) => true,
        (Wanted::PublicV6, IfAddr::V6 { ip, .. }) => host::usable_ipv6(ip),
        (Wanted::SameNet(IpAddr::V4(peer)), IfAddr::V4 { ip, netmask }) => host::ipv4_same_net(
            ip,
            peer,
            netmask,
        ),
        (Wanted::SameNet(IpAddr::V6(peer)), IfAddr::V6 { ip, netmask }) => host::usable_ipv6(ip)
            && host::ipv6_same_net(ip, peer, netmask),
        _ => false,
    }
}

/// Finds the first interface that is looked for.
pub fn find_interface(ifaces: &Vec<Interface>, w: Wanted) -> (r: Option<HostIp>)
    ensures
        match r {
            Some(h) => first_wanted(ifaces@, w, 0) == Some(host::host_view(h)),
            None => first_wanted(ifaces@, w, 0) is None,
        },
{
    let mut i: usize = 0;
    while i < ifaces.len()
        invariant
            i <= ifaces@.len(),
            first_wanted(ifaces@, w, 0) == first_wanted(ifaces@, w, i as int),
        decreases ifaces@.len() - i,
    {
        if fits(&ifaces[i], w) {
            let ip = match ifaces[i].addr {
                IfAddr::V4 { ip, .. } => IpAddr::V4(ip),
                IfAddr::V6 { ip, .. } => IpAddr::V6(ip),
            };
            return Some(HostIp { ip, text: ifaces[i].text.clone() });
        }
        i += 1;
    }
    None
}

/// The address of the first IPv4 interface.
pub fn first_ipv4(ifaces: &Vec<Interface>) -> (r: Option<HostIp>)
    ensures
        match r {
            Some(h) => first_wanted(ifaces@, Wanted::AnyV4, 0) == Some(host::host_view(h)),
            None => first_wanted(ifaces@, Wanted::AnyV4, 0) is None,
        },
{
    find_interface(ifaces, Wanted::AnyV4)
}

/// The first IPv6 address that can be advertised.
pub fn advertised_ipv6(ifaces: &Vec<Interface>) -> (r: Option<HostIp>)
    ensures
        match r {
            Some(h) => first_wanted(ifaces@, Wanted::PublicV6, 0) == Some(host::host_view(h)),
            None => first_wanted(ifaces@, Wanted::PublicV6, 0) is None,
        },
{
    find_interface(ifaces, Wanted::PublicV6)
}

/// The server's own address on the network that a client is on.
pub fn local_ip_for_peer(peer: IpAddr, ifaces: &Vec<Interface>) -> (r: Option<HostIp>)
    ensures
        match r {
            Some(h) => first_wanted(ifaces@, Wanted::SameNet(peer), 0) == Some(host::host_view(h)),
            None => first_wanted(ifaces@, Wanted::SameNet(peer), 0) is None,
        },
{
    find_interface(ifaces, Wanted::SameNet(peer))
}

/// The address to advertise to clients that use IPv6, or IPv4.
pub open spec fn family_host(
    want_v6: bool,
    local: (IpAddr, Seq<char>),
    ifaces: Seq<Interface>,
) -> (IpAddr, Seq<char>) {
    let found = if want_v6 {
        first_wanted(ifaces, Wanted::PublicV6, 0)
    } else if local.0 is V4 {
        Some(local)
    } else {
        first_wanted(ifaces, Wanted::AnyV4, 0)
    };
    match found {
        Some(h) => h,
        None => local,
    }
}

/// Decides which address to advertise to clients that use IPv6, or IPv4.
pub fn location_ip_for_family(want_v6: bool, local: &HostIp, ifaces: &Vec<Interface>) -> (r: HostIp)
    ensures
        host::host_view(r) == family_host(want_v6, host::host_view(*local), ifaces@),
{
    let is_v4 = match local.ip {
        IpAddr::V4(_) => true,
        IpAddr::V6(_) => false,
    };
    let found = if want_v6 {
        advertised_ipv6(ifaces)
    } else if is_v4 {
        return local.copy();
    } else {
        first_ipv4(ifaces)
    };
    match found {
        Some(h) => h,
        None => local.copy(),
    }
}

/// The address to advertise to a client.
pub open spec fn peer_host(
    peer: IpAddr,
    local: (IpAddr, Seq<char>),
    ifaces: Seq<Interface>,
) -> (IpAddr, Seq<char>) {
    match first_wanted(ifaces, Wanted::SameNet(peer), 0) {
        Some(h) => h,
        None => family_host(peer is V6, local, ifaces),
    }
}

/// Says where a client finds the server's description: on the client's own
/// network where the server is on it.
pub fn location_for_peer(peer: IpAddr, local: &HostIp, port: u16, ifaces: &Vec<Interface>) -> (r:
    String)
    ensures
        r@ == location_of(
            peer_host(peer, host::host_view(*local), ifaces@).0,
            peer_host(peer, host::host_view(*local), ifaces@).1,
            port,
        ),
{
    let want_v6 = match peer {
        IpAddr::V4(_) => false,
        IpAddr::V6(_) => true,
    };
    let h = match local_ip_for_peer(peer, ifaces) {
        Some(h) => h,
        None => location_ip_for_family(want_v6, local, ifaces),
    };
    location(&h, port)
}

/// The IPv4 address that announcements are sent from.
pub open spec fn multicast_from(local: IpAddr, ifaces: Seq<Interface>) -> u32 {
    match local {
        IpAddr::V4(v) => v,
        IpAddr::V6(_) => match first_wanted(ifaces, Wanted::AnyV4, 0) {
            Some((IpAddr::V4(v), _)) => v,
            _ => 0,
        },
    }
}

/// Decides which IPv4 address announcements are sent from.
pub fn multicast_interface(local: &HostIp, ifaces: &Vec<Interface>) -> (r: u32)
    ensures
        r == multicast_from(local.ip, ifaces@),
{
    match local.ip {
        IpAddr::V4(v) => v,
        IpAddr::V6(_) => match first_ipv4(ifaces) {
            Some(h) => match h.ip {
                IpAddr::V4(v) => v,
                IpAddr::V6(_) => 0,
            },
            None => 0,
        },
    }
}

/// The addresses of the first `n` interfaces to listen on for IPv4.
pub open spec fn v4_upto(ifaces: Seq<Interface>, n: int) -> Seq<u32>
    decreases n,
{
    if n <= 0 {
        Seq::empty()
    } else {
        let before = v4_upto(ifaces, n - 1);
        match ifaces[n - 1].addr {
            IfAddr::V4 { ip, .. } => if ifaces[n - 1].loopback {
                before
            } else {
                before.push(ip)
            },
            IfAddr::V6 { .. } => before,
        }
    }
}

/// Lists the addresses of the interfaces to listen on for IPv4.
pub fn v4_interfaces(ifaces: &Vec<Interface>) -> (r: Vec<u32>)
    ensures
        r@ == v4_upto(ifaces@, ifaces@.len() as int),
{
    let mut r: Vec<u32> = Vec::new();
    let mut i: usize = 0;
    while i < ifaces.len()
        invariant
            i <= ifaces@.len(),
            r@ == v4_upto(ifaces@, i as int),
        decreases ifaces@.len() - i,
    {
        if !ifaces[i].loopback {
            if let IfAddr::V4 { ip, .. } = ifaces[i].addr {
                r.push(ip);
            }
        }
        i += 1;
    }
    r
}

/// The index of an interface, or 0.
pub open spec fn index_or_0(i: Interface) -> u32 {
    match i.index {
        Some(n) => n,
        None => 0,
    }
}

/// The indices of the first `n` interfaces to listen on for IPv6, each once.
pub open spec fn v6_upto(ifaces: Seq<Interface>, n: int) -> Seq<u32>
    decreases n,
{
    if n <= 0 {
        Seq::empty()
    } else {
        let before = v6_upto(ifaces, n - 1);
        let i = ifaces[n - 1];
        match i.addr {
            IfAddr::V6 { .. } => if i.loopback || before.contains(index_or_0(i)) {
                before
            } else {
                before.push(index_or_0(i))
            },
            IfAddr::V4 { .. } => before,
        }
    }
}

/// Lists the indices of the interfaces to listen on for IPv6, each once.
pub fn v6_interfaces(ifaces: &Vec<Interface>) -> (r: Vec<u32>)
    ensures
        r@ == v6_upto(ifaces@, ifaces@.len() as int),
{
    let mut r: Vec<u32> = Vec::new();
    let mut i: usize = 0;
    while i < ifaces.len()
        invariant
            i <= ifaces@.len(),
            r@ == v6_upto(ifaces@, i as int),
        decreases ifaces@.len() - i,
    {
        if !ifaces[i].loopback {
            if let IfAddr::V6 { .. } = ifaces[i].addr {
                let index: u32 = match ifaces[i].index {
                    Some(n) => n,
                    None => 0,
                };
                if !holds_index(&r, index) {
                    r.push(index);
                }
            }
        }
        i += 1;
    }
    r
}

/// Decides whether a list holds a number.
fn holds_index(v: &Vec<u32>, x: u32) -> (r: bool)
    ensures
        r == v@.contains(x),
{
    let mut i: usize = 0;
    while i < v.len()
        invariant
            i <= v@.len(),
            forall|k: int| 0 <= k < i ==> #[trigger] v@[k] != x,
        decreases v@.len() - i,
    {
        if v[i] == x {
            assert(v@[i as int] == x);
            return true;
        }
        i += 1;
    }
    false
}

/// A link-local, multicast or loopback IPv6 address is never advertised in place
/// of the server's own.
pub proof fn law_link_local_is_not_advertised(
    ifaces: Seq<Interface>,
    peer: IpAddr,
    from: int,
    found: (IpAddr, Seq<char>),
)
    requires
        0 <= from,
        first_wanted(ifaces, Wanted::PublicV6, from) == Some(found) || first_wanted(
            ifaces,
            Wanted::SameNet(peer),
            from,
        ) == Some(found),
    ensures
        match found.0 {
            IpAddr::V6(ip) => host::is_usable_ipv6(ip),
            IpAddr::V4(_) => true,
        },
    decreases ifaces.len() - from,
{
    if from < ifaces.len() && !(is_wanted(ifaces[from], Wanted::PublicV6) && first_wanted(
        ifaces,
        Wanted::PublicV6,
        from,
    ) == Some(found)) && !(is_wanted(ifaces[from], Wanted::SameNet(peer)) && first_wanted(
        ifaces,
        Wanted::SameNet(peer),
        from,
    ) == Some(found)) {
        law_link_local_is_not_advertised(ifaces, peer, from + 1, found);
    }
}

/// Lines of text, each with its end.
pub open spec fn lines_text(lines: Seq<Seq<char>>) -> Seq<char>
    decreases lines.len(),
{
    if lines.len() == 0 {
        Seq::empty()
    } else {
        lines_text(lines.drop_last()) + lines.last() + "\r\n"@
    }
}

/// Text without the end of a line in it.
pub open spec fn is_one_line(s: Seq<char>) -> bool {
    forall|i: int| 0 <= i < s.len() ==> #[trigger] s[i] != '\n' && s[i] != '\r'
}

/// A line is the header `name`, as it is spelled, with this value.
pub open spec fn is_header_line(
    line: Seq<char>,
    spelled: Seq<char>,
    name: Seq<char>,
    value: Seq<char>,
) -> bool {
    text::lower(spelled) == text::lower(name) && line == spelled + ":"@ + value
}

/// A line is a header of another name, or none.
pub open spec fn is_other_line(line: Seq<char>, name: Seq<char>) -> bool {
    !text::starts_with(text::lower(line), text::lower(name) + ":"@)
}

/// Splitting lines gives them back, with the first half of their ends, and an
/// empty one behind them.
proof fn lemma_split_lines(lines: Seq<Seq<char>>, tail: Seq<char>)
    requires
        forall|i: int| 0 <= i < lines.len() ==> is_one_line(#[trigger] lines[i]),
    ensures
        seqs::split(lines_text(lines) + tail, '\n') == lines.map_values(
            |l: Seq<char>| l.push('\r'),
        ) + seqs::split(tail, '\n'),
    decreases lines.len(),
{
    let ends = |l: Seq<char>| l.push('\r');
    reveal_strlit("\r\n");
    if lines.len() == 0 {
        assert(lines_text(lines) + tail =~= tail);
        assert(lines.map_values(ends) + seqs::split(tail, '\n') =~= seqs::split(tail, '\n'));
    } else {
        let last = lines.last();
        let before = lines.drop_last();
        let more = last.push('\r') + seq!['\n'] + tail;
        assert(lines_text(lines) + tail =~= lines_text(before) + more);
        assert forall|i: int| 0 <= i < before.len() implies is_one_line(#[trigger] before[i]) by {
            assert(before[i] == lines[i]);
        }
        lemma_split_lines(before, more);
        assert(is_one_line(lines[lines.len() - 1]));
        lemma_split_first(last.push('\r'), tail);
        assert(lines.map_values(ends) =~= before.map_values(ends).push(last.push('\r')));
        assert(before.map_values(ends) + (seq![last.push('\r')] + seqs::split(tail, '\n'))
            =~= lines.map_values(ends) + seqs::split(tail, '\n'));
    }
}

/// The first piece, and the rest.
proof fn lemma_split_first(first: Seq<char>, rest: Seq<char>)
    requires
        forall|i: int| 0 <= i < first.len() ==> #[trigger] first[i] != '\n',
    ensures
        seqs::split(first + seq!['\n'] + rest, '\n') == seq![first] + seqs::split(rest, '\n'),
{
    let whole = first + seq!['\n'] + rest;
    let k = first.len() as int;
    assert forall|i: int| 0 <= i < k implies #[trigger] whole[i] != '\n' by {
        assert(whole[i] == first[i]);
    }
    seqs::lemma_position_is(whole, '\n', 0, k);
    assert(whole.subrange(0, k) =~= first);
    assert(whole.subrange(k + 1, whole.len() as int) =~= rest.subrange(0, rest.len() as int));
    seqs::lemma_pieces_shift(whole, rest, '\n', k + 1, 0);
}

/// The first header of a name is read from a message, in whatever case its name
/// is spelled, without the blanks around its value.
pub proof fn law_headers_are_read(
    lines: Seq<Seq<char>>,
    k: int,
    spelled: Seq<char>,
    name: Seq<char>,
    value: Seq<char>,
)
    requires
        0 <= k < lines.len(),
        forall|i: int| 0 <= i < lines.len() ==> is_one_line(#[trigger] lines[i]),
        forall|i: int| 0 <= i < k ==> is_other_line(#[trigger] lines[i], name),
        forall|i: int| 0 <= i < name.len() ==> #[trigger] name[i] != '\r',
        is_header_line(lines[k], spelled, name, value),
    ensures
        header_of(lines_text(lines) + "\r\n"@, name) == Some(text::trimmed(value)),
{
    reveal_strlit("\r\n");
    reveal_strlit(":");
    let tail = "\r\n"@;
    lemma_split_lines(lines, tail);
    let all = seqs::split(lines_text(lines) + tail, '\n');
    assert forall|i: int| 0 <= i < lines.len() implies #[trigger] all[i] == lines[i].push('\r') by {}
    assert forall|i: int| 0 <= i < k implies !text::starts_with(
        text::lower(#[trigger] all[i]),
        header_prefix(name),
    ) by {
        assert(is_other_line(lines[i], name));
        lemma_line_end_is_no_header(lines[i], name);
    }
    lemma_header_from(all, name, 0, k);
    let it = lines[k].push('\r');
    let p = header_prefix(name);
    assert(text::lower(spelled).len() == text::lower(name).len());
    assert(text::lower(it).subrange(0, p.len() as int) =~= p) by {
        assert forall|i: int| 0 <= i < p.len() implies text::lower(it)[i] == #[trigger] p[i] by {
            if i < name.len() {
                assert(text::lower(spelled)[i] == text::lower(name)[i]);
            }
        }
    }
    assert(it.subrange(p.len() as int, it.len() as int) =~= Seq::<char>::empty() + value
        + seq!['\r']);
    text::law_trimming_blanks_changes_nothing(Seq::empty(), value, seq!['\r']);
}

/// A message has no header of a name that none of its lines has.
pub proof fn law_missing_headers_are_missed(lines: Seq<Seq<char>>, name: Seq<char>)
    requires
        name.len() > 0,
        forall|i: int| 0 <= i < lines.len() ==> is_one_line(#[trigger] lines[i]),
        forall|i: int| 0 <= i < lines.len() ==> is_other_line(#[trigger] lines[i], name),
        forall|i: int| 0 <= i < name.len() ==> #[trigger] name[i] != '\r',
    ensures
        header_of(lines_text(lines) + "\r\n"@, name) is None,
{
    reveal_strlit("\r\n");
    reveal_strlit(":");
    let tail = "\r\n"@;
    lemma_split_lines(lines, tail);
    lemma_split_first(seq!['\r'], Seq::empty());
    assert(seq!['\r'] + seq!['\n'] + Seq::<char>::empty() =~= tail);
    let none = Seq::<char>::empty();
    seqs::lemma_position_from(none, '\n', 0);
    assert(none.subrange(0, 0) =~= none);
    assert(seqs::split(none, '\n') =~= seq![none]);
    let all = seqs::split(lines_text(lines) + tail, '\n');
    let n = lines.len() as int;
    assert(all.len() == n + 2);
    assert forall|i: int| 0 <= i < all.len() implies !text::starts_with(
        text::lower(#[trigger] all[i]),
        header_prefix(name),
    ) by {
        if i < n {
            assert(is_other_line(lines[i], name));
            assert(all[i] == lines[i].push('\r'));
            lemma_line_end_is_no_header(lines[i], name);
        } else {
            assert(all[i].len() <= 1);
            assert(header_prefix(name).len() >= 2);
        }
    }
    lemma_header_from(all, name, 0, all.len() as int);
}

/// The end of a line does not make it a header.
proof fn lemma_line_end_is_no_header(line: Seq<char>, name: Seq<char>)
    requires
        is_other_line(line, name),
        forall|i: int| 0 <= i < name.len() ==> #[trigger] name[i] != '\r',
    ensures
        !text::starts_with(text::lower(line.push('\r')), header_prefix(name)),
{
    reveal_strlit(":");
    let p = header_prefix(name);
    let long = text::lower(line.push('\r'));
    let short = text::lower(line);
    if text::starts_with(long, p) {
        if p.len() <= short.len() {
            assert(short.subrange(0, p.len() as int) =~= long.subrange(0, p.len() as int));
        } else {
            let i = line.len() as int;
            assert(long.subrange(0, p.len() as int)[i] == p[i]);
            assert(long[i] == '\r');
            assert(p[p.len() - 1] == ':');
        }
    }
}

/// Lines that are not the header are passed over.
proof fn lemma_header_from(lines: Seq<Seq<char>>, name: Seq<char>, from: int, k: int)
    requires
        0 <= from <= k <= lines.len(),
        forall|i: int|
            from <= i < k ==> !text::starts_with(
                text::lower(#[trigger] lines[i]),
                header_prefix(name),
            ),
    ensures
        header_from(lines, name, from) == header_from(lines, name, k),
    decreases k - from,
{
    if from < k {
        lemma_header_from(lines, name, from + 1, k);
    }
}

/// A line whose name differs is another line.
proof fn lemma_other_line(line: Seq<char>, name: Seq<char>, k: int)
    requires
        0 <= k < line.len(),
        k <= name.len(),
        k < name.len() ==> text::lower_char(line[k]) != text::lower_char(name[k]),
        k == name.len() ==> text::lower_char(line[k]) != ':',
    ensures
        is_other_line(line, name),
{
    reveal_strlit(":");
    let p = text::lower(name) + ":"@;
    let low = text::lower(line);
    if text::starts_with(low, p) {
        assert(low.subrange(0, p.len() as int)[k] == p[k]);
    }
}

/// A line that is written with a blank behind the name is that header.
proof fn lemma_written_header(
    lines: Seq<Seq<char>>,
    k: int,
    name: Seq<char>,
    written: Seq<char>,
    value: Seq<char>,
)
    requires
        0 <= k < lines.len(),
        forall|i: int| 0 <= i < lines.len() ==> is_one_line(#[trigger] lines[i]),
        forall|i: int| 0 <= i < k ==> is_other_line(#[trigger] lines[i], name),
        forall|i: int| 0 <= i < name.len() ==> #[trigger] name[i] != '\r',
        written == name + ": "@,
        lines[k] == written + value,
        text::is_tight(value),
    ensures
        header_of(lines_text(lines) + "\r\n"@, name) == Some(value),
{
    reveal_strlit(":");
    reveal_strlit(": ");
    let v = seq![' '] + value;
    assert(lines[k] =~= name + ":"@ + v);
    law_headers_are_read(lines, k, name, name, v);
    text::law_blanks_are_trimmed(seq![' '], value, Seq::empty());
    assert(seq![' '] + value + Seq::<char>::empty() =~= v);
}

/// What can be the value of a header: one line without blanks around it.
pub open spec fn is_header_value(s: Seq<char>) -> bool {
    is_one_line(s) && text::is_tight(s)
}

/// The lines of an answer.
spec fn answer_lines(when: Seq<char>, place: Seq<char>, nt: Seq<char>, usn: Seq<char>) -> Seq<
    Seq<char>,
> {
    seq![
        "HTTP/1.1 200 OK"@,
        "CACHE-CONTROL: max-age=1800"@,
        "DATE: "@ + when,
        "EXT:"@,
        "LOCATION: "@ + place,
        "SERVER: "@ + soap::SERVER@,
        "ST: "@ + nt,
        "USN: "@ + usn,
    ]
}

/// An answer is made of its lines.
#[verifier::spinoff_prover]
#[verifier::rlimit(60)]
proof fn lemma_answer_lines(when: Seq<char>, place: Seq<char>, nt: Seq<char>, usn: Seq<char>)
    requires
        is_one_line(when),
        is_one_line(place),
        is_one_line(nt),
        is_one_line(usn),
    ensures
        answer_text(when, place, nt, usn) == lines_text(answer_lines(when, place, nt, usn))
            + "\r\n"@,
        forall|i: int|
            0 <= i < answer_lines(when, place, nt, usn).len() ==> is_one_line(
                #[trigger] answer_lines(when, place, nt, usn)[i],
            ),
{
    let lines = answer_lines(when, place, nt, usn);
    reveal_strlit("\r\n");
    reveal_strlit("\r\n\r\n");
    reveal_strlit("HTTP/1.1 200 OK");
    reveal_strlit("CACHE-CONTROL: max-age=1800");
    reveal_strlit("DATE: ");
    reveal_strlit("EXT:");
    reveal_strlit("LOCATION: ");
    reveal_strlit("SERVER: ");
    reveal_strlit("Linux/5.0 UPnP/1.0 Spritz/0.1.6");
    reveal_strlit("ST: ");
    reveal_strlit("USN: ");
    reveal_strlit("HTTP/1.1 200 OK\r\nCACHE-CONTROL: max-age=1800\r\nDATE: ");
    reveal_strlit("\r\nEXT:\r\nLOCATION: ");
    reveal_strlit("\r\nSERVER: ");
    reveal_strlit("\r\nST: ");
    reveal_strlit("\r\nUSN: ");
    let l0 = lines.take(0);
    let l1 = lines.take(1);
    let l2 = lines.take(2);
    let l3 = lines.take(3);
    let l4 = lines.take(4);
    let l5 = lines.take(5);
    let l6 = lines.take(6);
    let l7 = lines.take(7);
    assert(l1.drop_last() =~= l0 && l2.drop_last() =~= l1 && l3.drop_last() =~= l2
        && l4.drop_last() =~= l3 && l5.drop_last() =~= l4 && l6.drop_last() =~= l5
        && l7.drop_last() =~= l6 && lines.drop_last() =~= l7);
    assert(lines_text(l0) =~= Seq::<char>::empty());
    assert(lines_text(l1) =~= "HTTP/1.1 200 OK"@ + "\r\n"@);
    assert(lines_text(l2) =~= "HTTP/1.1 200 OK"@ + "\r\n"@ + "CACHE-CONTROL: max-age=1800"@
        + "\r\n"@);
    assert(lines_text(l2) + "DATE: "@
        =~= "HTTP/1.1 200 OK\r\nCACHE-CONTROL: max-age=1800\r\nDATE: "@);
    assert("\r\n"@ + ("EXT:"@ + "\r\n"@ + "LOCATION: "@) =~= "\r\nEXT:\r\nLOCATION: "@);
    assert("\r\n"@ + "SERVER: "@ =~= "\r\nSERVER: "@);
    assert("\r\n"@ + "ST: "@ =~= "\r\nST: "@);
    assert("\r\n"@ + "USN: "@ =~= "\r\nUSN: "@);
    assert("\r\n"@ + "\r\n"@ =~= "\r\n\r\n"@);
    let a2 = "HTTP/1.1 200 OK\r\nCACHE-CONTROL: max-age=1800\r\nDATE: "@ + when;
    assert(lines_text(l3) =~= a2 + "\r\n"@);
    assert(lines_text(l4) =~= a2 + "\r\n"@ + "EXT:"@ + "\r\n"@);
    let a4 = a2 + "\r\nEXT:\r\nLOCATION: "@ + place;
    assert(lines_text(l5) =~= a4 + "\r\n"@);
    let a5 = a4 + "\r\nSERVER: "@ + soap::SERVER@;
    assert(lines_text(l6) =~= a5 + "\r\n"@);
    let a6 = a5 + "\r\nST: "@ + nt;
    assert(lines_text(l7) =~= a6 + "\r\n"@);
    let a7 = a6 + "\r\nUSN: "@ + usn;
    assert(lines_text(lines) =~= a7 + "\r\n"@);
    assert(a7 + "\r\n\r\n"@ =~= lines_text(lines) + "\r\n"@);
    assert(is_one_line(lines[0]));
    assert(is_one_line(lines[1]));
    assert(is_one_line(lines[2]));
    assert(is_one_line(lines[3]));
    assert(is_one_line(lines[4]));
    assert(is_one_line(lines[5]));
    assert(is_one_line(lines[6]));
    assert(is_one_line(lines[7]));
}

/// An answer to a search reads as the headers that were put into it.
pub proof fn law_answers_can_be_read(
    when: Seq<char>,
    place: Seq<char>,
    nt: Seq<char>,
    usn: Seq<char>,
)
    requires
        is_header_value(when),
        is_header_value(place),
        is_header_value(nt),
        is_header_value(usn),
    ensures
        text::starts_with(answer_text(when, place, nt, usn), "HTTP/1.1 200 OK\r\n"@),
        header_of(answer_text(when, place, nt, usn), "DATE"@) == Some(when),
        header_of(answer_text(when, place, nt, usn), "LOCATION"@) == Some(place),
        header_of(answer_text(when, place, nt, usn), "ST"@) == Some(nt),
        header_of(answer_text(when, place, nt, usn), "USN"@) == Some(usn),
{
    let lines = answer_lines(when, place, nt, usn);
    lemma_answer_lines(when, place, nt, usn);
    reveal_strlit("HTTP/1.1 200 OK");
    reveal_strlit("CACHE-CONTROL: max-age=1800");
    reveal_strlit("DATE: ");
    reveal_strlit("EXT:");
    reveal_strlit("LOCATION: ");
    reveal_strlit("SERVER: ");
    reveal_strlit("ST: ");
    reveal_strlit("USN: ");
    reveal_strlit("DATE");
    reveal_strlit("LOCATION");
    reveal_strlit("ST");
    reveal_strlit("USN");
    reveal_strlit(": ");
    assert("DATE"@ + ": "@ =~= "DATE: "@);
    assert("LOCATION"@ + ": "@ =~= "LOCATION: "@);
    assert("ST"@ + ": "@ =~= "ST: "@);
    assert("USN"@ + ": "@ =~= "USN: "@);
    assert(lines[0][0] == 'H' && lines[1][0] == 'C' && lines[2][0] == 'D' && lines[3][0] == 'E'
        && lines[4][0] == 'L' && lines[5][0] == 'S' && lines[5][1] == 'E' && lines[6][0] == 'S'
        && lines[6][1] == 'T');
    assert forall|i: int| 0 <= i < 2 implies is_other_line(#[trigger] lines[i], "DATE"@) by {
        lemma_other_line(lines[i], "DATE"@, 0);
    }
    lemma_written_header(lines, 2, "DATE"@, "DATE: "@, when);
    assert forall|i: int| 0 <= i < 4 implies is_other_line(#[trigger] lines[i], "LOCATION"@) by {
        lemma_other_line(lines[i], "LOCATION"@, 0);
    }
    lemma_written_header(lines, 4, "LOCATION"@, "LOCATION: "@, place);
    assert forall|i: int| 0 <= i < 6 implies is_other_line(#[trigger] lines[i], "ST"@) by {
        if i == 5 {
            lemma_other_line(lines[i], "ST"@, 1);
        } else {
            lemma_other_line(lines[i], "ST"@, 0);
        }
    }
    lemma_written_header(lines, 6, "ST"@, "ST: "@, nt);
    assert forall|i: int| 0 <= i < 7 implies is_other_line(#[trigger] lines[i], "USN"@) by {
        lemma_other_line(lines[i], "USN"@, 0);
    }
    lemma_written_header(lines, 7, "USN"@, "USN: "@, usn);
    reveal_strlit("HTTP/1.1 200 OK\r\n");
    reveal_strlit("HTTP/1.1 200 OK\r\nCACHE-CONTROL: max-age=1800\r\nDATE: ");
    let whole = answer_text(when, place, nt, usn);
    let head = "HTTP/1.1 200 OK\r\nCACHE-CONTROL: max-age=1800\r\nDATE: "@;
    broadcast use seqs::lemma_longer_begins;

    assert(head.subrange(0, 17) =~= "HTTP/1.1 200 OK\r\n"@);
    assert(seqs::begins(head, "HTTP/1.1 200 OK\r\n"@));
    assert(seqs::begins(whole, "HTTP/1.1 200 OK\r\n"@));
}

/// The lines of an announcement that the server is there.
spec fn alive_lines(group: Seq<char>, place: Seq<char>, nt: Seq<char>, usn: Seq<char>) -> Seq<
    Seq<char>,
> {
    seq![
        "NOTIFY * HTTP/1.1"@,
        "HOST: "@ + group,
        "CACHE-CONTROL: max-age=1800"@,
        "LOCATION: "@ + place,
        "NT: "@ + nt,
        "NTS: ssdp:alive"@,
        "SERVER: "@ + soap::SERVER@,
        "USN: "@ + usn,
    ]
}

/// An announcement that the server is there is made of its lines.
#[verifier::spinoff_prover]
#[verifier::rlimit(60)]
proof fn lemma_alive_lines(group: Seq<char>, place: Seq<char>, nt: Seq<char>, usn: Seq<char>)
    requires
        is_one_line(group),
        is_one_line(place),
        is_one_line(nt),
        is_one_line(usn),
    ensures
        alive_text(group, place, nt, usn) == lines_text(alive_lines(group, place, nt, usn))
            + "\r\n"@,
        forall|i: int|
            0 <= i < alive_lines(group, place, nt, usn).len() ==> is_one_line(
                #[trigger] alive_lines(group, place, nt, usn)[i],
            ),
{
    let lines = alive_lines(group, place, nt, usn);
    reveal_strlit("\r\n");
    reveal_strlit("\r\n\r\n");
    reveal_strlit("NOTIFY * HTTP/1.1");
    reveal_strlit("HOST: ");
    reveal_strlit("CACHE-CONTROL: max-age=1800");
    reveal_strlit("LOCATION: ");
    reveal_strlit("NT: ");
    reveal_strlit("NTS: ssdp:alive");
    reveal_strlit("SERVER: ");
    reveal_strlit("Linux/5.0 UPnP/1.0 Spritz/0.1.6");
    reveal_strlit("USN: ");
    reveal_strlit("NOTIFY * HTTP/1.1\r\nHOST: ");
    reveal_strlit("\r\nCACHE-CONTROL: max-age=1800\r\nLOCATION: ");
    reveal_strlit("\r\nNT: ");
    reveal_strlit("\r\nNTS: ssdp:alive\r\nSERVER: ");
    reveal_strlit("\r\nUSN: ");
    let l0 = lines.take(0);
    let l1 = lines.take(1);
    let l2 = lines.take(2);
    let l3 = lines.take(3);
    let l4 = lines.take(4);
    let l5 = lines.take(5);
    let l6 = lines.take(6);
    let l7 = lines.take(7);
    assert(l1.drop_last() =~= l0 && l2.drop_last() =~= l1 && l3.drop_last() =~= l2
        && l4.drop_last() =~= l3 && l5.drop_last() =~= l4 && l6.drop_last() =~= l5
        && l7.drop_last() =~= l6 && lines.drop_last() =~= l7);
    assert(lines_text(l0) =~= Seq::<char>::empty());
    assert("NOTIFY * HTTP/1.1"@ + "\r\n"@ + "HOST: "@ =~= "NOTIFY * HTTP/1.1\r\nHOST: "@);
    assert("\r\n"@ + ("CACHE-CONTROL: max-age=1800"@ + "\r\n"@ + "LOCATION: "@)
        =~= "\r\nCACHE-CONTROL: max-age=1800\r\nLOCATION: "@);
    assert("\r\n"@ + "NT: "@ =~= "\r\nNT: "@);
    assert("\r\n"@ + ("NTS: ssdp:alive"@ + "\r\n"@ + "SERVER: "@)
        =~= "\r\nNTS: ssdp:alive\r\nSERVER: "@);
    assert("\r\n"@ + "USN: "@ =~= "\r\nUSN: "@);
    assert("\r\n"@ + "\r\n"@ =~= "\r\n\r\n"@);
    assert(lines_text(l1) =~= "NOTIFY * HTTP/1.1"@ + "\r\n"@);
    let a1 = "NOTIFY * HTTP/1.1\r\nHOST: "@ + group;
    assert(lines_text(l2) =~= a1 + "\r\n"@);
    assert(lines_text(l3) =~= a1 + "\r\n"@ + "CACHE-CONTROL: max-age=1800"@ + "\r\n"@);
    let a3 = a1 + "\r\nCACHE-CONTROL: max-age=1800\r\nLOCATION: "@ + place;
    assert(lines_text(l4) =~= a3 + "\r\n"@);
    let a4 = a3 + "\r\nNT: "@ + nt;
    assert(lines_text(l5) =~= a4 + "\r\n"@);
    assert(lines_text(l6) =~= a4 + "\r\n"@ + "NTS: ssdp:alive"@ + "\r\n"@);
    let a6 = a4 + "\r\nNTS: ssdp:alive\r\nSERVER: "@ + soap::SERVER@;
    assert(lines_text(l7) =~= a6 + "\r\n"@);
    let a7 = a6 + "\r\nUSN: "@ + usn;
    assert(lines_text(lines) =~= a7 + "\r\n"@);
    assert(a7 + "\r\n\r\n"@ =~= lines_text(lines) + "\r\n"@);
    assert(is_one_line(lines[0]));
    assert(is_one_line(lines[1]));
    assert(is_one_line(lines[2]));
    assert(is_one_line(lines[3]));
    assert(is_one_line(lines[4]));
    assert(is_one_line(lines[5]));
    assert(is_one_line(lines[6]));
    assert(is_one_line(lines[7]));
}

/// An announcement that the server is there reads as the headers that were put
/// into it, and says so.
pub proof fn law_announcements_can_be_read(
    group: Seq<char>,
    place: Seq<char>,
    nt: Seq<char>,
    usn: Seq<char>,
)
    requires
        is_header_value(group),
        is_header_value(place),
        is_header_value(nt),
        is_header_value(usn),
    ensures
        text::starts_with(alive_text(group, place, nt, usn), "NOTIFY * HTTP/1.1\r\n"@),
        header_of(alive_text(group, place, nt, usn), "HOST"@) == Some(group),
        header_of(alive_text(group, place, nt, usn), "LOCATION"@) == Some(place),
        header_of(alive_text(group, place, nt, usn), "NT"@) == Some(nt),
        header_of(alive_text(group, place, nt, usn), "NTS"@) == Some("ssdp:alive"@),
        header_of(alive_text(group, place, nt, usn), "USN"@) == Some(usn),
{
    let lines = alive_lines(group, place, nt, usn);
    lemma_alive_lines(group, place, nt, usn);
    reveal_strlit("NOTIFY * HTTP/1.1");
    reveal_strlit("HOST: ");
    reveal_strlit("CACHE-CONTROL: max-age=1800");
    reveal_strlit("LOCATION: ");
    reveal_strlit("NT: ");
    reveal_strlit("NTS: ");
    reveal_strlit("ssdp:alive");
    reveal_strlit("NTS: ssdp:alive");
    reveal_strlit("SERVER: ");
    reveal_strlit("USN: ");
    reveal_strlit("HOST");
    reveal_strlit("LOCATION");
    reveal_strlit("NT");
    reveal_strlit("NTS");
    reveal_strlit("USN");
    reveal_strlit(": ");
    assert("HOST"@ + ": "@ =~= "HOST: "@);
    assert("LOCATION"@ + ": "@ =~= "LOCATION: "@);
    assert("NT"@ + ": "@ =~= "NT: "@);
    assert("NTS"@ + ": "@ =~= "NTS: "@);
    assert("USN"@ + ": "@ =~= "USN: "@);
    assert("NTS: "@ + "ssdp:alive"@ =~= "NTS: ssdp:alive"@);
    assert(lines[0][0] == 'N' && lines[0][1] == 'O' && lines[1][0] == 'H' && lines[2][0] == 'C'
        && lines[3][0] == 'L' && lines[4][0] == 'N' && lines[4][1] == 'T' && lines[4][2] == ':'
        && lines[5][0] == 'N' && lines[6][0] == 'S');
    lemma_other_line(lines[0], "HOST"@, 0);
    lemma_written_header(lines, 1, "HOST"@, "HOST: "@, group);
    assert forall|i: int| 0 <= i < 3 implies is_other_line(#[trigger] lines[i], "LOCATION"@) by {
        lemma_other_line(lines[i], "LOCATION"@, 0);
    }
    lemma_written_header(lines, 3, "LOCATION"@, "LOCATION: "@, place);
    assert forall|i: int| 0 <= i < 4 implies is_other_line(#[trigger] lines[i], "NT"@) by {
        if i == 0 {
            lemma_other_line(lines[i], "NT"@, 1);
        } else {
            lemma_other_line(lines[i], "NT"@, 0);
        }
    }
    lemma_written_header(lines, 4, "NT"@, "NT: "@, nt);
    assert forall|i: int| 0 <= i < 5 implies is_other_line(#[trigger] lines[i], "NTS"@) by {
        if i == 0 {
            lemma_other_line(lines[i], "NTS"@, 1);
        } else if i == 4 {
            lemma_other_line(lines[i], "NTS"@, 2);
        } else {
            lemma_other_line(lines[i], "NTS"@, 0);
        }
    }
    lemma_written_header(lines, 5, "NTS"@, "NTS: "@, "ssdp:alive"@);
    assert forall|i: int| 0 <= i < 7 implies is_other_line(#[trigger] lines[i], "USN"@) by {
        lemma_other_line(lines[i], "USN"@, 0);
    }
    lemma_written_header(lines, 7, "USN"@, "USN: "@, usn);
    reveal_strlit("NOTIFY * HTTP/1.1\r\n");
    reveal_strlit("NOTIFY * HTTP/1.1\r\nHOST: ");
    let whole = alive_text(group, place, nt, usn);
    let head = "NOTIFY * HTTP/1.1\r\nHOST: "@;
    broadcast use seqs::lemma_longer_begins;

    assert(head.subrange(0, 19) =~= "NOTIFY * HTTP/1.1\r\n"@);
    assert(seqs::begins(head, "NOTIFY * HTTP/1.1\r\n"@));
    assert(seqs::begins(whole, "NOTIFY * HTTP/1.1\r\n"@));
}

/// The lines of an announcement that the server leaves.
spec fn byebye_lines(group: Seq<char>, nt: Seq<char>, usn: Seq<char>) -> Seq<Seq<char>> {
    seq![
        "NOTIFY * HTTP/1.1"@,
        "HOST: "@ + group,
        "NT: "@ + nt,
        "NTS: ssdp:byebye"@,
        "USN: "@ + usn,
    ]
}

/// An announcement that the server leaves is made of its lines.
#[verifier::spinoff_prover]
#[verifier::rlimit(60)]
proof fn lemma_byebye_lines(group: Seq<char>, nt: Seq<char>, usn: Seq<char>)
    requires
        is_one_line(group),
        is_one_line(nt),
        is_one_line(usn),
    ensures
        byebye_text(group, nt, usn) == lines_text(byebye_lines(group, nt, usn)) + "\r\n"@,
        forall|i: int|
            0 <= i < byebye_lines(group, nt, usn).len() ==> is_one_line(
                #[trigger] byebye_lines(group, nt, usn)[i],
            ),
{
    let lines = byebye_lines(group, nt, usn);
    reveal_strlit("\r\n");
    reveal_strlit("\r\n\r\n");
    reveal_strlit("NOTIFY * HTTP/1.1");
    reveal_strlit("HOST: ");
    reveal_strlit("NT: ");
    reveal_strlit("NTS: ssdp:byebye");
    reveal_strlit("USN: ");
    reveal_strlit("NOTIFY * HTTP/1.1\r\nHOST: ");
    reveal_strlit("\r\nNT: ");
    reveal_strlit("\r\nNTS: ssdp:byebye\r\nUSN: ");
    let l0 = lines.take(0);
    let l1 = lines.take(1);
    let l2 = lines.take(2);
    let l3 = lines.take(3);
    let l4 = lines.take(4);
    assert(l1.drop_last() =~= l0 && l2.drop_last() =~= l1 && l3.drop_last() =~= l2
        && l4.drop_last() =~= l3 && lines.drop_last() =~= l4);
    assert(lines_text(l0) =~= Seq::<char>::empty());
    assert("NOTIFY * HTTP/1.1"@ + "\r\n"@ + "HOST: "@ =~= "NOTIFY * HTTP/1.1\r\nHOST: "@);
    assert("\r\n"@ + "NT: "@ =~= "\r\nNT: "@);
    assert("\r\n"@ + ("NTS: ssdp:byebye"@ + "\r\n"@ + "USN: "@)
        =~= "\r\nNTS: ssdp:byebye\r\nUSN: "@);
    assert("\r\n"@ + "\r\n"@ =~= "\r\n\r\n"@);
    assert(lines_text(l1) =~= "NOTIFY * HTTP/1.1"@ + "\r\n"@);
    let a1 = "NOTIFY * HTTP/1.1\r\nHOST: "@ + group;
    assert(lines_text(l2) =~= a1 + "\r\n"@);
    let a2 = a1 + "\r\nNT: "@ + nt;
    assert(lines_text(l3) =~= a2 + "\r\n"@);
    assert(lines_text(l4) =~= a2 + "\r\n"@ + "NTS: ssdp:byebye"@ + "\r\n"@);
    let a4 = a2 + "\r\nNTS: ssdp:byebye\r\nUSN: "@ + usn;
    assert(lines_text(lines) =~= a4 + "\r\n"@);
    assert(a4 + "\r\n\r\n"@ =~= lines_text(lines) + "\r\n"@);
    assert(is_one_line(lines[0]));
    assert(is_one_line(lines[1]));
    assert(is_one_line(lines[2]));
    assert(is_one_line(lines[3]));
    assert(is_one_line(lines[4]));
}

/// An announcement that the server leaves reads as the headers that were put
/// into it, and says so.
pub proof fn law_farewells_can_be_read(group: Seq<char>, nt: Seq<char>, usn: Seq<char>)
    requires
        is_header_value(group),
        is_header_value(nt),
        is_header_value(usn),
    ensures
        text::starts_with(byebye_text(group, nt, usn), "NOTIFY * HTTP/1.1\r\n"@),
        header_of(byebye_text(group, nt, usn), "HOST"@) == Some(group),
        header_of(byebye_text(group, nt, usn), "NT"@) == Some(nt),
        header_of(byebye_text(group, nt, usn), "NTS"@) == Some("ssdp:byebye"@),
        header_of(byebye_text(group, nt, usn), "USN"@) == Some(usn),
{
    let lines = byebye_lines(group, nt, usn);
    lemma_byebye_lines(group, nt, usn);
    reveal_strlit("NOTIFY * HTTP/1.1");
    reveal_strlit("HOST: ");
    reveal_strlit("NT: ");
    reveal_strlit("NTS: ");
    reveal_strlit("ssdp:byebye");
    reveal_strlit("NTS: ssdp:byebye");
    reveal_strlit("USN: ");
    reveal_strlit("HOST");
    reveal_strlit("NT");
    reveal_strlit("NTS");
    reveal_strlit("USN");
    reveal_strlit(": ");
    assert("HOST"@ + ": "@ =~= "HOST: "@);
    assert("NT"@ + ": "@ =~= "NT: "@);
    assert("NTS"@ + ": "@ =~= "NTS: "@);
    assert("USN"@ + ": "@ =~= "USN: "@);
    assert("NTS: "@ + "ssdp:byebye"@ =~= "NTS: ssdp:byebye"@);
    assert(lines[0][0] == 'N' && lines[0][1] == 'O' && lines[1][0] == 'H' && lines[2][0] == 'N'
        && lines[2][1] == 'T' && lines[2][2] == ':' && lines[3][0] == 'N');
    lemma_other_line(lines[0], "HOST"@, 0);
    lemma_written_header(lines, 1, "HOST"@, "HOST: "@, group);
    lemma_other_line(lines[0], "NT"@, 1);
    lemma_other_line(lines[1], "NT"@, 0);
    lemma_written_header(lines, 2, "NT"@, "NT: "@, nt);
    lemma_other_line(lines[0], "NTS"@, 1);
    lemma_other_line(lines[1], "NTS"@, 0);
    lemma_other_line(lines[2], "NTS"@, 2);
    lemma_written_header(lines, 3, "NTS"@, "NTS: "@, "ssdp:byebye"@);
    assert forall|i: int| 0 <= i < 4 implies is_other_line(#[trigger] lines[i], "USN"@) by {
        lemma_other_line(lines[i], "USN"@, 0);
    }
    lemma_written_header(lines, 4, "USN"@, "USN: "@, usn);
    reveal_strlit("NOTIFY * HTTP/1.1\r\n");
    reveal_strlit("NOTIFY * HTTP/1.1\r\nHOST: ");
    let whole = byebye_text(group, nt, usn);
    let head = "NOTIFY * HTTP/1.1\r\nHOST: "@;
    broadcast use seqs::lemma_longer_begins;

    assert(head.subrange(0, 19) =~= "NOTIFY * HTTP/1.1\r\n"@);
    assert(seqs::begins(head, "NOTIFY * HTTP/1.1\r\n"@));
    assert(seqs::begins(whole, "NOTIFY * HTTP/1.1\r\n"@));
}

/// The type of the device and the types of its services.
pub open spec fn is_server_type(t: Seq<char>) -> bool {
    ||| t == "urn:schemas-upnp-org:device:MediaServer:1"@
    ||| t == "urn:schemas-upnp-org:service:ContentDirectory:1"@
    ||| t == "urn:schemas-upnp-org:service:ConnectionManager:1"@
    ||| t == "urn:microsoft.com:service:X_MS_MediaReceiverRegistrar:1"@
}

/// What stands in front tells the kinds apart.
proof fn lemma_kinds(uuid: Seq<char>)
    ensures
        nt_usn(uuid).len() == 6,
        forall|i: int| 0 <= i < 6 ==> (#[trigger] nt_usn(uuid)[i]).0 != "ssdp:all"@,
        forall|i: int, j: int|
            0 <= i < j < 6 ==> (#[trigger] nt_usn(uuid)[i]).0 != (#[trigger] nt_usn(uuid)[j]).0,
        forall|i: int| 0 <= i < 6 ==> is_one_line("uuid:"@ + uuid) ==> #[trigger] is_one_line(
            nt_usn(uuid)[i].0,
        ),
{
    reveal_strlit("ssdp:all");
    reveal_strlit("upnp:rootdevice");
    reveal_strlit("uuid:");
    reveal_strlit("urn:schemas-upnp-org:device:MediaServer:1");
    reveal_strlit("urn:schemas-upnp-org:service:ContentDirectory:1");
    reveal_strlit("urn:schemas-upnp-org:service:ConnectionManager:1");
    reveal_strlit("urn:microsoft.com:service:X_MS_MediaReceiverRegistrar:1");
    let k = nt_usn(uuid);
    assert("ssdp:all"@[0] == 's');
    assert(k[0].0[1] == 'p' && k[0].0[0] == 'u' && k[0].0.len() == 15);
    assert(k[1].0[1] == 'u' && k[1].0[0] == 'u' && k[1].0[2] == 'i');
    assert(k[2].0[1] == 'r' && k[2].0.len() == 41 && k[2].0[0] == 'u');
    assert(k[3].0[1] == 'r' && k[3].0.len() == 47 && k[3].0[0] == 'u');
    assert(k[4].0[1] == 'r' && k[4].0.len() == 48 && k[4].0[0] == 'u');
    assert(k[5].0[1] == 'r' && k[5].0.len() == 55 && k[5].0[0] == 'u');
}

/// The answers to a search for one kind.
proof fn lemma_one_answer(
    pairs: Seq<(Seq<char>, Seq<char>)>,
    st: Seq<char>,
    when: Seq<char>,
    place: Seq<char>,
    k: int,
    n: int,
)
    requires
        0 <= n <= pairs.len(),
        0 <= k < pairs.len(),
        st == pairs[k].0,
        st != "ssdp:all"@,
        forall|i: int| 0 <= i < pairs.len() && i != k ==> (#[trigger] pairs[i]).0 != st,
    ensures
        answers_upto(pairs, st, when, place, n) == if n > k {
            seq![answer_text(when, place, pairs[k].0, pairs[k].1)]
        } else {
            Seq::empty()
        },
    decreases n,
{
    if n > 0 {
        lemma_one_answer(pairs, st, when, place, k, n - 1);
        if n - 1 == k {
            assert(Seq::<Seq<char>>::empty().push(
                answer_text(when, place, pairs[k].0, pairs[k].1),
            ) =~= seq![answer_text(when, place, pairs[k].0, pairs[k].1)]);
        } else {
            assert(pairs[n - 1].0 != st);
        }
    }
}

/// The answers to a search for everything.
proof fn lemma_all_answers(
    pairs: Seq<(Seq<char>, Seq<char>)>,
    when: Seq<char>,
    place: Seq<char>,
    n: int,
)
    requires
        0 <= n <= pairs.len(),
    ensures
        answers_upto(pairs, "ssdp:all"@, when, place, n).len() == n,
        forall|i: int|
            0 <= i < n ==> #[trigger] answers_upto(pairs, "ssdp:all"@, when, place, n)[i]
                == answer_text(when, place, pairs[i].0, pairs[i].1),
    decreases n,
{
    if n > 0 {
        lemma_all_answers(pairs, when, place, n - 1);
    }
}

/// What the server is searched for as: `ssdp:all`, `upnp:rootdevice`, its own
/// id, the type of the device and the types of its services, and nothing else.
pub proof fn law_what_the_server_is_searched_for(st: Seq<char>, uuid: Seq<char>)
    ensures
        is_relevant(st, uuid) <==> {
            ||| st == "ssdp:all"@
            ||| st == "upnp:rootdevice"@
            ||| st == "uuid:"@ + uuid
            ||| is_server_type(st)
        },
{
    let k = nt_usn(uuid);
    assert(k[0].0 == "upnp:rootdevice"@);
    assert(k[1].0 == "uuid:"@ + uuid);
    assert(k[2].0 == "urn:schemas-upnp-org:device:MediaServer:1"@);
    assert(k[3].0 == "urn:schemas-upnp-org:service:ContentDirectory:1"@);
    assert(k[4].0 == "urn:schemas-upnp-org:service:ConnectionManager:1"@);
    assert(k[5].0 == "urn:microsoft.com:service:X_MS_MediaReceiverRegistrar:1"@);
}

/// A search for one thing that the server is has exactly one answer. It carries
/// what was sought in `ST`, the server's id and what was sought in `USN`, and
/// where the server is described in `LOCATION`.
pub proof fn law_a_search_has_one_answer(
    st: Seq<char>,
    when: Seq<char>,
    place: Seq<char>,
    uuid: Seq<char>,
)
    requires
        is_header_value(when),
        is_header_value(place),
        is_header_value(uuid),
        is_server_type(st) || st == "upnp:rootdevice"@ || st == "uuid:"@ + uuid,
    ensures
        answers(st, when, place, uuid).len() == 1,
        header_of(answers(st, when, place, uuid)[0], "ST"@) == Some(st),
        header_of(answers(st, when, place, uuid)[0], "USN"@) == Some(
            if st == "uuid:"@ + uuid {
                "uuid:"@ + uuid
            } else {
                "uuid:"@ + uuid + "::"@ + st
            },
        ),
        header_of(answers(st, when, place, uuid)[0], "LOCATION"@) == Some(place),
        header_of(answers(st, when, place, uuid)[0], "DATE"@) == Some(when),
{
    let k = nt_usn(uuid);
    lemma_kinds(uuid);
    law_what_the_server_is_searched_for(st, uuid);
    reveal_strlit("ssdp:all");
    reveal_strlit("uuid:");
    reveal_strlit("::");
    reveal_strlit("upnp:rootdevice");
    reveal_strlit("urn:schemas-upnp-org:device:MediaServer:1");
    reveal_strlit("urn:schemas-upnp-org:service:ContentDirectory:1");
    reveal_strlit("urn:schemas-upnp-org:service:ConnectionManager:1");
    reveal_strlit("urn:microsoft.com:service:X_MS_MediaReceiverRegistrar:1");
    assert(st[0] == 'u');
    assert("ssdp:all"@[0] == 's');
    let i = choose|i: int| 0 <= i < k.len() && st == (#[trigger] k[i]).0;
    assert forall|j: int| 0 <= j < k.len() && j != i implies (#[trigger] k[j]).0 != st by {
        if j < i {
            assert(k[j].0 != k[i].0);
        } else {
            assert(k[i].0 != k[j].0);
        }
    }
    lemma_one_answer(k, st, when, place, i, k.len() as int);
    let own = "uuid:"@ + uuid;
    assert(is_one_line(own));
    assert(is_one_line(k[i].0));
    assert(own.first() == 'u');
    assert(own.last() == if uuid.len() == 0 {
        ':'
    } else {
        uuid.last()
    });
    assert(text::is_tight(own));
    assert(st.last() == '1' || st.last() == 'e' || st == own);
    assert(text::is_tight(st));
    let usn = k[i].1;
    assert(i != 1 ==> usn =~= own + "::"@ + st);
    assert(i == 1 ==> st == own && usn == own);
    if st == own {
        assert(k[1].0 == own);
        assert(i == 1);
    }
    assert(usn.first() == 'u');
    assert(usn.last() == st.last());
    assert(is_one_line(usn));
    law_answers_can_be_read(when, place, st, usn);
}

/// A search for everything has the answers of the searches for each thing that
/// the server is.
pub proof fn law_a_search_for_everything_has_every_answer(
    when: Seq<char>,
    place: Seq<char>,
    uuid: Seq<char>,
    st: Seq<char>,
)
    requires
        is_server_type(st) || st == "upnp:rootdevice"@ || st == "uuid:"@ + uuid,
    ensures
        answers("ssdp:all"@, when, place, uuid).len() == 6,
        exists|i: int|
            0 <= i < 6 && #[trigger] answers("ssdp:all"@, when, place, uuid)[i] == answers(
                st,
                when,
                place,
                uuid,
            )[0],
{
    let k = nt_usn(uuid);
    lemma_kinds(uuid);
    law_what_the_server_is_searched_for(st, uuid);
    reveal_strlit("ssdp:all");
    reveal_strlit("uuid:");
    reveal_strlit("upnp:rootdevice");
    reveal_strlit("urn:schemas-upnp-org:device:MediaServer:1");
    reveal_strlit("urn:schemas-upnp-org:service:ContentDirectory:1");
    reveal_strlit("urn:schemas-upnp-org:service:ConnectionManager:1");
    reveal_strlit("urn:microsoft.com:service:X_MS_MediaReceiverRegistrar:1");
    assert(st[0] == 'u');
    assert("ssdp:all"@[0] == 's');
    lemma_all_answers(k, when, place, k.len() as int);
    let i = choose|i: int| 0 <= i < k.len() && st == (#[trigger] k[i]).0;
    assert forall|j: int| 0 <= j < k.len() && j != i implies (#[trigger] k[j]).0 != st by {
        if j < i {
            assert(k[j].0 != k[i].0);
        } else {
            assert(k[i].0 != k[j].0);
        }
    }
    lemma_one_answer(k, st, when, place, i, k.len() as int);
    assert(answers("ssdp:all"@, when, place, uuid)[i] == answers(st, when, place, uuid)[0]);
}

/// The server announces itself, and takes leave, as each thing that it answers
/// a search for: under the same kind and the same name.
pub proof fn law_announcements_and_answers_agree(
    group: Seq<char>,
    when: Seq<char>,
    place: Seq<char>,
    uuid: Seq<char>,
    i: int,
)
    requires
        is_header_value(group),
        is_header_value(when),
        is_header_value(place),
        is_header_value(uuid),
        0 <= i < 6,
    ensures
        alive_texts(group, place, uuid).len() == 6,
        byebye_texts(group, uuid).len() == 6,
        ({
            let alive = alive_texts(group, place, uuid)[i];
            let left = byebye_texts(group, uuid)[i];
            let answer = answers("ssdp:all"@, when, place, uuid)[i];
            &&& header_of(answer, "ST"@) is Some
            &&& header_of(answer, "USN"@) is Some
            &&& header_of(alive, "NT"@) == header_of(answer, "ST"@)
            &&& header_of(left, "NT"@) == header_of(answer, "ST"@)
            &&& header_of(alive, "USN"@) == header_of(answer, "USN"@)
            &&& header_of(left, "USN"@) == header_of(answer, "USN"@)
            &&& header_of(alive, "LOCATION"@) == Some(place)
            &&& header_of(alive, "HOST"@) == Some(group)
            &&& header_of(left, "HOST"@) == Some(group)
            &&& header_of(alive, "NTS"@) == Some("ssdp:alive"@)
            &&& header_of(left, "NTS"@) == Some("ssdp:byebye"@)
        }),
{
    let k = nt_usn(uuid);
    lemma_kinds(uuid);
    lemma_all_answers(k, when, place, k.len() as int);
    let (nt, usn) = k[i];
    reveal_strlit("uuid:");
    reveal_strlit("::");
    reveal_strlit("upnp:rootdevice");
    reveal_strlit("urn:schemas-upnp-org:device:MediaServer:1");
    reveal_strlit("urn:schemas-upnp-org:service:ContentDirectory:1");
    reveal_strlit("urn:schemas-upnp-org:service:ConnectionManager:1");
    reveal_strlit("urn:microsoft.com:service:X_MS_MediaReceiverRegistrar:1");
    let own = "uuid:"@ + uuid;
    assert(is_one_line(own));
    assert(own.last() == if uuid.len() == 0 {
        ':'
    } else {
        uuid.last()
    });
    assert(i == 1 ==> nt == own && usn == own);
    assert(i != 1 ==> usn =~= own + "::"@ + nt);
    assert(i != 1 ==> nt.len() > 0 && (nt.last() == '1' || nt.last() == 'e'));
    assert(nt.first() == 'u');
    assert(usn.first() == 'u' && usn.last() == nt.last());
    assert(is_one_line(k[i].0));
    assert(is_one_line(usn));
    law_answers_can_be_read(when, place, nt, usn);
    law_announcements_can_be_read(group, place, nt, usn);
    law_farewells_can_be_read(group, nt, usn);
    assert(alive_texts(group, place, uuid)[i] == alive_text(group, place, nt, usn));
    assert(byebye_texts(group, uuid)[i] == byebye_text(group, nt, usn));
}

/// Lines of text begin with the first of them.
proof fn lemma_lines_begin(lines: Seq<Seq<char>>, p: Seq<char>)
    requires
        lines.len() > 0,
        text::starts_with(lines[0], p),
    ensures
        seqs::begins(lines_text(lines), p),
    decreases lines.len(),
{
    broadcast use seqs::lemma_longer_begins;

    if lines.len() == 1 {
        assert(lines_text(lines.drop_last()) =~= Seq::<char>::empty());
        assert(Seq::<char>::empty() + lines[0] =~= lines[0]);
        assert(seqs::begins(lines[0], p));
        assert(seqs::begins(lines[0] + "\r\n"@, p));
    } else {
        lemma_lines_begin(lines.drop_last(), p);
    }
}

/// A datagram that begins with `M-SEARCH` is heard as a search for what its `ST`
/// header names, where the server is that; the answer may wait as many seconds
/// as the `MX` header says, up to five.
pub proof fn law_searches_are_heard(
    lines: Seq<Seq<char>>,
    k: int,
    j: int,
    st: Seq<char>,
    mx: u64,
    uuid: Seq<char>,
)
    requires
        0 <= k < lines.len(),
        0 <= j < lines.len(),
        forall|i: int| 0 <= i < lines.len() ==> is_one_line(#[trigger] lines[i]),
        text::starts_with(lines[0], "M-SEARCH"@),
        lines[k] == "ST: "@ + st,
        forall|i: int| 0 <= i < k ==> is_other_line(#[trigger] lines[i], "ST"@),
        lines[j] == "MX: "@ + number::decimal(mx as nat),
        forall|i: int| 0 <= i < j ==> is_other_line(#[trigger] lines[i], "MX"@),
        text::is_tight(st),
    ensures
        search_of(utf8::encode_utf8(lines_text(lines) + "\r\n"@), uuid) == if st == "ssdp:all"@
            || st == "upnp:rootdevice"@ || st == "uuid:"@ + uuid || is_server_type(st) {
            Some(
                (
                    st,
                    if mx < 5 {
                        mx as nat
                    } else {
                        5
                    },
                ),
            )
        } else {
            None
        },
{
    let msg = lines_text(lines) + "\r\n"@;
    utf8::encode_utf8_valid_utf8(msg);
    utf8::encode_utf8_decode_utf8(msg);
    reveal_strlit("M-SEARCH");
    reveal_strlit("ST");
    reveal_strlit("ST: ");
    reveal_strlit("MX");
    reveal_strlit("MX: ");
    reveal_strlit(": ");
    assert("ST"@ + ": "@ =~= "ST: "@);
    assert("MX"@ + ": "@ =~= "MX: "@);
    lemma_lines_begin(lines, "M-SEARCH"@);
    broadcast use seqs::lemma_longer_begins;

    assert(seqs::begins(msg, "M-SEARCH"@));
    lemma_written_header(lines, k, "ST"@, "ST: "@, st);
    let d = number::decimal(mx as nat);
    number::lemma_decimal_digits(mx as nat);
    assert(number::is_digit(d[0]) && number::is_digit(d[d.len() - 1]));
    lemma_written_header(lines, j, "MX"@, "MX: "@, d);
    number::law_numeral_round_trip(mx as nat, u64::MAX as nat);
    law_what_the_server_is_searched_for(st, uuid);
}

/// A search without an `MX` header is answered at once.
pub proof fn law_searches_without_a_wait_are_answered_at_once(lines: Seq<Seq<char>>)
    requires
        forall|i: int| 0 <= i < lines.len() ==> is_one_line(#[trigger] lines[i]),
        forall|i: int| 0 <= i < lines.len() ==> is_other_line(#[trigger] lines[i], "MX"@),
    ensures
        mx_of(lines_text(lines) + "\r\n"@) == 0,
{
    reveal_strlit("MX");
    law_missing_headers_are_missed(lines, "MX"@);
}

/// A datagram that does not begin with `M-SEARCH`, and one that is not text, is
/// no search.
pub proof fn law_other_datagrams_are_not_heard(msg: Seq<char>, datagram: Seq<u8>, uuid: Seq<char>)
    ensures
        !text::starts_with(msg, "M-SEARCH"@) ==> search_of(utf8::encode_utf8(msg), uuid) is None,
        !utf8::valid_utf8(datagram) ==> search_of(datagram, uuid) is None,
{
    utf8::encode_utf8_decode_utf8(msg);
}

/// The description names the type of the device and of each service: each type
/// that the server advertises itself as, and answers a search for.
pub proof fn law_advertised_types_are_described(
    t: Seq<char>,
    uuid: Seq<char>,
    friendly_name: Seq<char>,
    base: Seq<char>,
)
    requires
        is_server_type(t),
    ensures
        is_relevant(t, uuid),
        text::contains(
            description::description_text(uuid, friendly_name, base),
            "<deviceType>"@ + t + "</deviceType>"@,
        ) || text::contains(
            description::description_text(uuid, friendly_name, base),
            "<serviceType>"@ + t + "</serviceType>"@,
        ),
{
    law_what_the_server_is_searched_for(t, uuid);
    description::law_types_are_described(uuid, friendly_name, base);
}

/// An interface is on the network of a client.
pub open spec fn on_network_of(i: Interface, peer: IpAddr) -> bool {
    match (i.addr, peer) {
        (IfAddr::V4 { ip, netmask }, IpAddr::V4(p)) => netmask != 0 && ip & netmask == p & netmask,
        (IfAddr::V6 { ip, netmask }, IpAddr::V6(p)) => netmask != 0 && ip & netmask == p & netmask
            && host::is_usable_ipv6(ip),
        _ => false,
    }
}

/// What is found is the first that is looked for.
proof fn lemma_first_wanted(ifaces: Seq<Interface>, w: Wanted, from: int)
    requires
        0 <= from <= ifaces.len(),
    ensures
        match first_wanted(ifaces, w, from) {
            Some(h) => exists|k: int|
                from <= k < ifaces.len() && h == interface_host(#[trigger] ifaces[k]) && is_wanted(
                    ifaces[k],
                    w,
                ) && forall|i: int| from <= i < k ==> !is_wanted(#[trigger] ifaces[i], w),
            None => forall|i: int| from <= i < ifaces.len() ==> !is_wanted(#[trigger] ifaces[i], w),
        },
    decreases ifaces.len() - from,
{
    if from < ifaces.len() {
        if is_wanted(ifaces[from], w) {
            assert(first_wanted(ifaces, w, from) == Some(interface_host(ifaces[from])));
        } else {
            lemma_first_wanted(ifaces, w, from + 1);
        }
    }
}

/// A client on the network of one of the server's interfaces is told the address
/// of that interface, the first one where there are several; the loopback
/// interface does not count.
pub proof fn law_clients_are_told_an_address_on_their_network(
    ifaces: Seq<Interface>,
    k: int,
    peer: IpAddr,
    local: (IpAddr, Seq<char>),
)
    requires
        0 <= k < ifaces.len(),
        !ifaces[k].loopback,
        on_network_of(ifaces[k], peer),
        forall|i: int|
            0 <= i < k ==> (#[trigger] ifaces[i]).loopback || !on_network_of(ifaces[i], peer),
    ensures
        peer_host(peer, local, ifaces) == interface_host(ifaces[k]),
{
    let w = Wanted::SameNet(peer);
    lemma_first_wanted(ifaces, w, 0);
    assert(is_wanted(ifaces[k], w));
    assert forall|i: int| 0 <= i < k implies !is_wanted(#[trigger] ifaces[i], w) by {
        assert(ifaces[i].loopback || !on_network_of(ifaces[i], peer));
    }
}

/// A client on no network of the server's is told an address of its own family
/// where the server has one, and else the server's own address.
pub proof fn law_other_clients_are_told_an_address_of_their_family(
    ifaces: Seq<Interface>,
    peer: IpAddr,
    local: (IpAddr, Seq<char>),
)
    requires
        forall|i: int|
            0 <= i < ifaces.len() ==> (#[trigger] ifaces[i]).loopback || !on_network_of(
                ifaces[i],
                peer,
            ),
    ensures
        peer is V4 && local.0 is V4 ==> peer_host(peer, local, ifaces) == local,
        peer is V4 && local.0 is V6 ==> {
            ||| peer_host(peer, local, ifaces) == local && forall|i: int|
                0 <= i < ifaces.len() ==> (#[trigger] ifaces[i]).loopback
                    || ifaces[i].addr is V6
            ||| exists|i: int|
                0 <= i < ifaces.len() && !(#[trigger] ifaces[i]).loopback && ifaces[i].addr is V4
                    && peer_host(peer, local, ifaces) == interface_host(ifaces[i])
        },
        peer is V6 ==> {
            ||| peer_host(peer, local, ifaces) == local && forall|i: int|
                0 <= i < ifaces.len() ==> (#[trigger] ifaces[i]).loopback
                    || (match ifaces[i].addr {
                    IfAddr::V6 { ip, .. } => !host::is_usable_ipv6(ip),
                    IfAddr::V4 { .. } => true,
                })
            ||| exists|i: int|
                0 <= i < ifaces.len() && !(#[trigger] ifaces[i]).loopback && (
                match ifaces[i].addr {
                    IfAddr::V6 { ip, .. } => host::is_usable_ipv6(ip),
                    IfAddr::V4 { .. } => false,
                }) && peer_host(peer, local, ifaces) == interface_host(ifaces[i])
        },
{
    let w = Wanted::SameNet(peer);
    lemma_first_wanted(ifaces, w, 0);
    assert forall|i: int| 0 <= i < ifaces.len() implies !is_wanted(#[trigger] ifaces[i], w) by {
        assert(ifaces[i].loopback || !on_network_of(ifaces[i], peer));
    }
    lemma_first_wanted(ifaces, Wanted::AnyV4, 0);
    lemma_first_wanted(ifaces, Wanted::PublicV6, 0);
    if peer is V4 && local.0 is V6 && first_wanted(ifaces, Wanted::AnyV4, 0) is None {
        assert forall|i: int| 0 <= i < ifaces.len() implies (#[trigger] ifaces[i]).loopback
            || ifaces[i].addr is V6 by {
            assert(!is_wanted(ifaces[i], Wanted::AnyV4));
        }
    }
    if peer is V6 && first_wanted(ifaces, Wanted::PublicV6, 0) is None {
        assert forall|i: int| 0 <= i < ifaces.len() implies (#[trigger] ifaces[i]).loopback
            || (match ifaces[i].addr {
            IfAddr::V6 { ip, .. } => !host::is_usable_ipv6(ip),
            IfAddr::V4 { .. } => true,
        }) by {
            assert(!is_wanted(ifaces[i], Wanted::PublicV6));
        }
    }
}

/// Announcements go out from the server's own IPv4 address; a server on IPv6
/// sends them from an IPv4 interface where it has one.
pub proof fn law_where_announcements_come_from(ifaces: Seq<Interface>, v4: u32, v6: u128)
    ensures
        multicast_from(IpAddr::V4(v4), ifaces) == v4,
        (forall|i: int|
            0 <= i < ifaces.len() ==> (#[trigger] ifaces[i]).loopback || ifaces[i].addr is V6)
            ==> multicast_from(IpAddr::V6(v6), ifaces) == 0,
        forall|k: int|
            0 <= k < ifaces.len() && !(#[trigger] ifaces[k]).loopback && ifaces[k].addr is V4 && (
            forall|i: int|
                0 <= i < k ==> (#[trigger] ifaces[i]).loopback || ifaces[i].addr is V6)
                ==> IpAddr::V4(multicast_from(IpAddr::V6(v6), ifaces)) == interface_ip(ifaces[k]),
{
    let w = Wanted::AnyV4;
    lemma_first_wanted(ifaces, w, 0);
    assert forall|k: int|
        0 <= k < ifaces.len() && !(#[trigger] ifaces[k]).loopback && ifaces[k].addr is V4 && (
        forall|i: int|
            0 <= i < k ==> (#[trigger] ifaces[i]).loopback || ifaces[i].addr is V6) implies
        IpAddr::V4(multicast_from(IpAddr::V6(v6), ifaces)) == interface_ip(ifaces[k]) by {
        assert(is_wanted(ifaces[k], w));
        assert forall|i: int| 0 <= i < k implies !is_wanted(#[trigger] ifaces[i], w) by {
            assert(ifaces[i].loopback || ifaces[i].addr is V6);
        }
    }
}

/// Discovery listens on the address of every IPv4 interface but the loopback
/// one, and on no other.
pub proof fn law_every_ipv4_interface_is_listened_on(ifaces: Seq<Interface>, n: int, x: u32)
    requires
        0 <= n <= ifaces.len(),
    ensures
        v4_upto(ifaces, n).contains(x) <==> exists|i: int|
            0 <= i < n && !(#[trigger] ifaces[i]).loopback && ifaces[i].addr is V4 && interface_ip(
                ifaces[i],
            ) == IpAddr::V4(x),
    decreases n,
{
    if n > 0 {
        law_every_ipv4_interface_is_listened_on(ifaces, n - 1, x);
        let before = v4_upto(ifaces, n - 1);
        let now = v4_upto(ifaces, n);
        if now.len() > before.len() {
            assert(now[now.len() - 1] == now.last());
            if now.contains(x) && now.last() != x {
                let j = choose|j: int| 0 <= j < now.len() && now[j] == x;
                assert(before[j] == x);
            }
            if before.contains(x) {
                let j = choose|j: int| 0 <= j < before.len() && before[j] == x;
                assert(now[j] == x);
            }
            assert(interface_ip(ifaces[n - 1]) == IpAddr::V4(now.last()));
        }
    }
}

/// Discovery listens on every IPv6 interface but the loopback one, and on no
/// other, once each.
pub proof fn law_every_ipv6_interface_is_listened_on(ifaces: Seq<Interface>, n: int, x: u32)
    requires
        0 <= n <= ifaces.len(),
    ensures
        v6_upto(ifaces, n).no_duplicates(),
        v6_upto(ifaces, n).contains(x) <==> exists|i: int|
            0 <= i < n && !(#[trigger] ifaces[i]).loopback && ifaces[i].addr is V6 && index_or_0(
                ifaces[i],
            ) == x,
    decreases n,
{
    if n > 0 {
        law_every_ipv6_interface_is_listened_on(ifaces, n - 1, x);
        let before = v6_upto(ifaces, n - 1);
        let now = v6_upto(ifaces, n);
        if now.len() > before.len() {
            assert(now[now.len() - 1] == now.last());
            if now.contains(x) && now.last() != x {
                let j = choose|j: int| 0 <= j < now.len() && now[j] == x;
                assert(before[j] == x);
            }
            if before.contains(x) {
                let j = choose|j: int| 0 <= j < before.len() && before[j] == x;
                assert(now[j] == x);
            }
            assert(now =~= before.push(index_or_0(ifaces[n - 1])));
            assert(now.no_duplicates());
        }
    }
}

/// The server is described under the address that it is told to have: the address
/// alone where the port is the usual one, and in brackets where it is of the
/// sixth version.
pub proof fn law_where_the_server_is_described(v: u32, w: u128, spelled: Seq<char>, port: u16)
    requires
        port != 80,
    ensures
        location_of(IpAddr::V4(v), spelled, 80) == "http://"@ + spelled + "/upnp/description.xml"@,
        location_of(IpAddr::V4(v), spelled, port) == "http://"@ + (spelled + ":"@
            + number::decimal(port as nat)) + "/upnp/description.xml"@,
        location_of(IpAddr::V6(w), spelled, 80) == "http://"@ + ("["@ + spelled + "]"@)
            + "/upnp/description.xml"@,
        location_of(IpAddr::V6(w), spelled, port) == "http://"@ + ("["@ + spelled + "]:"@
            + number::decimal(port as nat)) + "/upnp/description.xml"@,
{
}

} // verus!
