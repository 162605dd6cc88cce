//! Event subscriptions and the notices sent to subscribers.

use crate::encoding;
use crate::host;
use crate::host::IpAddr;
use crate::identity;
use crate::number;
use crate::seqs;
use crate::text;
use vstd::prelude::*;
use vstd::utf8;

verus! {

/// How many subscriptions there can be at a time.
pub const MAX_SUBSCRIPTIONS: usize = 128;

/// The services that send events.
#[derive(Clone, Copy, Debug, PartialEq, Eq, Structural)]
pub enum EventService {
    ContentDirectory,
    ConnectionManager,
    MediaReceiverRegistrar,
}

/// A subscription, and when it ends.
pub struct Subscription {
    pub sid: String,
    pub expires: u128,
}

/// The subscriptions that there are. Times are nanoseconds since some fixed moment.
pub struct EventHub {
    pub rows: Vec<Subscription>,
}

/// When each subscription in a list of rows ends.
pub open spec fn table(rows: Seq<Subscription>) -> Map<Seq<char>, u128>
    decreases rows.len(),
{
    if rows.len() == 0 {
        Map::empty()
    } else {
        table(rows.drop_last()).insert(rows.last().sid@, rows.last().expires)
    }
}

impl View for EventHub {
    type V = Map<Seq<char>, u128>;

    open spec fn view(&self) -> Map<Seq<char>, u128> {
        table(self.rows@)
    }
}

impl EventHub {
    /// No subscription has two rows.
    pub open spec fn well_formed(&self) -> bool {
        distinct(self.rows@)
    }

    /// No subscriptions yet.
    pub fn new() -> (r: EventHub)
        ensures
            r.well_formed(),
            r@ == Map::<Seq<char>, u128>::empty(),
    {
        EventHub { rows: Vec::new() }
    }

    /// Decides whether a subscription is there.
    pub fn contains_key(&self, sid: &str) -> (r: bool)
        ensures
            r == self@.contains_key(sid@),
    {
        let mut i: usize = 0;
        assert(self.rows@.take(0) =~= Seq::<Subscription>::empty());
        while i < self.rows.len()
            invariant
                i <= self.rows@.len(),
                !table(self.rows@.take(i as int)).contains_key(sid@),
                forall|k: int| 0 <= k < i ==> (#[trigger] self.rows@[k]).sid@ != sid@,
            decreases self.rows@.len() - i,
        {
            proof {
                lemma_table_keys(self.rows@);
            }
            if text::same_text(self.rows[i].sid.as_str(), sid) {
                assert(self.rows@[i as int].sid@ == sid@);
                return true;
            }
            assert(self.rows@.take(i + 1).drop_last() =~= self.rows@.take(i as int));
            i += 1;
        }
        assert(self.rows@.take(i as int) =~= self.rows@);
        false
    }
}

/// No two rows are for the same subscription.
pub open spec fn distinct(rows: Seq<Subscription>) -> bool {
    forall|i: int, j: int|
        0 <= i < j < rows.len() ==> (#[trigger] rows[i]).sid@ != (#[trigger] rows[j]).sid@
}

/// The keys of a table are the subscriptions that have a row.
proof fn lemma_table_keys(rows: Seq<Subscription>)
    ensures
        forall|i: int|
            0 <= i < rows.len() ==> table(rows).contains_key((#[trigger] rows[i]).sid@),
        forall|s: Seq<char>| #[trigger]
            table(rows).contains_key(s) ==> exists|i: int|
                0 <= i < rows.len() && (#[trigger] rows[i]).sid@ == s,
    decreases rows.len(),
{
    if rows.len() > 0 {
        let before = rows.drop_last();
        lemma_table_keys(before);
        assert forall|i: int| 0 <= i < rows.len() implies table(rows).contains_key(
            (#[trigger] rows[i]).sid@,
        ) by {
            if i < before.len() {
                assert(before[i] == rows[i]);
            }
        }
        assert forall|s: Seq<char>| #[trigger] table(rows).contains_key(s) implies exists|i: int|
            0 <= i < rows.len() && (#[trigger] rows[i]).sid@ == s by {
            if s == rows.last().sid@ {
                assert(rows[rows.len() - 1].sid@ == s);
            } else {
                assert(table(before).contains_key(s));
                let i = choose|i: int| 0 <= i < before.len() && (#[trigger] before[i]).sid@ == s;
                assert(rows[i].sid@ == s);
            }
        }
    }
}

/// A table has as many entries as rows.
proof fn lemma_table_len(rows: Seq<Subscription>)
    requires
        distinct(rows),
    ensures
        table(rows).dom().finite(),
        table(rows).dom().len() == rows.len(),
    decreases rows.len(),
{
    if rows.len() > 0 {
        let before = rows.drop_last();
        assert forall|i: int, j: int| 0 <= i < j < before.len() implies (
        #[trigger] before[i]).sid@ != (#[trigger] before[j]).sid@ by {
            assert(before[i] == rows[i] && before[j] == rows[j]);
        }
        lemma_table_len(before);
        lemma_table_keys(before);
        assert(!table(before).contains_key(rows.last().sid@)) by {
            if table(before).contains_key(rows.last().sid@) {
                let i = choose|i: int|
                    0 <= i < before.len() && (#[trigger] before[i]).sid@ == rows.last().sid@;
                assert(rows[i].sid@ != rows[rows.len() - 1].sid@);
            }
        }
    }
}

/// The subscriptions that end after `now`.
pub open spec fn live(m: Map<Seq<char>, u128>, now: u128) -> Map<Seq<char>, u128> {
    Map::new(|s: Seq<char>| m.contains_key(s) && m[s] > now, |s: Seq<char>| m[s])
}

/// A copy of the rows that end after `now`, without the one for `sid` where that
/// is asked for.
fn kept_rows(rows: &Vec<Subscription>, now: u128, sid: Option<&str>) -> (r: Vec<Subscription>)
    requires
        distinct(rows@),
    ensures
        distinct(r@),
        table(r@) == (match sid {
            Some(s) => live(table(rows@), now).remove(s@),
            None => live(table(rows@), now),
        }),
{
    let mut r: Vec<Subscription> = Vec::new();
    let mut i: usize = 0;
    let ghost gone = match sid {
        Some(s) => Some(s@),
        None => None,
    };
    assert(rows@.take(0) =~= Seq::<Subscription>::empty());
    assert(table(r@) =~= trimmed_table(table(rows@.take(0)), now, gone));
    while i < rows.len()
        invariant
            i <= rows@.len(),
            distinct(rows@),
            distinct(r@),
            gone == (match sid {
                Some(s) => Some(s@),
                None => None,
            }),
            table(r@) == trimmed_table(table(rows@.take(i as int)), now, gone),
        decreases rows@.len() - i,
    {
        let row: &Subscription = &rows[i];
        let ghost before = rows@.take(i as int);
        let ghost t = table(before);
        let ghost kept = r@;
        assert(rows@.take(i + 1).drop_last() =~= before);
        assert(rows@.take(i + 1).last() == rows@[i as int]);
        proof {
            lemma_table_keys(before);
            lemma_table_keys(kept);
            if t.contains_key(row.sid@) {
                let k = choose|k: int|
                    0 <= k < before.len() && (#[trigger] before[k]).sid@ == row.sid@;
                assert(rows@[k].sid@ != rows@[i as int].sid@);
            }
        }
        assert(!t.contains_key(row.sid@));
        let dropped = match sid {
            Some(s) => text::same_text(row.sid.as_str(), s),
            None => false,
        };
        if row.expires > now && !dropped {
            let copy = Subscription { sid: row.sid.clone(), expires: row.expires };
            r.push(copy);
            assert(r@.drop_last() =~= kept);
            assert forall|a: int, b: int| 0 <= a < b < r@.len() implies (#[trigger] r@[a]).sid@
                != (#[trigger] r@[b]).sid@ by {
                if b == r@.len() - 1 {
                    assert(kept[a] == r@[a]);
                    assert(table(kept).contains_key(kept[a].sid@));
                } else {
                    assert(kept[a] == r@[a] && kept[b] == r@[b]);
                }
            }
        }
        i += 1;
        assert(table(r@) =~= trimmed_table(table(rows@.take(i as int)), now, gone));
    }
    assert(rows@.take(i as int) =~= rows@);
    proof {
        let m = table(rows@);
        if let Some(s) = gone {
            assert(trimmed_table(m, now, gone) =~= live(m, now).remove(s));
        } else {
            assert(trimmed_table(m, now, gone) =~= live(m, now));
        }
    }
    r
}

/// The subscriptions that end after `now`, but for one.
spec fn trimmed_table(
    m: Map<Seq<char>, u128>,
    now: u128,
    gone: Option<Seq<char>>,
) -> Map<Seq<char>, u128> {
    Map::new(
        |s: Seq<char>| m.contains_key(s) && m[s] > now && Some(s) != gone,
        |s: Seq<char>| m[s],
    )
}

/// Drops what has ended and, where there are fewer than `cap` subscriptions
/// left, adds one that ends in `ttl`.
pub fn admit_subscription(
    map: &mut EventHub,
    sid: &str,
    ttl: u128,
    now: u128,
    cap: usize,
) -> (r: bool)
    requires
        old(map).well_formed(),
        now + ttl <= u128::MAX,
    ensures
        final(map).well_formed(),
        r == (live(old(map)@, now).dom().len() < cap),
        final(map)@ == (if r {
            live(old(map)@, now).insert(sid@, (now + ttl) as u128)
        } else {
            live(old(map)@, now)
        }),
{
    let rows = kept_rows(&map.rows, now, None);
    proof {
        lemma_table_len(rows@);
    }
    if rows.len() >= cap {
        map.rows = rows;
        return false;
    }
    let ghost kept = table(rows@);
    set_row(map, sid, now, now + ttl);
    assert(map@ =~= kept.insert(sid@, (now + ttl) as u128));
    true
}

/// Drops what has ended, and has a subscription end at `expires`.
fn set_row(map: &mut EventHub, sid: &str, now: u128, expires: u128)
    requires
        old(map).well_formed(),
    ensures
        final(map).well_formed(),
        final(map)@ == live(old(map)@, now).insert(sid@, expires),
{
    let ghost m = map@;
    let mut rows = kept_rows(&map.rows, now, Some(sid));
    let ghost before = rows@;
    rows.push(Subscription { sid: sid.to_owned(), expires });
    proof {
        assert(rows@.drop_last() =~= before);
        assert(table(rows@) =~= live(m, now).insert(sid@, expires));
        lemma_table_keys(before);
        assert forall|a: int, b: int| 0 <= a < b < rows@.len() implies (#[trigger] rows@[a]).sid@
            != (#[trigger] rows@[b]).sid@ by {
            if b == rows@.len() - 1 {
                assert(before[a] == rows@[a]);
                assert(table(before).contains_key(before[a].sid@));
            } else {
                assert(before[a] == rows@[a] && before[b] == rows@[b]);
            }
        }
    }
    map.rows = rows;
}

/// Drops what has ended and, where a subscription is still there, has it end in
/// `ttl`.
pub fn renew_subscription(map: &mut EventHub, sid: &str, ttl: u128, now: u128) -> (r: bool)
    requires
        old(map).well_formed(),
        now + ttl <= u128::MAX,
    ensures
        final(map).well_formed(),
        r == live(old(map)@, now).contains_key(sid@),
        final(map)@ == (if r {
            live(old(map)@, now).insert(sid@, (now + ttl) as u128)
        } else {
            live(old(map)@, now)
        }),
{
    let ghost m = map@;
    map.rows = kept_rows(&map.rows, now, None);
    if !map.contains_key(sid) {
        return false;
    }
    set_row(map, sid, now, now + ttl);
    assert(live(live(m, now), now) =~= live(m, now));
    true
}

/// Ends a subscription.
pub fn remove_subscription(map: &mut EventHub, sid: &str)
    requires
        old(map).well_formed(),
    ensures
        final(map).well_formed(),
        final(map)@ == old(map)@.remove(sid@),
{
    let ghost m = map@;
    let mut rows: Vec<Subscription> = Vec::new();
    let mut i: usize = 0;
    assert(map.rows@.take(0) =~= Seq::<Subscription>::empty());
    assert(table(rows@) =~= table(map.rows@.take(0)).remove(sid@));
    while i < map.rows.len()
        invariant
            i <= map.rows@.len(),
            distinct(map.rows@),
            distinct(rows@),
            table(rows@) == table(map.rows@.take(i as int)).remove(sid@),
        decreases map.rows@.len() - i,
    {
        let row: &Subscription = &map.rows[i];
        let ghost before = map.rows@.take(i as int);
        let ghost kept = rows@;
        assert(map.rows@.take(i + 1).drop_last() =~= before);
        assert(map.rows@.take(i + 1).last() == map.rows@[i as int]);
        proof {
            lemma_table_keys(before);
            lemma_table_keys(kept);
            if table(before).contains_key(row.sid@) {
                let k = choose|k: int|
                    0 <= k < before.len() && (#[trigger] before[k]).sid@ == row.sid@;
                assert(map.rows@[k].sid@ != map.rows@[i as int].sid@);
            }
        }
        if !text::same_text(row.sid.as_str(), sid) {
            rows.push(Subscription { sid: row.sid.clone(), expires: row.expires });
            assert(rows@.drop_last() =~= kept);
            assert forall|a: int, b: int| 0 <= a < b < rows@.len() implies (
            #[trigger] rows@[a]).sid@ != (#[trigger] rows@[b]).sid@ by {
                if b == rows@.len() - 1 {
                    assert(kept[a] == rows@[a]);
                    assert(table(kept).contains_key(kept[a].sid@));
                } else {
                    assert(kept[a] == rows@[a] && kept[b] == rows@[b]);
                }
            }
        }
        i += 1;
        assert(table(rows@) =~= table(map.rows@.take(i as int)).remove(sid@));
    }
    assert(map.rows@.take(i as int) =~= map.rows@);
    map.rows = rows;
}

/// A subscription that is admitted or renewed at `now` for `ttl` lasts for that
/// time and no longer.
pub proof fn law_subscription_lasts(
    m: Map<Seq<char>, u128>,
    sid: Seq<char>,
    ttl: u128,
    now: u128,
    later: u128,
)
    requires
        now + ttl <= u128::MAX,
    ensures
        live(live(m, now).insert(sid, (now + ttl) as u128), later).contains_key(sid) == (later < now
            + ttl),
{
}

/// The URL that a `CALLBACK` header gives, in angle brackets or without.
pub open spec fn callback_text(header: Seq<char>) -> Option<Seq<char>> {
    let s = text::trimmed(header);
    match text::find_char_from(s, '<', 0) {
        None => Some(s),
        Some(k) => match text::find_char_from(s, '>', k + 1) {
            None => None,
            Some(e) => Some(text::trimmed(s.subrange(k + 1, e))),
        },
    }
}

/// The URL to send events to: an HTTP URL of more than eight bytes.
pub open spec fn callback_url_of(header: Seq<char>) -> Option<Seq<char>> {
    match callback_text(header) {
        None => None,
        Some(url) => if text::starts_with(url, "http://"@) && utf8::encode_utf8(url).len() > 8 {
            Some(url)
        } else {
            None
        },
    }
}

/// Reads the URL to send events to from a `CALLBACK` header.
pub fn parse_callback_url(header: &str) -> (r: Option<String>)
    ensures
        match r {
            Some(url) => callback_url_of(header@) == Some(url@),
            None => callback_url_of(header@) is None,
        },
{
    let s = text::trim(header);
    let v = text::to_chars(s.as_str());
    proof {
        text::lemma_find_char_from(v@, '<', 0);
    }
    let url = match text::find_char(&v, '<', 0) {
        None => s,
        Some(k) => {
            proof {
                text::lemma_find_char_from(v@, '>', k + 1);
            }
            match text::find_char(&v, '>', k + 1) {
                None => {
                    return None;
                },
                Some(e) => {
                    let inner = text::text_of(&v, k + 1, e);
                    text::trim(inner.as_str())
                },
            }
        },
    };
    if text::has_prefix(url.as_str(), "http://") && url.as_str().as_bytes().len() > 8 {
        Some(url)
    } else {
        None
    }
}

/// A number kept between 30 and 1800.
pub open spec fn clamped(n: nat) -> nat {
    if n < 30 {
        30
    } else if n > 1800 {
        1800
    } else {
        n
    }
}

/// What follows `Second-`, where a header starts with that.
pub open spec fn after_second(h: Seq<char>) -> Seq<char> {
    if text::starts_with(h, "Second-"@) || text::starts_with(h, "second-"@) {
        h.subrange(7, h.len() as int)
    } else {
        h
    }
}

/// How many seconds a subscription lasts: what the `TIMEOUT` header asks for,
/// between half a minute and half an hour.
pub open spec fn timeout_of(header: Option<Seq<char>>) -> nat {
    match header {
        None => 1800,
        Some(raw) => {
            let h = text::trimmed(raw);
            if text::lower(h) == "second-infinite"@ {
                1800
            } else {
                match number::unsigned(after_second(h), u32::MAX as nat) {
                    Some(n) => clamped(n),
                    None => 1800,
                }
            }
        },
    }
}

/// Reads how many seconds a subscription lasts from a `TIMEOUT` header.
pub fn parse_timeout_seconds(header: Option<&str>) -> (r: u32)
    ensures
        r == timeout_of(
            match header {
                Some(h) => Some(h@),
                None => None,
            },
        ),
{
    let raw: &str = match header {
        Some(h) => h,
        None => {
            return 1800;
        },
    };
    let h = text::trim(raw);
    let low = text::to_ascii_lowercase(h.as_str());
    if text::same_text(low.as_str(), "second-infinite") {
        return 1800;
    }
    let v = text::to_chars(h.as_str());
    let n: usize = v.len();
    proof {
        reveal_strlit("Second-");
        reveal_strlit("second-");
    }
    let from: usize = if text::has_prefix(h.as_str(), "Second-") || text::has_prefix(
        h.as_str(),
        "second-",
    ) {
        7
    } else {
        0
    };
    assert(v@.subrange(0, n as int) =~= v@);
    match number::parse_in(&v, from, n, u32::MAX as u64) {
        Some(secs) => {
            if secs < 30 {
                30
            } else if secs > 1800 {
                1800
            } else {
                secs as u32
            }
        },
        None => 1800,
    }
}

/// A subscription lasts at least half a minute and at most half an hour.
pub proof fn law_timeout_is_bounded(header: Option<Seq<char>>)
    ensures
        30 <= timeout_of(header) <= 1800,
{
}

/// Names and values as plain values.
pub open spec fn pair_texts(pairs: Seq<(&str, &str)>) -> Seq<(Seq<char>, Seq<char>)> {
    pairs.map_values(|p: (&str, &str)| (p.0@, p.1@))
}

/// The properties of the first `n` state variables.
pub open spec fn properties_upto(pairs: Seq<(Seq<char>, Seq<char>)>, n: int) -> Seq<char>
    decreases n,
{
    if n <= 0 {
        Seq::empty()
    } else {
        let (name, value) = pairs[n - 1];
        properties_upto(pairs, n - 1) + "<e:property><"@ + name + ">"@ + value + "</"@ + name
            + "></e:property>"@
    }
}

/// The state variables that an event tells of.
pub open spec fn propertyset_text(pairs: Seq<(Seq<char>, Seq<char>)>) -> Seq<char> {
    "<?xml version=\"1.0\"?><e:propertyset xmlns:e=\"urn:schemas-upnp-org:event-1-0\">"@
        + properties_upto(pairs, pairs.len() as int) + "</e:propertyset>"@
}

/// Writes the state variables that an event tells of.
pub fn propertyset(pairs: &[(&str, &str)]) -> (r: String)
    ensures
        r@ == propertyset_text(pair_texts(pairs@)),
{
    let ghost all = pair_texts(pairs@);
    let mut props = String::new();
    let mut i: usize = 0;
    assert(props@ =~= properties_upto(all, 0));
    while i < pairs.len()
        invariant
            i <= pairs@.len(),
            all == pair_texts(pairs@),
            props@ == properties_upto(all, i as int),
        decreases pairs@.len() - i,
    {
        let (name, value) = pairs[i];
        assert(all[i as int] == (name@, value@));
        props.append("<e:property><");
        props.append(name);
        props.append(">");
        props.append(value);
        props.append("</");
        props.append(name);
        props.append("></e:property>");
        i += 1;
    }
    let mut r = String::from_str(
        "<?xml version=\"1.0\"?><e:propertyset xmlns:e=\"urn:schemas-upnp-org:event-1-0\">",
    );
    r.append(props.as_str());
    r.append("</e:propertyset>");
    r
}

/// The state of the ContentDirectory. It never changes, as media is indexed once.
pub open spec fn cd_state() -> Seq<(Seq<char>, Seq<char>)> {
    seq![("SystemUpdateID"@, "1"@)]
}

/// The state of the ConnectionManager.
pub open spec fn cm_state(source: Seq<char>) -> Seq<(Seq<char>, Seq<char>)> {
    seq![
        ("SourceProtocolInfo"@, source),
        ("SinkProtocolInfo"@, ""@),
        ("CurrentConnectionIDs"@, "0"@),
    ]
}

/// The state of the MediaReceiverRegistrar.
pub open spec fn mrr_state() -> Seq<(Seq<char>, Seq<char>)> {
    seq![
        ("AuthorizationGrantedUpdateID"@, "1"@),
        ("AuthorizationDeniedUpdateID"@, "1"@),
        ("ValidationSucceededUpdateID"@, "1"@),
        ("ValidationRevokedUpdateID"@, "1"@),
    ]
}

/// Writes the event of the ContentDirectory.
pub fn cd_event_body() -> (r: String)
    ensures
        r@ == propertyset_text(cd_state()),
{
    let pairs = [("SystemUpdateID", "1")];
    assert(pair_texts(pairs@) =~= cd_state());
    propertyset(&pairs)
}

/// Writes the event of the ConnectionManager.
pub fn cm_event_body(source: &str) -> (r: String)
    ensures
        r@ == propertyset_text(cm_state(source@)),
{
    let pairs = [
        ("SourceProtocolInfo", source),
        ("SinkProtocolInfo", ""),
        ("CurrentConnectionIDs", "0"),
    ];
    assert(pair_texts(pairs@) =~= cm_state(source@));
    propertyset(&pairs)
}

/// Writes the event of the MediaReceiverRegistrar.
pub fn mrr_event_body() -> (r: String)
    ensures
        r@ == propertyset_text(mrr_state()),
{
    let pairs = [
        ("AuthorizationGrantedUpdateID", "1"),
        ("AuthorizationDeniedUpdateID", "1"),
        ("ValidationSucceededUpdateID", "1"),
        ("ValidationRevokedUpdateID", "1"),
    ];
    assert(pair_texts(pairs@) =~= mrr_state());
    propertyset(&pairs)
}

/// The first event that a subscriber to a service gets.
pub open spec fn event_text(service: EventService, source: Seq<char>) -> Seq<char> {
    match service {
        EventService::ContentDirectory => propertyset_text(cd_state()),
        EventService::ConnectionManager => propertyset_text(cm_state(source)),
        EventService::MediaReceiverRegistrar => propertyset_text(mrr_state()),
    }
}

/// Writes the first event that a subscriber to a service gets.
pub fn event_body_for(service: EventService, source_protocol_info: &str) -> (r: String)
    ensures
        r@ == event_text(service, source_protocol_info@),
{
    match service {
        EventService::ContentDirectory => cd_event_body(),
        EventService::ConnectionManager => cm_event_body(source_protocol_info),
        EventService::MediaReceiverRegistrar => mrr_event_body(),
    }
}

/// Where events are sent to.
pub struct CallbackTarget {
    pub host: String,
    pub port: u16,
    pub hostport: String,
    pub path: String,
}

/// A target as plain values.
#[verifier::ext_equal]
pub struct Target {
    pub host: Seq<char>,
    pub port: nat,
    pub hostport: Seq<char>,
    pub path: Seq<char>,
}

impl View for CallbackTarget {
    type V = Target;

    open spec fn view(&self) -> Target {
        Target {
            host: self.host@,
            port: self.port as nat,
            hostport: self.hostport@,
            path: self.path@,
        }
    }
}

/// The port that text spells, or that of HTTP.
pub open spec fn port_or_80(s: Seq<char>) -> nat {
    match number::unsigned(s, u16::MAX as nat) {
        Some(n) => n,
        None => 80,
    }
}

/// The host and port that `host:port`, `[host]:port` or `host` spell.
pub open spec fn host_and_port(hostport: Seq<char>) -> Option<(Seq<char>, nat)> {
    if hostport.len() > 0 && hostport[0] == '[' {
        match text::find_char_from(hostport, ']', 0) {
            None => None,
            Some(e) => {
                let rest = hostport.subrange(e + 1, hostport.len() as int);
                Some(
                    (
                        hostport.subrange(1, e),
                        if rest.len() > 0 && rest[0] == ':' {
                            port_or_80(rest.subrange(1, rest.len() as int))
                        } else {
                            80
                        },
                    ),
                )
            },
        }
    } else {
        match text::find_char_from(hostport, ':', 0) {
            None => Some((hostport, 80)),
            Some(k) => Some(
                (
                    hostport.subrange(0, k),
                    port_or_80(hostport.subrange(k + 1, hostport.len() as int)),
                ),
            ),
        }
    }
}

/// The host and port of a URL together, and its path.
pub open spec fn url_parts(rest: Seq<char>) -> (Seq<char>, Seq<char>) {
    match text::find_char_from(rest, '/', 0) {
        None => (rest, "/"@),
        Some(k) => (rest.subrange(0, k), "/"@ + rest.subrange(k + 1, rest.len() as int)),
    }
}

/// Where an HTTP URL sends events to; nothing for another URL or one without a host.
pub open spec fn target_of(url: Seq<char>) -> Option<Target> {
    let u = text::trimmed(url);
    if !text::starts_with(u, "http://"@) {
        None
    } else {
        let (hostport, path) = url_parts(u.subrange(7, u.len() as int));
        match host_and_port(hostport) {
            None => None,
            Some((host, port)) => if host.len() == 0 {
                None
            } else {
                Some(Target { host, port, hostport, path })
            },
        }
    }
}

/// Reads a port, or gives that of HTTP.
fn read_port(v: &Vec<char>, from: usize) -> (r: u16)
    requires
        from <= v@.len(),
    ensures
        r == port_or_80(v@.subrange(from as int, v@.len() as int)),
{
    match number::parse_in(v, from, v.len(), u16::MAX as u64) {
        Some(n) => n as u16,
        None => 80,
    }
}

/// Reads a host and a port.
fn split_hostport(hostport: &str) -> (r: Option<(String, u16)>)
    ensures
        match r {
            Some((host, port)) => host_and_port(hostport@) == Some((host@, port as nat)),
            None => host_and_port(hostport@) is None,
        },
{
    let v = text::to_chars(hostport);
    let n: usize = v.len();
    if n > 0 && v[0] == '[' {
        proof {
            text::lemma_find_char_from(v@, ']', 0);
        }
        let e: usize = match text::find_char(&v, ']', 0) {
            Some(e) => e,
            None => {
                return None;
            },
        };
        let host = text::text_of(&v, 1, e);
        let ghost rest = v@.subrange(e + 1, n as int);
        let port: u16 = if e + 1 < n && v[e + 1] == ':' {
            assert(rest.subrange(1, rest.len() as int) =~= v@.subrange(e + 2, n as int));
            read_port(&v, e + 2)
        } else {
            80
        };
        Some((host, port))
    } else {
        proof {
            text::lemma_find_char_from(v@, ':', 0);
        }
        match text::find_char(&v, ':', 0) {
            None => Some((hostport.to_owned(), 80)),
            Some(k) => Some((text::text_of(&v, 0, k), read_port(&v, k + 1))),
        }
    }
}

/// Reads where a URL sends events to.
pub fn parse_callback_target(url: &str) -> (r: Option<CallbackTarget>)
    ensures
        match r {
            Some(t) => target_of(url@) == Some(t@),
            None => target_of(url@) is None,
        },
{
    let u = text::trim(url);
    proof {
        reveal_strlit("http://");
    }
    if !text::has_prefix(u.as_str(), "http://") {
        return None;
    }
    let all = text::to_chars(u.as_str());
    let rest_text = text::text_of(&all, 7, all.len());
    let rest = text::to_chars(rest_text.as_str());
    let n: usize = rest.len();
    proof {
        text::lemma_find_char_from(rest@, '/', 0);
    }
    let (hostport, path) = match text::find_char(&rest, '/', 0) {
        None => (rest_text, String::from_str("/")),
        Some(k) => {
            let mut path = String::from_str("/");
            path.append(text::text_of(&rest, k + 1, n).as_str());
            (text::text_of(&rest, 0, k), path)
        },
    };
    let (host, port) = match split_hostport(hostport.as_str()) {
        Some(found) => found,
        None => {
            return None;
        },
    };
    if host.as_str().is_empty() {
        return None;
    }
    let t = CallbackTarget { host, port, hostport, path };
    assert(t@ =~= target_of(url@)->0);
    Some(t)
}

/// The host that a `CALLBACK` header has events sent to.
pub open spec fn callback_host_of(header: Seq<char>) -> Option<Seq<char>> {
    match callback_url_of(header) {
        None => None,
        Some(url) => match target_of(url) {
            None => None,
            Some(t) => Some(t.host),
        },
    }
}

/// Reads the host that a `CALLBACK` header has events sent to.
pub fn callback_host(callback_header: &str) -> (r: Option<String>)
    ensures
        match r {
            Some(host) => callback_host_of(callback_header@) == Some(host@),
            None => callback_host_of(callback_header@) is None,
        },
{
    match parse_callback_url(callback_header) {
        None => None,
        Some(url) => match parse_callback_target(url.as_str()) {
            None => None,
            Some(t) => Some(t.host),
        },
    }
}

/// Events may be sent where a `CALLBACK` header says: its host is an address,
/// `target`, and that of the peer. A host name is no address, so none is ever
/// looked up.
pub open spec fn targets_peer(header: Seq<char>, target: Option<IpAddr>, peer: IpAddr) -> bool {
    callback_host_of(header) is Some && match target {
        Some(ip) => host::normalized(ip) == host::normalized(peer),
        None => false,
    }
}

/// Decides whether events may be sent where a `CALLBACK` header says, given the
/// address that its host spells.
pub fn callback_targets_peer(callback_header: &str, target: Option<IpAddr>, peer: IpAddr) -> (r:
    bool)
    ensures
        r == targets_peer(callback_header@, target, peer),
{
    if callback_host(callback_header).is_none() {
        return false;
    }
    match target {
        Some(ip) => host::same_ip(ip, peer),
        None => false,
    }
}

/// A notice to a subscriber.
pub open spec fn notice_text(target: Target, sid: Seq<char>, seq: nat, body: Seq<char>) -> Seq<char> {
    "NOTIFY "@ + target.path + " HTTP/1.1\r\nHOST: "@ + target.hostport
        + "\r\nCONTENT-TYPE: text/xml; charset=\"utf-8\"\r\nNT: upnp:event\r\nNTS: upnp:propchange\r\nSID: "@
        + sid + "\r\nSEQ: "@ + number::decimal(seq) + "\r\nCONTENT-LENGTH: "@ + number::decimal(
        utf8::encode_utf8(body).len(),
    ) + "\r\nCONNECTION: close\r\n\r\n"@ + body
}

/// Writes a notice to a subscriber. Its length is that of the body in bytes.
pub fn notify_message(target: &CallbackTarget, sid: &str, seq: u32, body: &str) -> (r: String)
    ensures
        r@ == notice_text(target@, sid@, seq as nat, body@),
{
    let len: usize = body.as_bytes().len();
    let mut r = String::from_str("NOTIFY ");
    r.append(target.path.as_str());
    r.append(" HTTP/1.1\r\nHOST: ");
    r.append(target.hostport.as_str());
    r.append(
        "\r\nCONTENT-TYPE: text/xml; charset=\"utf-8\"\r\nNT: upnp:event\r\nNTS: upnp:propchange\r\nSID: ",
    );
    r.append(sid);
    r.append("\r\nSEQ: ");
    number::push_decimal(&mut r, seq as u128);
    r.append("\r\nCONTENT-LENGTH: ");
    number::push_decimal(&mut r, len as u128);
    r.append("\r\nCONNECTION: close\r\n\r\n");
    r.append(body);
    r
}

/// What a request to an event URL asks for.
#[derive(Clone, Copy, Debug, PartialEq, Eq, Structural)]
pub enum EventMethod {
    Subscribe,
    Unsubscribe,
    Other,
}

/// What a method's name asks for.
pub open spec fn method_of(name: Seq<char>) -> EventMethod {
    if name == "SUBSCRIBE"@ {
        EventMethod::Subscribe
    } else if name == "UNSUBSCRIBE"@ {
        EventMethod::Unsubscribe
    } else {
        EventMethod::Other
    }
}

/// What the headers of a request to an event URL say, and who sent it.
pub struct EventRequest {
    /// The method's name.
    pub method: String,
    /// The `TIMEOUT` header.
    pub timeout: Option<String>,
    /// The `SID` header.
    pub sid: Option<String>,
    /// The `CALLBACK` header.
    pub callback: Option<String>,
    /// The address that the host in the `CALLBACK` header spells.
    pub target: Option<IpAddr>,
    /// The address that the request came from.
    pub peer: Option<IpAddr>,
}

/// A request as plain values.
#[verifier::ext_equal]
pub struct Asked {
    pub method: Seq<char>,
    pub timeout: Option<Seq<char>>,
    pub sid: Option<Seq<char>>,
    pub callback: Option<Seq<char>>,
    pub target: Option<IpAddr>,
    pub peer: Option<IpAddr>,
}

impl View for EventRequest {
    type V = Asked;

    open spec fn view(&self) -> Asked {
        Asked {
            method: self.method@,
            timeout: identity::option_text(self.timeout),
            sid: identity::option_text(self.sid),
            callback: identity::option_text(self.callback),
            target: self.target,
            peer: self.peer,
        }
    }
}

/// A notice to send: where to, and the whole of it.
pub struct Notice {
    pub target: CallbackTarget,
    pub message: String,
}

impl View for Notice {
    type V = (Target, Seq<char>);

    open spec fn view(&self) -> (Target, Seq<char>) {
        (self.target@, self.message@)
    }
}

/// The reply to a request to an event URL, and the notice to send.
pub struct EventReply {
    pub status: u16,
    /// Whether the reply says what the server is.
    pub names_server: bool,
    /// The `SID` header.
    pub sid: Option<String>,
    /// The `TIMEOUT` header.
    pub timeout: Option<String>,
    /// The first event.
    pub notice: Option<Notice>,
}

/// A reply as plain values.
#[verifier::ext_equal]
pub struct Answer {
    pub status: u16,
    pub names_server: bool,
    pub sid: Option<Seq<char>>,
    pub timeout: Option<Seq<char>>,
    pub notice: Option<(Target, Seq<char>)>,
}

impl View for EventReply {
    type V = Answer;

    open spec fn view(&self) -> Answer {
        Answer {
            status: self.status,
            names_server: self.names_server,
            sid: identity::option_text(self.sid),
            timeout: identity::option_text(self.timeout),
            notice: notice_view(self.notice),
        }
    }
}

/// A notice as plain values, where there is one.
pub open spec fn notice_view(notice: Option<Notice>) -> Option<(Target, Seq<char>)> {
    match notice {
        Some(n) => Some(n@),
        None => None,
    }
}

/// A reply with a status and nothing else.
pub open spec fn plain_answer(status: u16) -> Answer {
    Answer { status, names_server: true, sid: None, timeout: None, notice: None }
}

/// The reply to a subscriber.
pub open spec fn subscribed(
    sid: Seq<char>,
    timeout: nat,
    notice: Option<(Target, Seq<char>)>,
) -> Answer {
    Answer {
        status: 200,
        names_server: true,
        sid: Some(sid),
        timeout: Some("Second-"@ + number::decimal(timeout)),
        notice,
    }
}

/// Seconds as nanoseconds.
pub open spec fn nanos(secs: nat) -> nat {
    secs * 1_000_000_000
}

/// A request renews a subscription: it names one.
pub open spec fn is_renewal(asked: Asked) -> bool {
    match asked.sid {
        Some(s) => text::starts_with(s, "uuid:"@),
        None => false,
    }
}

/// A request for a new subscription may have events sent where it says.
pub open spec fn may_subscribe(asked: Asked) -> bool {
    match (asked.peer, asked.callback) {
        (Some(peer), Some(header)) => targets_peer(header, asked.target, peer),
        _ => false,
    }
}

/// The notice that a new subscriber is sent at once: number 0, under the
/// subscription's identifier, with the whole state, to where the `CALLBACK` header
/// says.
pub open spec fn first_notice(
    header: Seq<char>,
    sid: Seq<char>,
    service: EventService,
    source: Seq<char>,
) -> (Target, Seq<char>) {
    let target = target_of(callback_url_of(header)->0)->0;
    (target, notice_text(target, sid, 0, event_text(service, source)))
}

/// The reply to a request to subscribe, and the subscriptions after it. `fresh`
/// is the identifier for a new one.
pub open spec fn subscribe_outcome(
    m: Map<Seq<char>, u128>,
    asked: Asked,
    service: EventService,
    source: Seq<char>,
    fresh: Seq<char>,
    now: u128,
) -> (Answer, Map<Seq<char>, u128>) {
    let secs = timeout_of(asked.timeout);
    let l = live(m, now);
    let expires = (now + nanos(secs)) as u128;
    if is_renewal(asked) {
        let sid = asked.sid->0;
        if l.contains_key(sid) {
            (subscribed(sid, secs, None), l.insert(sid, expires))
        } else {
            (plain_answer(412), l)
        }
    } else if !may_subscribe(asked) {
        (plain_answer(412), m)
    } else if l.dom().len() >= MAX_SUBSCRIPTIONS {
        (plain_answer(503), l)
    } else {
        let sid = "uuid:"@ + fresh;
        (
            subscribed(sid, secs, Some(first_notice(asked.callback->0, sid, service, source))),
            l.insert(sid, expires),
        )
    }
}

/// A reply with a status and nothing else.
fn plain_reply(status: u16) -> (r: EventReply)
    ensures
        r@ == plain_answer(status),
{
    let r = EventReply { status, names_server: true, sid: None, timeout: None, notice: None };
    assert(r@ =~= plain_answer(status));
    r
}

/// The reply to a subscriber.
fn welcome(sid: String, secs: u32, notice: Option<Notice>) -> (r: EventReply)
    ensures
        r@ == subscribed(sid@, secs as nat, notice_view(notice)),
{
    let mut timeout = String::from_str("Second-");
    number::push_decimal(&mut timeout, secs as u128);
    EventReply { status: 200, names_server: true, sid: Some(sid), timeout: Some(timeout), notice }
}

/// Answers a request to subscribe, given the identifier for a new subscription.
pub fn subscribe(
    hub: &mut EventHub,
    req: &EventRequest,
    service: EventService,
    source_protocol_info: &str,
    fresh: &str,
    now: u128,
) -> (r: EventReply)
    requires
        old(hub).well_formed(),
        now <= u128::MAX - 1_800_000_000_000,
    ensures
        final(hub).well_formed(),
        (r@, final(hub)@) == subscribe_outcome(
            old(hub)@,
            req@,
            service,
            source_protocol_info@,
            fresh@,
            now,
        ),
{
    let secs: u32 = parse_timeout_seconds(
        match &req.timeout {
            Some(t) => Some(t.as_str()),
            None => None,
        },
    );
    proof {
        law_timeout_is_bounded(req@.timeout);
    }
    let ttl: u128 = secs as u128 * 1_000_000_000;
    let renewed: Option<&String> = match &req.sid {
        Some(s) => if text::has_prefix(s.as_str(), "uuid:") {
            Some(s)
        } else {
            None
        },
        None => None,
    };
    if let Some(existing) = renewed {
        if !renew_subscription(hub, existing.as_str(), ttl, now) {
            return plain_reply(412);
        }
        return welcome(existing.clone(), secs, None);
    }
    let (peer, header) = match (req.peer, &req.callback) {
        (Some(peer), Some(header)) => (peer, header),
        _ => {
            return plain_reply(412);
        },
    };
    if !callback_targets_peer(header.as_str(), req.target, peer) {
        return plain_reply(412);
    }
    let url = match parse_callback_url(header.as_str()) {
        Some(url) => url,
        None => {
            return plain_reply(412);
        },
    };
    let target = match parse_callback_target(url.as_str()) {
        Some(target) => target,
        None => {
            return plain_reply(412);
        },
    };
    let mut sid = String::from_str("uuid:");
    sid.append(fresh);
    if !admit_subscription(hub, sid.as_str(), ttl, now, MAX_SUBSCRIPTIONS) {
        return plain_reply(503);
    }
    let body = event_body_for(service, source_protocol_info);
    let message = notify_message(&target, sid.as_str(), 0, body.as_str());
    welcome(sid, secs, Some(Notice { target, message }))
}

/// Answers a request to end a subscription.
pub fn unsubscribe(hub: &mut EventHub, req: &EventRequest) -> (r: EventReply)
    requires
        old(hub).well_formed(),
    ensures
        final(hub).well_formed(),
        r@ == plain_answer(200),
        final(hub)@ == (match req@.sid {
            Some(sid) => old(hub)@.remove(sid),
            None => old(hub)@,
        }),
{
    if let Some(sid) = &req.sid {
        remove_subscription(hub, sid.as_str());
    }
    plain_reply(200)
}

/// The reply to a request with a method that there is not.
pub open spec fn method_not_allowed() -> Answer {
    Answer { status: 405, names_server: false, sid: None, timeout: None, notice: None }
}

/// The reply to a request to an event URL, and the subscriptions after it.
pub open spec fn handle_outcome(
    m: Map<Seq<char>, u128>,
    asked: Asked,
    service: EventService,
    source: Seq<char>,
    fresh: Seq<char>,
    now: u128,
) -> (Answer, Map<Seq<char>, u128>) {
    match method_of(asked.method) {
        EventMethod::Subscribe => subscribe_outcome(m, asked, service, source, fresh, now),
        EventMethod::Unsubscribe => (
            plain_answer(200),
            match asked.sid {
                Some(sid) => m.remove(sid),
                None => m,
            },
        ),
        EventMethod::Other => (method_not_allowed(), m),
    }
}

/// Answers a request to an event URL, given the identifier for a new subscription.
pub fn handle_with(
    hub: &mut EventHub,
    req: &EventRequest,
    service: EventService,
    source_protocol_info: &str,
    fresh: &str,
    now: u128,
) -> (r: EventReply)
    requires
        old(hub).well_formed(),
        now <= u128::MAX - 1_800_000_000_000,
    ensures
        final(hub).well_formed(),
        (r@, final(hub)@) == handle_outcome(
            old(hub)@,
            req@,
            service,
            source_protocol_info@,
            fresh@,
            now,
        ),
{
    if text::same_text(req.method.as_str(), "SUBSCRIBE") {
        subscribe(hub, req, service, source_protocol_info, fresh, now)
    } else if text::same_text(req.method.as_str(), "UNSUBSCRIBE") {
        unsubscribe(hub, req)
    } else {
        let r = EventReply {
            status: 405,
            names_server: false,
            sid: None,
            timeout: None,
            notice: None,
        };
        assert(r@ =~= method_not_allowed());
        r
    }
}

/// Answers a request to an event URL. A new subscription gets a random identifier.
pub fn handle(
    hub: &mut EventHub,
    req: &EventRequest,
    service: EventService,
    source_protocol_info: &str,
    now: u128,
) -> (r: EventReply)
    requires
        old(hub).well_formed(),
        now <= u128::MAX - 1_800_000_000_000,
    ensures
        final(hub).well_formed(),
        exists|fresh: Seq<char>| #[trigger]
            identity::is_uuid(fresh) && (r@, final(hub)@) == handle_outcome(
                old(hub)@,
                req@,
                service,
                source_protocol_info@,
                fresh,
                now,
            ),
{
    let fresh = identity::uuid_v4();
    let r = handle_with(hub, req, service, source_protocol_info, fresh.as_str(), now);
    assert(identity::is_uuid(fresh@));
    r
}

/// Nothing is sent to anyone but the peer: a notice goes out only to a new
/// subscriber, to the host in their callback, and only where that host's address
/// is the one that the request came from.
pub proof fn law_notices_go_to_the_peer(
    m: Map<Seq<char>, u128>,
    asked: Asked,
    service: EventService,
    source: Seq<char>,
    fresh: Seq<char>,
    now: u128,
)
    requires
        handle_outcome(m, asked, service, source, fresh, now).0.notice is Some,
    ensures
        asked.target is Some,
        asked.peer is Some,
        host::normalized(asked.target->0) == host::normalized(asked.peer->0),
        method_of(asked.method) == EventMethod::Subscribe,
        asked.callback is Some,
        ({
            let (target, _) = handle_outcome(m, asked, service, source, fresh, now).0.notice->0;
            callback_host_of(asked.callback->0) == Some(target.host)
        }),
{
}

/// A request that is refused leaves every subscription that has not ended as it is.
pub proof fn law_refusals_change_nothing(
    m: Map<Seq<char>, u128>,
    asked: Asked,
    service: EventService,
    source: Seq<char>,
    fresh: Seq<char>,
    now: u128,
)
    requires
        handle_outcome(m, asked, service, source, fresh, now).0.status != 200,
    ensures
        live(handle_outcome(m, asked, service, source, fresh, now).1, now) == live(m, now),
{
    assert(live(live(m, now), now) =~= live(m, now));
}

/// Whatever is asked, there are never more subscriptions than there can be.
pub proof fn law_requests_keep_the_cap(
    m: Map<Seq<char>, u128>,
    asked: Asked,
    service: EventService,
    source: Seq<char>,
    fresh: Seq<char>,
    now: u128,
)
    requires
        m.dom().finite(),
        m.dom().len() <= MAX_SUBSCRIPTIONS,
    ensures
        handle_outcome(m, asked, service, source, fresh, now).1.dom().finite(),
        handle_outcome(m, asked, service, source, fresh, now).1.dom().len() <= MAX_SUBSCRIPTIONS,
{
    let l = live(m, now);
    assert(l.dom() =~= m.dom().filter(|s: Seq<char>| m[s] > now));
    vstd::set_lib::lemma_len_subset(l.dom(), m.dom());
    let expires = (now + nanos(timeout_of(asked.timeout))) as u128;
    if method_of(asked.method) == EventMethod::Subscribe {
        if is_renewal(asked) {
            let sid = asked.sid->0;
            if l.contains_key(sid) {
                assert(l.insert(sid, expires).dom() =~= l.dom());
            }
        } else {
            let sid = "uuid:"@ + fresh;
            assert(l.insert(sid, expires).dom() =~= l.dom().insert(sid));
        }
    } else if let Some(sid) = asked.sid {
        assert(m.remove(sid).dom() =~= m.dom().remove(sid));
    }
}

/// Whoever got a subscription can renew it until it ends, by the identifier that
/// they got.
pub proof fn law_subscribers_can_renew(
    m: Map<Seq<char>, u128>,
    first: Asked,
    again: Asked,
    service: EventService,
    source: Seq<char>,
    fresh: Seq<char>,
    other: Seq<char>,
    now: u128,
    later: u128,
)
    requires
        now + nanos(timeout_of(first.timeout)) <= u128::MAX,
        method_of(first.method) == EventMethod::Subscribe,
        handle_outcome(m, first, service, source, fresh, now).0.status == 200,
        method_of(again.method) == EventMethod::Subscribe,
        again.sid == handle_outcome(m, first, service, source, fresh, now).0.sid,
    ensures
        ({
            let after = handle_outcome(m, first, service, source, fresh, now).1;
            handle_outcome(after, again, service, source, other, later).0.status == (if later < now
                + nanos(timeout_of(first.timeout)) {
                200
            } else {
                412int
            })
        }),
{
    reveal_strlit("uuid:");
    let sid = again.sid->0;
    if !is_renewal(first) {
        assert(sid =~= "uuid:"@ + fresh);
        assert(sid.subrange(0, 5) =~= "uuid:"@);
    }
    assert(is_renewal(again));
}

/// Whoever gave a subscription up cannot renew it.
pub proof fn law_left_subscriptions_are_gone(
    m: Map<Seq<char>, u128>,
    leave: Asked,
    again: Asked,
    service: EventService,
    source: Seq<char>,
    fresh: Seq<char>,
    now: u128,
    later: u128,
)
    requires
        method_of(leave.method) == EventMethod::Unsubscribe,
        method_of(again.method) == EventMethod::Subscribe,
        is_renewal(again),
        again.sid == leave.sid,
    ensures
        ({
            let after = handle_outcome(m, leave, service, source, fresh, now).1;
            handle_outcome(after, again, service, source, fresh, later).0.status == 412
        }),
{
}

/// Text has at least as many bytes as characters.
proof fn lemma_bytes_of(s: Seq<char>)
    ensures
        utf8::encode_utf8(s).len() >= s.len(),
    decreases s.len(),
{
    if s.len() > 0 {
        lemma_bytes_of(s.drop_first());
        assert(utf8::encode_utf8(s) == utf8::encode_scalar(s[0] as u32) + utf8::encode_utf8(
            s.drop_first(),
        ));
    }
}

/// A character that may stand in a host's name, and in none of the places around
/// it.
pub open spec fn is_plain_host(host: Seq<char>) -> bool {
    host.len() > 0 && forall|i: int|
        0 <= i < host.len() ==> text::is_graphic(#[trigger] host[i]) && host[i] != ':' && host[i]
            != '/' && host[i] != '<' && host[i] != '>' && host[i] != '[' && host[i] != ']'
}

/// A path that ends with something that is kept.
pub open spec fn is_plain_path(path: Seq<char>) -> bool {
    &&& path.len() > 0 ==> text::is_graphic(path.last())
    &&& forall|i: int| 0 <= i < path.len() ==> #[trigger] path[i] != '<' && path[i] != '>'
}

/// The URL in a callback header, in brackets or without.
proof fn lemma_callback_read(
    before: Seq<char>,
    url: Seq<char>,
    after: Seq<char>,
)
    requires
        text::all_blank(before),
        text::all_blank(after),
        url.len() > 8,
        text::starts_with(url, "http://"@),
        text::is_graphic(url.last()),
        forall|i: int| 0 <= i < url.len() ==> #[trigger] url[i] != '<' && url[i] != '>',
    ensures
        callback_url_of(before + ("<"@ + url + ">"@) + after) == Some(url),
        callback_url_of(before + url + after) == Some(url),
{
    reveal_strlit("http://");
    reveal_strlit("<");
    reveal_strlit(">");
    lemma_bytes_of(url);
    assert(url.first() == url.subrange(0, 7)[0]);
    assert(text::is_tight(url));
    let bracketed = "<"@ + url + ">"@;
    assert(bracketed.first() == '<' && bracketed.last() == '>');
    text::law_blanks_are_trimmed(before, bracketed, after);
    text::law_blanks_are_trimmed(before, url, after);
    text::lemma_char_at(bracketed, '<', 0, 0);
    let e = url.len() as int + 1;
    assert forall|k: int| 1 <= k < e implies #[trigger] bracketed[k] != '>' by {
        assert(bracketed[k] == url[k - 1]);
    }
    text::lemma_char_at(bracketed, '>', 1, e);
    assert(bracketed.subrange(1, e) =~= url);
    text::lemma_tight_is_trimmed(url);
    text::lemma_find_char_from(url, '<', 0);
}

/// Where an HTTP URL leads: its host and port, and its path.
proof fn lemma_target_read(hostport: Seq<char>, path: Seq<char>)
    requires
        hostport.len() > 0,
        forall|i: int| 0 <= i < hostport.len() ==> #[trigger] hostport[i] != '/',
        path.len() > 0 ==> text::is_graphic(path.last()),
    ensures
        target_of("http://"@ + hostport + "/"@ + path) == match host_and_port(hostport) {
            Some((host, port)) => if host.len() > 0 {
                Some(Target { host, port, hostport, path: "/"@ + path })
            } else {
                None
            },
            None => None,
        },
{
    reveal_strlit("http://");
    reveal_strlit("/");
    let url = "http://"@ + hostport + "/"@ + path;
    assert(url.first() == 'h');
    assert(url.last() == if path.len() > 0 {
        path.last()
    } else {
        '/'
    });
    text::lemma_tight_is_trimmed(url);
    assert(url.subrange(0, 7) =~= "http://"@);
    let rest = url.subrange(7, url.len() as int);
    assert(rest =~= hostport + "/"@ + path);
    assert forall|k: int| 0 <= k < hostport.len() implies #[trigger] rest[k] != '/' by {
        assert(rest[k] == hostport[k]);
    }
    let k = hostport.len() as int;
    text::lemma_char_at(rest, '/', 0, k);
    assert(rest.subrange(0, k) =~= hostport);
    assert(rest.subrange(k + 1, rest.len() as int) =~= path);
}

/// A `CALLBACK` header names the host, the port and the path that events are sent
/// to, with or without angle brackets and blanks around it. The port is 80 where
/// none is given.
pub proof fn law_callbacks_are_read(
    before: Seq<char>,
    host: Seq<char>,
    port: u16,
    path: Seq<char>,
    after: Seq<char>,
)
    requires
        text::all_blank(before),
        text::all_blank(after),
        is_plain_host(host),
        is_plain_path(path),
    ensures
        ({
            let hostport = host + ":"@ + number::decimal(port as nat);
            let url = "http://"@ + hostport + "/"@ + path;
            let header = before + ("<"@ + url + ">"@) + after;
            &&& callback_url_of(header) == Some(url)
            &&& callback_url_of(before + url + after) == Some(url)
            &&& target_of(url) == Some(
                Target { host, port: port as nat, hostport, path: "/"@ + path },
            )
            &&& callback_host_of(header) == Some(host)
        }),
        ({
            let url = "http://"@ + host + "/"@ + path;
            let header = before + ("<"@ + url + ">"@) + after;
            &&& callback_url_of(header) == Some(url)
            &&& target_of(url) == Some(
                Target { host, port: 80, hostport: host, path: "/"@ + path },
            )
            &&& callback_host_of(header) == Some(host)
        }),
{
    reveal_strlit("http://");
    reveal_strlit("/");
    reveal_strlit(":");
    let d = number::decimal(port as nat);
    number::lemma_decimal_digits(port as nat);
    number::law_numeral_round_trip(port as nat, u16::MAX as nat);
    let hostport = host + ":"@ + d;
    let url = "http://"@ + hostport + "/"@ + path;
    assert forall|i: int| 0 <= i < hostport.len() implies #[trigger] hostport[i] != '/'
        && hostport[i] != '<' && hostport[i] != '>' by {
        if i < host.len() {
            assert(hostport[i] == host[i]);
        } else if i > host.len() {
            assert(hostport[i] == d[i - host.len() - 1]);
            assert(number::is_digit(d[i - host.len() - 1]));
        }
    }
    lemma_url_is_plain(hostport, path);
    lemma_callback_read(before, url, after);
    lemma_target_read(hostport, path);
    assert(hostport[0] == host[0] && host[0] != '[');
    assert forall|k: int| 0 <= k < host.len() implies #[trigger] hostport[k] != ':' by {
        assert(hostport[k] == host[k]);
    }
    text::lemma_char_at(hostport, ':', 0, host.len() as int);
    assert(hostport.subrange(0, host.len() as int) =~= host);
    assert(hostport.subrange(host.len() as int + 1, hostport.len() as int) =~= d);
    let bare = "http://"@ + host + "/"@ + path;
    lemma_url_is_plain(host, path);
    lemma_callback_read(before, bare, after);
    lemma_target_read(host, path);
    text::lemma_find_char_from(host, ':', 0);
}

/// A URL without angle brackets in its parts has none.
proof fn lemma_url_is_plain(hostport: Seq<char>, path: Seq<char>)
    requires
        hostport.len() > 0,
        forall|i: int| 0 <= i < hostport.len() ==> #[trigger] hostport[i] != '<' && hostport[i]
            != '>',
        is_plain_path(path),
    ensures
        ({
            let url = "http://"@ + hostport + "/"@ + path;
            &&& url.len() > 8
            &&& text::starts_with(url, "http://"@)
            &&& text::is_graphic(url.last())
            &&& forall|i: int| 0 <= i < url.len() ==> #[trigger] url[i] != '<' && url[i] != '>'
        }),
{
    reveal_strlit("http://");
    reveal_strlit("/");
    let url = "http://"@ + hostport + "/"@ + path;
    assert(url.subrange(0, 7) =~= "http://"@);
    assert(url.last() == if path.len() > 0 {
        path.last()
    } else {
        '/'
    });
    let n = hostport.len() as int;
    assert forall|i: int| 0 <= i < url.len() implies #[trigger] url[i] != '<' && url[i] != '>' by {
        if 7 <= i < 7 + n {
            assert(url[i] == hostport[i - 7]);
        } else if i > 7 + n {
            assert(url[i] == path[i - 8 - n]);
        }
    }
}

/// An IPv6 address stands in brackets in front of the port.
pub proof fn law_callbacks_to_ipv6_are_read(host: Seq<char>, port: u16, path: Seq<char>)
    requires
        host.len() > 0,
        forall|i: int| 0 <= i < host.len() ==> #[trigger] host[i] != ']' && host[i] != '/',
        path.len() > 0 ==> text::is_graphic(path.last()),
    ensures
        target_of("http://"@ + ("["@ + host + "]:"@ + number::decimal(port as nat)) + "/"@ + path)
            == Some(
            Target {
                host,
                port: port as nat,
                hostport: "["@ + host + "]:"@ + number::decimal(port as nat),
                path: "/"@ + path,
            },
        ),
        target_of("http://"@ + ("["@ + host + "]"@) + "/"@ + path) == Some(
            Target { host, port: 80, hostport: "["@ + host + "]"@, path: "/"@ + path },
        ),
{
    reveal_strlit("[");
    reveal_strlit("]");
    reveal_strlit("]:");
    let d = number::decimal(port as nat);
    number::lemma_decimal_digits(port as nat);
    number::law_numeral_round_trip(port as nat, u16::MAX as nat);
    let hp = "["@ + host + "]:"@ + d;
    let n = host.len() as int;
    assert forall|i: int| 0 <= i < hp.len() implies #[trigger] hp[i] != '/' by {
        if 1 <= i <= n {
            assert(hp[i] == host[i - 1]);
        } else if i > n + 2 {
            assert(hp[i] == d[i - n - 3]);
            assert(number::is_digit(d[i - n - 3]));
        }
    }
    lemma_target_read(hp, path);
    assert forall|k: int| 0 <= k < n + 1 implies #[trigger] hp[k] != ']' by {
        if k > 0 {
            assert(hp[k] == host[k - 1]);
        }
    }
    text::lemma_char_at(hp, ']', 0, n + 1);
    assert(hp.subrange(1, n + 1) =~= host);
    let rest = hp.subrange(n + 2, hp.len() as int);
    assert(rest[0] == ':');
    assert(rest.subrange(1, rest.len() as int) =~= d);
    let bare = "["@ + host + "]"@;
    assert forall|i: int| 0 <= i < bare.len() implies #[trigger] bare[i] != '/' by {
        if 1 <= i <= n {
            assert(bare[i] == host[i - 1]);
        }
    }
    lemma_target_read(bare, path);
    assert forall|k: int| 0 <= k < n + 1 implies #[trigger] bare[k] != ']' by {
        if k > 0 {
            assert(bare[k] == host[k - 1]);
        }
    }
    text::lemma_char_at(bare, ']', 0, n + 1);
    assert(bare.subrange(1, n + 1) =~= host);
}

/// Events go to HTTP URLs alone.
pub proof fn law_other_callbacks_are_refused(url: Seq<char>)
    requires
        text::is_tight(url),
        !text::starts_with(url, "http://"@),
        forall|i: int| 0 <= i < url.len() ==> #[trigger] url[i] != '<',
    ensures
        callback_url_of(url) is None,
        callback_host_of(url) is None,
        target_of(url) is None,
{
    text::lemma_tight_is_trimmed(url);
    text::lemma_find_char_from(url, '<', 0);
}

/// A subscription lasts as many seconds as are asked for, but not less than 30
/// and not more than 1800; so long it lasts too where that is not said, or where
/// no end is asked for.
pub proof fn law_timeouts_are_read(before: Seq<char>, n: u32, after: Seq<char>, word: Seq<char>)
    requires
        text::all_blank(before),
        text::all_blank(after),
        text::lower(word) == "second-infinite"@,
    ensures
        ({
            let secs: nat = if n < 30 {
                30
            } else if n > 1800 {
                1800
            } else {
                n as nat
            };
            let d = number::decimal(n as nat);
            &&& timeout_of(Some(before + ("Second-"@ + d) + after)) == secs
            &&& timeout_of(Some(before + ("second-"@ + d) + after)) == secs
            &&& timeout_of(Some(before + d + after)) == secs
        }),
        timeout_of(None) == 1800,
        timeout_of(Some(before + word + after)) == 1800,
{
    reveal_strlit("Second-");
    reveal_strlit("second-");
    reveal_strlit("second-infinite");
    let d = number::decimal(n as nat);
    number::lemma_decimal_digits(n as nat);
    number::law_numeral_round_trip(n as nat, u32::MAX as nat);
    assert(number::is_digit(d[0]) && number::is_digit(d[d.len() - 1]));
    lemma_timeout_read("Second-"@, d, before, after);
    lemma_timeout_read("second-"@, d, before, after);
    text::law_blanks_are_trimmed(before, d, after);
    assert(text::lower(d)[0] == d[0]);
    assert("second-infinite"@[0] == 's');
    assert(!text::starts_with(d, "Second-"@)) by {
        if text::starts_with(d, "Second-"@) {
            assert(d.subrange(0, 7)[0] == 'S');
        }
    }
    assert(!text::starts_with(d, "second-"@)) by {
        if text::starts_with(d, "second-"@) {
            assert(d.subrange(0, 7)[0] == 's');
        }
    }
    assert(text::lower(word).len() == word.len());
    assert(text::lower(word)[0] == 's' && text::lower(word)[14] == 'e');
    text::law_blanks_are_trimmed(before, word, after);
}

/// A time behind `Second-`.
proof fn lemma_timeout_read(
    front: Seq<char>,
    d: Seq<char>,
    before: Seq<char>,
    after: Seq<char>,
)
    requires
        front == "Second-"@ || front == "second-"@,
        text::all_blank(before),
        text::all_blank(after),
        d.len() > 0,
        number::all_digits(d),
    ensures
        timeout_of(Some(before + (front + d) + after)) == match number::unsigned(
            d,
            u32::MAX as nat,
        ) {
            Some(n) => clamped(n),
            None => 1800,
        },
{
    reveal_strlit("Second-");
    reveal_strlit("second-");
    reveal_strlit("second-infinite");
    let h = front + d;
    assert(number::is_digit(d[0]) && number::is_digit(d[d.len() - 1]));
    assert(h.first() == front[0] && h.last() == d.last());
    text::law_blanks_are_trimmed(before, h, after);
    assert(text::lower(h)[7] == text::lower_char(d[0]));
    assert("second-infinite"@[7] == 'i');
    assert(h.subrange(0, 7) =~= front);
    assert(h.subrange(7, h.len() as int) =~= d);
}

/// What is no time lasts for half an hour.
pub proof fn law_other_timeouts_are_the_longest(h: Seq<char>)
    requires
        text::is_tight(h),
        number::unsigned(h, u32::MAX as nat) is None,
        !text::starts_with(h, "Second-"@),
        !text::starts_with(h, "second-"@),
    ensures
        timeout_of(Some(h)) == 1800,
{
    text::lemma_tight_is_trimmed(h);
}

/// A property in an event: the name and the value of a state variable.
pub open spec fn property_text(name: Seq<char>, value: Seq<char>) -> Seq<char> {
    "<e:property><"@ + name + ">"@ + value + "</"@ + name + "></e:property>"@
}

/// An event tells of every state variable that it is made of, by name and value.
pub proof fn law_events_tell_the_state(pairs: Seq<(Seq<char>, Seq<char>)>, i: int)
    requires
        0 <= i < pairs.len(),
    ensures
        text::contains(propertyset_text(pairs), property_text(pairs[i].0, pairs[i].1)),
{
    lemma_property_is_told(pairs, pairs.len() as int, i);
    let it = property_text(pairs[i].0, pairs[i].1);
    let head =
        "<?xml version=\"1.0\"?><e:propertyset xmlns:e=\"urn:schemas-upnp-org:event-1-0\">"@;
    let props = properties_upto(pairs, pairs.len() as int);
    text::lemma_longer_contains(head, props, it);
    text::lemma_longer_contains(head + props, "</e:propertyset>"@, it);
}

/// A property among the first ones.
proof fn lemma_property_is_told(pairs: Seq<(Seq<char>, Seq<char>)>, n: int, i: int)
    requires
        0 <= i < n <= pairs.len(),
    ensures
        text::contains(properties_upto(pairs, n), property_text(pairs[i].0, pairs[i].1)),
    decreases n,
{
    let before = properties_upto(pairs, n - 1);
    let (name, value) = pairs[n - 1];
    let last = property_text(name, value);
    let it = property_text(pairs[i].0, pairs[i].1);
    assert(properties_upto(pairs, n) =~= before + last);
    if i < n - 1 {
        lemma_property_is_told(pairs, n - 1, i);
    } else {
        assert(last.subrange(0, last.len() as int) =~= last);
        assert(text::occurs_at(last, last, 0));
    }
    text::lemma_longer_contains(before, last, it);
}

/// A new subscriber is told the whole state of the service: that the contents
/// are the first ones, what formats there are and that there is one connection,
/// or that they may use the server.
pub proof fn law_first_events_tell_the_state_of_the_service(source: Seq<char>)
    ensures
        text::contains(
            event_text(EventService::ContentDirectory, source),
            property_text("SystemUpdateID"@, "1"@),
        ),
        text::contains(
            event_text(EventService::ConnectionManager, source),
            property_text("SourceProtocolInfo"@, source),
        ),
        text::contains(
            event_text(EventService::ConnectionManager, source),
            property_text("SinkProtocolInfo"@, ""@),
        ),
        text::contains(
            event_text(EventService::ConnectionManager, source),
            property_text("CurrentConnectionIDs"@, "0"@),
        ),
        text::contains(
            event_text(EventService::MediaReceiverRegistrar, source),
            property_text("AuthorizationGrantedUpdateID"@, "1"@),
        ),
        text::contains(
            event_text(EventService::MediaReceiverRegistrar, source),
            property_text("AuthorizationDeniedUpdateID"@, "1"@),
        ),
        text::contains(
            event_text(EventService::MediaReceiverRegistrar, source),
            property_text("ValidationSucceededUpdateID"@, "1"@),
        ),
        text::contains(
            event_text(EventService::MediaReceiverRegistrar, source),
            property_text("ValidationRevokedUpdateID"@, "1"@),
        ),
{
    law_events_tell_the_state(cd_state(), 0);
    law_events_tell_the_state(cm_state(source), 0);
    law_events_tell_the_state(cm_state(source), 1);
    law_events_tell_the_state(cm_state(source), 2);
    law_events_tell_the_state(mrr_state(), 0);
    law_events_tell_the_state(mrr_state(), 1);
    law_events_tell_the_state(mrr_state(), 2);
    law_events_tell_the_state(mrr_state(), 3);
}

/// A notice is a request for the path of the callback on its host. It carries the
/// subscription's identifier, its number, and its length in bytes, and ends with
/// the event.
pub proof fn law_notices_carry_the_event(
    target: Target,
    sid: Seq<char>,
    seq: nat,
    body: Seq<char>,
)
    ensures
        seqs::begins(
            notice_text(target, sid, seq, body),
            "NOTIFY "@ + target.path + " HTTP/1.1\r\nHOST: "@ + target.hostport + "\r\n"@,
        ),
        text::contains(notice_text(target, sid, seq, body), "\r\nSID: "@ + sid + "\r\n"@),
        text::contains(
            notice_text(target, sid, seq, body),
            "\r\nSEQ: "@ + number::decimal(seq) + "\r\n"@,
        ),
        text::contains(
            notice_text(target, sid, seq, body),
            "\r\nCONTENT-LENGTH: "@ + number::decimal(utf8::encode_utf8(body).len()) + "\r\n"@,
        ),
        exists|head: Seq<char>| #[trigger]
            (head + "\r\n\r\n"@ + body) == notice_text(target, sid, seq, body),
{
    let a = "NOTIFY "@ + target.path + " HTTP/1.1\r\nHOST: "@ + target.hostport;
    let fixed =
        "\r\nCONTENT-TYPE: text/xml; charset=\"utf-8\"\r\nNT: upnp:event\r\nNTS: upnp:propchange\r\nSID: "@;
    let d = number::decimal(seq);
    let n = number::decimal(utf8::encode_utf8(body).len());
    let close = "\r\nCONNECTION: close\r\n\r\n"@;
    reveal_strlit("\r\n");
    reveal_strlit("\r\n\r\n");
    reveal_strlit("\r\nSID: ");
    reveal_strlit("\r\nSEQ: ");
    reveal_strlit("SEQ: ");
    reveal_strlit("CONTENT-LENGTH: ");
    reveal_strlit("\r\nCONTENT-LENGTH: ");
    reveal_strlit("\r\nCONNECTION: close\r\n\r\n");
    reveal_strlit("\r\nCONNECTION: close");
    reveal_strlit(
        "\r\nCONTENT-TYPE: text/xml; charset=\"utf-8\"\r\nNT: upnp:event\r\nNTS: upnp:propchange\r\nSID: ",
    );
    let front = fixed.subrange(0, fixed.len() - 7);
    assert(fixed =~= front + "\r\nSID: "@);
    let rest = fixed.subrange(2, fixed.len() as int);
    assert(fixed =~= "\r\n"@ + rest);
    assert("\r\nSEQ: "@ =~= "\r\n"@ + "SEQ: "@);
    assert("\r\nCONTENT-LENGTH: "@ =~= "\r\n"@ + "CONTENT-LENGTH: "@);
    let tail = close.subrange(2, close.len() as int);
    assert(close =~= "\r\n"@ + tail);
    assert(close =~= "\r\nCONNECTION: close"@ + "\r\n\r\n"@);
    let none = Seq::<char>::empty();
    text::lemma_tagged(a, front, "\r\nSID: "@, sid, "\r\n"@, "SEQ: "@, fixed, "\r\nSEQ: "@);
    let b = a + fixed + sid;
    let b1 = b + "\r\nSEQ: "@;
    assert("\r\nSEQ: "@ =~= none + "\r\nSEQ: "@);
    text::lemma_tagged(
        b,
        none,
        "\r\nSEQ: "@,
        d,
        "\r\n"@,
        "CONTENT-LENGTH: "@,
        "\r\nSEQ: "@,
        "\r\nCONTENT-LENGTH: "@,
    );
    let c = b1 + d;
    let c1 = c + "\r\nCONTENT-LENGTH: "@;
    assert("\r\nCONTENT-LENGTH: "@ =~= none + "\r\nCONTENT-LENGTH: "@);
    text::lemma_tagged(
        c,
        none,
        "\r\nCONTENT-LENGTH: "@,
        n,
        "\r\n"@,
        tail,
        "\r\nCONTENT-LENGTH: "@,
        close,
    );
    let i1 = "\r\nSID: "@ + sid + "\r\n"@;
    let i2 = "\r\nSEQ: "@ + d + "\r\n"@;
    let i3 = "\r\nCONTENT-LENGTH: "@ + n + "\r\n"@;
    text::lemma_longer_contains(b1, d, i1);
    text::lemma_longer_contains(c, "\r\nCONTENT-LENGTH: "@, i1);
    text::lemma_longer_contains(c1, n, i1);
    text::lemma_longer_contains(c1 + n, close, i1);
    text::lemma_longer_contains(c1 + n + close, body, i1);
    text::lemma_longer_contains(c1, n, i2);
    text::lemma_longer_contains(c1 + n, close, i2);
    text::lemma_longer_contains(c1 + n + close, body, i2);
    text::lemma_longer_contains(c1 + n + close, body, i3);
    let head = a + "\r\n"@;
    assert(a + fixed =~= head + rest);
    assert(head.subrange(0, head.len() as int) =~= head);
    seqs::lemma_longer_begins(head, rest, head);
    seqs::lemma_longer_begins(a + fixed, sid, head);
    seqs::lemma_longer_begins(b, "\r\nSEQ: "@, head);
    seqs::lemma_longer_begins(b1, d, head);
    seqs::lemma_longer_begins(c, "\r\nCONTENT-LENGTH: "@, head);
    seqs::lemma_longer_begins(c1, n, head);
    seqs::lemma_longer_begins(c1 + n, close, head);
    seqs::lemma_longer_begins(c1 + n + close, body, head);
    let upto = c1 + n + "\r\nCONNECTION: close"@;
    assert(c1 + n + close =~= upto + "\r\n\r\n"@);
    assert(upto + "\r\n\r\n"@ + body == notice_text(target, sid, seq, body));
}

/// Whoever asks for events on their own address is given a subscription under a
/// new identifier, for the time that they asked for, and is sent the state at
/// once; the subscriptions of others that have not ended stay as they are.
pub proof fn law_new_subscribers_are_welcomed(
    m: Map<Seq<char>, u128>,
    asked: Asked,
    service: EventService,
    source: Seq<char>,
    fresh: Seq<char>,
    now: u128,
    target: Target,
    url: Seq<char>,
    other: Seq<char>,
)
    requires
        asked.method == "SUBSCRIBE"@,
        asked.sid is None,
        asked.callback is Some,
        callback_url_of(asked.callback->0) == Some(url),
        target_of(url) == Some(target),
        asked.target is Some,
        asked.peer == asked.target,
        live(m, now).dom().len() < 128,
        now <= u128::MAX - 1_800_000_000_000,
    ensures
        ({
            let (answer, after) = handle_outcome(m, asked, service, source, fresh, now);
            let sid = "uuid:"@ + fresh;
            let secs = timeout_of(asked.timeout);
            &&& answer.status == 200
            &&& answer.sid == Some(sid)
            &&& answer.timeout == Some("Second-"@ + number::decimal(secs))
            &&& answer.notice == Some(
                (target, notice_text(target, sid, 0, event_text(service, source))),
            )
            &&& after.contains_key(sid)
            &&& after[sid] == now + secs * 1_000_000_000
            &&& other != sid ==> after.contains_key(other) == (m.contains_key(other) && m[other]
                > now)
            &&& other != sid && after.contains_key(other) ==> after[other] == m[other]
        }),
{
    law_timeout_is_bounded(asked.timeout);
    let l = live(m, now);
    assert(l.contains_key(other) == (m.contains_key(other) && m[other] > now));
}

/// Where there are as many subscriptions as there can be, one more is refused
/// with status 503. A request without a callback, from an unknown peer, or for
/// events on an address that is not the peer's, is refused with status 412; so
/// is the renewal of a subscription that is not there or has ended.
pub proof fn law_requests_are_refused(
    m: Map<Seq<char>, u128>,
    asked: Asked,
    service: EventService,
    source: Seq<char>,
    fresh: Seq<char>,
    now: u128,
)
    requires
        asked.method == "SUBSCRIBE"@,
    ensures
        ({
            let (answer, after) = handle_outcome(m, asked, service, source, fresh, now);
            &&& asked.sid is None && (asked.callback is None || asked.peer is None
                || asked.target is None) ==> answer.status == 412 && after == m
            &&& asked.sid is None && asked.peer is Some && asked.target is Some
                && host::normalized(asked.peer->0) != host::normalized(asked.target->0)
                ==> answer.status == 412 && after == m
            &&& asked.sid is None && live(m, now).dom().len() >= 128 ==> answer.status == 412
                || answer.status == 503
            &&& answer.status == 503 ==> live(m, now).dom().len() >= 128
            &&& asked.sid is Some && text::starts_with(asked.sid->0, "uuid:"@) && !(
            m.contains_key(asked.sid->0) && m[asked.sid->0] > now) ==> answer.status == 412
            &&& answer.status != 200 ==> answer.sid is None && answer.notice is None
        }),
{
    let l = live(m, now);
    if asked.sid is Some {
        let sid = asked.sid->0;
        assert(l.contains_key(sid) == (m.contains_key(sid) && m[sid] > now));
    }
}

/// A renewal gives the same identifier again and the time from now on, and sends
/// nothing; the other subscriptions stay as they are.
pub proof fn law_renewals_keep_the_identifier(
    m: Map<Seq<char>, u128>,
    asked: Asked,
    service: EventService,
    source: Seq<char>,
    fresh: Seq<char>,
    now: u128,
    sid: Seq<char>,
    other: Seq<char>,
)
    requires
        asked.method == "SUBSCRIBE"@,
        asked.sid == Some(sid),
        text::starts_with(sid, "uuid:"@),
        m.contains_key(sid),
        m[sid] > now,
        now <= u128::MAX - 1_800_000_000_000,
    ensures
        ({
            let (answer, after) = handle_outcome(m, asked, service, source, fresh, now);
            let secs = timeout_of(asked.timeout);
            &&& answer.status == 200
            &&& answer.sid == Some(sid)
            &&& answer.timeout == Some("Second-"@ + number::decimal(secs))
            &&& answer.notice is None
            &&& after.contains_key(sid) && after[sid] == now + secs * 1_000_000_000
            &&& other != sid ==> after.contains_key(other) == (m.contains_key(other) && m[other]
                > now)
            &&& other != sid && after.contains_key(other) ==> after[other] == m[other]
        }),
{
    law_timeout_is_bounded(asked.timeout);
    let l = live(m, now);
    assert(l.contains_key(sid));
    assert(l.contains_key(other) == (m.contains_key(other) && m[other] > now));
}

/// Whoever leaves is told that all is well, and only their subscription ends. A
/// request by any other method is refused and changes nothing.
pub proof fn law_leaving_ends_one_subscription(
    m: Map<Seq<char>, u128>,
    asked: Asked,
    service: EventService,
    source: Seq<char>,
    fresh: Seq<char>,
    now: u128,
    other: Seq<char>,
)
    ensures
        ({
            let (answer, after) = handle_outcome(m, asked, service, source, fresh, now);
            &&& asked.method == "UNSUBSCRIBE"@ ==> answer.status == 200 && answer.notice is None
            &&& asked.method == "UNSUBSCRIBE"@ && asked.sid is Some ==> !after.contains_key(
                asked.sid->0,
            )
            &&& asked.method == "UNSUBSCRIBE"@ && asked.sid != Some(other) ==> after.contains_key(
                other,
            ) == m.contains_key(other) && (m.contains_key(other) ==> after[other] == m[other])
            &&& asked.method != "SUBSCRIBE"@ && asked.method != "UNSUBSCRIBE"@ ==> answer.status
                == 405 && after == m && answer.notice is None
        }),
{
    reveal_strlit("SUBSCRIBE");
    reveal_strlit("UNSUBSCRIBE");
    assert("SUBSCRIBE"@.len() == 9 && "UNSUBSCRIBE"@.len() == 11);
}

/// A URL with no more than one character behind `http://` is no callback, and one
/// with more is.
pub proof fn law_short_callbacks_are_refused(rest: Seq<char>)
    requires
        rest.len() > 0,
        encoding::all_ascii(rest),
        text::is_graphic(rest.last()),
        forall|i: int| 0 <= i < rest.len() ==> #[trigger] rest[i] != '<',
    ensures
        rest.len() == 1 ==> callback_url_of("http://"@ + rest) is None,
        rest.len() > 1 ==> callback_url_of("http://"@ + rest) == Some("http://"@ + rest),
{
    let url = "http://"@ + rest;
    reveal_strlit("http://");
    assert(url.subrange(0, 7) =~= "http://"@);
    assert(text::is_graphic(url[0]));
    assert(url.last() == rest.last());
    text::lemma_tight_is_trimmed(url);
    assert forall|i: int| 0 <= i < url.len() implies #[trigger] url[i] != '<' by {
        if i >= 7 {
            assert(url[i] == rest[i - 7]);
        }
    }
    text::lemma_find_char_from(url, '<', 0);
    assert(encoding::all_ascii(url));
    encoding::lemma_encode_ascii(url);
}

/// A callback is to the client itself where its host has the client's address,
/// written as an IPv4 address or as the IPv6 address that stands for it, and not
/// where it has another or none.
pub proof fn law_callbacks_go_to_the_client(header: Seq<char>, v: u32, w: u32, peer: IpAddr)
    requires
        callback_host_of(header) is Some,
        v != w,
    ensures
        targets_peer(header, Some(peer), peer),
        targets_peer(header, Some(IpAddr::V4(v)), IpAddr::V6((0xffff_0000_0000 + v) as u128)),
        targets_peer(header, Some(IpAddr::V6((0xffff_0000_0000 + v) as u128)), IpAddr::V4(v)),
        !targets_peer(header, Some(IpAddr::V4(v)), IpAddr::V4(w)),
        !targets_peer(header, Some(IpAddr::V4(v)), IpAddr::V6((0xffff_0000_0000 + w) as u128)),
        !targets_peer(header, None, peer),
{
    host::law_mapped_addresses_are_the_same_host(v, 0);
    host::law_mapped_addresses_are_the_same_host(w, 0);
}

} // verus!
