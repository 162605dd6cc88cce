//! SOAP requests and replies.

use crate::number;
use crate::seqs;
use crate::text;
use vstd::prelude::*;

verus! {

/// What the server calls itself in replies and announcements.
pub const SERVER: &'static str = "Linux/5.0 UPnP/1.0 Spritz/0.1.6";

/// The content type of XML replies.
pub const XML_UTF8: &'static str = "text/xml; charset=\"utf-8\"";

/// The name of the action that a `SOAPACTION` header asks for.
pub open spec fn action_of(header: Seq<char>) -> Seq<char> {
    let s = text::unquoted(text::trimmed(header), '"');
    text::unquoted(seqs::split(s, '#').last(), '"')
}

/// Reads the action's name, which stands behind the last `#`.
pub fn parse_action(header_value: &str) -> (r: String)
    ensures
        r@ == action_of(header_value@),
{
    let trimmed = text::trim(header_value);
    let s = text::trim_char(trimmed.as_str(), '"');
    let pieces = text::split_text(s.as_str(), '#');
    proof {
        seqs::lemma_join_split(s@, '#', 0);
        assert(text::texts(pieces@).last() == pieces@.last()@);
    }
    text::trim_char(pieces[pieces.len() - 1].as_str(), '"')
}

/// The action of a request whose `SOAPACTION` header is `header`: empty without one.
pub open spec fn requested_action(header: Option<Seq<char>>) -> Seq<char> {
    match header {
        Some(h) => action_of(h),
        None => Seq::empty(),
    }
}

/// Reads the action's name where there is a header.
pub fn request_action(header: Option<&str>) -> (r: String)
    ensures
        r@ == requested_action(
            match header {
                Some(h) => Some(h@),
                None => None,
            },
        ),
{
    match header {
        Some(h) => parse_action(h),
        None => {
            let r = String::new();
            assert(r@ =~= Seq::<char>::empty());
            r
        },
    }
}

/// A character that ends the name in an opening tag.
pub open spec fn ends_tag_name(c: char) -> bool {
    c == '>' || c == '/' || c == ' ' || c == '\t' || c == '\n' || c == '\r'
}

/// Where the name that starts at `from` in a tag stops: at what ends it, or where
/// another tag begins.
pub open spec fn name_stop(xml: Seq<char>, from: int) -> Option<int>
    decreases xml.len() - from,
{
    if from >= xml.len() {
        None
    } else if ends_tag_name(xml[from]) || xml[from] == '<' {
        Some(from)
    } else {
        name_stop(xml, from + 1)
    }
}

/// A tag's name is `name`, with or without a prefix.
pub open spec fn has_local_name(full: Seq<char>, name: Seq<char>) -> bool {
    full == name || {
        let at = full.len() - name.len();
        at > 0 && full[at - 1] == ':' && full.subrange(at, full.len() as int) == name
    }
}

/// An element with the local name `name` opens at `k`.
pub open spec fn opens_at(xml: Seq<char>, name: Seq<char>, k: int) -> bool {
    xml[k] == '<' && match name_stop(xml, k + 1) {
        Some(e) => xml[e] != '<' && has_local_name(xml.subrange(k + 1, e), name),
        None => false,
    }
}

/// Where the first element from `from` on with the local name `name` opens.
pub open spec fn first_opening(xml: Seq<char>, name: Seq<char>, from: int) -> Option<int>
    decreases xml.len() - from,
{
    if from >= xml.len() {
        None
    } else if opens_at(xml, name, from) {
        Some(from)
    } else {
        first_opening(xml, name, from + 1)
    }
}

/// The text between the tag that opens at `k` and the next.
pub open spec fn content_at(xml: Seq<char>, k: int) -> Option<Seq<char>> {
    match text::find_char_from(xml, '>', k) {
        None => None,
        Some(gt) => match text::find_char_from(xml, '<', gt + 1) {
            None => None,
            Some(end) => Some(text::trimmed(xml.subrange(gt + 1, end))),
        },
    }
}

/// The text of the first element with the local name `name`, with or without a
/// prefix.
pub open spec fn tag_value(xml: Seq<char>, name: Seq<char>) -> Option<Seq<char>> {
    match first_opening(xml, name, 0) {
        Some(k) => content_at(xml, k),
        None => None,
    }
}

/// Finds where a tag's name stops.
fn find_name_stop(xml: &Vec<char>, from: usize) -> (r: Option<usize>)
    requires
        from <= xml@.len(),
    ensures
        match r {
            Some(e) => name_stop(xml@, from as int) == Some(e as int) && from <= e < xml@.len(),
            None => name_stop(xml@, from as int) is None,
        },
{
    let mut e: usize = from;
    while e < xml.len()
        invariant
            from <= e <= xml@.len(),
            name_stop(xml@, from as int) == name_stop(xml@, e as int),
        decreases xml@.len() - e,
    {
        let c: char = xml[e];
        if c == '>' || c == '/' || c == ' ' || c == '\t' || c == '\n' || c == '\r' || c == '<' {
            return Some(e);
        }
        e += 1;
    }
    None
}

/// Decides whether an element with the local name `name` opens at `k`.
fn opens(xml: &Vec<char>, name: &Vec<char>, k: usize) -> (r: bool)
    requires
        k < xml@.len(),
    ensures
        r == opens_at(xml@, name@, k as int),
{
    let n: usize = xml.len();
    if xml[k] != '<' || k + 1 == n {
        return false;
    }
    let e: usize = match find_name_stop(xml, k + 1) {
        Some(e) => e,
        None => {
            return false;
        },
    };
    if xml[e] == '<' {
        return false;
    }
    let ghost full = xml@.subrange(k + 1, e as int);
    let len: usize = e - (k + 1);
    if len < name.len() {
        return false;
    }
    let at: usize = e - name.len();
    let ghost tail = full.subrange(full.len() - name@.len(), full.len() as int);
    assert(tail =~= xml@.subrange(at as int, e as int));
    if len == name.len() {
        assert(tail =~= full);
    }
    if !text::at(xml, name, at) {
        return false;
    }
    assert(tail == name@);
    len == name.len() || xml[at - 1] == ':'
}

/// Reads the text of the first `<name>` or `<prefix:name>` element, whose
/// opening tag may hold attributes.
pub fn extract_tag_value(xml: &str, local_name: &str) -> (r: Option<String>)
    ensures
        match r {
            Some(v) => tag_value(xml@, local_name@) == Some(v@),
            None => tag_value(xml@, local_name@) is None,
        },
{
    let v = text::to_chars(xml);
    let name = text::to_chars(local_name);
    let mut k: usize = 0;
    while k < v.len()
        invariant
            k <= v@.len(),
            v@ == xml@,
            name@ == local_name@,
            first_opening(xml@, local_name@, 0) == first_opening(xml@, local_name@, k as int),
        decreases v@.len() - k,
    {
        if opens(&v, &name, k) {
            proof {
                text::lemma_find_char_from(v@, '>', k as int);
            }
            let gt: usize = match text::find_char(&v, '>', k) {
                Some(gt) => gt,
                None => {
                    return None;
                },
            };
            proof {
                text::lemma_find_char_from(v@, '<', gt + 1);
            }
            let end: usize = match text::find_char(&v, '<', gt + 1) {
                Some(end) => end,
                None => {
                    return None;
                },
            };
            let content = text::text_of(&v, gt + 1, end);
            return Some(text::trim(content.as_str()));
        }
        k += 1;
    }
    None
}

/// Of two elements with one local name the first is read, whichever has a prefix.
pub proof fn law_first_element_is_read(xml: Seq<char>, name: Seq<char>, k: int)
    requires
        0 <= k < xml.len(),
        opens_at(xml, name, k),
        forall|j: int| 0 <= j < k ==> !(#[trigger] opens_at(xml, name, j)),
    ensures
        tag_value(xml, name) == content_at(xml, k),
{
    lemma_first_opening(xml, name, 0, k);
}

/// The first opening is found.
proof fn lemma_first_opening(xml: Seq<char>, name: Seq<char>, from: int, k: int)
    requires
        0 <= from <= k < xml.len(),
        opens_at(xml, name, k),
        forall|j: int| 0 <= j < k ==> !(#[trigger] opens_at(xml, name, j)),
    ensures
        first_opening(xml, name, from) == Some(k),
    decreases k - from,
{
    if from < k {
        assert(!opens_at(xml, name, from));
        lemma_first_opening(xml, name, from + 1, k);
    }
}

/// The envelope of a reply to an action.
pub open spec fn response_text(action: Seq<char>, service: Seq<char>, inner: Seq<char>) -> Seq<
    char,
> {
    "<?xml version=\"1.0\" encoding=\"utf-8\"?>\n<s:Envelope xmlns:s=\"http://schemas.xmlsoap.org/soap/envelope/\" s:encodingStyle=\"http://schemas.xmlsoap.org/soap/encoding/\">\n  <s:Body>\n    <u:"@
        + action + "Response xmlns:u=\""@ + service + "\">\n      "@ + inner + "\n    </u:"@
        + action + "Response>\n  </s:Body>\n</s:Envelope>"@
}

/// Writes the envelope of a reply to an action.
pub fn response(action: &str, service_type: &str, inner: &str) -> (r: String)
    ensures
        r@ == response_text(action@, service_type@, inner@),
{
    let mut r = String::from_str(
        "<?xml version=\"1.0\" encoding=\"utf-8\"?>\n<s:Envelope xmlns:s=\"http://schemas.xmlsoap.org/soap/envelope/\" s:encodingStyle=\"http://schemas.xmlsoap.org/soap/encoding/\">\n  <s:Body>\n    <u:",
    );
    r.append(action);
    r.append("Response xmlns:u=\"");
    r.append(service_type);
    r.append("\">\n      ");
    r.append(inner);
    r.append("\n    </u:");
    r.append(action);
    r.append("Response>\n  </s:Body>\n</s:Envelope>");
    r
}

/// The envelope of a UPnP error.
pub open spec fn fault_text(code: nat, description: Seq<char>) -> Seq<char> {
    "<?xml version=\"1.0\" encoding=\"utf-8\"?>\n<s:Envelope xmlns:s=\"http://schemas.xmlsoap.org/soap/envelope/\">\n  <s:Body>\n    <s:Fault>\n      <faultcode>s:Client</faultcode>\n      <faultstring>UPnPError</faultstring>\n      <detail>\n        <UPnPError xmlns=\"urn:schemas-upnp-org:control-1-0\">\n          <errorCode>"@
        + number::decimal(code) + "</errorCode>\n          <errorDescription>"@ + description
        + "</errorDescription>\n        </UPnPError>\n      </detail>\n    </s:Fault>\n  </s:Body>\n</s:Envelope>"@
}

/// Writes the envelope of a UPnP error.
pub fn fault(error_code: u32, description: &str) -> (r: String)
    ensures
        r@ == fault_text(error_code as nat, description@),
{
    let mut r = String::from_str(
        "<?xml version=\"1.0\" encoding=\"utf-8\"?>\n<s:Envelope xmlns:s=\"http://schemas.xmlsoap.org/soap/envelope/\">\n  <s:Body>\n    <s:Fault>\n      <faultcode>s:Client</faultcode>\n      <faultstring>UPnPError</faultstring>\n      <detail>\n        <UPnPError xmlns=\"urn:schemas-upnp-org:control-1-0\">\n          <errorCode>",
    );
    number::push_decimal(&mut r, error_code as u128);
    r.append("</errorCode>\n          <errorDescription>");
    r.append(description);
    r.append(
        "</errorDescription>\n        </UPnPError>\n      </detail>\n    </s:Fault>\n  </s:Body>\n</s:Envelope>",
    );
    r
}

/// A reply to a control request: its HTTP status and its XML.
pub struct Reply {
    pub status: u16,
    pub body: String,
}

/// A reply as plain values.
pub open spec fn reply_view(r: Reply) -> (u16, Seq<char>) {
    (r.status, r.body@)
}

/// A reply of success.
pub fn ok(body: String) -> (r: Reply)
    ensures
        reply_view(r) == (200u16, body@),
{
    Reply { status: 200, body }
}

/// A reply of failure.
pub fn err(body: String) -> (r: Reply)
    ensures
        reply_view(r) == (500u16, body@),
{
    Reply { status: 500, body }
}

/// The reply to an action that the service does not have.
pub open spec fn invalid_action() -> (u16, Seq<char>) {
    (500u16, fault_text(401, "Invalid Action"@))
}

/// The reply to a request for an object that there is not.
pub open spec fn no_such_object() -> (u16, Seq<char>) {
    (500u16, fault_text(701, "No Such Object"@))
}

/// Refuses an action that the service does not have.
pub fn refuse_action() -> (r: Reply)
    ensures
        reply_view(r) == invalid_action(),
{
    err(fault(401, "Invalid Action"))
}

/// Refuses a request for an object that there is not.
pub fn refuse_object() -> (r: Reply)
    ensures
        reply_view(r) == no_such_object(),
{
    err(fault(701, "No Such Object"))
}

/// The action is read from a header of the form `"service#action"`, with or
/// without quotation marks and with any blanks around it.
pub proof fn law_actions_are_read(
    before: Seq<char>,
    service: Seq<char>,
    action: Seq<char>,
    after: Seq<char>,
)
    requires
        text::all_blank(before),
        text::all_blank(after),
        service.len() > 0,
        text::is_graphic(service.first()),
        service.first() != '"',
        action.len() > 0,
        text::is_graphic(action.last()),
        action.first() != '"',
        action.last() != '"',
        forall|i: int| 0 <= i < action.len() ==> #[trigger] action[i] != '#',
    ensures
        action_of(before + ("\""@ + service + "#"@ + action + "\""@) + after) == action,
        action_of(before + (service + "#"@ + action) + after) == action,
        requested_action(Some(before + (service + "#"@ + action) + after)) == action,
        requested_action(None).len() == 0,
{
    reveal_strlit("\"");
    reveal_strlit("#");
    let none = Seq::<char>::empty();
    let s = service + "#"@ + action;
    let q = "\""@ + service + "#"@ + action + "\""@;
    assert(s.first() == service.first() && s.last() == action.last());
    assert(q.first() == '"' && q.last() == '"');
    text::law_blanks_are_trimmed(before, q, after);
    text::law_blanks_are_trimmed(before, s, after);
    assert(q =~= "\""@ + s + "\""@);
    text::law_quotes_are_taken_off("\""@, s, "\""@, '"');
    text::law_quotes_are_taken_off(none, s, none, '"');
    assert(none + s + none =~= s);
    lemma_behind_the_last(service, action);
    text::law_quotes_are_taken_off(none, action, none, '"');
    assert(none + action + none =~= action);
}

/// What stands behind the last `#`.
proof fn lemma_behind_the_last(service: Seq<char>, action: Seq<char>)
    requires
        forall|i: int| 0 <= i < action.len() ==> #[trigger] action[i] != '#',
    ensures
        seqs::split(service + "#"@ + action, '#').last() == action,
{
    reveal_strlit("#");
    let s = service + "#"@ + action;
    lemma_last_piece(s, 0, service.len() as int + 1);
    assert(s.subrange(service.len() as int + 1, s.len() as int) =~= action);
}

/// The last piece starts behind the last separator.
proof fn lemma_last_piece(s: Seq<char>, from: int, start: int)
    requires
        0 <= from < start <= s.len(),
        s[start - 1] == '#',
        forall|k: int| start <= k < s.len() ==> #[trigger] s[k] != '#',
    ensures
        seqs::pieces_from(s, '#', from).len() > 0,
        seqs::pieces_from(s, '#', from).last() == s.subrange(start, s.len() as int),
    decreases start - from,
{
    seqs::lemma_position_from(s, '#', from);
    match seqs::position_from(s, '#', from) {
        Some(i) => {
            if i + 1 < start {
                lemma_last_piece(s, i + 1, start);
            } else {
                assert(i < start);
                assert(i + 1 == start);
                seqs::lemma_position_from(s, '#', start);
                match seqs::position_from(s, '#', start) {
                    Some(j) => {
                        assert(s[j] != '#');
                    },
                    None => {},
                }
                assert(seqs::pieces_from(s, '#', start) =~= seq![
                    s.subrange(start, s.len() as int),
                ]);
            }
            let rest = seqs::pieces_from(s, '#', i + 1);
            assert((seq![s.subrange(from, i)] + rest).last() == rest.last());
        },
        None => {
            assert(s[start - 1] != '#');
        },
    }
}

/// Behind the name of a tag stands the end of the tag or white space.
pub open spec fn stands_behind_a_name(c: char) -> bool {
    ||| c == '>'
    ||| c == '/'
    ||| c == ' '
    ||| c == '\t'
    ||| c == '\n'
    ||| c == '\r'
}

/// The tag that begins at `k` has the local name `name`, which stands in front of
/// position `e`: either alone, or behind a prefix and a colon.
pub open spec fn is_tag_of(xml: Seq<char>, name: Seq<char>, k: int, e: int) -> bool {
    &&& 0 <= k < e < xml.len()
    &&& xml[k] == '<'
    &&& forall|i: int| k < i < e ==> !stands_behind_a_name(#[trigger] xml[i]) && xml[i]
        != '<'
    &&& stands_behind_a_name(xml[e])
    &&& k + 1 + name.len() <= e
    &&& xml.subrange(e - name.len(), e) == name
    &&& (k + 1 + name.len() == e || xml[e - name.len() - 1] == ':')
}

/// A name stops at the first character that ends it.
proof fn lemma_name_stop(xml: Seq<char>, from: int, e: int)
    requires
        0 <= from <= e < xml.len(),
        forall|i: int| from <= i < e ==> !ends_tag_name(#[trigger] xml[i]) && xml[i] != '<',
        ends_tag_name(xml[e]) || xml[e] == '<',
    ensures
        name_stop(xml, from) == Some(e),
    decreases e - from,
{
    if from < e {
        assert(!ends_tag_name(xml[from]) && xml[from] != '<');
        lemma_name_stop(xml, from + 1, e);
    }
}

/// Where a name stops is the first character that ends it.
proof fn lemma_name_stops_at(xml: Seq<char>, from: int)
    requires
        0 <= from,
    ensures
        match name_stop(xml, from) {
            Some(e) => from <= e < xml.len() && (ends_tag_name(xml[e]) || xml[e] == '<')
                && forall|i: int|
                from <= i < e ==> !ends_tag_name(#[trigger] xml[i]) && xml[i] != '<',
            None => true,
        },
    decreases xml.len() - from,
{
    if from < xml.len() && !(ends_tag_name(xml[from]) || xml[from] == '<') {
        lemma_name_stops_at(xml, from + 1);
    }
}

/// The text of an element is read, without the blanks around it: that of the
/// first element in the document whose local name is the one asked for, with or
/// without a prefix and whatever attributes its tag holds.
pub proof fn law_elements_are_read(
    xml: Seq<char>,
    name: Seq<char>,
    k: int,
    e: int,
    gt: int,
    end: int,
)
    requires
        is_tag_of(xml, name, k, e),
        forall|j: int, f: int| 0 <= j < k ==> !#[trigger] is_tag_of(xml, name, j, f),
        e <= gt < end < xml.len(),
        xml[gt] == '>',
        forall|i: int| k <= i < gt ==> #[trigger] xml[i] != '>',
        xml[end] == '<',
        forall|i: int| gt < i < end ==> #[trigger] xml[i] != '<',
    ensures
        tag_value(xml, name) == Some(text::trimmed(xml.subrange(gt + 1, end))),
{
    lemma_name_stop(xml, k + 1, e);
    let full = xml.subrange(k + 1, e);
    let at = full.len() - name.len();
    assert(full.subrange(at, full.len() as int) =~= xml.subrange(e - name.len(), e));
    if at == 0 {
        assert(full.subrange(0, full.len() as int) =~= full);
    }
    assert(opens_at(xml, name, k));
    assert forall|j: int| 0 <= j < k implies !(#[trigger] opens_at(xml, name, j)) by {
        if opens_at(xml, name, j) {
            lemma_name_stops_at(xml, j + 1);
            let f = name_stop(xml, j + 1)->0;
            let other = xml.subrange(j + 1, f);
            let start = other.len() - name.len();
            assert(other == name ==> other.subrange(0, other.len() as int) =~= name);
            assert(other.subrange(start, other.len() as int) =~= xml.subrange(f - name.len(), f));
            if name.len() == 0 && f == j + 1 {
                assert(xml.subrange(f, f) =~= name);
            }
            assert(is_tag_of(xml, name, j, f));
        }
    }
    law_first_element_is_read(xml, name, k);
    text::lemma_char_at(xml, '>', k, gt);
    text::lemma_char_at(xml, '<', gt + 1, end);
}

/// A document without a tag of the name has no such element.
pub proof fn law_missing_elements_are_missed(xml: Seq<char>, name: Seq<char>)
    requires
        forall|j: int, f: int| !#[trigger] is_tag_of(xml, name, j, f),
    ensures
        tag_value(xml, name) is None,
{
    lemma_no_opening(xml, name, 0);
}

/// Nothing is found where there is no tag of the name.
proof fn lemma_no_opening(xml: Seq<char>, name: Seq<char>, from: int)
    requires
        0 <= from,
        forall|j: int, f: int| !#[trigger] is_tag_of(xml, name, j, f),
    ensures
        first_opening(xml, name, from) is None,
    decreases xml.len() - from,
{
    if from < xml.len() {
        if opens_at(xml, name, from) {
            lemma_name_stops_at(xml, from + 1);
            let f = name_stop(xml, from + 1)->0;
            let other = xml.subrange(from + 1, f);
            let start = other.len() - name.len();
            assert(other == name ==> other.subrange(0, other.len() as int) =~= name);
            assert(other.subrange(start, other.len() as int) =~= xml.subrange(f - name.len(), f));
            if f == from + 1 {
                assert(other.len() == 0);
                assert(xml.subrange(f, f) =~= name);
            }
            assert(is_tag_of(xml, name, from, f));
        }
        lemma_no_opening(xml, name, from + 1);
    }
}

/// A reply names the action that it answers and the service, and holds what was
/// put into it between the two tags of the action.
pub proof fn law_replies_hold_their_contents(
    action: Seq<char>,
    service: Seq<char>,
    inner: Seq<char>,
)
    ensures
        text::contains(
            response_text(action, service, inner),
            "<u:"@ + action + "Response xmlns:u=\""@ + service + "\">\n      "@ + inner
                + "\n    </u:"@ + action + "Response>"@,
        ),
{
    reveal_strlit(
        "<?xml version=\"1.0\" encoding=\"utf-8\"?>\n<s:Envelope xmlns:s=\"http://schemas.xmlsoap.org/soap/envelope/\" s:encodingStyle=\"http://schemas.xmlsoap.org/soap/encoding/\">\n  <s:Body>\n    <u:",
    );
    reveal_strlit("<u:");
    reveal_strlit("Response>\n  </s:Body>\n</s:Envelope>");
    reveal_strlit("Response>");
    let head =
        "<?xml version=\"1.0\" encoding=\"utf-8\"?>\n<s:Envelope xmlns:s=\"http://schemas.xmlsoap.org/soap/envelope/\" s:encodingStyle=\"http://schemas.xmlsoap.org/soap/encoding/\">\n  <s:Body>\n    <u:"@;
    let foot = "Response>\n  </s:Body>\n</s:Envelope>"@;
    let n = head.len() as int;
    let pre = head.subrange(0, n - 3);
    let post = foot.subrange(9, foot.len() as int);
    assert(head =~= pre + "<u:"@);
    assert(foot =~= "Response>"@ + post);
    let mid = action + "Response xmlns:u=\""@ + service + "\">\n      "@ + inner + "\n    </u:"@
        + action;
    let it = "<u:"@ + mid + "Response>"@;
    assert(it =~= "<u:"@ + action + "Response xmlns:u=\""@ + service + "\">\n      "@ + inner
        + "\n    </u:"@ + action + "Response>"@);
    assert(response_text(action, service, inner) =~= head + mid + foot);
    assert(head + mid + foot =~= pre + it + post);
    text::lemma_between(pre, it, post);
}

/// An error is told by its code and its description.
pub proof fn law_faults_tell_the_error(code: nat, description: Seq<char>)
    ensures
        text::contains(
            fault_text(code, description),
            "<errorCode>"@ + number::decimal(code) + "</errorCode>"@,
        ),
        text::contains(
            fault_text(code, description),
            "<errorDescription>"@ + description + "</errorDescription>"@,
        ),
{
    reveal_strlit(
        "<?xml version=\"1.0\" encoding=\"utf-8\"?>\n<s:Envelope xmlns:s=\"http://schemas.xmlsoap.org/soap/envelope/\">\n  <s:Body>\n    <s:Fault>\n      <faultcode>s:Client</faultcode>\n      <faultstring>UPnPError</faultstring>\n      <detail>\n        <UPnPError xmlns=\"urn:schemas-upnp-org:control-1-0\">\n          <errorCode>",
    );
    reveal_strlit("<errorCode>");
    reveal_strlit("</errorCode>");
    reveal_strlit("<errorDescription>");
    reveal_strlit("</errorDescription>");
    reveal_strlit("</errorCode>\n          <errorDescription>");
    reveal_strlit(
        "</errorDescription>\n        </UPnPError>\n      </detail>\n    </s:Fault>\n  </s:Body>\n</s:Envelope>",
    );
    let head =
        "<?xml version=\"1.0\" encoding=\"utf-8\"?>\n<s:Envelope xmlns:s=\"http://schemas.xmlsoap.org/soap/envelope/\">\n  <s:Body>\n    <s:Fault>\n      <faultcode>s:Client</faultcode>\n      <faultstring>UPnPError</faultstring>\n      <detail>\n        <UPnPError xmlns=\"urn:schemas-upnp-org:control-1-0\">\n          <errorCode>"@;
    let mid = "</errorCode>\n          <errorDescription>"@;
    let foot =
        "</errorDescription>\n        </UPnPError>\n      </detail>\n    </s:Fault>\n  </s:Body>\n</s:Envelope>"@;
    let d = number::decimal(code);
    let n = head.len() as int;
    let pre = head.subrange(0, n - 11);
    assert(head =~= pre + "<errorCode>"@);
    let m1 = mid.subrange(12, mid.len() as int);
    assert(mid =~= "</errorCode>"@ + m1);
    let m2 = mid.subrange(0, mid.len() - 18);
    assert(mid =~= m2 + "<errorDescription>"@);
    let f1 = foot.subrange(19, foot.len() as int);
    assert(foot =~= "</errorDescription>"@ + f1);
    let whole = fault_text(code, description);
    let c = "<errorCode>"@ + d + "</errorCode>"@;
    let t = "<errorDescription>"@ + description + "</errorDescription>"@;
    assert(whole =~= pre + c + (m1 + description + foot));
    text::lemma_between(pre, c, m1 + description + foot);
    assert(whole =~= (head + d + m2) + t + f1);
    text::lemma_between(head + d + m2, t, f1);
}

} // verus!
