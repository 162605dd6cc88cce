//! What the server is called, and the identifier that clients know it by.

use crate::text;
use uuid::Uuid;
use vstd::prelude::*;
use vstd::utf8;

verus! {

/// A lower-case hexadecimal digit.
pub open spec fn is_hex(c: char) -> bool {
    '0' <= c <= '9' || 'a' <= c <= 'f'
}

/// The hyphenated form of a UUID: 36 characters, lower-case hexadecimal digits
/// but for hyphens after the eighth, twelfth, sixteenth and twentieth of them.
pub open spec fn is_uuid(s: Seq<char>) -> bool {
    s.len() == 36 && forall|i: int|
        0 <= i < 36 ==> if i == 8 || i == 13 || i == 18 || i == 23 {
            #[trigger] s[i] == '-'
        } else {
            is_hex(s[i])
        }
}

/// The text of the version 5 UUID of a name in the namespace of URLs.
pub uninterp spec fn uuid_v5_text(name: Seq<u8>) -> Seq<char>;

/// `uuid::Uuid::new_v5` in the namespace of URLs, as text by `to_string`. The
/// result depends on the name alone, and has the hyphenated form.
#[verifier::external_body]
fn uuid_v5(name: &[u8]) -> (s: String)
    ensures
        s@ == uuid_v5_text(name@),
        is_uuid(s@),
{
    Uuid::new_v5(&Uuid::NAMESPACE_URL, name).to_string()
}

/// `uuid::Uuid::new_v4`, as text by `to_string`: a random UUID in the hyphenated
/// form. Which one it is, is left open.
#[verifier::external_body]
pub(crate) fn uuid_v4() -> (s: String)
    ensures
        is_uuid(s@),
{
    Uuid::new_v4().to_string()
}

/// The name that a machine's UUID is made from.
pub open spec fn identity_name(identity: Seq<char>) -> Seq<char> {
    "https://github.com/dfallman/spritz#"@ + identity
}

/// Makes a UUID from a machine's identity, the same one each time.
pub fn uuid_from_identity(identity: &str) -> (r: String)
    ensures
        r@ == uuid_v5_text(utf8::encode_utf8(identity_name(identity@))),
        is_uuid(r@),
{
    let mut name = String::from_str("https://github.com/dfallman/spritz#");
    name.append(identity);
    uuid_v5(name.as_str().as_bytes())
}

/// The first of `ids` from `from` on that was read and is not blank, trimmed.
pub open spec fn first_id(ids: Seq<Option<Seq<char>>>, from: int) -> Option<Seq<char>>
    decreases ids.len() - from,
{
    if from >= ids.len() {
        None
    } else {
        match ids[from] {
            Some(id) => if text::trimmed(id).len() > 0 {
                Some(text::trimmed(id))
            } else {
                first_id(ids, from + 1)
            },
            None => first_id(ids, from + 1),
        }
    }
}

/// What a machine is known by: the first machine id that could be read, or else
/// its host name, or else a fixed word.
pub open spec fn identity_of(ids: Seq<Option<Seq<char>>>, hostname: Option<Seq<char>>) -> Seq<char> {
    match first_id(ids, 0) {
        Some(id) => id,
        None => match hostname {
            Some(h) => if h.len() > 0 {
                h
            } else {
                "spritz-unknown"@
            },
            None => "spritz-unknown"@,
        },
    }
}

/// The text of an optional string.
pub open spec fn option_text(s: Option<String>) -> Option<Seq<char>> {
    match s {
        Some(t) => Some(t@),
        None => None,
    }
}

/// The texts of optional strings.
pub open spec fn option_texts(v: Seq<Option<String>>) -> Seq<Option<Seq<char>>> {
    v.map_values(|s: Option<String>| option_text(s))
}

/// Decides what a machine is known by, given the contents of its machine id
/// files and its host name, as far as they could be read.
pub fn machine_identity(ids: &Vec<Option<String>>, hostname: &Option<String>) -> (r: String)
    ensures
        r@ == identity_of(option_texts(ids@), option_text(*hostname)),
{
    let ghost all = option_texts(ids@);
    let mut i: usize = 0;
    while i < ids.len()
        invariant
            i <= ids@.len(),
            all == option_texts(ids@),
            first_id(all, 0) == first_id(all, i as int),
        decreases ids@.len() - i,
    {
        assert(all[i as int] == option_text(ids@[i as int]));
        if let Some(id) = &ids[i] {
            let t = text::trim(id.as_str());
            if !t.as_str().is_empty() {
                return t;
            }
        }
        i += 1;
    }
    match hostname {
        Some(h) => {
            if h.as_str().is_empty() {
                String::from_str("spritz-unknown")
            } else {
                h.clone()
            }
        },
        None => String::from_str("spritz-unknown"),
    }
}

/// The UUID of a machine, the same one each time the server starts.
pub fn stable_device_uuid(ids: &Vec<Option<String>>, hostname: &Option<String>) -> (r: String)
    ensures
        r@ == uuid_v5_text(
            utf8::encode_utf8(
                identity_name(identity_of(option_texts(ids@), option_text(*hostname))),
            ),
        ),
        is_uuid(r@),
{
    let identity = machine_identity(ids, hostname);
    uuid_from_identity(identity.as_str())
}

/// What the server is called where nothing else is asked for.
pub const DEFAULT_FRIENDLY_NAME: &'static str = "Spritz Media Server";

/// How long the server's name can be.
pub const MAX_FRIENDLY_NAME_CHARS: usize = 64;

/// The name that the server goes by.
pub open spec fn friendly_name_of(name: Seq<char>) -> Seq<char> {
    let t = text::trimmed(name);
    if t.len() == 0 {
        DEFAULT_FRIENDLY_NAME@
    } else if t.len() <= MAX_FRIENDLY_NAME_CHARS {
        t
    } else {
        t.subrange(0, MAX_FRIENDLY_NAME_CHARS as int)
    }
}

/// Trims a name and cuts it to a length that clients can show; a blank one
/// becomes the default.
pub fn friendly_name(name: &str) -> (r: String)
    ensures
        r@ == friendly_name_of(name@),
{
    let t = text::trim(name);
    if t.as_str().is_empty() {
        return String::from_str(DEFAULT_FRIENDLY_NAME);
    }
    let v = text::to_chars(t.as_str());
    if v.len() <= MAX_FRIENDLY_NAME_CHARS {
        return t;
    }
    text::text_of(&v, 0, MAX_FRIENDLY_NAME_CHARS)
}

/// The server's name is never blank and never too long.
pub proof fn law_friendly_name_fits(name: Seq<char>)
    ensures
        0 < friendly_name_of(name).len() <= MAX_FRIENDLY_NAME_CHARS,
{
    reveal_strlit("Spritz Media Server");
}

/// A machine is known by the first id that was read and is not blank, without
/// the blanks around it.
pub proof fn law_the_first_id_is_taken(
    ids: Seq<Option<Seq<char>>>,
    hostname: Option<Seq<char>>,
    k: int,
    before: Seq<char>,
    id: Seq<char>,
    after: Seq<char>,
)
    requires
        0 <= k < ids.len(),
        ids[k] == Some(before + id + after),
        text::all_blank(before),
        text::all_blank(after),
        id.len() > 0,
        text::is_tight(id),
        forall|i: int|
            0 <= i < k ==> match #[trigger] ids[i] {
                Some(s) => text::all_blank(s),
                None => true,
            },
    ensures
        identity_of(ids, hostname) == id,
{
    text::law_blanks_are_trimmed(before, id, after);
    lemma_first_id(ids, 0, k);
}

/// Blank ids are passed over.
proof fn lemma_first_id(ids: Seq<Option<Seq<char>>>, from: int, k: int)
    requires
        0 <= from <= k <= ids.len(),
        forall|i: int|
            from <= i < k ==> match #[trigger] ids[i] {
                Some(s) => text::all_blank(s),
                None => true,
            },
    ensures
        first_id(ids, from) == first_id(ids, k),
    decreases k - from,
{
    if from < k {
        match ids[from] {
            Some(s) => {
                let none = Seq::<char>::empty();
                text::law_blanks_are_trimmed(s, none, none);
                assert(s + none + none =~= s);
            },
            None => {},
        }
        lemma_first_id(ids, from + 1, k);
    }
}

/// Without an id a machine is known by its host name, and without that by a
/// fixed word.
pub proof fn law_without_an_id_the_host_name_is_taken(
    ids: Seq<Option<Seq<char>>>,
    hostname: Seq<char>,
)
    requires
        hostname.len() > 0,
        forall|i: int|
            0 <= i < ids.len() ==> match #[trigger] ids[i] {
                Some(s) => text::all_blank(s),
                None => true,
            },
    ensures
        identity_of(ids, Some(hostname)) == hostname,
        identity_of(ids, Some(Seq::empty())) == "spritz-unknown"@,
        identity_of(ids, None) == "spritz-unknown"@,
{
    lemma_first_id(ids, 0, ids.len() as int);
}

/// The server goes by the name that it is given, without the blanks around it,
/// and cut off behind 64 characters; a blank name stands for the usual one.
pub proof fn law_the_given_name_is_used(before: Seq<char>, name: Seq<char>, after: Seq<char>)
    requires
        text::all_blank(before),
        text::all_blank(after),
        text::is_tight(name),
    ensures
        0 < name.len() <= 64 ==> friendly_name_of(before + name + after) == name,
        name.len() > 64 ==> friendly_name_of(before + name + after) == name.take(64),
        name.len() == 0 ==> friendly_name_of(before + name + after) == "Spritz Media Server"@,
{
    text::law_blanks_are_trimmed(before, name, after);
    assert(name.len() > 64 ==> name.take(64) =~= name.subrange(0, 64));
}

/// The name that a device's id is made from is the identity behind the address of
/// the project, so that two devices have the same name only where they have the
/// same identity.
pub proof fn law_names_tell_identities_apart(a: Seq<char>, b: Seq<char>)
    ensures
        identity_name(a).take(35) == "https://github.com/dfallman/spritz#"@,
        identity_name(a).skip(35) == a,
        identity_name(a) == identity_name(b) ==> a == b,
{
    reveal_strlit("https://github.com/dfallman/spritz#");
    assert(identity_name(a).take(35) =~= "https://github.com/dfallman/spritz#"@);
    assert(identity_name(a).skip(35) =~= a);
    assert(identity_name(b).skip(35) =~= b);
}

} // verus!
