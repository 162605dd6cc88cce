//! The URLs that media files are served under.

use crate::encoding;
use crate::number;
use crate::path;
use crate::path::MediaPath;
use crate::seqs;
use crate::text;
use vstd::prelude::*;
use vstd::utf8;

verus! {

/// Path segments, percent-encoded one by one.
pub open spec fn encoded_segments(segments: Seq<Seq<u8>>) -> Seq<Seq<char>> {
    segments.map_values(|seg: Seq<u8>| encoding::percent_encoded(seg))
}

/// A path as it stands in a URL: each segment between slashes percent-encoded.
pub open spec fn encoded_path(p: Seq<Seq<u8>>) -> Seq<char> {
    seqs::join(encoded_segments(seqs::split(path::path_text(p), path::SLASH)), seq!['/'])
}

/// Writes a path for a URL, byte for byte.
pub fn encode_path(path: &MediaPath) -> (r: String)
    ensures
        r@ == encoded_path(path@),
{
    let bytes = path.text();
    let segments = path::split_bytes(bytes.as_slice(), path::SLASH);
    let ghost all = path::contents(segments@);
    let mut encoded: Vec<String> = Vec::new();
    let mut i: usize = 0;
    while i < segments.len()
        invariant
            i <= segments@.len(),
            all == path::contents(segments@),
            text::texts(encoded@) =~= encoded_segments(all).take(i as int),
        decreases segments@.len() - i,
    {
        let ghost before = text::texts(encoded@);
        assert(all[i as int] == segments@[i as int]@);
        let e = encoding::percent_encode(segments[i].as_slice());
        encoded.push(e);
        assert(text::texts(encoded@) =~= before.push(e@));
        i += 1;
    }
    assert(encoded_segments(all).take(i as int) =~= encoded_segments(all));
    proof {
        reveal_strlit("/");
        assert("/"@ =~= seq!['/']);
    }
    text::join_texts(&encoded, "/")
}

/// The first of `dirs[from..]` that holds `media`.
pub open spec fn root_from(media: Seq<Seq<u8>>, dirs: Seq<Seq<Seq<u8>>>, from: int) -> Option<int>
    decreases dirs.len() - from,
{
    if from >= dirs.len() {
        None
    } else if path::under(media, dirs[from]) {
        Some(from)
    } else {
        root_from(media, dirs, from + 1)
    }
}

/// The number of the source folder that a file is served from, and its path
/// under that folder as it stands in a URL.
pub open spec fn media_url_of(media: Seq<Seq<u8>>, dirs: Seq<Seq<Seq<u8>>>) -> Option<
    (int, Seq<char>),
> {
    match root_from(media, dirs, 0) {
        Some(i) => Some((i, encoded_path(path::relative_to(media, dirs[i])))),
        None => None,
    }
}

/// The two parts of the URL `/m/{number}/{path}` that a file is served under.
pub fn media_url_path(media: &MediaPath, dirs: &Vec<MediaPath>) -> (r: Option<(usize, String)>)
    ensures
        match r {
            Some((i, s)) => media_url_of(media@, path::paths(dirs@)) == Some((i as int, s@)),
            None => media_url_of(media@, path::paths(dirs@)) is None,
        },
{
    let ghost all = path::paths(dirs@);
    let mut i: usize = 0;
    while i < dirs.len()
        invariant
            i <= dirs@.len(),
            all == path::paths(dirs@),
            root_from(media@, all, 0) == root_from(media@, all, i as int),
        decreases dirs@.len() - i,
    {
        assert(all[i as int] == dirs@[i as int]@);
        if let Some(relative) = media.strip_prefix(&dirs[i]) {
            return Some((i, encode_path(&relative)));
        }
        i += 1;
    }
    None
}

/// The path that the tail of a URL spells.
pub open spec fn decoded_path(tail: Seq<char>) -> Seq<Seq<u8>> {
    path::components(encoding::percent_decoded(utf8::encode_utf8(tail)))
}

/// Reads a path from the tail of a URL. The bytes that it spells need not be UTF-8.
pub fn decode_rel_path(tail: &str) -> (p: MediaPath)
    ensures
        p@ == decoded_path(tail@),
{
    let bytes = encoding::percent_decode(tail.as_bytes());
    MediaPath::parse(bytes.as_slice())
}

/// What the path of a request for `/m/{number}/{path}` asks for.
pub open spec fn media_request_of(uri: Seq<char>) -> Option<(int, Seq<Seq<u8>>)> {
    if !text::starts_with(uri, "/m/"@) {
        None
    } else {
        let rest = uri.subrange(3, uri.len() as int);
        match text::find_char_from(rest, '/', 0) {
            None => None,
            Some(k) => {
                let tail = rest.subrange(k + 1, rest.len() as int);
                match number::unsigned(rest.subrange(0, k), usize::MAX as nat) {
                    Some(n) => if tail.len() > 0 {
                        Some((n as int, decoded_path(tail)))
                    } else {
                        None
                    },
                    None => None,
                }
            },
        }
    }
}

/// Reads the source folder's number and the path in it from a request's path.
pub fn media_request(uri_path: &str) -> (r: Option<(usize, MediaPath)>)
    ensures
        match r {
            Some((i, p)) => media_request_of(uri_path@) == Some((i as int, p@)),
            None => media_request_of(uri_path@) is None,
        },
{
    proof {
        reveal_strlit("/m/");
    }
    if !text::has_prefix(uri_path, "/m/") {
        return None;
    }
    let v = text::to_chars(uri_path);
    let n: usize = v.len();
    let ghost rest = v@.subrange(3, n as int);
    let slash: usize = match text::find_char(&v, '/', 3) {
        Some(k) => k,
        None => {
            proof {
                lemma_find_shift(v@, 3, 0);
            }
            return None;
        },
    };
    proof {
        lemma_find_shift(v@, 3, 0);
        text::lemma_find_char_from(v@, '/', 3);
        assert(rest.subrange(0, slash - 3) =~= v@.subrange(3, slash as int));
        assert(rest.subrange(slash - 2, rest.len() as int) =~= v@.subrange(slash + 1, n as int));
    }
    if slash + 1 == n {
        return None;
    }
    let max: u64 = usize::MAX as u64;
    let index: u64 = match number::parse_in(&v, 3, slash, max) {
        Some(i) => i,
        None => {
            return None;
        },
    };
    let tail = text::text_of(&v, slash + 1, n);
    Some((index as usize, decode_rel_path(tail.as_str())))
}

/// Searching from a later start is searching the rest.
proof fn lemma_find_shift(s: Seq<char>, start: int, from: int)
    requires
        0 <= start <= s.len(),
        0 <= from <= s.len() - start,
    ensures
        match text::find_char_from(s.subrange(start, s.len() as int), '/', from) {
            Some(k) => text::find_char_from(s, '/', start + from) == Some(start + k),
            None => text::find_char_from(s, '/', start + from) is None,
        },
    decreases s.len() - start - from,
{
    let rest = s.subrange(start, s.len() as int);
    if from < rest.len() && rest[from] != '/' {
        lemma_find_shift(s, start, from + 1);
    }
}

/// Percent-decoding gives back what was encoded segment by segment.
proof fn lemma_segments_round_trip(segments: Seq<Seq<u8>>)
    requires
        segments.len() > 0,
    ensures
        encoding::percent_decoded(
            utf8::encode_utf8(seqs::join(encoded_segments(segments), seq!['/'])),
        ) == seqs::join(segments, seq![path::SLASH]),
    decreases segments.len(),
{
    let encoded = encoded_segments(segments);
    let slash = seq!['/'];
    seqs::lemma_join_front(encoded, slash);
    seqs::lemma_join_front(segments, seq![path::SLASH]);
    let first = segments[0];
    let e0 = encoding::percent_encoded(first);
    assert(encoded[0] == e0);
    if segments.len() == 1 {
        encoding::lemma_percent_round_trip(first, Seq::empty());
        assert(utf8::encode_utf8(e0) + Seq::<u8>::empty() =~= utf8::encode_utf8(e0));
        assert(first + encoding::percent_decoded(Seq::empty()) =~= first);
    } else {
        let rest = segments.drop_first();
        assert(encoded.drop_first() =~= encoded_segments(rest));
        lemma_segments_round_trip(rest);
        let jr = seqs::join(encoded_segments(rest), slash);
        let er = utf8::encode_utf8(jr);
        encoding::lemma_encode_concat(e0 + slash, jr);
        encoding::lemma_encode_concat(e0, slash);
        encoding::lemma_encode_ascii(slash);
        assert(utf8::encode_utf8(slash) =~= seq![47u8]);
        let tail = seq![47u8] + er;
        assert(utf8::encode_utf8(seqs::join(encoded, slash)) =~= utf8::encode_utf8(e0) + tail);
        encoding::lemma_percent_round_trip(first, tail);
        assert(tail.drop_first() =~= er);
        assert(encoding::percent_decoded(tail) =~= seq![47u8] + encoding::percent_decoded(er));
        assert(seqs::join(segments, seq![path::SLASH]) =~= first + (seq![47u8]
            + encoding::percent_decoded(er)));
    }
}

/// A path is read back from its URL, whatever the bytes of its names.
pub proof fn law_path_url_round_trip(p: Seq<Seq<u8>>)
    requires
        path::well_formed(p),
    ensures
        decoded_path(encoded_path(p)) == p,
{
    let bytes = path::path_text(p);
    seqs::lemma_join_split(bytes, path::SLASH, 0);
    assert(bytes.subrange(0, bytes.len() as int) =~= bytes);
    lemma_segments_round_trip(seqs::split(bytes, path::SLASH));
    path::law_path_text_round_trip(p);
}

/// A request for the URL that a file is listed under asks for that file: for
/// its source folder, and for the path that leads from there to the file.
pub proof fn law_media_url_round_trip(
    media: Seq<Seq<u8>>,
    dirs: Seq<Seq<Seq<u8>>>,
    i: int,
    s: Seq<char>,
)
    requires
        path::well_formed(media),
        dirs.len() <= usize::MAX,
        media_url_of(media, dirs) == Some((i, s)),
        media != dirs[i],
    ensures
        media_request_of("/m/"@ + number::decimal(i as nat) + "/"@ + s) == Some(
            (i, path::relative_to(media, dirs[i])),
        ),
{
    reveal_strlit("/m/");
    reveal_strlit("/");
    lemma_root_from(media, dirs, 0);
    let rel = path::relative_to(media, dirs[i]);
    let k0 = dirs[i].len() as int;
    assert(path::well_formed(rel)) by {
        assert forall|j: int| 0 <= j < rel.len() implies !(#[trigger] rel[j]).contains(
            path::SLASH,
        ) by {
            assert(rel[j] == media[k0 + j]);
        }
        assert forall|j: int| 0 < j < rel.len() implies #[trigger] rel[j] != path::root_part()
            && rel[j] != path::here_part() by {
            assert(rel[j] == media[k0 + j]);
        }
    }
    law_path_url_round_trip(rel);
    assert(rel.len() > 0) by {
        if rel.len() == 0 {
            assert(media.subrange(0, k0) =~= media);
        }
    }
    assert(s.len() > 0) by {
        if s.len() == 0 {
            assert(utf8::encode_utf8(s) =~= Seq::<u8>::empty());
            let none = Seq::<u8>::empty();
            assert(encoding::percent_decoded(none) =~= none);
            assert(path::components(none) =~= Seq::<Seq<u8>>::empty()) by {
                let e = Seq::<Seq<u8>>::empty();
                path::law_path_text_round_trip(e);
                assert(path::path_text(e) =~= none);
            }
        }
    }
    let d = number::decimal(i as nat);
    let uri = "/m/"@ + d + "/"@ + s;
    let rest = uri.subrange(3, uri.len() as int);
    assert(rest =~= d + "/"@ + s);
    number::lemma_decimal_digits(i as nat);
    text::lemma_find_char_from(rest, '/', 0);
    assert(rest[d.len() as int] == '/');
    assert forall|j: int| 0 <= j < d.len() implies #[trigger] rest[j] != '/' by {
        assert(rest[j] == d[j]);
        assert(number::is_digit(d[j]));
    }
    assert(text::find_char_from(rest, '/', 0) == Some(d.len() as int));
    assert(rest.subrange(0, d.len() as int) =~= d);
    assert(rest.subrange(d.len() as int + 1, rest.len() as int) =~= s);
    number::law_numeral_round_trip(i as nat, usize::MAX as nat);
    assert(text::starts_with(uri, "/m/"@)) by {
        assert(uri.subrange(0, 3) =~= "/m/"@);
    }
}

/// The folder found is the first that holds the file.
pub proof fn lemma_root_from(media: Seq<Seq<u8>>, dirs: Seq<Seq<Seq<u8>>>, from: int)
    requires
        0 <= from,
    ensures
        match root_from(media, dirs, from) {
            Some(i) => from <= i < dirs.len() && path::under(media, dirs[i]),
            None => true,
        },
    decreases dirs.len() - from,
{
    if from < dirs.len() && !path::under(media, dirs[from]) {
        lemma_root_from(media, dirs, from + 1);
    }
}

/// A file is served from the first source folder that it lies in, and the URL
/// leads back to it: read as a request, it gives the number of that folder and
/// the path that leads from the folder to the file.
pub proof fn law_files_have_a_url(media: Seq<Seq<u8>>, dirs: Seq<Seq<Seq<u8>>>, i: int)
    requires
        path::well_formed(media),
        dirs.len() <= usize::MAX,
        0 <= i < dirs.len(),
        path::under(media, dirs[i]),
        media != dirs[i],
        forall|j: int| 0 <= j < i ==> !path::under(media, #[trigger] dirs[j]),
    ensures
        match media_url_of(media, dirs) {
            Some((d, tail)) => {
                &&& d == i
                &&& media_request_of("/m/"@ + number::decimal(i as nat) + "/"@ + tail) == Some(
                    (i, path::relative_to(media, dirs[i])),
                )
                &&& dirs[i] + path::relative_to(media, dirs[i]) == media
            },
            None => false,
        },
{
    lemma_root_is(media, dirs, 0, i);
    let tail = encoded_path(path::relative_to(media, dirs[i]));
    law_media_url_round_trip(media, dirs, i, tail);
    let n = dirs[i].len() as int;
    assert(media.subrange(0, n) + path::relative_to(media, dirs[i]) =~= media);
}

/// The first folder that holds a file is the one that is found.
proof fn lemma_root_is(media: Seq<Seq<u8>>, dirs: Seq<Seq<Seq<u8>>>, from: int, i: int)
    requires
        0 <= from <= i < dirs.len(),
        path::under(media, dirs[i]),
        forall|j: int| from <= j < i ==> !path::under(media, #[trigger] dirs[j]),
    ensures
        root_from(media, dirs, from) == Some(i),
    decreases i - from,
{
    if from < i {
        assert(!path::under(media, dirs[from]));
        lemma_root_is(media, dirs, from + 1, i);
    }
}

/// A file that lies in no source folder has no URL.
pub proof fn law_other_files_have_no_url(media: Seq<Seq<u8>>, dirs: Seq<Seq<Seq<u8>>>)
    requires
        forall|j: int| 0 <= j < dirs.len() ==> !path::under(media, #[trigger] dirs[j]),
    ensures
        media_url_of(media, dirs) is None,
{
    lemma_root_from(media, dirs, 0);
    match root_from(media, dirs, 0) {
        Some(i) => {
            assert(!path::under(media, dirs[i]));
        },
        None => {},
    }
}

/// A request for `/m/{number}/{path}` asks for the path in the folder of that
/// number. One without a path, with anything but a number, or of another
/// beginning, asks for no file.
pub proof fn law_requests_are_read(n: nat, word: Seq<char>, tail: Seq<char>, uri: Seq<char>)
    requires
        n <= usize::MAX,
        forall|i: int| 0 <= i < word.len() ==> #[trigger] word[i] != '/',
        number::unsigned(word, usize::MAX as nat) is None,
    ensures
        tail.len() > 0 ==> media_request_of("/m/"@ + number::decimal(n) + "/"@ + tail) == Some(
            (n as int, decoded_path(tail)),
        ),
        media_request_of("/m/"@ + number::decimal(n) + "/"@) is None,
        media_request_of("/m/"@ + word + "/"@ + tail) is None,
        !text::starts_with(uri, "/m/"@) ==> media_request_of(uri) is None,
{
    let d = number::decimal(n);
    let none = Seq::<char>::empty();
    number::lemma_decimal_digits(n);
    number::law_numeral_round_trip(n, usize::MAX as nat);
    assert forall|j: int| 0 <= j < d.len() implies #[trigger] d[j] != '/' by {
        assert(number::is_digit(d[j]));
    }
    lemma_request_parts(d, tail);
    lemma_request_parts(d, none);
    assert("/m/"@ + d + "/"@ + none =~= "/m/"@ + d + "/"@);
    lemma_request_parts(word, tail);
}

/// The parts of a request.
proof fn lemma_request_parts(word: Seq<char>, tail: Seq<char>)
    requires
        forall|i: int| 0 <= i < word.len() ==> #[trigger] word[i] != '/',
    ensures
        media_request_of("/m/"@ + word + "/"@ + tail) == match number::unsigned(
            word,
            usize::MAX as nat,
        ) {
            Some(n) => if tail.len() > 0 {
                Some((n as int, decoded_path(tail)))
            } else {
                None
            },
            None => None,
        },
{
    reveal_strlit("/m/");
    reveal_strlit("/");
    let uri = "/m/"@ + word + "/"@ + tail;
    let rest = uri.subrange(3, uri.len() as int);
    assert(rest =~= word + "/"@ + tail);
    assert forall|j: int| 0 <= j < word.len() implies #[trigger] rest[j] != '/' by {
        assert(rest[j] == word[j]);
    }
    text::lemma_char_at(rest, '/', 0, word.len() as int);
    assert(rest.subrange(0, word.len() as int) =~= word);
    assert(rest.subrange(word.len() as int + 1, rest.len() as int) =~= tail);
    assert(uri.subrange(0, 3) =~= "/m/"@);
}

/// A URL's path, read as a request, asks for this file: it gives the number of
/// the source folder, and the path that leads from there to the file.
pub open spec fn leads_to(
    uri: Seq<char>,
    dirs: Seq<Seq<Seq<u8>>>,
    i: int,
    file: Seq<Seq<u8>>,
) -> bool {
    match media_request_of(uri) {
        Some((n, rel)) => n == i && dirs[i] + rel == file,
        None => false,
    }
}

} // verus!
