//! DIDL-Lite: how containers and items are described to clients.

use crate::encoding;
use crate::folder::Folder;
use crate::folder::FolderNode;
use crate::library::DlnaConfig;
use crate::library::Library;
use crate::library;
use crate::media;
use crate::number;
use crate::path;
use crate::path::MediaPath;
use crate::probe;
use crate::probe::MediaInfo;
use crate::profile;
use crate::seqs;
use crate::text;
use crate::url;
use crate::video::VideoCodec;
use crate::video::VideoTrack;
use crate::xml;
use vstd::prelude::*;
use vstd::utf8;

verus! {

/// The container that holds all others.
pub const ROOT_ID: &'static str = "0";

/// The container of all videos.
pub const VIDEO_ID: &'static str = "V";

/// The container of all audio.
pub const AUDIO_ID: &'static str = "A";

/// The container of the source folders.
pub const FOLDER_ID: &'static str = "F";

/// How many entries a client gets that asks for all.
pub const DEFAULT_BROWSE_PAGE: usize = 200;

/// Where a page starts.
pub open spec fn page_start(start: nat, total: nat) -> nat {
    if start <= total {
        start
    } else {
        total
    }
}

/// Where a page ends.
pub open spec fn page_end(start: nat, count: nat, total: nat) -> nat {
    let limit: nat = if count == 0 {
        DEFAULT_BROWSE_PAGE as nat
    } else {
        count
    };
    let end = page_start(start, total) + limit;
    if end <= total {
        end
    } else {
        total
    }
}

/// The entries on the page that starts at `start` and holds `count` entries, or
/// the default number of them for 0.
pub fn page_slice(start: usize, count: usize, total: usize) -> (r: (usize, usize))
    ensures
        r.0 == page_start(start as nat, total as nat),
        r.1 == page_end(start as nat, count as nat, total as nat),
        r.0 <= r.1 <= total,
{
    let from: usize = if start <= total {
        start
    } else {
        total
    };
    let limit: usize = if count == 0 {
        DEFAULT_BROWSE_PAGE
    } else {
        count
    };
    let end: usize = if limit <= total - from {
        from + limit
    } else {
        total
    };
    (from, end)
}

/// A page lies inside the list; the page that is asked for at its end starts
/// right there; and only at the end of the list is a page empty.
pub proof fn law_pages_follow_each_other(start: nat, count: nat, total: nat)
    ensures
        page_start(start, total) <= page_end(start, count, total) <= total,
        page_start(page_end(start, count, total), total) == page_end(start, count, total),
        page_end(start, count, total) == page_start(start, total) ==> page_start(start, total)
            == total,
        count > 0 ==> page_end(start, count, total) - page_start(start, total) <= count,
{
}

/// Entries in their DIDL envelope.
pub open spec fn didl_text(entries: Seq<Seq<char>>) -> Seq<char> {
    "<DIDL-Lite xmlns=\"urn:schemas-upnp-org:metadata-1-0/DIDL-Lite/\" xmlns:dc=\"http://purl.org/dc/elements/1.1/\" xmlns:upnp=\"urn:schemas-upnp-org:metadata-1-0/upnp/\">\n  "@
        + seqs::join(entries, "\n  "@) + "\n</DIDL-Lite>"@
}

/// Writes entries in their DIDL envelope.
pub fn didl_wrap(entries: &Vec<String>) -> (r: String)
    ensures
        r@ == didl_text(text::texts(entries@)),
{
    let mut r = String::from_str(
        "<DIDL-Lite xmlns=\"urn:schemas-upnp-org:metadata-1-0/DIDL-Lite/\" xmlns:dc=\"http://purl.org/dc/elements/1.1/\" xmlns:upnp=\"urn:schemas-upnp-org:metadata-1-0/upnp/\">\n  ",
    );
    r.append(text::join_texts(entries, "\n  ").as_str());
    r.append("\n</DIDL-Lite>");
    r
}

/// What a browse or search gives: the DIDL, how many entries it holds, and how
/// many there are in all.
#[verifier::ext_equal]
pub struct Listing {
    pub didl: Seq<char>,
    pub returned: nat,
    pub total: nat,
}

/// A listing as it is computed.
pub struct Listed {
    pub didl: String,
    pub returned: usize,
    pub total: usize,
}

impl View for Listed {
    type V = Listing;

    open spec fn view(&self) -> Listing {
        Listing { didl: self.didl@, returned: self.returned as nat, total: self.total as nat }
    }
}

/// The listing of a single entry.
pub open spec fn single(entry: Seq<char>) -> Listing {
    Listing { didl: didl_text(seq![entry]), returned: 1, total: 1 }
}

/// One page of entries.
pub open spec fn page_of(entries: Seq<Seq<char>>, start: nat, count: nat) -> Listing {
    let total = entries.len();
    let s = page_start(start, total);
    let e = page_end(start, count, total);
    Listing {
        didl: didl_text(entries.subrange(s as int, e as int)),
        returned: (e - s) as nat,
        total,
    }
}

/// Lists a single entry.
pub fn list_one(entry: String) -> (r: Listed)
    ensures
        r@ == single(entry@),
{
    let mut entries: Vec<String> = Vec::new();
    entries.push(entry);
    assert(text::texts(entries@) =~= seq![entry@]);
    let r = Listed { didl: didl_wrap(&entries), returned: 1, total: 1 };
    assert(r@ =~= single(entry@));
    r
}

/// Lists one page of entries.
pub fn paginate(entries: &Vec<String>, start: usize, count: usize) -> (r: Listed)
    ensures
        r@ == page_of(text::texts(entries@), start as nat, count as nat),
{
    let total: usize = entries.len();
    let (from, to) = page_slice(start, count, total);
    let ghost all = text::texts(entries@);
    let mut page: Vec<String> = Vec::new();
    let mut i: usize = from;
    while i < to
        invariant
            from <= i <= to <= entries@.len(),
            all == text::texts(entries@),
            text::texts(page@) =~= all.subrange(from as int, i as int),
        decreases to - i,
    {
        let ghost before = text::texts(page@);
        assert(all[i as int] == entries@[i as int]@);
        page.push(entries[i].clone());
        assert(text::texts(page@) =~= before.push(all[i as int]));
        i += 1;
    }
    let r = Listed { didl: didl_wrap(&page), returned: to - from, total };
    assert(r@ =~= page_of(all, start as nat, count as nat));
    r
}

/// A container at the top.
pub open spec fn category_text(id: Seq<char>, title: Seq<char>, children: nat) -> Seq<char> {
    "<container id=\""@ + id + "\" parentID=\"0\" restricted=\"1\" childCount=\""@
        + number::decimal(children) + "\">\n    <dc:title>"@ + title
        + "</dc:title>\n    <upnp:class>object.container</upnp:class>\n  </container>"@
}

/// Describes a container at the top.
pub fn category_container_xml(id: &str, title: &str, child_count: usize) -> (r: String)
    ensures
        r@ == category_text(id@, title@, child_count as nat),
{
    let mut r = String::from_str("<container id=\"");
    r.append(id);
    r.append("\" parentID=\"0\" restricted=\"1\" childCount=\"");
    number::push_decimal(&mut r, child_count as u128);
    r.append("\">\n    <dc:title>");
    r.append(title);
    r.append("</dc:title>\n    <upnp:class>object.container</upnp:class>\n  </container>");
    r
}

/// The container that holds all others.
pub open spec fn root_text(children: nat) -> Seq<char> {
    "<container id=\"0\" parentID=\"-1\" restricted=\"1\" childCount=\""@ + number::decimal(
        children,
    )
        + "\">\n    <dc:title>Spritz</dc:title>\n    <upnp:class>object.container</upnp:class>\n  </container>"@
}

/// Describes the container that holds all others.
pub fn root_container_xml(child_count: usize) -> (r: String)
    ensures
        r@ == root_text(child_count as nat),
{
    let mut r = String::from_str(
        "<container id=\"0\" parentID=\"-1\" restricted=\"1\" childCount=\"",
    );
    number::push_decimal(&mut r, child_count as u128);
    r.append(
        "\">\n    <dc:title>Spritz</dc:title>\n    <upnp:class>object.container</upnp:class>\n  </container>",
    );
    r
}

/// Folder `idx`, which is listed in `parent`.
pub open spec fn folder_text(idx: nat, parent: Seq<char>, node: Folder) -> Seq<char> {
    "<container id=\"f:"@ + number::decimal(idx) + "\" parentID=\""@ + parent
        + "\" restricted=\"1\" childCount=\""@ + number::decimal(
        node.subs.len() + node.media.len(),
    ) + "\">\n    <dc:title>"@ + xml::escaped(node.name)
        + "</dc:title>\n    <upnp:class>object.container.storageFolder</upnp:class>\n  </container>"@
}

/// Describes a folder.
pub fn folder_container_xml(idx: usize, parent_id: &str, node: &FolderNode) -> (r: String)
    ensures
        r@ == folder_text(idx as nat, parent_id@, node@),
{
    let subs: u128 = node.subfolder_indices.len() as u128;
    let files: u128 = node.media_indices.len() as u128;
    let mut r = String::from_str("<container id=\"f:");
    number::push_decimal(&mut r, idx as u128);
    r.append("\" parentID=\"");
    r.append(parent_id);
    r.append("\" restricted=\"1\" childCount=\"");
    number::push_decimal(&mut r, subs + files);
    r.append("\">\n    <dc:title>");
    r.append(xml::xml_escape(node.display_name.as_str()).as_str());
    r.append(
        "</dc:title>\n    <upnp:class>object.container.storageFolder</upnp:class>\n  </container>",
    );
    r
}

/// The id of a file that is listed in `parent`.
pub open spec fn item_id_text(parent: Seq<char>, index: nat) -> Seq<char> {
    if parent == VIDEO_ID@ {
        "v:"@ + number::decimal(index)
    } else if parent == AUDIO_ID@ {
        "a:"@ + number::decimal(index)
    } else {
        "m:"@ + number::decimal(index)
    }
}

/// Makes the id of a file, which is another in each view that lists it.
pub fn item_id(parent_id: &str, index: usize) -> (r: String)
    ensures
        r@ == item_id_text(parent_id@, index as nat),
{
    let mut r = if text::same_text(parent_id, VIDEO_ID) {
        String::from_str("v:")
    } else if text::same_text(parent_id, AUDIO_ID) {
        String::from_str("a:")
    } else {
        String::from_str("m:")
    };
    number::push_decimal(&mut r, index as u128);
    r
}

/// The view and the index that a file's id names.
pub open spec fn item_of_id(id: Seq<char>) -> Option<(Seq<char>, nat)> {
    match text::find_char_from(id, ':', 0) {
        None => None,
        Some(k) => {
            let prefix = id.subrange(0, k);
            match number::unsigned(id.subrange(k + 1, id.len() as int), usize::MAX as nat) {
                None => None,
                Some(n) => if prefix == "v"@ {
                    Some((VIDEO_ID@, n))
                } else if prefix == "a"@ {
                    Some((AUDIO_ID@, n))
                } else if prefix == "m"@ {
                    Some(("m"@, n))
                } else {
                    None
                },
            }
        },
    }
}

/// Reads the view and the index that a file's id names.
pub fn parse_item_id(id: &str) -> (r: Option<(&'static str, usize)>)
    ensures
        match r {
            Some((view, n)) => item_of_id(id@) == Some((view@, n as nat)),
            None => item_of_id(id@) is None,
        },
{
    let v = text::to_chars(id);
    proof {
        text::lemma_find_char_from(v@, ':', 0);
    }
    let k: usize = match text::find_char(&v, ':', 0) {
        Some(k) => k,
        None => {
            return None;
        },
    };
    let n: usize = match number::parse_in(&v, k + 1, v.len(), usize::MAX as u64) {
        Some(n) => n as usize,
        None => {
            return None;
        },
    };
    let prefix = text::text_of(&v, 0, k);
    if text::same_text(prefix.as_str(), "v") {
        Some((VIDEO_ID, n))
    } else if text::same_text(prefix.as_str(), "a") {
        Some((AUDIO_ID, n))
    } else if text::same_text(prefix.as_str(), "m") {
        Some(("m", n))
    } else {
        None
    }
}

/// The view that an item listed in `parent` belongs to.
pub open spec fn view_of(parent: Seq<char>) -> Seq<char> {
    if parent == VIDEO_ID@ || parent == AUDIO_ID@ {
        parent
    } else {
        "m"@
    }
}

/// The id of a file names the view that lists it and the file.
pub proof fn law_item_id_round_trip(parent: Seq<char>, index: nat)
    requires
        index <= usize::MAX,
    ensures
        item_of_id(item_id_text(parent, index)) == Some((view_of(parent), index)),
{
    reveal_strlit("v:");
    reveal_strlit("a:");
    reveal_strlit("m:");
    reveal_strlit("v");
    reveal_strlit("a");
    reveal_strlit("m");
    let id = item_id_text(parent, index);
    let d = number::decimal(index);
    assert(id[1] == ':' && id[0] != ':');
    text::lemma_find_char_from(id, ':', 0);
    assert(text::find_char_from(id, ':', 0) == Some(1int));
    assert(id.subrange(2, id.len() as int) =~= d);
    number::law_numeral_round_trip(index, usize::MAX as nat);
    let prefix = id.subrange(0, 1);
    if parent == VIDEO_ID@ {
        assert(prefix =~= "v"@);
    } else if parent == AUDIO_ID@ {
        assert(prefix =~= "a"@);
        assert(prefix[0] != "v"@[0]);
    } else {
        assert(prefix =~= "m"@);
        assert(prefix[0] != "v"@[0]);
        assert(prefix[0] != "a"@[0]);
    }
}

/// The UPnP class of a file with this MIME type.
pub open spec fn class_of(mime: Seq<char>) -> Seq<char> {
    if media::is_audio_mime(mime) {
        "object.item.audioItem.musicTrack"@
    } else {
        "object.item.videoItem"@
    }
}

/// The UPnP class of a file with this MIME type.
pub fn upnp_class_for_mime(mime: &str) -> (r: &'static str)
    ensures
        r@ == class_of(mime@),
{
    if text::has_prefix(mime, "audio/") {
        "object.item.audioItem.musicTrack"
    } else {
        "object.item.videoItem"
    }
}

/// The URL of a file in source folder `dir`.
pub open spec fn file_url(base: Seq<char>, dir: nat, tail: Seq<char>) -> Seq<char> {
    "http://"@ + base + "/m/"@ + number::decimal(dir) + "/"@ + tail
}

/// Writes the URL of a file.
fn write_file_url(base: &str, dir: usize, tail: &str) -> (r: String)
    ensures
        r@ == file_url(base@, dir as nat, tail@),
{
    let mut r = String::from_str("http://");
    r.append(base);
    r.append("/m/");
    number::push_decimal(&mut r, dir as u128);
    r.append("/");
    r.append(tail);
    r
}

/// The resource for one kind of subtitles next to a file.
pub open spec fn subtitle_text(
    file: Seq<Seq<u8>>,
    dirs: Seq<Seq<Seq<u8>>>,
    base: Seq<char>,
    present: bool,
    ext: Seq<char>,
    mime: Seq<char>,
) -> Seq<char> {
    if !present {
        Seq::empty()
    } else {
        match url::media_url_of(path::with_extension_of(file, utf8::encode_utf8(ext)), dirs) {
            None => Seq::empty(),
            Some((d, tail)) => "\n    <res protocolInfo=\"http-get:*:"@ + mime + ":*\">"@
                + xml::escaped(file_url(base, d as nat, tail)) + "</res>"@,
        }
    }
}

/// Describes one kind of subtitles next to a file.
fn subtitle_res(
    file: &MediaPath,
    dirs: &Vec<MediaPath>,
    base: &str,
    present: bool,
    ext: &str,
    mime: &str,
) -> (r: String)
    ensures
        r@ == subtitle_text(file@, path::paths(dirs@), base@, present, ext@, mime@),
{
    let none = String::new();
    assert(none@ =~= Seq::<char>::empty());
    if !present {
        return none;
    }
    let sub = file.with_extension(ext.as_bytes());
    match url::media_url_path(&sub, dirs) {
        None => none,
        Some((d, tail)) => {
            let mut r = String::from_str("\n    <res protocolInfo=\"http-get:*:");
            r.append(mime);
            r.append(":*\">");
            let u = write_file_url(base, d, tail.as_str());
            r.append(xml::xml_escape(u.as_str()).as_str());
            r.append("</res>");
            r
        },
    }
}

/// The resources for the subtitles next to a file, as `bits` says that there are.
pub open spec fn subtitles_text(
    file: Seq<Seq<u8>>,
    dirs: Seq<Seq<Seq<u8>>>,
    base: Seq<char>,
    bits: u8,
) -> Seq<char> {
    subtitle_text(file, dirs, base, bits & library::SUBTITLE_SRT != 0, "srt"@, "text/srt"@)
        + subtitle_text(file, dirs, base, bits & library::SUBTITLE_VTT != 0, "vtt"@, "text/vtt"@)
        + subtitle_text(file, dirs, base, bits & library::SUBTITLE_ASS != 0, "ass"@, "text/x-ssa"@)
}

/// Describes the subtitles next to a file.
pub fn sidecar_subtitle_res(
    file: &MediaPath,
    public_base: &str,
    media_dirs: &Vec<MediaPath>,
    bits: u8,
) -> (r: String)
    ensures
        r@ == subtitles_text(file@, path::paths(media_dirs@), public_base@, bits),
{
    let mut r = subtitle_res(
        file,
        media_dirs,
        public_base,
        bits & library::SUBTITLE_SRT != 0,
        "srt",
        "text/srt",
    );
    let vtt = subtitle_res(
        file,
        media_dirs,
        public_base,
        bits & library::SUBTITLE_VTT != 0,
        "vtt",
        "text/vtt",
    );
    r.append(vtt.as_str());
    let ass = subtitle_res(
        file,
        media_dirs,
        public_base,
        bits & library::SUBTITLE_ASS != 0,
        "ass",
        "text/x-ssa",
    );
    r.append(ass.as_str());
    r
}

/// The `size` attribute; none for a size that is not known.
pub open spec fn size_attr(sizes: Seq<u64>, index: int) -> Seq<char> {
    if index < sizes.len() && sizes[index] != 0 {
        " size=\""@ + number::decimal(sizes[index] as nat) + "\""@
    } else {
        Seq::empty()
    }
}

/// The `duration` attribute; none for a duration that is not known.
pub open spec fn duration_attr(durations: Seq<Seq<char>>, index: int) -> Seq<char> {
    if index < durations.len() && durations[index].len() > 0 {
        " duration=\""@ + durations[index] + "\""@
    } else {
        Seq::empty()
    }
}

/// The `resolution` attribute; none for a size that is not known.
pub open spec fn resolution_attr(resolutions: Seq<Seq<char>>, index: int) -> Seq<char> {
    if index < resolutions.len() && resolutions[index].len() > 0 {
        " resolution=\""@ + resolutions[index] + "\""@
    } else {
        Seq::empty()
    }
}

/// The DLNA profile that a file is described with: the one that was found for it,
/// if any, and for a file that has not been looked at that of its extension.
pub open spec fn item_pn(pns: Seq<Seq<char>>, index: int, ext: Seq<char>) -> Option<Seq<char>> {
    if index >= pns.len() {
        profile::pn_of(ext)
    } else if pns[index].len() > 0 {
        Some(pns[index])
    } else {
        None
    }
}

/// The date of a file; a fixed one where it is not known.
pub open spec fn item_date(dates: Seq<Seq<char>>, index: int) -> Seq<char> {
    if index < dates.len() && dates[index].len() > 0 {
        dates[index]
    } else {
        "2000-01-01"@
    }
}

/// The `refID` attribute of an item whose own id is not the file's first.
pub open spec fn ref_attr(object_id: Seq<char>, index: nat) -> Seq<char> {
    if text::starts_with(object_id, "m:"@) {
        Seq::empty()
    } else {
        " refID=\"m:"@ + number::decimal(index) + "\""@
    }
}

/// The link to a file's cover picture, where it has one.
pub open spec fn art_text(has_art: Seq<bool>, index: int, base: Seq<char>) -> Seq<char> {
    if index < has_art.len() && has_art[index] {
        "\n    <upnp:albumArtURI>http://"@ + base + "/art/"@ + number::decimal(index as nat)
            + "</upnp:albumArtURI>"@
    } else {
        Seq::empty()
    }
}

/// The bits for the subtitles of file `index`.
pub open spec fn subs_at(subs: Seq<u8>, index: int) -> u8 {
    if index < subs.len() {
        subs[index]
    } else {
        0
    }
}

/// The MIME type that a file is described with.
pub open spec fn item_mime(file: Seq<Seq<u8>>) -> Seq<char> {
    match media::mime_of(media::ext_or_empty(file)) {
        Some(m) => m,
        None => "application/octet-stream"@,
    }
}

/// The description of a file that is called `name` and served under `link`.
pub open spec fn item_text(
    lib: Library,
    index: nat,
    file: Seq<Seq<u8>>,
    name: Seq<u8>,
    link: Seq<char>,
    object_id: Seq<char>,
    parent_id: Seq<char>,
    base: Seq<char>,
) -> Seq<char> {
    let i = index as int;
    "<item id=\""@ + object_id + "\" parentID=\""@ + parent_id + "\" restricted=\"1\""@ + ref_attr(
        object_id,
        index,
    ) + ">\n    <dc:title>"@ + xml::escaped(encoding::shown(name))
        + "</dc:title>\n    <upnp:class>"@ + class_of(item_mime(file))
        + "</upnp:class>\n    <dc:date>"@ + item_date(lib.dates, i) + "</dc:date>"@ + art_text(
        lib.has_art,
        i,
        base,
    ) + "\n    <res protocolInfo=\""@ + profile::protocol_with(
        item_mime(file),
        item_pn(lib.pns, i, media::ext_or_empty(file)),
        profile::DLNA_CONTENT_FEATURES@,
    ) + "\""@ + size_attr(lib.sizes, i) + duration_attr(lib.durations, i) + resolution_attr(
        lib.resolutions,
        i,
    ) + ">"@ + xml::escaped(link) + "</res>"@ + subtitles_text(
        file,
        lib.dirs,
        base,
        subs_at(lib.subs, i),
    ) + "\n  </item>"@
}

/// The description of file `index` at `file`; none for a file that has no URL.
pub open spec fn item_of(
    lib: Library,
    index: nat,
    file: Seq<Seq<u8>>,
    object_id: Seq<char>,
    parent_id: Seq<char>,
    base: Seq<char>,
) -> Option<Seq<char>> {
    match (url::media_url_of(file, lib.dirs), path::file_name_of(file)) {
        (Some((d, tail)), Some(name)) => Some(
            item_text(
                lib,
                index,
                file,
                name,
                file_url(base, d as nat, tail),
                object_id,
                parent_id,
                base,
            ),
        ),
        _ => None,
    }
}

/// Writes the attributes of a file's resource.
fn push_attributes(r: &mut String, index: usize, config: &DlnaConfig)
    ensures
        final(r)@ == old(r)@ + size_attr(config@.sizes, index as int) + duration_attr(
            config@.durations,
            index as int,
        ) + resolution_attr(config@.resolutions, index as int),
{
    let ghost start = r@;
    let ghost none = Seq::<char>::empty();
    if index < config.media_sizes.len() && config.media_sizes[index] != 0 {
        r.append(" size=\"");
        number::push_decimal(r, config.media_sizes[index] as u128);
        r.append("\"");
    }
    let ghost size = size_attr(config@.sizes, index as int);
    assert(r@ =~= start + size);
    let ghost mid = r@;
    if index < config.media_durations.len() {
        assert(config@.durations[index as int] == config.media_durations@[index as int]@);
        if !config.media_durations[index].as_str().is_empty() {
            r.append(" duration=\"");
            r.append(config.media_durations[index].as_str());
            r.append("\"");
        }
    }
    assert(r@ =~= mid + duration_attr(config@.durations, index as int));
    let ghost late = r@;
    if index < config.media_resolutions.len() {
        assert(config@.resolutions[index as int] == config.media_resolutions@[index as int]@);
        if !config.media_resolutions[index].as_str().is_empty() {
            r.append(" resolution=\"");
            r.append(config.media_resolutions[index].as_str());
            r.append("\"");
        }
    }
    assert(r@ =~= late + resolution_attr(config@.resolutions, index as int));
}

/// Picks the DLNA profile that file `index` is described with.
fn choose_pn<'a>(config: &'a DlnaConfig, index: usize, ext: &str) -> (r: Option<&'a str>)
    ensures
        match r {
            Some(pn) => item_pn(config@.pns, index as int, ext@) == Some(pn@),
            None => item_pn(config@.pns, index as int, ext@) is None,
        },
{
    if index >= config.media_pns.len() {
        return profile::dlna_org_pn(ext);
    }
    assert(config@.pns[index as int] == config.media_pns@[index as int]@);
    let pn: &str = config.media_pns[index].as_str();
    if pn.is_empty() {
        None
    } else {
        Some(pn)
    }
}

/// Describes file `index` at `file`, listed in `parent_id` under `object_id`.
pub fn item_xml(
    index: usize,
    file: &MediaPath,
    object_id: &str,
    parent_id: &str,
    config: &DlnaConfig,
    public_base: &str,
) -> (r: Option<String>)
    ensures
        match r {
            Some(s) => item_of(config@, index as nat, file@, object_id@, parent_id@, public_base@)
                == Some(s@),
            None => item_of(config@, index as nat, file@, object_id@, parent_id@, public_base@)
                is None,
        },
{
    let (dir, tail) = match url::media_url_path(file, &config.media_dirs) {
        Some(found) => found,
        None => {
            return None;
        },
    };
    let name: &Vec<u8> = match file.file_name() {
        Some(name) => name,
        None => {
            return None;
        },
    };
    let link = write_file_url(public_base, dir, tail.as_str());
    let title = encoding::from_utf8_lossy(name.as_slice());
    let ext = match media::extension_text(file) {
        Some(e) => e,
        None => String::from_str(""),
    };
    let mime: &str = match media::mime_for_ext(ext.as_str()) {
        Some(m) => m,
        None => "application/octet-stream",
    };
    let pn: Option<&str> = choose_pn(config, index, ext.as_str());
    let protocol = profile::protocol_info_pn(mime, pn, profile::DLNA_CONTENT_FEATURES);

    let mut r = String::from_str("<item id=\"");
    r.append(object_id);
    r.append("\" parentID=\"");
    r.append(parent_id);
    r.append("\" restricted=\"1\"");
    let ghost before_ref = r@;
    if !text::has_prefix(object_id, "m:") {
        r.append(" refID=\"m:");
        number::push_decimal(&mut r, index as u128);
        r.append("\"");
    }
    assert(r@ =~= before_ref + ref_attr(object_id@, index as nat));
    r.append(">\n    <dc:title>");
    r.append(xml::xml_escape(title.as_str()).as_str());
    r.append("</dc:title>\n    <upnp:class>");
    r.append(upnp_class_for_mime(mime));
    r.append("</upnp:class>\n    <dc:date>");
    let ghost before_date = r@;
    if index < config.media_dates.len() && !config.media_dates[index].as_str().is_empty() {
        assert(config@.dates[index as int] == config.media_dates@[index as int]@);
        r.append(config.media_dates[index].as_str());
    } else {
        r.append("2000-01-01");
    }
    assert(r@ =~= before_date + item_date(config@.dates, index as int));
    r.append("</dc:date>");
    let ghost before_art = r@;
    if index < config.media_has_art.len() && config.media_has_art[index] {
        r.append("\n    <upnp:albumArtURI>http://");
        r.append(public_base);
        r.append("/art/");
        number::push_decimal(&mut r, index as u128);
        r.append("</upnp:albumArtURI>");
    }
    assert(r@ =~= before_art + art_text(config@.has_art, index as int, public_base@));
    r.append("\n    <res protocolInfo=\"");
    r.append(protocol.as_str());
    r.append("\"");
    push_attributes(&mut r, index, config);
    r.append(">");
    r.append(xml::xml_escape(link.as_str()).as_str());
    r.append("</res>");
    let bits: u8 = if index < config.media_subs.len() {
        config.media_subs[index]
    } else {
        0
    };
    let subtitles = sidecar_subtitle_res(file, public_base, &config.media_dirs, bits);
    r.append(subtitles.as_str());
    r.append("\n  </item>");
    Some(r)
}

/// Every item carries a date.
#[verifier::spinoff_prover]
#[verifier::rlimit(60)]
pub proof fn law_every_item_has_a_date(
    lib: Library,
    index: nat,
    file: Seq<Seq<u8>>,
    object_id: Seq<char>,
    parent_id: Seq<char>,
    base: Seq<char>,
    item: Seq<char>,
)
    requires
        item_of(lib, index, file, object_id, parent_id, base) == Some(item),
    ensures
        item_date(lib.dates, index as int).len() > 0,
        exists|at: int|
            text::occurs_at(
                item,
                "<dc:date>"@ + item_date(lib.dates, index as int) + "</dc:date>"@,
                at,
            ),
{
    reveal_strlit("2000-01-01");
    reveal_strlit("<dc:date>");
    reveal_strlit("</upnp:class>\n    <dc:date>");
    let i = index as int;
    let name = path::file_name_of(file)->0;
    let (d, tail) = url::media_url_of(file, lib.dirs)->0;
    let date = item_date(lib.dates, i);
    let before = "<item id=\""@ + object_id + "\" parentID=\""@ + parent_id
        + "\" restricted=\"1\""@ + ref_attr(object_id, index) + ">\n    <dc:title>"@
        + xml::escaped(encoding::shown(name)) + "</dc:title>\n    <upnp:class>"@ + class_of(
        item_mime(file),
    );
    let upto = before + "</upnp:class>\n    <dc:date>"@ + date + "</dc:date>"@;
    let art = art_text(lib.has_art, i, base);
    let protocol = profile::protocol_with(
        item_mime(file),
        item_pn(lib.pns, i, media::ext_or_empty(file)),
        profile::DLNA_CONTENT_FEATURES@,
    );
    let after = art + "\n    <res protocolInfo=\""@ + protocol + "\""@ + size_attr(lib.sizes, i)
        + duration_attr(lib.durations, i) + resolution_attr(lib.resolutions, i) + ">"@
        + xml::escaped(
        file_url(base, d as nat, tail),
    ) + "</res>"@ + subtitles_text(file, lib.dirs, base, subs_at(lib.subs, i)) + "\n  </item>"@;
    assert(item =~= upto + after);
    let at = before.len() as int + 18;
    let stamp = "<dc:date>"@ + date + "</dc:date>"@;
    let tag = "</upnp:class>\n    <dc:date>"@;
    assert(tag.subrange(18, 27) =~= "<dc:date>"@);
    assert(upto.subrange(at, upto.len() as int) =~= stamp);
    assert(item.subrange(at, at + stamp.len()) =~= stamp);
    assert(text::occurs_at(item, stamp, at));
}

/// A file whose video is HEVC, VP9 or AV1 is described without a DLNA profile once it
/// has been looked at, whatever its extension.
pub proof fn law_other_codecs_are_not_passed_off(
    lib: Library,
    index: int,
    file: Seq<Seq<u8>>,
    info: MediaInfo,
    duration: Seq<char>,
    codec: VideoCodec,
)
    requires
        0 <= index < lib.pns.len(),
        info.codec() == Some(codec),
        codec == VideoCodec::Hevc || codec == VideoCodec::Vp9 || codec == VideoCodec::Av1,
    ensures
        ({
            let ext = media::ext_or_empty(file);
            let pn = probe::or_empty(profile::pn_for_codec(ext, info.codec()));
            let resolution = probe::or_empty(info.resolution());
            let after = library::probed(lib, index, duration, resolution, pn);
            &&& item_pn(after.pns, index, ext) is None
            &&& forall|k: int|
                !text::occurs_at(
                    profile::protocol_with(
                        item_mime(file),
                        item_pn(after.pns, index, ext),
                        profile::DLNA_CONTENT_FEATURES@,
                    ),
                    "DLNA.ORG_PN="@,
                    k,
                )
        }),
{
    let mime = item_mime(file);
    assert forall|j: int| 0 <= j < mime.len() implies #[trigger] mime[j] != 'P' by {
        reveal_strlit("application/octet-stream");
        if media::mime_of(media::ext_or_empty(file)) is Some {
            profile::lemma_mimes_are_small(media::ext_or_empty(file), j);
        }
    }
    let protocol = profile::protocol_with(mime, None, profile::DLNA_CONTENT_FEATURES@);
    assert forall|k: int| !text::occurs_at(protocol, "DLNA.ORG_PN="@, k) by {
        profile::lemma_no_profile_is_named(mime, k);
    }
}

/// A file whose picture has a known size is described with it once it has been
/// looked at.
pub proof fn law_known_sizes_are_described(
    lib: Library,
    index: int,
    info: MediaInfo,
    duration: Seq<char>,
    pn: Seq<char>,
    track: VideoTrack,
)
    requires
        0 <= index < lib.resolutions.len(),
        info.video == Some(track),
        track.width > 0,
        track.height > 0,
    ensures
        ({
            let resolution = probe::or_empty(info.resolution());
            let after = library::probed(lib, index, duration, resolution, pn);
            resolution_attr(after.resolutions, index) == " resolution=\""@ + (number::decimal(
                track.width as nat,
            ) + "x"@ + number::decimal(track.height as nat)) + "\""@
        }),
{
    reveal_strlit("x");
}

/// The entries on page `k`, where each page holds `n` entries.
pub open spec fn page_entries(entries: Seq<Seq<char>>, n: nat, k: nat) -> Seq<Seq<char>> {
    let s = page_start(k * n, entries.len());
    let e = page_end(k * n, n, entries.len());
    entries.subrange(s as int, e as int)
}

/// The entries on the first `k` pages, one page after the other.
pub open spec fn pages_joined(entries: Seq<Seq<char>>, n: nat, k: nat) -> Seq<Seq<char>>
    decreases k,
{
    if k == 0 {
        Seq::empty()
    } else {
        pages_joined(entries, n, (k - 1) as nat) + page_entries(entries, n, (k - 1) as nat)
    }
}

/// How many entries page `k` holds: a whole page, or what is left.
pub open spec fn page_length(total: nat, n: nat, k: nat) -> nat {
    let left = total - page_start(k * n, total);
    if n <= left {
        n
    } else {
        left as nat
    }
}

/// Pages that are asked for one after the other give every entry once, in order:
/// the first `k` of them the first `k * n` entries, and all of them, where there
/// are so many pages, all entries.
pub proof fn law_pages_give_every_entry_once(entries: Seq<Seq<char>>, n: nat, k: nat)
    requires
        n > 0,
    ensures
        page_entries(entries, n, k).len() == page_length(entries.len(), n, k),
        pages_joined(entries, n, k) == entries.take(page_start(k * n, entries.len()) as int),
        k * n >= entries.len() ==> pages_joined(entries, n, k) == entries,
    decreases k,
{
    assert(k * n >= 0) by (nonlinear_arith);
    let upto = entries.take(page_start(k * n, entries.len()) as int);
    if k > 0 {
        let j = (k - 1) as nat;
        law_pages_give_every_entry_once(entries, n, j);
        assert(k * n == j * n + n) by (nonlinear_arith)
            requires
                k == j + 1,
        ;
        assert(page_end(j * n, n, entries.len()) == page_start(k * n, entries.len()));
        assert(pages_joined(entries, n, k) =~= upto);
    } else {
        assert(k * n == 0) by (nonlinear_arith)
            requires
                k == 0,
        ;
        assert(pages_joined(entries, n, k) =~= upto);
    }
    if k * n >= entries.len() {
        assert(upto =~= entries);
    }
}

/// What stands before the number in the description of a file.
pub open spec fn item_head(parent: Seq<char>) -> Seq<char> {
    "<item id=\""@ + if parent == VIDEO_ID@ {
        "v:"@
    } else if parent == AUDIO_ID@ {
        "a:"@
    } else {
        "m:"@
    }
}

/// What stands before the number in the description of a folder.
pub open spec fn folder_head() -> Seq<char> {
    "<container id=\"f:"@
}

/// A file's description begins with its number.
pub proof fn lemma_item_is_numbered(
    lib: Library,
    index: nat,
    file: Seq<Seq<u8>>,
    parent: Seq<char>,
    base: Seq<char>,
)
    requires
        item_of(lib, index, file, item_id_text(parent, index), parent, base) is Some,
    ensures
        number::is_numbered(
            item_of(lib, index, file, item_id_text(parent, index), parent, base)->0,
            item_head(parent),
            index,
        ),
{
    let name = path::file_name_of(file)->0;
    let (d, tail) = url::media_url_of(file, lib.dirs)->0;
    let link = file_url(base, d as nat, tail);
    let id = item_id_text(parent, index);
    let item = item_text(lib, index, file, name, link, id, parent, base);
    let head = "<item id=\""@;
    let quote = "\" parentID=\""@;
    reveal_strlit("\" parentID=\"");
    assert(quote[0] == '"');
    let first = head + id + quote;
    assert(seqs::begins(first, first)) by {
        assert(first.subrange(0, first.len() as int) =~= first);
    }
    assert(seqs::begins(item, first)) by {
        broadcast use seqs::lemma_longer_begins;

    }
    let k = (head.len() + id.len()) as int;
    assert(head + id =~= item_head(parent) + number::decimal(index));
    assert(item.subrange(0, first.len() as int)[k] == first[k]);
    assert(item.subrange(0, k) =~= head + id) by {
        assert forall|q: int| 0 <= q < k implies item[q] == (head + id)[q] by {
            assert(item.subrange(0, first.len() as int)[q] == first[q]);
        }
    }
}

/// A folder's description begins with its number.
pub proof fn lemma_folder_is_numbered(idx: nat, parent: Seq<char>, node: Folder)
    ensures
        number::is_numbered(folder_text(idx, parent, node), folder_head(), idx),
{
    reveal_strlit("\" parentID=\"");
    let t = folder_text(idx, parent, node);
    let k = folder_head().len() + number::decimal(idx).len();
    assert(t[k as int] == "\" parentID=\""@[0]);
    assert(t.subrange(0, k as int) =~= folder_head() + number::decimal(idx));
}

/// What stands in front of an item's resources.
spec fn item_front(
    lib: Library,
    index: nat,
    file: Seq<Seq<u8>>,
    name: Seq<u8>,
    object_id: Seq<char>,
    parent_id: Seq<char>,
    base: Seq<char>,
) -> Seq<char> {
    "<item id=\""@ + object_id + "\" parentID=\""@ + parent_id + "\" restricted=\"1\""@ + ref_attr(
        object_id,
        index,
    ) + ">\n    <dc:title>"@ + xml::escaped(encoding::shown(name))
        + "</dc:title>\n    <upnp:class>"@ + class_of(item_mime(file))
        + "</upnp:class>\n    <dc:date>"@ + item_date(lib.dates, index as int) + "</dc:date>"@
        + art_text(lib.has_art, index as int, base)
}

/// The protocol that a file's resource is offered with.
pub open spec fn item_protocol(lib: Library, index: int, file: Seq<Seq<u8>>) -> Seq<char> {
    profile::protocol_with(
        item_mime(file),
        item_pn(lib.pns, index, media::ext_or_empty(file)),
        profile::DLNA_CONTENT_FEATURES@,
    )
}

/// The resource of a file that is served under `link`.
pub open spec fn resource_text(
    lib: Library,
    index: int,
    file: Seq<Seq<u8>>,
    link: Seq<char>,
) -> Seq<char> {
    "<res protocolInfo=\""@ + item_protocol(lib, index, file) + "\""@ + size_attr(lib.sizes, index)
        + duration_attr(lib.durations, index) + resolution_attr(lib.resolutions, index) + ">"@
        + xml::escaped(link) + "</res>"@
}

/// An item is its front, its resource, its subtitles and its end.
proof fn lemma_item_parts(
    lib: Library,
    index: nat,
    file: Seq<Seq<u8>>,
    name: Seq<u8>,
    link: Seq<char>,
    object_id: Seq<char>,
    parent_id: Seq<char>,
    base: Seq<char>,
)
    ensures
        item_text(lib, index, file, name, link, object_id, parent_id, base) == item_front(
            lib,
            index,
            file,
            name,
            object_id,
            parent_id,
            base,
        ) + "\n    "@ + resource_text(lib, index as int, file, link) + subtitles_text(
            file,
            lib.dirs,
            base,
            subs_at(lib.subs, index as int),
        ) + "\n  </item>"@,
{
    let i = index as int;
    let front = item_front(lib, index, file, name, object_id, parent_id, base);
    reveal_strlit("\n    <res protocolInfo=\"");
    reveal_strlit("\n    ");
    reveal_strlit("<res protocolInfo=\"");
    assert("\n    "@ + "<res protocolInfo=\""@ =~= "\n    <res protocolInfo=\""@);
    lemma_resource_parts(
        front,
        item_protocol(lib, i, file),
        size_attr(lib.sizes, i),
        duration_attr(lib.durations, i),
        resolution_attr(lib.resolutions, i),
        xml::escaped(link),
    );
}

/// A resource behind the front of an item.
proof fn lemma_resource_parts(
    front: Seq<char>,
    protocol: Seq<char>,
    size: Seq<char>,
    duration: Seq<char>,
    resolution: Seq<char>,
    link: Seq<char>,
)
    ensures
        front + "\n    <res protocolInfo=\""@ + protocol + "\""@ + size + duration + resolution
            + ">"@ + link + "</res>"@ == front + "\n    "@ + ("<res protocolInfo=\""@ + protocol
            + "\""@ + size + duration + resolution + ">"@ + link + "</res>"@),
{
    reveal_strlit("\n    <res protocolInfo=\"");
    reveal_strlit("\n    ");
    reveal_strlit("<res protocolInfo=\"");
    assert("\n    "@ + "<res protocolInfo=\""@ =~= "\n    <res protocolInfo=\""@);
    let a = "<res protocolInfo=\""@;
    let s1 = front + "\n    <res protocolInfo=\""@;
    assert(s1 =~= front + "\n    "@ + a);
    let f = front + "\n    "@;
    assert(f + a + protocol =~= f + (a + protocol));
    assert(f + (a + protocol) + "\""@ =~= f + (a + protocol + "\""@));
    let b = a + protocol + "\""@;
    assert(f + b + size =~= f + (b + size));
    assert(f + (b + size) + duration =~= f + (b + size + duration));
    let c = b + size + duration;
    assert(f + c + resolution =~= f + (c + resolution));
    assert(f + (c + resolution) + ">"@ =~= f + (c + resolution + ">"@));
    let d = c + resolution + ">"@;
    assert(f + d + link =~= f + (d + link));
    assert(f + (d + link) + "</res>"@ =~= f + (d + link + "</res>"@));
}

/// An item offers its file on the host `base` under the path `uri`.
pub open spec fn offers(
    item: Seq<char>,
    lib: Library,
    index: nat,
    file: Seq<Seq<u8>>,
    base: Seq<char>,
    uri: Seq<char>,
) -> bool {
    text::contains(item, resource_text(lib, index as int, file, "http://"@ + base + uri))
}

/// The URL in an item's resource leads back to the item's file: what stands
/// behind the host in it, read as a request, gives the number of a source folder
/// and the path from that folder to the file. Every file in a source folder has
/// an item.
pub proof fn law_items_lead_to_their_files(
    lib: Library,
    index: nat,
    file: Seq<Seq<u8>>,
    object_id: Seq<char>,
    parent_id: Seq<char>,
    base: Seq<char>,
    i: int,
)
    requires
        path::well_formed(file),
        path::file_name_of(file) is Some,
        lib.dirs.len() <= usize::MAX,
        0 <= i < lib.dirs.len(),
        path::under(file, lib.dirs[i]),
        file != lib.dirs[i],
        forall|j: int| 0 <= j < i ==> !path::under(file, #[trigger] lib.dirs[j]),
    ensures
        item_of(lib, index, file, object_id, parent_id, base) is Some,
        exists|uri: Seq<char>| #[trigger]
            offers(
                item_of(lib, index, file, object_id, parent_id, base)->0,
                lib,
                index,
                file,
                base,
                uri,
            ) && url::leads_to(uri, lib.dirs, i, file),
{
    url::law_files_have_a_url(file, lib.dirs, i);
    let (d, tail) = url::media_url_of(file, lib.dirs)->0;
    let name = path::file_name_of(file)->0;
    let uri = "/m/"@ + number::decimal(i as nat) + "/"@ + tail;
    let link = file_url(base, d as nat, tail);
    assert(link =~= "http://"@ + base + uri);
    let item = item_of(lib, index, file, object_id, parent_id, base)->0;
    assert(item == item_text(lib, index, file, name, link, object_id, parent_id, base));
    lemma_item_parts(lib, index, file, name, link, object_id, parent_id, base);
    let front = item_front(lib, index, file, name, object_id, parent_id, base) + "\n    "@;
    let res = resource_text(lib, index as int, file, link);
    let subs = subtitles_text(file, lib.dirs, base, subs_at(lib.subs, index as int));
    text::lemma_between(front, res, subs);
    text::lemma_longer_contains(front + res + subs, "\n  </item>"@, res);
    assert(url::leads_to(uri, lib.dirs, i, file));
    assert(offers(item, lib, index, file, base, uri));
}

/// A file that lies in no source folder has no item.
pub proof fn law_other_files_have_no_item(
    lib: Library,
    index: nat,
    file: Seq<Seq<u8>>,
    object_id: Seq<char>,
    parent_id: Seq<char>,
    base: Seq<char>,
)
    requires
        forall|j: int| 0 <= j < lib.dirs.len() ==> !path::under(file, #[trigger] lib.dirs[j]),
    ensures
        item_of(lib, index, file, object_id, parent_id, base) is None,
{
    url::law_other_files_have_no_url(file, lib.dirs);
}

/// The resource of subtitles of one kind, served under `link`.
pub open spec fn subtitle_resource(mime: Seq<char>, link: Seq<char>) -> Seq<char> {
    "<res protocolInfo=\"http-get:*:"@ + mime + ":*\">"@ + xml::escaped(link) + "</res>"@
}

/// One kind of subtitles next to a file is offered under a URL that leads to it.
proof fn lemma_subtitle_leads(
    file: Seq<Seq<u8>>,
    dirs: Seq<Seq<Seq<u8>>>,
    base: Seq<char>,
    ext: Seq<char>,
    mime: Seq<char>,
    sub: Seq<Seq<u8>>,
    i: int,
)
    requires
        sub == path::with_extension_of(file, utf8::encode_utf8(ext)),
        path::well_formed(sub),
        dirs.len() <= usize::MAX,
        0 <= i < dirs.len(),
        path::under(sub, dirs[i]),
        sub != dirs[i],
        forall|j: int| 0 <= j < i ==> !path::under(sub, #[trigger] dirs[j]),
    ensures
        exists|uri: Seq<char>|
            {
                &&& #[trigger] text::contains(
                    subtitle_text(file, dirs, base, true, ext, mime),
                    subtitle_resource(mime, "http://"@ + base + uri),
                )
                &&& url::leads_to(uri, dirs, i, sub)
            },
{
    url::law_files_have_a_url(sub, dirs, i);
    let (d, tail) = url::media_url_of(sub, dirs)->0;
    let uri = "/m/"@ + number::decimal(i as nat) + "/"@ + tail;
    let link = file_url(base, d as nat, tail);
    assert(link =~= "http://"@ + base + uri);
    reveal_strlit("\n    <res protocolInfo=\"http-get:*:");
    reveal_strlit("\n    ");
    reveal_strlit("<res protocolInfo=\"http-get:*:");
    assert("\n    "@ + "<res protocolInfo=\"http-get:*:"@
        =~= "\n    <res protocolInfo=\"http-get:*:"@);
    let it = subtitle_resource(mime, link);
    let whole = subtitle_text(file, dirs, base, true, ext, mime);
    let none = Seq::<char>::empty();
    assert(whole =~= "\n    "@ + it + none);
    text::lemma_between("\n    "@, it, none);
    assert(text::contains(whole, subtitle_resource(mime, "http://"@ + base + uri)));
}

/// The kinds of subtitles, by the bit that says that there are some, their
/// extension and their MIME type.
pub open spec fn is_subtitle_kind(bit: u8, ext: Seq<char>, mime: Seq<char>) -> bool {
    ||| bit == 1 && ext == "srt"@ && mime == "text/srt"@
    ||| bit == 2 && ext == "vtt"@ && mime == "text/vtt"@
    ||| bit == 4 && ext == "ass"@ && mime == "text/x-ssa"@
}

/// The item of a file with subtitles next to it offers them, as what they are
/// and under a URL that leads to them.
pub proof fn law_items_lead_to_their_subtitles(
    lib: Library,
    index: nat,
    file: Seq<Seq<u8>>,
    object_id: Seq<char>,
    parent_id: Seq<char>,
    base: Seq<char>,
    item: Seq<char>,
    bit: u8,
    ext: Seq<char>,
    mime: Seq<char>,
    sub: Seq<Seq<u8>>,
    i: int,
)
    requires
        item_of(lib, index, file, object_id, parent_id, base) == Some(item),
        is_subtitle_kind(bit, ext, mime),
        index < lib.subs.len(),
        lib.subs[index as int] & bit != 0,
        sub == path::with_extension_of(file, utf8::encode_utf8(ext)),
        path::well_formed(sub),
        lib.dirs.len() <= usize::MAX,
        0 <= i < lib.dirs.len(),
        path::under(sub, lib.dirs[i]),
        sub != lib.dirs[i],
        forall|j: int| 0 <= j < i ==> !path::under(sub, #[trigger] lib.dirs[j]),
    ensures
        exists|uri: Seq<char>|
            {
                &&& #[trigger] text::contains(
                    item,
                    subtitle_resource(mime, "http://"@ + base + uri),
                )
                &&& url::leads_to(uri, lib.dirs, i, sub)
            },
{
    let dirs = lib.dirs;
    let bits = subs_at(lib.subs, index as int);
    lemma_subtitle_leads(file, dirs, base, ext, mime, sub, i);
    let part = subtitle_text(file, dirs, base, true, ext, mime);
    let uri = choose|uri: Seq<char>|
        {
            &&& #[trigger] text::contains(part, subtitle_resource(mime, "http://"@ + base + uri))
            &&& url::leads_to(uri, dirs, i, sub)
        };
    let it = subtitle_resource(mime, "http://"@ + base + uri);
    let srt = subtitle_text(
        file,
        dirs,
        base,
        bits & library::SUBTITLE_SRT != 0,
        "srt"@,
        "text/srt"@,
    );
    let vtt = subtitle_text(
        file,
        dirs,
        base,
        bits & library::SUBTITLE_VTT != 0,
        "vtt"@,
        "text/vtt"@,
    );
    let ass = subtitle_text(
        file,
        dirs,
        base,
        bits & library::SUBTITLE_ASS != 0,
        "ass"@,
        "text/x-ssa"@,
    );
    assert(part == srt || part == vtt || part == ass);
    text::lemma_longer_contains(srt, vtt, it);
    text::lemma_longer_contains(srt + vtt, ass, it);
    let subs = subtitles_text(file, dirs, base, bits);
    assert(text::contains(subs, it));
    let (d, tail) = url::media_url_of(file, dirs)->0;
    let name = path::file_name_of(file)->0;
    let link = file_url(base, d as nat, tail);
    lemma_item_parts(lib, index, file, name, link, object_id, parent_id, base);
    let front = item_front(lib, index, file, name, object_id, parent_id, base) + "\n    "@
        + resource_text(lib, index as int, file, link);
    text::lemma_longer_contains(front, subs, it);
    text::lemma_longer_contains(front + subs, "\n  </item>"@, it);
    assert(text::contains(item, it));
}

/// A file without subtitles next to it is offered without any.
pub proof fn law_no_subtitles_are_made_up(
    file: Seq<Seq<u8>>,
    dirs: Seq<Seq<Seq<u8>>>,
    base: Seq<char>,
    subs: Seq<u8>,
    index: int,
)
    requires
        0 <= index,
        index < subs.len() ==> subs[index] == 0,
    ensures
        subtitles_text(file, dirs, base, subs_at(subs, index)).len() == 0,
{
    assert(0u8 & 1 == 0 && 0u8 & 2 == 0 && 0u8 & 4 == 0) by (bit_vector);
}

/// The front of an item tells the title, the class, the date and the cover.
proof fn lemma_front_tells(
    lib: Library,
    index: nat,
    file: Seq<Seq<u8>>,
    name: Seq<u8>,
    object_id: Seq<char>,
    parent_id: Seq<char>,
    base: Seq<char>,
)
    ensures
        ({
            let front = item_front(lib, index, file, name, object_id, parent_id, base);
            &&& text::contains(
                front,
                "<dc:title>"@ + xml::escaped(encoding::shown(name)) + "</dc:title>"@,
            )
            &&& text::contains(
                front,
                "<upnp:class>"@ + class_of(item_mime(file)) + "</upnp:class>"@,
            )
            &&& seqs::begins(
                front,
                "<item id=\""@ + object_id + "\" parentID=\""@ + parent_id
                    + "\" restricted=\"1\""@ + ref_attr(object_id, index) + ">"@,
            )
            &&& text::contains(front, art_text(lib.has_art, index as int, base))
        }),
{
    reveal_strlit(">\n    <dc:title>");
    reveal_strlit(">");
    reveal_strlit(">\n    ");
    reveal_strlit("\n    <dc:title>");
    reveal_strlit("<dc:title>");
    reveal_strlit("</dc:title>");
    reveal_strlit("\n    <upnp:class>");
    reveal_strlit("</dc:title>\n    <upnp:class>");
    reveal_strlit("</dc:title>\n    ");
    reveal_strlit("<upnp:class>");
    reveal_strlit("</upnp:class>");
    reveal_strlit("\n    <dc:date>");
    reveal_strlit("</upnp:class>\n    <dc:date>");
    assert(">\n    <dc:title>"@ =~= ">\n    "@ + "<dc:title>"@);
    assert(">\n    <dc:title>"@ =~= ">"@ + "\n    <dc:title>"@);
    assert("</dc:title>\n    <upnp:class>"@ =~= "</dc:title>"@ + "\n    <upnp:class>"@);
    assert("</dc:title>\n    <upnp:class>"@ =~= "</dc:title>\n    "@ + "<upnp:class>"@);
    assert("</upnp:class>\n    <dc:date>"@ =~= "</upnp:class>"@ + "\n    <dc:date>"@);
    let p = "<item id=\""@ + object_id + "\" parentID=\""@ + parent_id + "\" restricted=\"1\""@
        + ref_attr(object_id, index);
    let title = xml::escaped(encoding::shown(name));
    let class = class_of(item_mime(file));
    let date = item_date(lib.dates, index as int);
    let art = art_text(lib.has_art, index as int, base);
    text::lemma_tagged(
        p,
        ">\n    "@,
        "<dc:title>"@,
        title,
        "</dc:title>"@,
        "\n    <upnp:class>"@,
        ">\n    <dc:title>"@,
        "</dc:title>\n    <upnp:class>"@,
    );
    let t = "<dc:title>"@ + title + "</dc:title>"@;
    let q = p + ">\n    <dc:title>"@ + title;
    let q1 = q + "</dc:title>\n    <upnp:class>"@;
    text::lemma_tagged(
        q,
        "</dc:title>\n    "@,
        "<upnp:class>"@,
        class,
        "</upnp:class>"@,
        "\n    <dc:date>"@,
        "</dc:title>\n    <upnp:class>"@,
        "</upnp:class>\n    <dc:date>"@,
    );
    let c = "<upnp:class>"@ + class + "</upnp:class>"@;
    let q2 = q1 + class + "</upnp:class>\n    <dc:date>"@;
    text::lemma_longer_contains(q1, class, t);
    text::lemma_longer_contains(q1 + class, "</upnp:class>\n    <dc:date>"@, t);
    text::lemma_longer_contains(q2, date, t);
    text::lemma_longer_contains(q2 + date, "</dc:date>"@, t);
    text::lemma_longer_contains(q2 + date + "</dc:date>"@, art, t);
    text::lemma_longer_contains(q2, date, c);
    text::lemma_longer_contains(q2 + date, "</dc:date>"@, c);
    text::lemma_longer_contains(q2 + date + "</dc:date>"@, art, c);
    assert(art.subrange(0, art.len() as int) =~= art);
    assert(text::occurs_at(art, art, 0));
    text::lemma_longer_contains(q2 + date + "</dc:date>"@, art, art);
    let head = p + ">"@;
    assert(p + ">\n    <dc:title>"@ =~= head + "\n    <dc:title>"@);
    assert(head.subrange(0, head.len() as int) =~= head);
    seqs::lemma_longer_begins(head, "\n    <dc:title>"@, head);
    seqs::lemma_longer_begins(p + ">\n    <dc:title>"@, title, head);
    seqs::lemma_longer_begins(q, "</dc:title>\n    <upnp:class>"@, head);
    seqs::lemma_longer_begins(q1, class, head);
    seqs::lemma_longer_begins(q1 + class, "</upnp:class>\n    <dc:date>"@, head);
    seqs::lemma_longer_begins(q2, date, head);
    seqs::lemma_longer_begins(q2 + date, "</dc:date>"@, head);
    seqs::lemma_longer_begins(q2 + date + "</dc:date>"@, art, head);
}

/// An item tells its own id and that of the container that lists it, the file's
/// name as its title, what class of object the file is, and where the cover is,
/// if there is one. An item of a view names the file's first item as well.
#[verifier::spinoff_prover]
#[verifier::rlimit(60)]
pub proof fn law_items_tell_what_they_are(
    lib: Library,
    index: nat,
    file: Seq<Seq<u8>>,
    name: Seq<u8>,
    object_id: Seq<char>,
    parent_id: Seq<char>,
    base: Seq<char>,
    item: Seq<char>,
)
    requires
        item_of(lib, index, file, object_id, parent_id, base) == Some(item),
        path::file_name_of(file) == Some(name),
    ensures
        seqs::begins(
            item,
            "<item id=\""@ + object_id + "\" parentID=\""@ + parent_id + "\" restricted=\"1\""@ + (
            if text::starts_with(object_id, "m:"@) {
                Seq::empty()
            } else {
                " refID=\"m:"@ + number::decimal(index) + "\""@
            }) + ">"@,
        ),
        text::contains(
            item,
            "<dc:title>"@ + xml::escaped(encoding::shown(name)) + "</dc:title>"@,
        ),
        text::contains(
            item,
            "<upnp:class>"@ + (if text::starts_with(item_mime(file), "audio/"@) {
                "object.item.audioItem.musicTrack"@
            } else {
                "object.item.videoItem"@
            }) + "</upnp:class>"@,
        ),
        index < lib.has_art.len() && lib.has_art[index as int] ==> text::contains(
            item,
            "<upnp:albumArtURI>http://"@ + base + "/art/"@ + number::decimal(index)
                + "</upnp:albumArtURI>"@,
        ),
{
    let (d, tail) = url::media_url_of(file, lib.dirs)->0;
    let link = file_url(base, d as nat, tail);
    lemma_front_tells(lib, index, file, name, object_id, parent_id, base);
    lemma_cover_is_told(lib, index, file, name, object_id, parent_id, base);
    lemma_item_keeps(lib, index, file, name, link, object_id, parent_id, base);
}

/// The front of an item tells where the cover is.
proof fn lemma_cover_is_told(
    lib: Library,
    index: nat,
    file: Seq<Seq<u8>>,
    name: Seq<u8>,
    object_id: Seq<char>,
    parent_id: Seq<char>,
    base: Seq<char>,
)
    ensures
        index < lib.has_art.len() && lib.has_art[index as int] ==> text::contains(
            item_front(lib, index, file, name, object_id, parent_id, base),
            "<upnp:albumArtURI>http://"@ + base + "/art/"@ + number::decimal(index)
                + "</upnp:albumArtURI>"@,
        ),
{
    lemma_front_tells(lib, index, file, name, object_id, parent_id, base);
    if index < lib.has_art.len() && lib.has_art[index as int] {
        lemma_art(lib.has_art, index, base);
        lemma_contains_through(
            item_front(lib, index, file, name, object_id, parent_id, base),
            art_text(lib.has_art, index as int, base),
            "<upnp:albumArtURI>http://"@ + base + "/art/"@ + number::decimal(index)
                + "</upnp:albumArtURI>"@,
        );
    }
}

/// The link to a cover.
proof fn lemma_art(has_art: Seq<bool>, index: nat, base: Seq<char>)
    requires
        index < has_art.len(),
        has_art[index as int],
    ensures
        text::contains(
            art_text(has_art, index as int, base),
            "<upnp:albumArtURI>http://"@ + base + "/art/"@ + number::decimal(index)
                + "</upnp:albumArtURI>"@,
        ),
{
    let a = "<upnp:albumArtURI>http://"@ + base + "/art/"@ + number::decimal(index)
        + "</upnp:albumArtURI>"@;
    reveal_strlit("\n    <upnp:albumArtURI>http://");
    reveal_strlit("\n    ");
    reveal_strlit("<upnp:albumArtURI>http://");
    assert("\n    <upnp:albumArtURI>http://"@ =~= "\n    "@ + "<upnp:albumArtURI>http://"@);
    assert(art_text(has_art, index as int, base) =~= "\n    "@ + a + Seq::<char>::empty());
    text::lemma_between("\n    "@, a, Seq::empty());
}

/// What the front of an item tells, the item tells.
proof fn lemma_item_keeps(
    lib: Library,
    index: nat,
    file: Seq<Seq<u8>>,
    name: Seq<u8>,
    link: Seq<char>,
    object_id: Seq<char>,
    parent_id: Seq<char>,
    base: Seq<char>,
)
    ensures
        forall|it: Seq<char>|
            text::contains(
                item_front(lib, index, file, name, object_id, parent_id, base),
                it,
            ) ==> #[trigger] text::contains(
                item_text(lib, index, file, name, link, object_id, parent_id, base),
                it,
            ),
        forall|head: Seq<char>|
            seqs::begins(
                item_front(lib, index, file, name, object_id, parent_id, base),
                head,
            ) ==> #[trigger] seqs::begins(
                item_text(lib, index, file, name, link, object_id, parent_id, base),
                head,
            ),
{
    let front = item_front(lib, index, file, name, object_id, parent_id, base);
    let res = resource_text(lib, index as int, file, link);
    let subs = subtitles_text(file, lib.dirs, base, subs_at(lib.subs, index as int));
    let item = item_text(lib, index, file, name, link, object_id, parent_id, base);
    lemma_item_parts(lib, index, file, name, link, object_id, parent_id, base);
    assert forall|it: Seq<char>| text::contains(front, it) implies #[trigger] text::contains(
        item,
        it,
    ) by {
        lemma_kept(front, res, subs, Seq::empty(), it);
    }
    assert forall|head: Seq<char>| seqs::begins(front, head) implies #[trigger] seqs::begins(
        item,
        head,
    ) by {
        lemma_kept(front, res, subs, head, Seq::empty());
    }
}

/// What stands in a text that stands in another stands in that one too.
proof fn lemma_contains_through(s: Seq<char>, part: Seq<char>, needle: Seq<char>)
    requires
        text::contains(s, part),
        text::contains(part, needle),
    ensures
        text::contains(s, needle),
{
    let i = choose|i: int| text::occurs_at(s, part, i);
    let j = choose|j: int| text::occurs_at(part, needle, j);
    assert(s.subrange(i + j, i + j + needle.len()) =~= s.subrange(i, i + part.len()).subrange(
        j,
        j + needle.len(),
    ));
    assert(text::occurs_at(s, needle, i + j));
}

/// What the front of an item tells, the item tells.
proof fn lemma_kept(
    front: Seq<char>,
    res: Seq<char>,
    subs: Seq<char>,
    head: Seq<char>,
    it: Seq<char>,
)
    ensures
        seqs::begins(front, head) ==> seqs::begins(front + "\n    "@ + res + subs + "\n  </item>"@, head),
        text::contains(front, it) ==> text::contains(
            front + "\n    "@ + res + subs + "\n  </item>"@,
            it,
        ),
{
    text::lemma_longer_contains(front, "\n    "@, it);
    text::lemma_longer_contains(front + "\n    "@, res, it);
    text::lemma_longer_contains(front + "\n    "@ + res, subs, it);
    text::lemma_longer_contains(front + "\n    "@ + res + subs, "\n  </item>"@, it);
    if seqs::begins(front, head) {
        seqs::lemma_longer_begins(front, "\n    "@, head);
        seqs::lemma_longer_begins(front + "\n    "@, res, head);
        seqs::lemma_longer_begins(front + "\n    "@ + res, subs, head);
        seqs::lemma_longer_begins(front + "\n    "@ + res + subs, "\n  </item>"@, head);
    }
}

/// The resource of a file tells its size, its duration and the size of its
/// picture, each where it is known, and nothing where it is not.
pub proof fn law_resources_tell_what_is_known(
    lib: Library,
    index: int,
    file: Seq<Seq<u8>>,
    link: Seq<char>,
)
    requires
        0 <= index < lib.sizes.len(),
        index < lib.durations.len(),
        index < lib.resolutions.len(),
    ensures
        resource_text(lib, index, file, link) == "<res protocolInfo=\""@ + item_protocol(
            lib,
            index,
            file,
        ) + "\""@ + (if lib.sizes[index] == 0 {
            Seq::empty()
        } else {
            " size=\""@ + number::decimal(lib.sizes[index] as nat) + "\""@
        }) + (if lib.durations[index].len() == 0 {
            Seq::empty()
        } else {
            " duration=\""@ + lib.durations[index] + "\""@
        }) + (if lib.resolutions[index].len() == 0 {
            Seq::empty()
        } else {
            " resolution=\""@ + lib.resolutions[index] + "\""@
        }) + ">"@ + xml::escaped(link) + "</res>"@,
{
}

/// A page starts where it is asked to and holds as many entries as are asked for,
/// as far as there are any; where none are asked for, it holds two hundred.
pub proof fn law_pages_hold_what_is_asked_for(entries: Seq<Seq<char>>, start: nat, count: nat)
    ensures
        page_of(entries, start, count).total == entries.len(),
        count > 0 && start + count <= entries.len() ==> page_of(entries, start, count).returned
            == count && page_of(entries, start, count).didl == didl_text(
            entries.subrange(start as int, (start + count) as int),
        ),
        count > 0 && start <= entries.len() < start + count ==> page_of(
            entries,
            start,
            count,
        ).returned == entries.len() - start && page_of(entries, start, count).didl == didl_text(
            entries.skip(start as int),
        ),
        start > entries.len() ==> page_of(entries, start, count).returned == 0 && page_of(
            entries,
            start,
            count,
        ).didl == didl_text(Seq::empty()),
        page_of(entries, start, 0) == page_of(entries, start, 200),
{
    if start <= entries.len() {
        assert(entries.skip(start as int) =~= entries.subrange(start as int, entries.len() as int));
    } else {
        assert(entries.subrange(entries.len() as int, entries.len() as int) =~= Seq::<
            Seq<char>,
        >::empty());
    }
}

/// A folder tells its own id and that of the container that lists it, how many
/// children it has, and its name.
pub proof fn law_folders_tell_what_they_are(idx: nat, parent: Seq<char>, node: Folder)
    ensures
        seqs::begins(
            folder_text(idx, parent, node),
            "<container id=\"f:"@ + number::decimal(idx) + "\" parentID=\""@ + parent
                + "\" restricted=\"1\" childCount=\""@ + number::decimal(
                node.subs.len() + node.media.len(),
            ) + "\">"@,
        ),
        text::contains(
            folder_text(idx, parent, node),
            "<dc:title>"@ + xml::escaped(node.name) + "</dc:title>"@,
        ),
{
    let close =
        "</dc:title>\n    <upnp:class>object.container.storageFolder</upnp:class>\n  </container>"@;
    reveal_strlit("\">\n    <dc:title>");
    reveal_strlit("\">");
    reveal_strlit("\n    <dc:title>");
    reveal_strlit("\">\n    ");
    reveal_strlit("<dc:title>");
    reveal_strlit("</dc:title>");
    reveal_strlit(
        "</dc:title>\n    <upnp:class>object.container.storageFolder</upnp:class>\n  </container>",
    );
    let back = close.subrange(11, close.len() as int);
    assert(close =~= "</dc:title>"@ + back);
    assert("\">\n    <dc:title>"@ =~= "\">\n    "@ + "<dc:title>"@);
    assert("\">\n    <dc:title>"@ =~= "\">"@ + "\n    <dc:title>"@);
    let p = "<container id=\"f:"@ + number::decimal(idx) + "\" parentID=\""@ + parent
        + "\" restricted=\"1\" childCount=\""@ + number::decimal(node.subs.len() + node.media.len());
    let title = xml::escaped(node.name);
    text::lemma_tagged(
        p,
        "\">\n    "@,
        "<dc:title>"@,
        title,
        "</dc:title>"@,
        back,
        "\">\n    <dc:title>"@,
        close,
    );
    let head = p + "\">"@;
    assert(p + "\">\n    <dc:title>"@ =~= head + "\n    <dc:title>"@);
    assert(head.subrange(0, head.len() as int) =~= head);
    seqs::lemma_longer_begins(head, "\n    <dc:title>"@, head);
    seqs::lemma_longer_begins(p + "\">\n    <dc:title>"@, title, head);
    seqs::lemma_longer_begins(p + "\">\n    <dc:title>"@ + title, close, head);
}

/// A container at the top tells its own id, that it lies in the root, how many
/// children it has, and its title.
pub proof fn law_categories_tell_what_they_are(id: Seq<char>, title: Seq<char>, children: nat)
    ensures
        seqs::begins(
            category_text(id, title, children),
            "<container id=\""@ + id + "\" parentID=\"0\" restricted=\"1\" childCount=\""@
                + number::decimal(children) + "\">"@,
        ),
        text::contains(
            category_text(id, title, children),
            "<dc:title>"@ + title + "</dc:title>"@,
        ),
        seqs::begins(
            root_text(children),
            "<container id=\"0\" parentID=\"-1\" restricted=\"1\" childCount=\""@
                + number::decimal(children) + "\">"@,
        ),
{
    let close = "</dc:title>\n    <upnp:class>object.container</upnp:class>\n  </container>"@;
    reveal_strlit("\">\n    <dc:title>");
    reveal_strlit("\">");
    reveal_strlit("\n    <dc:title>");
    reveal_strlit("\">\n    ");
    reveal_strlit("<dc:title>");
    reveal_strlit("</dc:title>");
    reveal_strlit("</dc:title>\n    <upnp:class>object.container</upnp:class>\n  </container>");
    let back = close.subrange(11, close.len() as int);
    assert(close =~= "</dc:title>"@ + back);
    assert("\">\n    <dc:title>"@ =~= "\">\n    "@ + "<dc:title>"@);
    assert("\">\n    <dc:title>"@ =~= "\">"@ + "\n    <dc:title>"@);
    let p = "<container id=\""@ + id + "\" parentID=\"0\" restricted=\"1\" childCount=\""@
        + number::decimal(children);
    text::lemma_tagged(
        p,
        "\">\n    "@,
        "<dc:title>"@,
        title,
        "</dc:title>"@,
        back,
        "\">\n    <dc:title>"@,
        close,
    );
    let head = p + "\">"@;
    assert(p + "\">\n    <dc:title>"@ =~= head + "\n    <dc:title>"@);
    assert(head.subrange(0, head.len() as int) =~= head);
    seqs::lemma_longer_begins(head, "\n    <dc:title>"@, head);
    seqs::lemma_longer_begins(p + "\">\n    <dc:title>"@, title, head);
    seqs::lemma_longer_begins(p + "\">\n    <dc:title>"@ + title, close, head);
    let tail =
        "\">\n    <dc:title>Spritz</dc:title>\n    <upnp:class>object.container</upnp:class>\n  </container>"@;
    reveal_strlit(
        "\">\n    <dc:title>Spritz</dc:title>\n    <upnp:class>object.container</upnp:class>\n  </container>",
    );
    let q = "<container id=\"0\" parentID=\"-1\" restricted=\"1\" childCount=\""@
        + number::decimal(children);
    let rest = tail.subrange(2, tail.len() as int);
    assert(tail =~= "\">"@ + rest);
    assert(root_text(children) =~= (q + "\">"@) + rest);
    let top = q + "\">"@;
    assert(top.subrange(0, top.len() as int) =~= top);
    seqs::lemma_longer_begins(top, rest, top);
}

/// What a client is told of a file's format names the MIME type that its
/// extension stands for, and the profile that was found for it, where it was
/// looked at, or the one that its extension stands for, where it was not.
pub proof fn law_resources_tell_their_format(
    lib: Library,
    index: int,
    file: Seq<Seq<u8>>,
    mime: Seq<char>,
    pn: Seq<char>,
)
    requires
        0 <= index,
        media::path_mime_of(file) == Some(mime),
        index < lib.pns.len() ==> lib.pns[index] == pn,
        index < lib.pns.len() ==> !pn.contains(':'),
        index >= lib.pns.len() ==> profile::is_profile(
            text::lower(media::ext_or_empty(file)),
            pn,
        ),
    ensures
        ({
            let fields = seqs::split(item_protocol(lib, index, file), ':');
            fields.len() == 4 && fields[0] == "http-get"@ && fields[1] == "*"@ && fields[2] == mime
                && fields[3] == (if pn.len() > 0 {
                "DLNA.ORG_PN="@ + pn + ";"@
            } else {
                Seq::empty()
            }) + profile::DLNA_CONTENT_FEATURES@
        }),
{
    let ext = media::ext_or_empty(file);
    profile::lemma_mimes_are_plain(ext);
    profile::lemma_flags_are_plain();
    if index >= lib.pns.len() {
        profile::law_what_profile_is_claimed(ext, None, pn);
        profile::lemma_profiles_are_plain(ext);
    }
    let flags = profile::DLNA_CONTENT_FEATURES@;
    profile::law_protocols_can_be_read(mime, item_pn(lib.pns, index, ext), flags);
    assert(Seq::<char>::empty() + flags =~= flags);
}

/// A document holds every one of its entries, and a list of one entry is the page
/// that holds it.
pub proof fn law_listings_hold_their_entries(entries: Seq<Seq<char>>, i: int, entry: Seq<char>)
    requires
        0 <= i < entries.len(),
    ensures
        text::contains(didl_text(entries), entries[i]),
        single(entry) == page_of(seq![entry], 0, 1),
{
    broadcast use text::lemma_longer_contains;

    lemma_joined_hold(entries, i);
    assert(text::contains(seqs::join(entries, "\n  "@), entries[i]));
    assert(seq![entry].subrange(0, 1) =~= seq![entry]);
}

/// What is joined is in the whole.
proof fn lemma_joined_hold(entries: Seq<Seq<char>>, i: int)
    requires
        0 <= i < entries.len(),
    ensures
        text::contains(seqs::join(entries, "\n  "@), entries[i]),
    decreases entries.len(),
{
    broadcast use text::lemma_longer_contains;

    assert(text::occurs_at(entries[i], entries[i], 0)) by {
        assert(entries[i].subrange(0, entries[i].len() as int) =~= entries[i]);
    }
    if entries.len() > 1 && i < entries.len() - 1 {
        lemma_joined_hold(entries.drop_last(), i);
    }
}

/// An item has the date that is known of its file, and the one that stands for
/// none where none is known.
pub proof fn law_items_tell_the_date(dates: Seq<Seq<char>>, index: int)
    requires
        0 <= index,
    ensures
        index < dates.len() && dates[index].len() > 0 ==> item_date(dates, index) == dates[index],
        index >= dates.len() || dates[index].len() == 0 ==> item_date(dates, index)
            == library::record_date(None),
{
}

} // verus!
