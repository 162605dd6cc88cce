//! Probing files for how long they play and what their video is, and for cover
//! pictures.

use crate::audio;
use crate::encoding;
use crate::media;
use crate::mkv;
use crate::mkv::MkvLength;
use crate::mp4;
use crate::path;
use crate::path::MediaPath;
use crate::profile;
use crate::text;
use crate::video;
use crate::video::VideoCodec;
use crate::video::VideoTrack;
use vstd::prelude::*;
use vstd::utf8;

verus! {

/// A length of time as a number of ticks, of which a given number make a second.
#[derive(Clone, Copy, Debug, PartialEq, Eq, Structural)]
pub struct Ticks {
    pub count: u64,
    pub per_second: u32,
}

/// What a probe asks for: to move on by `skip` bytes and to read `count` bytes,
/// or nothing more, since it knows the answer.
#[derive(Clone, Copy, Debug, PartialEq, Eq, Structural)]
pub enum ProbeStep {
    Read { skip: u64, count: u64 },
    Done(Option<Ticks>),
}

/// How long a file plays, as its container says it.
#[derive(Clone, Copy, Debug, PartialEq, Eq, Structural)]
pub enum Length {
    Ticks(Ticks),
    Scaled(MkvLength),
}

/// The containers that can be probed.
#[derive(Clone, Copy, Debug, PartialEq, Eq, Structural)]
pub enum Container {
    Mp4,
    Mkv,
    Wav,
    Flac,
}

/// The container that a path's extension stands for.
pub open spec fn container_of_path(p: Seq<Seq<u8>>) -> Option<Container> {
    match media::extension_text_of(p) {
        None => None,
        Some(ext) => {
            let e = text::lower(ext);
            if e == "mp4"@ || e == "m4v"@ || e == "m4a"@ || e == "mov"@ {
                Some(Container::Mp4)
            } else if e == "mkv"@ || e == "webm"@ {
                Some(Container::Mkv)
            } else if e == "wav"@ {
                Some(Container::Wav)
            } else if e == "flac"@ {
                Some(Container::Flac)
            } else {
                None
            }
        },
    }
}

/// Finds the container that a path's extension stands for.
pub fn container_of(path: &MediaPath) -> (r: Option<Container>)
    ensures
        r == container_of_path(path@),
{
    match media::extension_text(path) {
        None => None,
        Some(ext) => {
            let e = text::to_ascii_lowercase(ext.as_str());
            if text::same_text(&e, "mp4") || text::same_text(&e, "m4v") || text::same_text(&e, "m4a")
                || text::same_text(&e, "mov") {
                Some(Container::Mp4)
            } else if text::same_text(&e, "mkv") || text::same_text(&e, "webm") {
                Some(Container::Mkv)
            } else if text::same_text(&e, "wav") {
                Some(Container::Wav)
            } else if text::same_text(&e, "flac") {
                Some(Container::Flac)
            } else {
                None
            }
        },
    }
}

/// How long a file at `p` that holds `data` plays.
pub open spec fn length_of(p: Seq<Seq<u8>>, data: Seq<u8>) -> Option<Length> {
    match container_of_path(p) {
        None => None,
        Some(Container::Mp4) => match mp4::mp4_length(data) {
            Some(t) => Some(Length::Ticks(t)),
            None => None,
        },
        Some(Container::Mkv) => match mkv::mkv_length(data) {
            Some(m) => Some(Length::Scaled(m)),
            None => None,
        },
        Some(Container::Wav) => match audio::wav_length(data) {
            Some(t) => Some(Length::Ticks(t)),
            None => None,
        },
        Some(Container::Flac) => match audio::flac_length(data) {
            Some(t) => Some(Length::Ticks(t)),
            None => None,
        },
    }
}

/// Reads how long a file plays from its contents.
pub fn probe_duration(path: &MediaPath, data: &[u8]) -> (r: Option<Length>)
    ensures
        r == length_of(path@, data@),
{
    match container_of(path) {
        None => None,
        Some(Container::Mp4) => match mp4::mp4_duration_from_bytes(data) {
            Some(t) => Some(Length::Ticks(t)),
            None => None,
        },
        Some(Container::Mkv) => match mkv::mkv_duration_from_bytes(data) {
            Some(m) => Some(Length::Scaled(m)),
            None => None,
        },
        Some(Container::Wav) => match audio::wav_duration_from_bytes(data) {
            Some(t) => Some(Length::Ticks(t)),
            None => None,
        },
        Some(Container::Flac) => match audio::flac_duration_from_bytes(data) {
            Some(t) => Some(Length::Ticks(t)),
            None => None,
        },
    }
}

/// What the video in a file at `p` that holds `data` is.
pub open spec fn video_of(p: Seq<Seq<u8>>, data: Seq<u8>) -> Option<VideoTrack> {
    match container_of_path(p) {
        Some(Container::Mp4) => mp4::mp4_video(data),
        Some(Container::Mkv) => mkv::mkv_video(data),
        _ => None,
    }
}

/// What a file's headers say: how long it plays, and what its video is.
#[derive(Clone, Copy, Debug, PartialEq, Eq, Structural)]
pub struct MediaInfo {
    pub length: Option<Length>,
    pub video: Option<VideoTrack>,
}

impl MediaInfo {
    /// The codec of the video.
    pub open spec fn codec(self) -> Option<VideoCodec> {
        match self.video {
            Some(v) => Some(v.codec),
            None => None,
        }
    }

    /// DIDL's `resolution`, where the size of the picture is known.
    pub open spec fn resolution(self) -> Option<Seq<char>> {
        match self.video {
            Some(v) => video::resolution_of(v),
            None => None,
        }
    }

    /// Writes DIDL's `resolution`, where the size of the picture is known.
    pub fn resolution_attr(&self) -> (r: Option<String>)
        ensures
            match r {
                Some(s) => self.resolution() == Some(s@),
                None => self.resolution() is None,
            },
    {
        match &self.video {
            Some(v) => video::resolution_text(v),
            None => None,
        }
    }
}

/// Reads what a file's headers say from its contents.
pub fn probe_media(path: &MediaPath, data: &[u8]) -> (r: MediaInfo)
    ensures
        r.length == length_of(path@, data@),
        r.video == video_of(path@, data@),
{
    let length = probe_duration(path, data);
    let video = match container_of(path) {
        Some(Container::Mp4) => mp4::mp4_video_from_bytes(data),
        Some(Container::Mkv) => mkv::mkv_video_from_bytes(data),
        _ => None,
    };
    MediaInfo { length, video }
}

/// The DLNA profile for a file with this extension, given what its headers say.
pub fn dlna_org_pn_for(ext: &str, info: &MediaInfo) -> (r: Option<&'static str>)
    ensures
        match r {
            Some(pn) => profile::pn_for_codec(ext@, info.codec()) == Some(pn@),
            None => profile::pn_for_codec(ext@, info.codec()) is None,
        },
{
    match &info.video {
        Some(v) => profile::pn_for(ext, Some(v.codec)),
        None => profile::pn_for(ext, None),
    }
}

/// What is published of a file that was looked at; empty where it is not known, or
/// not claimed.
pub struct ProbeFields {
    pub resolution: String,
    pub pn: String,
}

/// A text, or nothing.
pub open spec fn or_empty(t: Option<Seq<char>>) -> Seq<char> {
    match t {
        Some(t) => t,
        None => Seq::empty(),
    }
}

/// Decides what is published of a file that was looked at.
pub fn probe_fields(path: &MediaPath, info: &MediaInfo) -> (r: ProbeFields)
    ensures
        r.resolution@ == or_empty(info.resolution()),
        r.pn@ == or_empty(profile::pn_for_codec(media::ext_or_empty(path@), info.codec())),
{
    let ext = match media::extension_text(path) {
        Some(e) => e,
        None => String::from_str(""),
    };
    let resolution = match info.resolution_attr() {
        Some(s) => s,
        None => String::new(),
    };
    assert(resolution@ =~= or_empty(info.resolution()));
    let pn = match dlna_org_pn_for(ext.as_str(), info) {
        Some(pn) => String::from_str(pn),
        None => String::new(),
    };
    assert(pn@ =~= or_empty(profile::pn_for_codec(ext@, info.codec())));
    ProbeFields { resolution, pn }
}

/// Pictures inside a file are not looked for; those next to it are.
pub fn has_embedded_art(_path: &MediaPath) -> (r: bool)
    ensures
        r == false,
{
    false
}

/// The names of cover pictures that stand for a whole folder, best first.
pub const ART_NAMES: [&'static str; 6] = [
    "cover.jpg",
    "cover.png",
    "folder.jpg",
    "folder.png",
    "album.jpg",
    "poster.jpg",
];

/// The name of a picture with a file's own name, byte for byte.
pub open spec fn own_art_name(stem: Seq<u8>, ext: Seq<char>) -> Seq<u8> {
    stem + utf8::encode_utf8("."@ + ext)
}

/// Where a cover picture for a file is looked for, best first: next to it, with
/// its own name, and else with a name that stands for the folder.
pub open spec fn art_paths(p: Seq<Seq<u8>>) -> Seq<Seq<Seq<u8>>> {
    match (path::parent_of(p), path::stem_of(p)) {
        (Some(dir), Some(stem)) => seq![
            dir.push(own_art_name(stem, "jpg"@)),
            dir.push(own_art_name(stem, "jpeg"@)),
            dir.push(own_art_name(stem, "png"@)),
        ] + Seq::new(6, |i: int| dir.push(utf8::encode_utf8(ART_NAMES@[i]@))),
        _ => Seq::empty(),
    }
}

/// The bytes of a text.
fn bytes_of(s: &str) -> (v: Vec<u8>)
    ensures
        v@ == utf8::encode_utf8(s@),
{
    let b = s.as_bytes();
    let v = path::copy_bytes(b, 0, b.len());
    assert(b@.subrange(0, b@.len() as int) =~= b@);
    v
}

/// Makes the name of a picture with a file's own name.
fn own_art(stem: &Vec<u8>, ext: &str) -> (v: Vec<u8>)
    ensures
        v@ == own_art_name(stem@, ext@),
{
    let mut s = String::from_str(".");
    s.append(ext);
    let mut v = path::copy_bytes(stem.as_slice(), 0, stem.len());
    assert(v@ =~= stem@);
    let mut rest = bytes_of(s.as_str());
    v.append(&mut rest);
    v
}

/// Lists where a cover picture for a file is looked for.
pub fn album_art_candidates(media: &MediaPath) -> (r: Vec<MediaPath>)
    ensures
        path::paths(r@) == art_paths(media@),
{
    let mut r: Vec<MediaPath> = Vec::new();
    let dir = match media.parent() {
        Some(dir) => dir,
        None => {
            assert(path::paths(r@) =~= Seq::<Seq<Seq<u8>>>::empty());
            return r;
        },
    };
    let stem = match media.file_stem() {
        Some(stem) => stem,
        None => {
            assert(path::paths(r@) =~= Seq::<Seq<Seq<u8>>>::empty());
            return r;
        },
    };
    r.push(dir.child(own_art(&stem, "jpg")));
    r.push(dir.child(own_art(&stem, "jpeg")));
    r.push(dir.child(own_art(&stem, "png")));
    let names = ART_NAMES;
    let ghost want = art_paths(media@);
    assert(path::paths(r@) =~= want.take(3));
    let mut i: usize = 0;
    while i < 6
        invariant
            i <= 6,
            names == ART_NAMES,
            want.len() == 9,
            forall|k: int|
                0 <= k < 6 ==> #[trigger] want[3 + k] == dir@.push(
                    utf8::encode_utf8(ART_NAMES@[k]@),
                ),
            path::paths(r@) =~= want.take(3 + i),
        decreases 6 - i,
    {
        let ghost before = path::paths(r@);
        let p = dir.child(bytes_of(names[i]));
        assert(p@ == want[3 + i]);
        r.push(p);
        assert(path::paths(r@) =~= before.push(p@));
        i += 1;
    }
    assert(want.take(9) =~= want);
    r
}

/// The first candidate for a cover picture that is a regular file.
pub open spec fn first_regular(
    candidates: Seq<Seq<Seq<u8>>>,
    regular: Seq<bool>,
    from: int,
) -> Option<Seq<Seq<u8>>>
    decreases candidates.len() - from,
{
    if from >= candidates.len() || from >= regular.len() {
        None
    } else if regular[from] {
        Some(candidates[from])
    } else {
        first_regular(candidates, regular, from + 1)
    }
}

/// Picks the cover picture for a file, given which of the candidates, in order,
/// are regular files.
pub fn album_art_sidecar(media: &MediaPath, regular: &[bool]) -> (r: Option<MediaPath>)
    ensures
        match r {
            Some(p) => first_regular(art_paths(media@), regular@, 0) == Some(p@),
            None => first_regular(art_paths(media@), regular@, 0) is None,
        },
{
    let candidates = album_art_candidates(media);
    let ghost all = path::paths(candidates@);
    let mut i: usize = 0;
    while i < candidates.len() && i < regular.len()
        invariant
            i <= candidates@.len(),
            i <= regular@.len(),
            all == path::paths(candidates@),
            all == art_paths(media@),
            first_regular(all, regular@, 0) == first_regular(all, regular@, i as int),
        decreases candidates@.len() - i,
    {
        assert(all[i as int] == candidates@[i as int]@);
        if regular[i] {
            return Some(candidates[i].copy());
        }
        i += 1;
    }
    None
}

/// A cover picture stands in the same folder as the file that it is for.
pub proof fn law_art_stands_next_to_the_file(
    p: Seq<Seq<u8>>,
    regular: Seq<bool>,
    found: Seq<Seq<u8>>,
)
    requires
        first_regular(art_paths(p), regular, 0) == Some(found),
    ensures
        path::parent_of(p) == Some(found.drop_last()),
        art_paths(p).contains(found),
{
    lemma_first_regular(art_paths(p), regular, 0);
    let i = choose|i: int| 0 <= i < art_paths(p).len() && art_paths(p)[i] == found;
    let dir = p.drop_last();
    assert(art_paths(p)[i].drop_last() =~= dir);
}

/// What is found is one of the candidates.
proof fn lemma_first_regular(all: Seq<Seq<Seq<u8>>>, regular: Seq<bool>, from: int)
    requires
        0 <= from,
    ensures
        match first_regular(all, regular, from) {
            Some(found) => all.contains(found),
            None => true,
        },
    decreases all.len() - from,
{
    if from < all.len() && first_regular(all, regular, from) is Some {
        if first_regular(all, regular, from) != Some(all[from]) {
            lemma_first_regular(all, regular, from + 1);
        } else {
            assert(all.contains(all[from]));
        }
    }
}

/// A file's extension says how it is read, in whatever case it is spelled.
pub proof fn law_files_are_read_by_their_extension(
    dir: Seq<Seq<u8>>,
    stem: Seq<u8>,
    word: Seq<char>,
    data: Seq<u8>,
)
    requires
        stem.len() > 0,
        word.len() > 0,
        encoding::all_ascii(word),
        forall|i: int| 0 <= i < word.len() ==> #[trigger] word[i] != '.',
    ensures
        ({
            let p = dir.push(stem + seq![path::DOT] + utf8::encode_utf8(word));
            let e = text::lower(word);
            let is_mp4 = e == "mp4"@ || e == "m4v"@ || e == "m4a"@ || e == "mov"@;
            let is_mkv = e == "mkv"@ || e == "webm"@;
            &&& is_mp4 ==> length_of(p, data) == ticks_of(mp4::mp4_length(data)) && video_of(p, data)
                == mp4::mp4_video(data)
            &&& is_mkv ==> (match mkv::mkv_length(data) {
                Some(m) => length_of(p, data) == Some(Length::Scaled(m)),
                None => length_of(p, data) is None,
            }) && video_of(p, data) == mkv::mkv_video(data)
            &&& e == "wav"@ ==> length_of(p, data) == ticks_of(audio::wav_length(data))
            &&& e == "flac"@ ==> length_of(p, data) == ticks_of(audio::flac_length(data))
            &&& !is_mp4 && !is_mkv ==> video_of(p, data) is None
            &&& !is_mp4 && !is_mkv && e != "wav"@ && e != "flac"@ ==> length_of(p, data) is None
        }),
{
    media::law_extensions_are_texts(dir, stem, word);
    reveal_strlit("mp4");
    reveal_strlit("m4v");
    reveal_strlit("m4a");
    reveal_strlit("mov");
    reveal_strlit("mkv");
    reveal_strlit("webm");
    reveal_strlit("wav");
    reveal_strlit("flac");
    let e = text::lower(word);
    if e == "mkv"@ || e == "webm"@ {
        assert(e[0] == 'm' && e[1] == 'k' || e[0] == 'w' && e.len() == 4);
        assert(container_of_path(dir.push(stem + seq![path::DOT] + utf8::encode_utf8(word)))
            == Some(Container::Mkv));
    } else if e == "wav"@ {
        assert(e[0] == 'w' && e.len() == 3);
    } else if e == "flac"@ {
        assert(e[0] == 'f');
    }
}

/// A number of ticks as a length.
pub open spec fn ticks_of(t: Option<Ticks>) -> Option<Length> {
    match t {
        Some(t) => Some(Length::Ticks(t)),
        None => None,
    }
}

/// The cover of a file is looked for in its folder: first pictures with the
/// file's own name, whatever its extension is, and then those that stand for the
/// whole folder.
pub proof fn law_where_covers_are_looked_for(dir: Seq<Seq<u8>>, stem: Seq<u8>, ext: Seq<u8>)
    requires
        stem.len() > 0,
        ext.len() > 0,
        !ext.contains(path::DOT),
    ensures
        art_paths(dir.push(stem + seq![path::DOT] + ext)) == seq![
            dir.push(stem + utf8::encode_utf8(".jpg"@)),
            dir.push(stem + utf8::encode_utf8(".jpeg"@)),
            dir.push(stem + utf8::encode_utf8(".png"@)),
            dir.push(utf8::encode_utf8("cover.jpg"@)),
            dir.push(utf8::encode_utf8("cover.png"@)),
            dir.push(utf8::encode_utf8("folder.jpg"@)),
            dir.push(utf8::encode_utf8("folder.png"@)),
            dir.push(utf8::encode_utf8("album.jpg"@)),
            dir.push(utf8::encode_utf8("poster.jpg"@)),
        ],
{
    path::law_extensions_are_read(dir, stem, ext);
    reveal_strlit(".");
    reveal_strlit("jpg");
    reveal_strlit("jpeg");
    reveal_strlit("png");
    reveal_strlit(".jpg");
    reveal_strlit(".jpeg");
    reveal_strlit(".png");
    assert("."@ + "jpg"@ =~= ".jpg"@);
    assert("."@ + "jpeg"@ =~= ".jpeg"@);
    assert("."@ + "png"@ =~= ".png"@);
    let found = art_paths(dir.push(stem + seq![path::DOT] + ext));
    assert(found.len() == 9);
    assert(found[3] == dir.push(utf8::encode_utf8("cover.jpg"@)));
    assert(found[4] == dir.push(utf8::encode_utf8("cover.png"@)));
    assert(found[5] == dir.push(utf8::encode_utf8("folder.jpg"@)));
    assert(found[6] == dir.push(utf8::encode_utf8("folder.png"@)));
    assert(found[7] == dir.push(utf8::encode_utf8("album.jpg"@)));
    assert(found[8] == dir.push(utf8::encode_utf8("poster.jpg"@)));
}

/// Of the pictures that are there the best is taken; there is none where none of
/// them is there.
pub proof fn law_the_best_cover_is_taken(p: Seq<Seq<u8>>, regular: Seq<bool>, i: int)
    requires
        regular.len() == art_paths(p).len(),
        0 <= i <= regular.len(),
        forall|j: int| 0 <= j < i ==> !#[trigger] regular[j],
        i < regular.len() ==> regular[i],
    ensures
        i < regular.len() ==> first_regular(art_paths(p), regular, 0) == Some(art_paths(p)[i]),
        i == regular.len() ==> first_regular(art_paths(p), regular, 0) is None,
{
    lemma_regular_from(art_paths(p), regular, 0, i);
}

/// What is not there is passed over.
proof fn lemma_regular_from(all: Seq<Seq<Seq<u8>>>, regular: Seq<bool>, from: int, i: int)
    requires
        regular.len() == all.len(),
        0 <= from <= i <= regular.len(),
        forall|j: int| from <= j < i ==> !#[trigger] regular[j],
    ensures
        first_regular(all, regular, from) == first_regular(all, regular, i),
    decreases i - from,
{
    if from < i {
        assert(!regular[from]);
        lemma_regular_from(all, regular, from + 1, i);
    }
}

} // verus!
