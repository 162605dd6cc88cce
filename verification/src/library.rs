//! The indexed media and what is known of it.

use crate::date;
use crate::encoding;
use crate::folder;
use crate::folder::Folder;
use crate::folder::FolderNode;
use crate::host::HostIp;
use crate::host::IpAddr;
use crate::media;
use crate::number;
use crate::path;
use crate::path::MediaPath;
use crate::seqs;
use crate::text;
use vstd::prelude::*;

verus! {

/// What the server knows of itself and its media.
pub struct DlnaConfig {
    pub device_uuid: String,
    pub friendly_name: String,
    pub http_port: u16,
    pub local_ip: HostIp,
    pub media_dirs: Vec<MediaPath>,
    pub media_files: Vec<MediaPath>,
    /// File sizes, parallel to `media_files`; 0 where unknown.
    pub media_sizes: Vec<u64>,
    /// Dates as `YYYY-MM-DD`, parallel to `media_files`.
    pub media_dates: Vec<String>,
    /// Durations as `H:MM:SS.mmm`, parallel to `media_files`; empty where unknown.
    pub media_durations: Vec<String>,
    /// Sizes of pictures as `WxH`, parallel to `media_files`; empty where unknown.
    pub media_resolutions: Vec<String>,
    /// DLNA profiles, parallel to `media_files`; empty where none is claimed. A file
    /// that the list does not reach has not been looked at.
    pub media_pns: Vec<String>,
    /// Whether there is a cover picture, parallel to `media_files`.
    pub media_has_art: Vec<bool>,
    /// Which subtitles stand next to the file, parallel to `media_files`.
    pub media_subs: Vec<u8>,
    /// The videos, as indices into `media_files`.
    pub video_idx: Vec<usize>,
    /// The audio files, as indices into `media_files`.
    pub audio_idx: Vec<usize>,
    /// The folders that hold media; the source folders come first.
    pub folder_nodes: Vec<FolderNode>,
}

/// `DlnaConfig` as plain values.
#[verifier::ext_equal]
pub struct Library {
    pub uuid: Seq<char>,
    pub friendly_name: Seq<char>,
    pub port: u16,
    pub ip: IpAddr,
    pub ip_text: Seq<char>,
    pub dirs: Seq<Seq<Seq<u8>>>,
    pub files: Seq<Seq<Seq<u8>>>,
    pub sizes: Seq<u64>,
    pub dates: Seq<Seq<char>>,
    pub durations: Seq<Seq<char>>,
    pub resolutions: Seq<Seq<char>>,
    pub pns: Seq<Seq<char>>,
    pub has_art: Seq<bool>,
    pub subs: Seq<u8>,
    pub video: Seq<usize>,
    pub audio: Seq<usize>,
    pub nodes: Seq<Folder>,
}

impl View for DlnaConfig {
    type V = Library;

    open spec fn view(&self) -> Library {
        Library {
            uuid: self.device_uuid@,
            friendly_name: self.friendly_name@,
            port: self.http_port,
            ip: self.local_ip.ip,
            ip_text: self.local_ip.text@,
            dirs: path::paths(self.media_dirs@),
            files: path::paths(self.media_files@),
            sizes: self.media_sizes@,
            dates: text::texts(self.media_dates@),
            durations: text::texts(self.media_durations@),
            resolutions: text::texts(self.media_resolutions@),
            pns: text::texts(self.media_pns@),
            has_art: self.media_has_art@,
            subs: self.media_subs@,
            video: self.video_idx@,
            audio: self.audio_idx@,
            nodes: folder::folders(self.folder_nodes@),
        }
    }
}

/// Whether file `i` is audio.
pub open spec fn audio_at(files: Seq<Seq<Seq<u8>>>) -> spec_fn(int) -> bool {
    |i: int| media::is_audio_path(files[i])
}

/// Whether file `i` is listed as video: whatever is not audio.
pub open spec fn video_at(files: Seq<Seq<Seq<u8>>>) -> spec_fn(int) -> bool {
    |i: int| !media::is_audio_path(files[i])
}

/// Parts the files into videos and audio, as increasing lists of indices.
pub fn split_by_kind(files: &Vec<MediaPath>) -> (r: (Vec<usize>, Vec<usize>))
    ensures
        r.0@ == seqs::numbers_where(video_at(path::paths(files@)), files@.len() as int),
        r.1@ == seqs::numbers_where(audio_at(path::paths(files@)), files@.len() as int),
{
    let ghost all = path::paths(files@);
    let mut video: Vec<usize> = Vec::new();
    let mut audio: Vec<usize> = Vec::new();
    let mut i: usize = 0;
    while i < files.len()
        invariant
            i <= files@.len(),
            all == path::paths(files@),
            video@ == seqs::numbers_where(video_at(all), i as int),
            audio@ == seqs::numbers_where(audio_at(all), i as int),
        decreases files@.len() - i,
    {
        assert(all[i as int] == files@[i as int]@);
        if media::is_audio(&files[i]) {
            audio.push(i);
        } else {
            video.push(i);
        }
        i += 1;
    }
    (video, audio)
}

/// The files that were found, in order, with the lists that they are browsed by.
pub struct MediaIndex {
    pub media_files: Vec<MediaPath>,
    pub folder_nodes: Vec<FolderNode>,
    pub video_idx: Vec<usize>,
    pub audio_idx: Vec<usize>,
}

/// `nodes` is the folder tree of `files` with what each folder holds sorted.
pub open spec fn is_sorted_tree(
    dirs: Seq<Seq<Seq<u8>>>,
    files: Seq<Seq<Seq<u8>>>,
    nodes: Seq<Folder>,
) -> bool {
    folder::is_sorted_list(folder::tree(dirs, files, files.len() as int), files, nodes)
}

/// Puts the files that were found in order, and builds the lists that they are
/// browsed by.
pub fn index_media(media_dirs: &Vec<MediaPath>, found: Vec<MediaPath>) -> (r: MediaIndex)
    ensures
        media::is_media_sort(path::paths(found@), path::paths(r.media_files@)),
        is_sorted_tree(
            path::paths(media_dirs@),
            path::paths(r.media_files@),
            folder::folders(r.folder_nodes@),
        ),
        folder::forward_links(folder::folders(r.folder_nodes@)),
        r.video_idx@ == seqs::numbers_where(
            video_at(path::paths(r.media_files@)),
            r.media_files@.len() as int,
        ),
        r.audio_idx@ == seqs::numbers_where(
            audio_at(path::paths(r.media_files@)),
            r.media_files@.len() as int,
        ),
{
    let mut files = found;
    media::sort_media_paths(&mut files);
    let mut nodes = folder::build_folder_tree(media_dirs, &files);
    let ghost built = folder::folders(nodes@);
    let ghost before = nodes@;
    folder::sort_folder_tree(&mut nodes, &files);
    proof {
        let all = path::paths(files@);
        let out = folder::folders(nodes@);
        assert(all.len() == files@.len());
        assert forall|i: int| 0 <= i < built.len() implies folder::is_sorted_folder(
            built,
            all,
            built[i],
            #[trigger] out[i],
        ) by {
            assert(folder::is_sorted_folder(built, all, before[i]@, nodes@[i]@));
        }
    }
    let (video_idx, audio_idx) = split_by_kind(&files);
    MediaIndex { media_files: files, folder_nodes: nodes, video_idx, audio_idx }
}

/// Every file is listed either as video or as audio, and as only one of them.
pub proof fn law_video_and_audio_share_out(files: Seq<Seq<Seq<u8>>>, i: int)
    requires
        files.len() <= usize::MAX,
        0 <= i < files.len(),
    ensures
        seqs::numbers_where(video_at(files), files.len() as int).contains(i as usize)
            != seqs::numbers_where(audio_at(files), files.len() as int).contains(i as usize),
{
    let n = files.len() as int;
    let v = seqs::numbers_where(video_at(files), n);
    let a = seqs::numbers_where(audio_at(files), n);
    seqs::lemma_numbers_where(video_at(files), n);
    seqs::lemma_numbers_where(audio_at(files), n);
    assert(audio_at(files)(i) == media::is_audio_path(files[i]));
    assert(video_at(files)(i) == !media::is_audio_path(files[i]));
    if v.contains(i as usize) && a.contains(i as usize) {
        let j = choose|j: int| 0 <= j < v.len() && v[j] == i as usize;
        let k = choose|k: int| 0 <= k < a.len() && a[k] == i as usize;
        assert(video_at(files)(v[j] as int) && audio_at(files)(a[k] as int));
    }
}

/// The bit for `.srt` subtitles.
pub const SUBTITLE_SRT: u8 = 1;

/// The bit for `.vtt` subtitles.
pub const SUBTITLE_VTT: u8 = 2;

/// The bit for `.ass` subtitles.
pub const SUBTITLE_ASS: u8 = 4;

/// What is recorded of a media file when it is indexed.
pub struct FileRecord {
    pub size: u64,
    pub date: String,
    pub has_art: bool,
    pub subs: u8,
}

/// The size of a file and when it was last changed, in seconds since 1970, where
/// that is known.
pub struct FileStat {
    pub len: u64,
    pub modified: Option<i64>,
}

/// Where subtitles for a file would stand: `.srt`, `.vtt` and `.ass` next to it.
pub fn subtitle_candidates(path: &MediaPath) -> (r: Vec<MediaPath>)
    ensures
        path::paths(r@) == subtitle_paths(path@),
{
    let mut r: Vec<MediaPath> = Vec::new();
    r.push(path.with_extension("srt".as_bytes()));
    r.push(path.with_extension("vtt".as_bytes()));
    r.push(path.with_extension("ass".as_bytes()));
    assert(path::paths(r@) =~= subtitle_paths(path@));
    r
}

/// The paths of the subtitles for a file.
pub open spec fn subtitle_paths(p: Seq<Seq<u8>>) -> Seq<Seq<Seq<u8>>> {
    seq![
        path::with_extension_of(p, vstd::utf8::encode_utf8("srt"@)),
        path::with_extension_of(p, vstd::utf8::encode_utf8("vtt"@)),
        path::with_extension_of(p, vstd::utf8::encode_utf8("ass"@)),
    ]
}

/// The bits for the subtitles that are there, `.srt`, `.vtt` and `.ass`.
pub open spec fn subtitle_bits(srt: bool, vtt: bool, ass: bool) -> int {
    (if srt {
        1int
    } else {
        0
    }) + (if vtt {
        2int
    } else {
        0
    }) + (if ass {
        4int
    } else {
        0
    })
}

/// The bits for the subtitles that are there.
pub fn sidecar_subtitle_bits(srt: bool, vtt: bool, ass: bool) -> (r: u8)
    ensures
        r == subtitle_bits(srt, vtt, ass),
{
    let a: u8 = if srt {
        SUBTITLE_SRT
    } else {
        0
    };
    let b: u8 = if vtt {
        SUBTITLE_VTT
    } else {
        0
    };
    let c: u8 = if ass {
        SUBTITLE_ASS
    } else {
        0
    };
    a + b + c
}

/// The date recorded for a file that was last changed at `modified`.
pub open spec fn record_date(modified: Option<i64>) -> Seq<char> {
    match modified {
        Some(secs) => date::dc_date_text(secs as int),
        None => "2000-01-01"@,
    }
}

/// Makes the record of a file from what the file system said of it: nothing,
/// where it could not be asked.
pub fn file_record(stat: Option<FileStat>, has_art: bool, subs: u8) -> (r: FileRecord)
    ensures
        r.size == (match stat {
            Some(s) => s.len,
            None => 0,
        }),
        r.date@ == record_date(
            match stat {
                Some(s) => s.modified,
                None => None,
            },
        ),
        r.has_art == has_art,
        r.subs == subs,
{
    match stat {
        Some(s) => {
            let date = match s.modified {
                Some(secs) => date::dc_date(secs),
                None => String::from_str("2000-01-01"),
            };
            FileRecord { size: s.len, date, has_art, subs }
        },
        None => FileRecord { size: 0, date: String::from_str("2000-01-01"), has_art, subs },
    }
}

/// The bits for subtitles tell which there are.
pub proof fn law_subtitle_bits_tell(srt: bool, vtt: bool, ass: bool, bits: u8)
    requires
        bits == subtitle_bits(srt, vtt, ass),
    ensures
        (bits & SUBTITLE_SRT != 0) == srt,
        (bits & SUBTITLE_VTT != 0) == vtt,
        (bits & SUBTITLE_ASS != 0) == ass,
{
    assert(0u8 & 1 == 0 && 2u8 & 1 == 0 && 4u8 & 1 == 0 && 6u8 & 1 == 0 && 1u8 & 1 == 1 && 3u8 & 1
        == 1 && 5u8 & 1 == 1 && 7u8 & 1 == 1) by (bit_vector);
    assert(0u8 & 2 == 0 && 1u8 & 2 == 0 && 4u8 & 2 == 0 && 5u8 & 2 == 0 && 2u8 & 2 == 2 && 3u8 & 2
        == 2 && 6u8 & 2 == 2 && 7u8 & 2 == 2) by (bit_vector);
    assert(0u8 & 4 == 0 && 1u8 & 4 == 0 && 2u8 & 4 == 0 && 3u8 & 4 == 0 && 4u8 & 4 == 4 && 5u8 & 4
        == 4 && 6u8 & 4 == 4 && 7u8 & 4 == 4) by (bit_vector);
}

/// The path with a plain extension is served as what the extension stands for.
proof fn lemma_extension_mime(p: Seq<Seq<u8>>, ext: Seq<char>)
    requires
        path::file_name_of(p) is Some,
        ext.len() > 0,
        encoding::all_ascii(ext),
        forall|i: int| 0 <= i < ext.len() ==> #[trigger] ext[i] != '.',
    ensures
        media::path_mime_of(path::with_extension_of(p, vstd::utf8::encode_utf8(ext)))
            == media::mime_of(ext),
{
    let bytes = vstd::utf8::encode_utf8(ext);
    encoding::lemma_encode_ascii(ext);
    assert forall|i: int| 0 <= i < bytes.len() implies #[trigger] bytes[i] != path::DOT by {
        assert(bytes[i] == encoding::ascii_byte(ext[i]));
        assert(ext[i] != '.');
        encoding::lemma_ascii_byte(ext[i]);
    }
    path::law_replaced_extension(p, bytes);
    vstd::utf8::encode_utf8_valid_utf8(ext);
    vstd::utf8::encode_utf8_decode_utf8(ext);
}

/// The subtitles that are looked for next to a file are of types that are served.
pub proof fn law_subtitles_are_served(p: Seq<Seq<u8>>)
    requires
        path::file_name_of(p) is Some,
    ensures
        media::path_mime_of(subtitle_paths(p)[0]) == Some("text/srt"@),
        media::path_mime_of(subtitle_paths(p)[1]) == Some("text/vtt"@),
        media::path_mime_of(subtitle_paths(p)[2]) == Some("text/x-ssa"@),
{
    media::lemma_subtitle_mimes();
    reveal_strlit("srt");
    reveal_strlit("vtt");
    reveal_strlit("ass");
    lemma_extension_mime(p, "srt"@);
    lemma_extension_mime(p, "vtt"@);
    lemma_extension_mime(p, "ass"@);
}

/// A list with the text at `i` replaced, where the list reaches that far.
pub open spec fn with_text(list: Seq<Seq<char>>, i: int, t: Seq<char>) -> Seq<Seq<char>> {
    if i < list.len() {
        list.update(i, t)
    } else {
        list
    }
}

/// Replaces the text at `i`, where the list reaches that far.
fn put_text(list: &mut Vec<String>, i: usize, t: String)
    ensures
        text::texts(final(list)@) == with_text(text::texts(old(list)@), i as int, t@),
{
    let ghost before = text::texts(list@);
    if i < list.len() {
        list.set(i, t);
    }
    assert(text::texts(list@) =~= with_text(before, i as int, t@));
}

/// The library once file `i` has been looked at.
pub open spec fn probed(
    lib: Library,
    i: int,
    duration: Seq<char>,
    resolution: Seq<char>,
    pn: Seq<char>,
) -> Library {
    Library {
        durations: with_text(lib.durations, i, duration),
        resolutions: with_text(lib.resolutions, i, resolution),
        pns: with_text(lib.pns, i, pn),
        ..lib
    }
}

/// Takes down what was found in file `index`.
pub fn publish_probe(
    config: &mut DlnaConfig,
    index: usize,
    duration: String,
    resolution: String,
    pn: String,
)
    ensures
        final(config)@ == probed(old(config)@, index as int, duration@, resolution@, pn@),
{
    put_text(&mut config.media_durations, index, duration);
    put_text(&mut config.media_resolutions, index, resolution);
    put_text(&mut config.media_pns, index, pn);
}

/// What is found in a file is taken down for that file, and changes nothing else.
pub proof fn law_a_probe_changes_one_file(
    lib: Library,
    i: int,
    j: int,
    duration: Seq<char>,
    resolution: Seq<char>,
    pn: Seq<char>,
)
    requires
        0 <= i < lib.durations.len(),
        0 <= j < lib.durations.len(),
        lib.durations.len() == lib.resolutions.len() == lib.pns.len(),
    ensures
        ({
            let after = probed(lib, i, duration, resolution, pn);
            &&& after.durations[i] == duration
            &&& after.resolutions[i] == resolution
            &&& after.pns[i] == pn
            &&& j != i ==> after.durations[j] == lib.durations[j] && after.resolutions[j]
                == lib.resolutions[j] && after.pns[j] == lib.pns[j]
            &&& after.durations.len() == lib.durations.len()
            &&& after.files == lib.files && after.dirs == lib.dirs && after.sizes == lib.sizes
                && after.dates == lib.dates && after.has_art == lib.has_art && after.subs
                == lib.subs && after.video == lib.video && after.audio == lib.audio && after.nodes
                == lib.nodes && after.uuid == lib.uuid && after.friendly_name
                == lib.friendly_name && after.port == lib.port && after.ip == lib.ip
        }),
{
}

/// The subtitles for a file stand next to it, under its own name with another
/// extension.
pub proof fn law_subtitles_stand_next_to_the_file(dir: Seq<Seq<u8>>, stem: Seq<u8>, ext: Seq<u8>)
    requires
        stem.len() > 0,
        ext.len() > 0,
        !ext.contains(path::DOT),
    ensures
        ({
            let subs = subtitle_paths(dir.push(stem + seq![path::DOT] + ext));
            &&& subs.len() == 3
            &&& subs[0] == dir.push(
                stem + seq![path::DOT] + vstd::utf8::encode_utf8("srt"@),
            )
            &&& subs[1] == dir.push(
                stem + seq![path::DOT] + vstd::utf8::encode_utf8("vtt"@),
            )
            &&& subs[2] == dir.push(
                stem + seq![path::DOT] + vstd::utf8::encode_utf8("ass"@),
            )
        }),
{
    path::law_extensions_are_read(dir, stem, ext);
    let p = dir.push(stem + seq![path::DOT] + ext);
    assert(p.drop_last() =~= dir);
}

/// A file whose date is not known has the first date of the year 2000.
pub proof fn law_files_without_a_date()
    ensures
        record_date(None) == "2000-01-01"@,
        record_date(None) == record_date(Some(946_684_800)),
{
    date::law_dates_are_written(2000, 1, 1, 0, -1);
    reveal_with_fuel(number::decimal, 5);
    reveal_with_fuel(date::before_month, 2);
    reveal_strlit("2000-01-01");
    reveal_strlit("-");
    assert(date::day_number(2000, 1, 1) == 10_957);
    assert(number::decimal(2000) =~= seq!['2', '0', '0', '0']);
    assert(number::decimal(1) =~= seq!['1']);
    assert(number::zero_padded(number::decimal(2000), 4) =~= seq!['2', '0', '0', '0']);
    assert(number::zero_padded(number::decimal(1), 2) =~= seq!['0', '1']);
    assert(date::dc_date_text(946_684_800) =~= "2000-01-01"@);
}

} // verus!
