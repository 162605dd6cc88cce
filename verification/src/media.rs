//! What counts as media: MIME types, indexing, order, and source folders.

use crate::encoding;
use crate::path;
use crate::path::MediaPath;
use crate::sort;
use crate::sort::SortKey;
use crate::text;
use vstd::prelude::*;
use vstd::utf8;

verus! {

/// The MIME types of indexed media, which `GetProtocolInfo` advertises.
pub const ALL_MIMES: [&'static str; 14] = [
    "video/mp4",
    "video/x-matroska",
    "video/x-msvideo",
    "video/quicktime",
    "video/webm",
    "video/x-flv",
    "audio/mpeg",
    "audio/mp4",
    "audio/aac",
    "audio/flac",
    "audio/ogg",
    "audio/wav",
    "audio/x-ms-wma",
    "audio/aiff",
];

/// The MIME type for a file extension in any case; none for a file that is not
/// served.
pub open spec fn mime_of(ext: Seq<char>) -> Option<Seq<char>> {
    let e = text::lower(ext);
    if e == "mp4"@ || e == "m4v"@ {
        Some("video/mp4"@)
    } else if e == "mkv"@ {
        Some("video/x-matroska"@)
    } else if e == "avi"@ {
        Some("video/x-msvideo"@)
    } else if e == "mov"@ {
        Some("video/quicktime"@)
    } else if e == "webm"@ {
        Some("video/webm"@)
    } else if e == "flv"@ {
        Some("video/x-flv"@)
    } else if e == "mp3"@ {
        Some("audio/mpeg"@)
    } else if e == "m4a"@ {
        Some("audio/mp4"@)
    } else if e == "aac"@ {
        Some("audio/aac"@)
    } else if e == "flac"@ {
        Some("audio/flac"@)
    } else if e == "ogg"@ || e == "oga"@ || e == "opus"@ {
        Some("audio/ogg"@)
    } else if e == "wav"@ {
        Some("audio/wav"@)
    } else if e == "wma"@ {
        Some("audio/x-ms-wma"@)
    } else if e == "aiff"@ || e == "aif"@ {
        Some("audio/aiff"@)
    } else if e == "srt"@ {
        Some("text/srt"@)
    } else if e == "vtt"@ {
        Some("text/vtt"@)
    } else if e == "ass"@ || e == "ssa"@ {
        Some("text/x-ssa"@)
    } else if e == "jpg"@ || e == "jpeg"@ {
        Some("image/jpeg"@)
    } else if e == "png"@ {
        Some("image/png"@)
    } else {
        None
    }
}

/// The MIME type for a file extension. Subtitles and pictures are served but
/// not indexed.
pub fn mime_for_ext(ext: &str) -> (r: Option<&'static str>)
    ensures
        match r {
            Some(m) => mime_of(ext@) == Some(m@),
            None => mime_of(ext@) is None,
        },
{
    let e = text::to_ascii_lowercase(ext);
    if text::same_text(&e, "mp4") || text::same_text(&e, "m4v") {
        Some("video/mp4")
    } else if text::same_text(&e, "mkv") {
        Some("video/x-matroska")
    } else if text::same_text(&e, "avi") {
        Some("video/x-msvideo")
    } else if text::same_text(&e, "mov") {
        Some("video/quicktime")
    } else if text::same_text(&e, "webm") {
        Some("video/webm")
    } else if text::same_text(&e, "flv") {
        Some("video/x-flv")
    } else if text::same_text(&e, "mp3") {
        Some("audio/mpeg")
    } else if text::same_text(&e, "m4a") {
        Some("audio/mp4")
    } else if text::same_text(&e, "aac") {
        Some("audio/aac")
    } else if text::same_text(&e, "flac") {
        Some("audio/flac")
    } else if text::same_text(&e, "ogg") || text::same_text(&e, "oga") || text::same_text(&e, "opus") {
        Some("audio/ogg")
    } else if text::same_text(&e, "wav") {
        Some("audio/wav")
    } else if text::same_text(&e, "wma") {
        Some("audio/x-ms-wma")
    } else if text::same_text(&e, "aiff") || text::same_text(&e, "aif") {
        Some("audio/aiff")
    } else if text::same_text(&e, "srt") {
        Some("text/srt")
    } else if text::same_text(&e, "vtt") {
        Some("text/vtt")
    } else if text::same_text(&e, "ass") || text::same_text(&e, "ssa") {
        Some("text/x-ssa")
    } else if text::same_text(&e, "jpg") || text::same_text(&e, "jpeg") {
        Some("image/jpeg")
    } else if text::same_text(&e, "png") {
        Some("image/png")
    } else {
        None
    }
}

/// A MIME type of video.
pub open spec fn is_video_mime(mime: Seq<char>) -> bool {
    text::starts_with(mime, "video/"@)
}

/// A MIME type of audio.
pub open spec fn is_audio_mime(mime: Seq<char>) -> bool {
    text::starts_with(mime, "audio/"@)
}

/// A file extension of playable media.
pub open spec fn is_indexed(ext: Seq<char>) -> bool {
    match mime_of(ext) {
        Some(m) => is_video_mime(m) || is_audio_mime(m),
        None => false,
    }
}

/// Decides whether files with this extension belong in the library.
pub fn is_indexed_media(ext: &str) -> (r: bool)
    ensures
        r == is_indexed(ext@),
{
    match mime_for_ext(ext) {
        Some(m) => text::has_prefix(m, "video/") || text::has_prefix(m, "audio/"),
        None => false,
    }
}

/// A path's extension as text, where it has one that is UTF-8.
pub open spec fn extension_text_of(p: Seq<Seq<u8>>) -> Option<Seq<char>> {
    match path::extension_of(p) {
        Some(e) => if utf8::valid_utf8(e) {
            Some(utf8::decode_utf8(e))
        } else {
            None
        },
        None => None,
    }
}

/// A path's extension as text, or nothing.
pub open spec fn ext_or_empty(p: Seq<Seq<u8>>) -> Seq<char> {
    match extension_text_of(p) {
        Some(e) => e,
        None => ""@,
    }
}

/// A path's extension as text.
pub fn extension_text(p: &MediaPath) -> (r: Option<String>)
    ensures
        match r {
            Some(e) => extension_text_of(p@) == Some(e@),
            None => extension_text_of(p@) is None,
        },
{
    match p.extension() {
        Some(e) => encoding::from_utf8(e.as_slice()),
        None => None,
    }
}

/// The MIME type that a path's extension stands for.
pub open spec fn path_mime_of(p: Seq<Seq<u8>>) -> Option<Seq<char>> {
    match extension_text_of(p) {
        Some(e) => mime_of(e),
        None => None,
    }
}

/// The MIME type that a path's extension stands for.
pub fn path_mime(p: &MediaPath) -> (r: Option<&'static str>)
    ensures
        match r {
            Some(m) => path_mime_of(p@) == Some(m@),
            None => path_mime_of(p@) is None,
        },
{
    match extension_text(p) {
        Some(e) => mime_for_ext(e.as_str()),
        None => None,
    }
}

/// A path whose extension stands for audio.
pub open spec fn is_audio_path(p: Seq<Seq<u8>>) -> bool {
    match path_mime_of(p) {
        Some(m) => is_audio_mime(m),
        None => false,
    }
}

/// Decides whether a file is listed as audio.
pub fn is_audio(path: &MediaPath) -> (r: bool)
    ensures
        r == is_audio_path(path@),
{
    match path_mime(path) {
        Some(m) => text::has_prefix(m, "audio/"),
        None => false,
    }
}

/// The name of a folder that indexing stays out of, in any case of its letters:
/// thumbnail stores, recycle bins and version control.
pub open spec fn is_junk_text(name: Seq<char>) -> bool {
    ||| text::lower(name) == ".git"@
    ||| text::lower(name) == ".trash"@
    ||| text::lower(name) == ".trashes"@
    ||| text::lower(name) == "@eadir"@
    ||| text::lower(name) == "@recycle"@
    ||| text::lower(name) == "#recycle"@
    ||| text::lower(name) == "$recycle.bin"@
    ||| text::lower(name) == "lost+found"@
}

/// `is_junk_text` of a name's bytes; a name that is not UTF-8 is no such folder.
pub open spec fn is_junk(name: Seq<u8>) -> bool {
    utf8::valid_utf8(name) && is_junk_text(utf8::decode_utf8(name))
}

/// Decides `is_junk`.
pub fn is_junk_dir_name(name: &[u8]) -> (r: bool)
    ensures
        r == is_junk(name@),
{
    match encoding::from_utf8(name) {
        Some(s) => {
            let l = text::to_ascii_lowercase(s.as_str());
            text::same_text(&l, ".git") || text::same_text(&l, ".trash") || text::same_text(&l, ".trashes") || text::same_text(&l, "@eadir") || text::same_text(&l, "@recycle") || text::same_text(&l, "#recycle") || text::same_text(&l, "$recycle.bin") || text::same_text(&l, "lost+found")
        },
        None => false,
    }
}

/// Decides whether a scan visits an entry that it meets `depth` levels below
/// its start: junk folders are left out, the start itself never is.
pub fn keep_entry(depth: usize, is_dir: bool, name: &[u8]) -> (r: bool)
    ensures
        r == (depth == 0 || !(is_dir && is_junk(name@))),
{
    depth == 0 || !(is_dir && is_junk_dir_name(name))
}

/// What a file is sorted by: its name in lower case, then its path.
pub open spec fn media_key(p: Seq<Seq<u8>>) -> (Seq<char>, Seq<Seq<u8>>) {
    match path::file_name_of(p) {
        Some(name) => (encoding::lowercase(encoding::shown(name)), p),
        None => (Seq::empty(), p),
    }
}

/// The sort keys of files.
pub open spec fn media_keys(files: Seq<Seq<Seq<u8>>>) -> Seq<(Seq<char>, Seq<Seq<u8>>)> {
    files.map_values(|p: Seq<Seq<u8>>| media_key(p))
}

/// `out` is the stable sort of `files` by name in lower case, then path.
pub open spec fn is_media_sort(files: Seq<Seq<Seq<u8>>>, out: Seq<Seq<Seq<u8>>>) -> bool {
    sort::is_sort_by(files, out, media_keys(files))
}

/// A name as it is shown, in lower case.
pub fn lower_shown(name: &[u8]) -> (r: Vec<char>)
    ensures
        r@ == encoding::lowercase(encoding::shown(name@)),
{
    let shown = encoding::from_utf8_lossy(name);
    let low = encoding::to_lowercase(shown.as_str());
    text::to_chars(low.as_str())
}

/// Computes `media_key`.
fn media_sort_key(p: &MediaPath) -> (k: SortKey)
    ensures
        k@ == media_key(p@),
{
    let name: Vec<char> = match p.file_name() {
        Some(n) => lower_shown(n.as_slice()),
        None => Vec::new(),
    };
    assert(path::file_name_of(p@) is None ==> name@ =~= Seq::<char>::empty());
    SortKey { name, path: p.copy() }
}

/// Sorts files by name in lower case, then by path.
pub fn sort_media_paths(files: &mut Vec<MediaPath>)
    ensures
        is_media_sort(path::paths(old(files)@), path::paths(final(files)@)),
{
    let ghost before = path::paths(files@);
    let mut keys: Vec<SortKey> = Vec::new();
    let mut i: usize = 0;
    while i < files.len()
        invariant
            i <= files@.len(),
            before == path::paths(files@),
            sort::keys_of(keys@) =~= media_keys(before).take(i as int),
        decreases files@.len() - i,
    {
        let ghost k0 = sort::keys_of(keys@);
        let k = media_sort_key(&files[i]);
        assert(before[i as int] == files@[i as int]@);
        keys.push(k);
        assert(sort::keys_of(keys@) =~= k0.push(k@));
        i += 1;
    }
    assert(media_keys(before).take(i as int) =~= media_keys(before));
    let order = sort::sorted_indices(&keys);
    let mut out: Vec<MediaPath> = Vec::new();
    let mut j: usize = 0;
    while j < order.len()
        invariant
            j <= order@.len(),
            before == path::paths(files@),
            sort::stable_sort(order@, media_keys(before)),
            out@.len() == j,
            forall|k: int| 0 <= k < j ==> #[trigger] out@[k]@ == before[order@[k] as int],
        decreases order@.len() - j,
    {
        let at: usize = order[j];
        assert(before[at as int] == files@[at as int]@);
        out.push(files[at].copy());
        j += 1;
    }
    *files = out;
    assert(sort::reordered(before, path::paths(files@), order@));
}

/// An entry that a scan of a folder met.
pub struct FoundEntry {
    pub path: MediaPath,
    pub is_file: bool,
}

/// The paths of those of the first `n` entries that are files to index.
pub open spec fn indexed_files(entries: Seq<FoundEntry>, n: int) -> Seq<Seq<Seq<u8>>>
    decreases n,
{
    if n <= 0 {
        Seq::empty()
    } else {
        let before = indexed_files(entries, n - 1);
        let e = entries[n - 1];
        if e.is_file && belongs(e.path@) {
            before.push(e.path@)
        } else {
            before
        }
    }
}

/// A path whose extension stands for indexed media.
pub open spec fn belongs(p: Seq<Seq<u8>>) -> bool {
    match extension_text_of(p) {
        Some(e) => is_indexed(e),
        None => false,
    }
}

/// The media files among the entries that a scan met, sorted.
pub fn find_media(entries: &Vec<FoundEntry>) -> (r: Vec<MediaPath>)
    ensures
        is_media_sort(indexed_files(entries@, entries@.len() as int), path::paths(r@)),
{
    let mut found: Vec<MediaPath> = Vec::new();
    let mut i: usize = 0;
    assert(path::paths(found@) =~= indexed_files(entries@, 0));
    while i < entries.len()
        invariant
            i <= entries@.len(),
            path::paths(found@) == indexed_files(entries@, i as int),
        decreases entries@.len() - i,
    {
        let ghost before = path::paths(found@);
        if entries[i].is_file {
            let indexed = match extension_text(&entries[i].path) {
                Some(ext) => is_indexed_media(ext.as_str()),
                None => false,
            };
            if indexed {
                found.push(entries[i].path.copy());
                assert(path::paths(found@) =~= before.push(entries@[i as int].path@));
            }
        }
        i += 1;
    }
    sort_media_paths(&mut found);
    found
}

/// Folder `i` is the first of its kind in `dirs`, and no other folder holds it.
pub open spec fn is_outermost(dirs: Seq<Seq<Seq<u8>>>, i: int) -> bool {
    &&& forall|j: int| 0 <= j < i ==> #[trigger] dirs[j] != dirs[i]
    &&& forall|j: int|
        0 <= j < dirs.len() && path::under(dirs[i], #[trigger] dirs[j]) ==> dirs[j] == dirs[i]
}

/// Those of the first `n` folders that are outermost.
pub open spec fn outermost(dirs: Seq<Seq<Seq<u8>>>, n: int) -> Seq<Seq<Seq<u8>>>
    decreases n,
{
    if n <= 0 {
        Seq::empty()
    } else if is_outermost(dirs, n - 1) {
        outermost(dirs, n - 1).push(dirs[n - 1])
    } else {
        outermost(dirs, n - 1)
    }
}

/// The source folders to serve, given their canonical paths: each once, and none
/// that lies inside another, so that no file is indexed twice.
pub fn unique_canonical_roots(dirs: &Vec<MediaPath>) -> (r: Vec<MediaPath>)
    ensures
        path::paths(r@) == outermost(path::paths(dirs@), dirs@.len() as int),
{
    let ghost all = path::paths(dirs@);
    let mut roots: Vec<MediaPath> = Vec::new();
    let mut i: usize = 0;
    assert(path::paths(roots@) =~= outermost(all, 0));
    while i < dirs.len()
        invariant
            i <= dirs@.len(),
            all == path::paths(dirs@),
            path::paths(roots@) == outermost(all, i as int),
        decreases dirs@.len() - i,
    {
        assert(all[i as int] == dirs@[i as int]@);
        let mut keep = true;
        let mut j: usize = 0;
        while j < dirs.len()
            invariant
                i < dirs@.len(),
                j <= dirs@.len(),
                all == path::paths(dirs@),
                keep == ((forall|k: int| 0 <= k < i && k < j ==> #[trigger] all[k] != all[i as int])
                    && (forall|k: int|
                    0 <= k < j && path::under(all[i as int], #[trigger] all[k]) ==> all[k]
                        == all[i as int])),
            decreases dirs@.len() - j,
        {
            assert(all[j as int] == dirs@[j as int]@);
            assert(all[i as int] == dirs@[i as int]@);
            if dirs[i].starts_with(&dirs[j]) {
                let same = dirs[i].same(&dirs[j]);
                if !same || j < i {
                    keep = false;
                }
            } else if keep {
                assert(all[j as int] != all[i as int]) by {
                    if all[j as int] == all[i as int] {
                        let d = all[i as int];
                        assert(d.subrange(0, d.len() as int) =~= d);
                    }
                }
            }
            j += 1;
        }
        let ghost before = path::paths(roots@);
        assert(keep == is_outermost(all, i as int));
        if keep {
            roots.push(dirs[i].copy());
            assert(path::paths(roots@) =~= before.push(all[i as int]));
        }
        i += 1;
    }
    roots
}

/// Each source folder that is served comes from the given ones, and lies inside
/// no other that is served.
pub proof fn law_roots_do_not_nest(dirs: Seq<Seq<Seq<u8>>>, a: int, b: int)
    requires
        0 <= a < outermost(dirs, dirs.len() as int).len(),
        0 <= b < outermost(dirs, dirs.len() as int).len(),
        a != b,
    ensures
        dirs.contains(outermost(dirs, dirs.len() as int)[a]),
        !path::under(
            outermost(dirs, dirs.len() as int)[a],
            outermost(dirs, dirs.len() as int)[b],
        ),
{
    let n = dirs.len() as int;
    let roots = outermost(dirs, n);
    lemma_outermost_sources(dirs, n);
    assert(is_outermost_in(dirs, n, roots[a]) && is_outermost_in(dirs, n, roots[b]));
    let i = choose|i: int| 0 <= i < n && is_outermost(dirs, i) && dirs[i] == roots[a];
    let j = choose|j: int| 0 <= j < n && is_outermost(dirs, j) && dirs[j] == roots[b];
    assert(roots[a] != roots[b]);
    if path::under(roots[a], roots[b]) {
        assert(dirs[j] == dirs[i]);
    }
}

/// `dir` is one of the first `n` folders, and outermost.
spec fn is_outermost_in(dirs: Seq<Seq<Seq<u8>>>, n: int, dir: Seq<Seq<u8>>) -> bool {
    exists|i: int| 0 <= i < n && is_outermost(dirs, i) && dirs[i] == dir
}

/// Outermost folders come from the list, and no two of them are the same.
proof fn lemma_outermost_sources(dirs: Seq<Seq<Seq<u8>>>, n: int)
    requires
        0 <= n <= dirs.len(),
    ensures
        forall|a: int|
            0 <= a < outermost(dirs, n).len() ==> is_outermost_in(
                dirs,
                n,
                #[trigger] outermost(dirs, n)[a],
            ),
        outermost(dirs, n).no_duplicates(),
    decreases n,
{
    if n > 0 {
        lemma_outermost_sources(dirs, n - 1);
        let before = outermost(dirs, n - 1);
        let now = outermost(dirs, n);
        assert forall|a: int| 0 <= a < now.len() implies is_outermost_in(
            dirs,
            n,
            #[trigger] now[a],
        ) by {
            if a < before.len() {
                assert(is_outermost_in(dirs, n - 1, before[a]));
                let i = choose|i: int| 0 <= i < n - 1 && is_outermost(dirs, i) && dirs[i] == before[a];
                assert(dirs[i] == now[a]);
            } else {
                assert(dirs[n - 1] == now[a]);
            }
        }
        if is_outermost(dirs, n - 1) {
            assert forall|a: int| 0 <= a < before.len() implies #[trigger] before[a] != dirs[n
                - 1] by {
                assert(is_outermost_in(dirs, n - 1, before[a]));
                let i = choose|i: int| 0 <= i < n - 1 && is_outermost(dirs, i) && dirs[i] == before[a];
                assert(dirs[i] != dirs[n - 1]);
            }
        }
    }
}

/// Every given folder is covered: it is served itself, or lies inside one that is.
pub proof fn law_roots_cover(dirs: Seq<Seq<Seq<u8>>>, i: int)
    requires
        0 <= i < dirs.len(),
    ensures
        exists|a: int|
            0 <= a < outermost(dirs, dirs.len() as int).len() && path::under(
                dirs[i],
                #[trigger] outermost(dirs, dirs.len() as int)[a],
            ),
    decreases dirs[i].len(), i,
{
    let roots = outermost(dirs, dirs.len() as int);
    assert(dirs[i].subrange(0, dirs[i].len() as int) =~= dirs[i]);
    if is_outermost(dirs, i) {
        lemma_outermost_kept(dirs, i, dirs.len() as int);
        let a = choose|a: int| 0 <= a < roots.len() && roots[a] == dirs[i];
        assert(path::under(dirs[i], roots[a]));
    } else if exists|j: int| 0 <= j < i && dirs[j] == dirs[i] {
        let j = choose|j: int| 0 <= j < i && dirs[j] == dirs[i];
        law_roots_cover(dirs, j);
    } else {
        let j = choose|j: int|
            0 <= j < dirs.len() && path::under(dirs[i], #[trigger] dirs[j]) && dirs[j] != dirs[i];
        assert(dirs[j].len() < dirs[i].len()) by {
            if dirs[j].len() == dirs[i].len() {
                assert(dirs[i].subrange(0, dirs[j].len() as int) =~= dirs[i]);
            }
        }
        law_roots_cover(dirs, j);
        let a = choose|a: int| 0 <= a < roots.len() && path::under(dirs[j], #[trigger] roots[a]);
        let r = roots[a];
        assert(dirs[i].subrange(0, r.len() as int) =~= dirs[j].subrange(0, r.len() as int)) by {
            assert forall|k: int| 0 <= k < r.len() implies dirs[i][k] == dirs[j][k] by {
                assert(dirs[i].subrange(0, dirs[j].len() as int)[k] == dirs[i][k]);
            }
        }
        assert(path::under(dirs[i], roots[a]));
    }
}

/// An outermost folder is kept.
proof fn lemma_outermost_kept(dirs: Seq<Seq<Seq<u8>>>, i: int, n: int)
    requires
        0 <= i < n <= dirs.len(),
        is_outermost(dirs, i),
    ensures
        outermost(dirs, n).contains(dirs[i]),
    decreases n,
{
    let now = outermost(dirs, n);
    if i == n - 1 {
        assert(now[now.len() - 1] == dirs[i]);
    } else {
        lemma_outermost_kept(dirs, i, n - 1);
        let before = outermost(dirs, n - 1);
        let a = choose|a: int| 0 <= a < before.len() && before[a] == dirs[i];
        assert(now[a] == dirs[i]);
    }
}

/// Sorting keeps every file and adds none.
pub proof fn law_sort_keeps_files(
    files: Seq<Seq<Seq<u8>>>,
    out: Seq<Seq<Seq<u8>>>,
    file: Seq<Seq<u8>>,
)
    requires
        files.len() <= usize::MAX,
        is_media_sort(files, out),
    ensures
        out.len() == files.len(),
        out.contains(file) == files.contains(file),
{
    let order = choose|order: Seq<usize>|
        #![trigger sort::reordered(files, out, order)]
        sort::stable_sort(order, media_keys(files)) && sort::reordered(files, out, order);
    assert(media_keys(files).len() == files.len());
    if out.contains(file) {
        let i = choose|i: int| 0 <= i < out.len() && out[i] == file;
        assert(out[i] == files[order[i] as int]);
    }
    if files.contains(file) {
        let j = choose|j: int| 0 <= j < files.len() && files[j] == file;
        assert(order.contains(j as usize));
        let i = choose|i: int| 0 <= i < order.len() && order[i] == j as usize;
        assert(out[i] == files[j]);
    }
}

/// A scan finds exactly the files whose extension stands for playable media.
pub proof fn law_scan_finds_media(
    entries: Seq<FoundEntry>,
    out: Seq<Seq<Seq<u8>>>,
    file: Seq<Seq<u8>>,
)
    requires
        entries.len() <= usize::MAX,
        is_media_sort(indexed_files(entries, entries.len() as int), out),
    ensures
        out.contains(file) == exists|i: int|
            0 <= i < entries.len() && (#[trigger] entries[i]).is_file && entries[i].path@ == file
                && belongs(file),
{
    let n = entries.len() as int;
    lemma_indexed_files(entries, n, file);
    law_sort_keeps_files(indexed_files(entries, n), out, file);
}

/// What is indexed of the first entries.
proof fn lemma_indexed_files(entries: Seq<FoundEntry>, n: int, file: Seq<Seq<u8>>)
    requires
        0 <= n <= entries.len(),
    ensures
        indexed_files(entries, n).len() <= n,
        indexed_files(entries, n).contains(file) == exists|i: int|
            0 <= i < n && (#[trigger] entries[i]).is_file && entries[i].path@ == file && belongs(
                file,
            ),
    decreases n,
{
    if n > 0 {
        lemma_indexed_files(entries, n - 1, file);
        let before = indexed_files(entries, n - 1);
        let now = indexed_files(entries, n);
        let e = entries[n - 1];
        if now.contains(file) {
            let k = choose|k: int| 0 <= k < now.len() && now[k] == file;
            if k < before.len() {
                assert(before[k] == file);
            } else {
                assert(e.is_file && e.path@ == file);
            }
        }
        if e.is_file && e.path@ == file && belongs(file) {
            assert(now[now.len() - 1] == file);
        }
        if before.contains(file) {
            let k = choose|k: int| 0 <= k < before.len() && before[k] == file;
            assert(now[k] == file);
        }
    }
}

/// A file lies under at most one of the source folders that are served, so that
/// none is indexed twice.
pub proof fn law_file_has_one_root(
    dirs: Seq<Seq<Seq<u8>>>,
    file: Seq<Seq<u8>>,
    a: int,
    b: int,
)
    requires
        0 <= a < outermost(dirs, dirs.len() as int).len(),
        0 <= b < outermost(dirs, dirs.len() as int).len(),
        path::under(file, outermost(dirs, dirs.len() as int)[a]),
        path::under(file, outermost(dirs, dirs.len() as int)[b]),
    ensures
        a == b,
{
    let roots = outermost(dirs, dirs.len() as int);
    if a != b {
        law_roots_do_not_nest(dirs, a, b);
        law_roots_do_not_nest(dirs, b, a);
        let (x, y) = if roots[a].len() <= roots[b].len() {
            (roots[a], roots[b])
        } else {
            (roots[b], roots[a])
        };
        assert(y.subrange(0, x.len() as int) =~= x) by {
            assert forall|k: int| 0 <= k < x.len() implies y[k] == x[k] by {
                assert(file.subrange(0, x.len() as int)[k] == file[k]);
                assert(file.subrange(0, y.len() as int)[k] == file[k]);
            }
        }
        assert(path::under(y, x));
    }
}

/// The order of files does not depend on the order in which a scan met them: two
/// lists that hold the same files, each as often, are sorted into the same list.
pub proof fn law_order_does_not_depend_on_the_scan(
    files: Seq<Seq<Seq<u8>>>,
    others: Seq<Seq<Seq<u8>>>,
    out: Seq<Seq<Seq<u8>>>,
    other_out: Seq<Seq<Seq<u8>>>,
)
    requires
        files.len() <= usize::MAX,
        files.to_multiset() == others.to_multiset(),
        is_media_sort(files, out),
        is_media_sort(others, other_out),
    ensures
        out == other_out,
{
    broadcast use vstd::seq_lib::group_to_multiset_ensures;

    assert(files.len() == files.to_multiset().len());
    assert(others.len() == others.to_multiset().len());
    sort::law_sorting_keeps_items(files, out, media_keys(files));
    sort::law_sorting_keeps_items(others, other_out, media_keys(others));
    lemma_sorted_output(files, out);
    lemma_sorted_output(others, other_out);
    lemma_file_order();
    vstd::seq_lib::lemma_sorted_unique(out, other_out, file_leq());
}

/// A file sorts before another, or is the same.
spec fn file_leq() -> spec_fn(Seq<Seq<u8>>, Seq<Seq<u8>>) -> bool {
    |a: Seq<Seq<u8>>, b: Seq<Seq<u8>>| a == b || sort::key_less(media_key(a), media_key(b))
}

/// Files are totally ordered.
proof fn lemma_file_order()
    ensures
        vstd::relations::total_ordering(file_leq()),
{
    let leq = file_leq();
    assert forall|a: Seq<Seq<u8>>, b: Seq<Seq<u8>>| #[trigger] leq(a, b) && #[trigger] leq(b, a)
        implies a == b by {
        if a != b {
            sort::lemma_key_asymmetric(media_key(a), media_key(b));
        }
    }
    assert forall|a: Seq<Seq<u8>>, b: Seq<Seq<u8>>, c: Seq<Seq<u8>>| #[trigger]
        leq(a, b) && #[trigger] leq(b, c) implies leq(a, c) by {
        if a != b && b != c {
            sort::lemma_key_transitive(media_key(a), media_key(b), media_key(c));
        }
    }
    assert forall|a: Seq<Seq<u8>>, b: Seq<Seq<u8>>| #[trigger] leq(a, b) || leq(b, a) by {
        if a != b {
            sort::lemma_key_total(media_key(a), media_key(b));
        }
    }
}

/// Files that were sorted follow each other.
proof fn lemma_sorted_output(files: Seq<Seq<Seq<u8>>>, out: Seq<Seq<Seq<u8>>>)
    requires
        files.len() <= usize::MAX,
        is_media_sort(files, out),
    ensures
        vstd::relations::sorted_by(out, file_leq()),
{
    let keys = media_keys(files);
    let order = choose|order: Seq<usize>|
        #![trigger sort::reordered(files, out, order)]
        sort::stable_sort(order, keys) && sort::reordered(files, out, order);
    let leq = file_leq();
    assert forall|i: int, j: int| 0 <= i < j < out.len() implies #[trigger] leq(out[i], out[j]) by {
        let x = order[i] as int;
        let y = order[j] as int;
        assert(sort::entry_less(keys, x, y));
        assert(keys[x] == media_key(files[x]) && keys[y] == media_key(files[y]));
        assert(out[i] == files[x] && out[j] == files[y]);
    }
}

/// The extensions of subtitles, told from all before them.
pub proof fn lemma_subtitle_mimes()
    ensures
        mime_of("srt"@) == Some("text/srt"@),
        mime_of("vtt"@) == Some("text/vtt"@),
        mime_of("ass"@) == Some("text/x-ssa"@),
{
    reveal_strlit("mp4");
    assert("mp4"@[0] == 'm' && "mp4"@[1] == 'p' && "mp4"@[2] == '4');
    reveal_strlit("m4v");
    assert("m4v"@[0] == 'm' && "m4v"@[1] == '4' && "m4v"@[2] == 'v');
    reveal_strlit("mkv");
    assert("mkv"@[0] == 'm' && "mkv"@[1] == 'k' && "mkv"@[2] == 'v');
    reveal_strlit("avi");
    assert("avi"@[0] == 'a' && "avi"@[1] == 'v' && "avi"@[2] == 'i');
    reveal_strlit("mov");
    assert("mov"@[0] == 'm' && "mov"@[1] == 'o' && "mov"@[2] == 'v');
    reveal_strlit("webm");
    assert("webm"@.len() == 4 && "webm"@[0] == 'w');
    reveal_strlit("flv");
    assert("flv"@[0] == 'f' && "flv"@[1] == 'l' && "flv"@[2] == 'v');
    reveal_strlit("mp3");
    assert("mp3"@[0] == 'm' && "mp3"@[1] == 'p' && "mp3"@[2] == '3');
    reveal_strlit("m4a");
    assert("m4a"@[0] == 'm' && "m4a"@[1] == '4' && "m4a"@[2] == 'a');
    reveal_strlit("aac");
    assert("aac"@[0] == 'a' && "aac"@[1] == 'a' && "aac"@[2] == 'c');
    reveal_strlit("flac");
    assert("flac"@.len() == 4 && "flac"@[0] == 'f');
    reveal_strlit("ogg");
    assert("ogg"@[0] == 'o' && "ogg"@[1] == 'g' && "ogg"@[2] == 'g');
    reveal_strlit("oga");
    assert("oga"@[0] == 'o' && "oga"@[1] == 'g' && "oga"@[2] == 'a');
    reveal_strlit("opus");
    assert("opus"@.len() == 4 && "opus"@[0] == 'o');
    reveal_strlit("wav");
    assert("wav"@[0] == 'w' && "wav"@[1] == 'a' && "wav"@[2] == 'v');
    reveal_strlit("wma");
    assert("wma"@[0] == 'w' && "wma"@[1] == 'm' && "wma"@[2] == 'a');
    reveal_strlit("aiff");
    assert("aiff"@.len() == 4 && "aiff"@[0] == 'a');
    reveal_strlit("aif");
    assert("aif"@[0] == 'a' && "aif"@[1] == 'i' && "aif"@[2] == 'f');
    reveal_strlit("srt");
    assert("srt"@[0] == 's' && "srt"@[1] == 'r' && "srt"@[2] == 't');
    reveal_strlit("vtt");
    assert("vtt"@[0] == 'v' && "vtt"@[1] == 't' && "vtt"@[2] == 't');
    reveal_strlit("ass");
    assert("ass"@[0] == 'a' && "ass"@[1] == 's' && "ass"@[2] == 's');
    assert("srt"@.len() == 3);
    assert(text::lower("srt"@) =~= "srt"@);
    assert("vtt"@.len() == 3);
    assert(text::lower("vtt"@) =~= "vtt"@);
    assert("ass"@.len() == 3);
    assert(text::lower("ass"@) =~= "ass"@);
}

/// The formats that are served, by extension.
pub open spec fn is_format(ext: Seq<char>, mime: Seq<char>) -> bool {
    ||| mime == "video/mp4"@ && (ext == "mp4"@ || ext == "m4v"@)
    ||| mime == "video/x-matroska"@ && ext == "mkv"@
    ||| mime == "video/x-msvideo"@ && ext == "avi"@
    ||| mime == "video/quicktime"@ && ext == "mov"@
    ||| mime == "video/webm"@ && ext == "webm"@
    ||| mime == "video/x-flv"@ && ext == "flv"@
    ||| mime == "audio/mpeg"@ && ext == "mp3"@
    ||| mime == "audio/mp4"@ && ext == "m4a"@
    ||| mime == "audio/aac"@ && ext == "aac"@
    ||| mime == "audio/flac"@ && ext == "flac"@
    ||| mime == "audio/ogg"@ && (ext == "ogg"@ || ext == "oga"@ || ext == "opus"@)
    ||| mime == "audio/wav"@ && ext == "wav"@
    ||| mime == "audio/x-ms-wma"@ && ext == "wma"@
    ||| mime == "audio/aiff"@ && (ext == "aiff"@ || ext == "aif"@)
    ||| mime == "text/srt"@ && ext == "srt"@
    ||| mime == "text/vtt"@ && ext == "vtt"@
    ||| mime == "text/x-ssa"@ && (ext == "ass"@ || ext == "ssa"@)
    ||| mime == "image/jpeg"@ && (ext == "jpg"@ || ext == "jpeg"@)
    ||| mime == "image/png"@ && ext == "png"@
}

/// The extensions are all different.
proof fn lemma_extensions_differ(ext: Seq<char>, a: Seq<char>, b: Seq<char>)
    requires
        is_format(ext, a),
        is_format(ext, b),
    ensures
        a == b,
{
    reveal_strlit("mp4");
    reveal_strlit("m4v");
    reveal_strlit("mkv");
    reveal_strlit("avi");
    reveal_strlit("mov");
    reveal_strlit("webm");
    reveal_strlit("flv");
    reveal_strlit("mp3");
    reveal_strlit("m4a");
    reveal_strlit("aac");
    reveal_strlit("flac");
    reveal_strlit("ogg");
    reveal_strlit("oga");
    reveal_strlit("opus");
    reveal_strlit("wav");
    reveal_strlit("wma");
    reveal_strlit("aiff");
    reveal_strlit("aif");
    reveal_strlit("srt");
    reveal_strlit("vtt");
    reveal_strlit("ass");
    reveal_strlit("ssa");
    reveal_strlit("jpg");
    reveal_strlit("jpeg");
    reveal_strlit("png");
    // The length and the first three letters tell them apart.
    let n = ext.len();
    let letters = (ext[0], ext[1], ext[2]);
}

/// What stands behind the last full stop of a file's name is its extension.
pub proof fn law_extensions_are_texts(dir: Seq<Seq<u8>>, stem: Seq<u8>, word: Seq<char>)
    requires
        stem.len() > 0,
        word.len() > 0,
        encoding::all_ascii(word),
        forall|i: int| 0 <= i < word.len() ==> #[trigger] word[i] != '.',
    ensures
        extension_text_of(dir.push(stem + seq![path::DOT] + utf8::encode_utf8(word))) == Some(word),
{
    let ext = utf8::encode_utf8(word);
    encoding::lemma_encode_ascii(word);
    assert(!ext.contains(path::DOT)) by {
        if ext.contains(path::DOT) {
            let i = choose|i: int| 0 <= i < ext.len() && ext[i] == path::DOT;
            assert(ext[i] == encoding::ascii_byte(word[i]));
            assert(word[i] != '.');
            encoding::lemma_ascii_byte(word[i]);
        }
    }
    path::law_extensions_are_read(dir, stem, ext);
    utf8::encode_utf8_valid_utf8(word);
    utf8::encode_utf8_decode_utf8(word);
}

/// A file is of the format that its extension stands for, in whatever case the
/// extension is spelled and whatever the rest of the name is; a file with any
/// other extension is not served.
pub proof fn law_files_are_of_their_format(
    dir: Seq<Seq<u8>>,
    stem: Seq<u8>,
    word: Seq<char>,
    mime: Seq<char>,
)
    requires
        stem.len() > 0,
        word.len() > 0,
        encoding::all_ascii(word),
        forall|i: int| 0 <= i < word.len() ==> #[trigger] word[i] != '.',
    ensures
        path_mime_of(dir.push(stem + seq![path::DOT] + utf8::encode_utf8(word))) == Some(mime)
            <==> is_format(text::lower(word), mime),
{
    law_extensions_are_texts(dir, stem, word);
    let e = text::lower(word);
    match mime_of(word) {
        Some(m) => {
            assert(is_format(e, m));
            if is_format(e, mime) {
                lemma_extensions_differ(e, m, mime);
            }
        },
        None => {},
    }
}

/// Videos and audio belong in the library; subtitles and pictures are served and
/// do not.
pub proof fn law_what_belongs_in_the_library(p: Seq<Seq<u8>>, mime: Seq<char>)
    requires
        path_mime_of(p) == Some(mime),
    ensures
        belongs(p) <==> text::starts_with(mime, "video/"@) || text::starts_with(mime, "audio/"@),
        is_audio_path(p) <==> text::starts_with(mime, "audio/"@),
{
}

/// A scan stays out of the folders of version control, recycle bins and
/// thumbnail stores, in whatever case they are spelled, and of no others.
pub proof fn law_what_a_scan_stays_out_of(name: Seq<char>)
    ensures
        is_junk(utf8::encode_utf8(name)) <==> {
            let n = text::lower(name);
            n == ".git"@ || n == ".trash"@ || n == ".trashes"@ || n == "@eadir"@ || n
                == "@recycle"@ || n == "#recycle"@ || n == "$recycle.bin"@ || n == "lost+found"@
        },
{
    utf8::encode_utf8_valid_utf8(name);
    utf8::encode_utf8_decode_utf8(name);
}

/// Files are sorted by name, without regard to case: of two files the name of
/// the later one does not come before that of the earlier one, at any position.
pub proof fn law_files_are_in_order(
    files: Seq<Seq<Seq<u8>>>,
    out: Seq<Seq<Seq<u8>>>,
    i: int,
    j: int,
    a: Seq<u8>,
    b: Seq<u8>,
    k: int,
)
    requires
        files.len() <= usize::MAX,
        is_media_sort(files, out),
        0 <= i < j < out.len(),
        path::file_name_of(out[i]) == Some(a),
        path::file_name_of(out[j]) == Some(b),
    ensures
        ({
            let first = encoding::lowercase(encoding::shown(a));
            let second = encoding::lowercase(encoding::shown(b));
            !(0 <= k <= second.len() && k < first.len() && first.subrange(0, k)
                == second.subrange(0, k) && (k == second.len() || second[k] < first[k]))
        }),
{
    let first = encoding::lowercase(encoding::shown(a));
    let second = encoding::lowercase(encoding::shown(b));
    let keys = media_keys(files);
    let order = choose|order: Seq<usize>|
        #![trigger sort::reordered(files, out, order)]
        sort::stable_sort(order, keys) && sort::reordered(files, out, order);
    assert(out[i] == files[order[i] as int] && out[j] == files[order[j] as int]);
    assert(keys[order[i] as int] == media_key(out[i]));
    assert(keys[order[j] as int] == media_key(out[j]));
    sort::law_sorted_names(keys, order[i] as int, order[j] as int, k);
    assert(keys[order[i] as int].0 == first);
    assert(keys[order[j] as int].0 == second);
}

/// Files of the same name, but for case, are sorted by their paths: nowhere is
/// the path of the later one the same up to a part and earlier there.
pub proof fn law_same_names_go_by_path(
    files: Seq<Seq<Seq<u8>>>,
    out: Seq<Seq<Seq<u8>>>,
    i: int,
    j: int,
    a: Seq<u8>,
    b: Seq<u8>,
    k: int,
    at: int,
)
    requires
        files.len() <= usize::MAX,
        is_media_sort(files, out),
        0 <= i < j < out.len(),
        path::file_name_of(out[i]) == Some(a),
        path::file_name_of(out[j]) == Some(b),
        encoding::lowercase(encoding::shown(a)) == encoding::lowercase(encoding::shown(b)),
    ensures
        !(0 <= k <= out[j].len() && k < out[i].len() && out[i].subrange(0, k) == out[j].subrange(
            0,
            k,
        ) && (k == out[j].len() || sort::is_earlier_part(out[j][k], out[i][k], at))),
{
    let keys = media_keys(files);
    let order = choose|order: Seq<usize>|
        #![trigger sort::reordered(files, out, order)]
        sort::stable_sort(order, keys) && sort::reordered(files, out, order);
    assert(out[i] == files[order[i] as int] && out[j] == files[order[j] as int]);
    assert(keys[order[i] as int] == media_key(out[i]));
    assert(keys[order[j] as int] == media_key(out[j]));
    sort::law_sorted_paths(keys, order[i] as int, order[j] as int, k, at);
}

} // verus!
