use spritz::folder::{build_folder_tree, sort_folder_tree};
use spritz::library::{file_record, index_media, sidecar_subtitle_bits, subtitle_candidates, FileStat};
use spritz::media::{
    find_media, is_audio, is_indexed_media, is_junk_dir_name, keep_entry, mime_for_ext,
    sort_media_paths, unique_canonical_roots, FoundEntry, ALL_MIMES,
};
use spritz::path::MediaPath;
use spritz::profile::{dlna_org_pn, format_dlna_duration, mime_ext, protocol_info, source_protocol_info};
use spritz::url::{decode_rel_path, encode_path, media_request, media_url_path};
use std::time::Duration;

fn p(text: &str) -> MediaPath {
    MediaPath::parse(text.as_bytes())
}

fn shown(path: &MediaPath) -> String {
    String::from_utf8_lossy(&path.text()).into_owned()
}

fn all_shown(paths: &[MediaPath]) -> Vec<String> {
    paths.iter().map(shown).collect()
}

fn file(text: &str) -> FoundEntry {
    FoundEntry { path: p(text), is_file: true }
}

fn dir(text: &str) -> FoundEntry {
    FoundEntry { path: p(text), is_file: false }
}

#[test]
fn paths_are_read_by_components() {
    assert_eq!(shown(&p("/a//b/./c/")), "/a/b/c");
    assert_eq!(shown(&p("/")), "/");
    assert_eq!(shown(&p("")), "");
    assert_eq!(shown(&p("./a")), "./a");
    assert_eq!(p("./a").parts.len(), 2);
    assert_eq!(p("/a").parts[0].len(), 0);
}

#[test]
fn path_text_reads_back() {
    for text in ["/media/movies/a.mp4", "a/b", ".", "../x", "/", "shows/S01/ep 1.mkv"] {
        let path = p(text);
        assert!(MediaPath::parse(&path.text()).same(&path), "{text}");
        assert_eq!(path.text(), text.as_bytes());
    }
}

#[test]
fn path_parts_follow_the_file_name() {
    let path = p("/m/clip.tar.gz");
    assert_eq!(path.file_name().unwrap(), b"clip.tar.gz");
    assert_eq!(path.extension().unwrap(), b"gz");
    assert_eq!(path.file_stem().unwrap(), b"clip.tar");
    assert_eq!(shown(&path.with_extension(b"srt")), "/m/clip.tar.srt");
    assert_eq!(shown(&path.parent().unwrap()), "/m");
    assert!(p("/m/.hidden").extension().is_none());
    assert_eq!(p("/m/.hidden").file_stem().unwrap(), b".hidden");
    assert!(p("/").parent().is_none());
    assert!(p("").parent().is_none());
    assert!(p("a/..").file_name().is_none());
    assert!(p("/media/movies").starts_with(&p("/media")));
    assert!(!p("/media2").starts_with(&p("/media")));
    assert_eq!(shown(&p("/media/a/b").strip_prefix(&p("/media")).unwrap()), "a/b");
}

#[test]
fn find_media_indexes_supported_extensions_only() {
    let found = find_media(&vec![
        dir("/t"),
        file("/t/movie.mp4"),
        file("/t/song.mp3"),
        file("/t/notes.txt"),
        dir("/t/sub"),
        file("/t/sub/clip.mkv"),
    ]);
    assert_eq!(all_shown(&found), ["/t/sub/clip.mkv", "/t/movie.mp4", "/t/song.mp3"]);
}

#[test]
fn find_media_does_not_index_sidecar_subtitles() {
    let found = find_media(&vec![
        file("/t/movie.mp4"),
        file("/t/movie.srt"),
        file("/t/movie.vtt"),
    ]);
    assert_eq!(all_shown(&found), ["/t/movie.mp4"]);
}

#[test]
fn find_media_sorts_by_file_name() {
    let found = find_media(&vec![
        file("/t/zeta.mp4"),
        file("/t/alpha.mp4"),
        file("/t/sub/middle.mp4"),
    ]);
    assert_eq!(all_shown(&found), ["/t/alpha.mp4", "/t/sub/middle.mp4", "/t/zeta.mp4"]);
}

#[test]
fn find_media_takes_files_only() {
    assert!(find_media(&vec![dir("/t/movie.mp4"), file("/t/noext"), file("/t/.mp4")]).is_empty());
}

#[test]
fn find_media_skips_junk_directories() {
    for junk in [".git", ".Trash", "@eaDir", "#recycle"] {
        assert!(!keep_entry(1, true, junk.as_bytes()), "{junk}");
        assert!(keep_entry(1, false, junk.as_bytes()), "{junk}");
        assert!(keep_entry(0, true, junk.as_bytes()), "{junk}");
    }
    for junk in [".trashes", "@RECYCLE", "$Recycle.Bin", "LOST+FOUND"] {
        assert!(is_junk_dir_name(junk.as_bytes()), "{junk}");
    }
    assert!(keep_entry(1, true, b"movies"));
    assert!(!is_junk_dir_name(&[0xff]));
    assert!(!is_junk_dir_name(b".gitignore"));
}

#[test]
fn sort_media_paths_ignores_case_and_breaks_ties_by_path() {
    let mut files = vec![p("/b/Zoo.mp4"), p("/b/apple.mp4"), p("/a/APPLE.mp4"), p("/a/apple.mp4")];
    sort_media_paths(&mut files);
    assert_eq!(
        all_shown(&files),
        ["/a/APPLE.mp4", "/a/apple.mp4", "/b/apple.mp4", "/b/Zoo.mp4"]
    );
}

#[test]
fn sort_media_paths_keeps_every_file() {
    let mut files: Vec<MediaPath> = (0..50).map(|i| p(&format!("/m/f{}.mp4", (i * 37) % 50))).collect();
    sort_media_paths(&mut files);
    let mut expected: Vec<String> = (0..50).map(|i| format!("/m/f{i}.mp4")).collect();
    expected.sort();
    assert_eq!(all_shown(&files), expected);
}

#[test]
fn is_audio_goes_by_extension() {
    assert!(is_audio(&p("/m/a.FLAC")));
    assert!(!is_audio(&p("/m/a.mkv")));
    assert!(!is_audio(&p("/m/a")));
    assert!(!is_audio(&p("/m/a.txt")));
}

#[test]
fn unique_canonical_roots_drops_nested_and_duplicate_paths() {
    let roots = unique_canonical_roots(&vec![p("/t/movies"), p("/t/movies/kids"), p("/t/movies/.")]);
    assert_eq!(all_shown(&roots), ["/t/movies"]);
}

#[test]
fn unique_canonical_roots_keeps_sibling_directories() {
    let roots = unique_canonical_roots(&vec![p("/t/movies"), p("/t/music")]);
    assert_eq!(all_shown(&roots), ["/t/movies", "/t/music"]);
}

#[test]
fn unique_canonical_roots_lets_a_later_parent_win() {
    let roots = unique_canonical_roots(&vec![p("/t/a/b"), p("/u"), p("/t/a"), p("/t/a/c")]);
    assert_eq!(all_shown(&roots), ["/u", "/t/a"]);
}

#[test]
fn mime_for_ext_is_case_insensitive_and_rejects_unknown() {
    assert_eq!(mime_for_ext("MP4"), Some("video/mp4"));
    assert_eq!(mime_for_ext("mkv"), Some("video/x-matroska"));
    assert_eq!(mime_for_ext("mp3"), Some("audio/mpeg"));
    assert_eq!(mime_for_ext("jpg"), Some("image/jpeg"));
    assert_eq!(mime_for_ext("txt"), None);
    assert_eq!(mime_for_ext(""), None);
}

#[test]
fn mime_for_ext_serves_sidecar_subtitles() {
    assert_eq!(mime_for_ext("srt"), Some("text/srt"));
    assert_eq!(mime_for_ext("vtt"), Some("text/vtt"));
    assert_eq!(mime_for_ext("ass"), Some("text/x-ssa"));
    assert!(!is_indexed_media("srt"));
    assert!(!is_indexed_media("jpg"));
    assert!(is_indexed_media("mp4"));
}

#[test]
fn every_extension_has_its_mime_type() {
    for (ext, mime) in [
        ("m4v", "video/mp4"),
        ("avi", "video/x-msvideo"),
        ("mov", "video/quicktime"),
        ("webm", "video/webm"),
        ("flv", "video/x-flv"),
        ("m4a", "audio/mp4"),
        ("aac", "audio/aac"),
        ("flac", "audio/flac"),
        ("ogg", "audio/ogg"),
        ("oga", "audio/ogg"),
        ("opus", "audio/ogg"),
        ("wav", "audio/wav"),
        ("wma", "audio/x-ms-wma"),
        ("aiff", "audio/aiff"),
        ("aif", "audio/aiff"),
        ("ssa", "text/x-ssa"),
        ("jpeg", "image/jpeg"),
        ("png", "image/png"),
    ] {
        assert_eq!(mime_for_ext(ext), Some(mime));
    }
}

#[test]
fn advertised_mimes_are_those_of_indexed_media() {
    assert_eq!(ALL_MIMES.len(), 14);
    for mime in ALL_MIMES {
        assert_eq!(mime_for_ext(mime_ext(mime)), Some(mime));
        assert!(is_indexed_media(mime_ext(mime)));
    }
    assert_eq!(mime_ext("text/plain"), "");
    let info = source_protocol_info();
    assert_eq!(info.split(',').count(), 14);
    assert!(info.starts_with("http-get:*:video/mp4:DLNA.ORG_PN=AVC_MP4_MP_SD_AAC_MULT5;DLNA.ORG_OP=01;"));
    assert!(info.contains("http-get:*:video/webm:DLNA.ORG_OP=01;"));
}

#[test]
fn encode_path_percent_encodes_segments() {
    assert_eq!(encode_path(&p("My Movie.mp4")), "My%20Movie.mp4");
    assert_eq!(encode_path(&p("shows/S01/ep 1.mkv")), "shows/S01/ep%201.mkv");
    assert_eq!(encode_path(&p("å.mp3")), "%C3%A5.mp3");
}

#[test]
fn names_that_are_not_text_read_back() {
    let file = MediaPath::parse(b"/media/\xff.mp4");
    assert_eq!(encode_path(&MediaPath::parse(b"\xff.mp4")), "%FF.mp4");
    let (i, tail) = media_url_path(&file, &vec![p("/media")]).unwrap();
    let (j, relative) = media_request(&format!("/m/{i}/{tail}")).unwrap();
    assert_eq!((i, j), (0, 0));
    assert_eq!(relative.text(), b"\xff.mp4");
}

#[test]
fn media_url_path_uses_the_first_matching_prefix() {
    let dirs = vec![p("/media"), p("/media/movies")];
    let file = p("/media/movies/a.mp4");
    assert_eq!(media_url_path(&file, &dirs), Some((0, "movies/a.mp4".into())));
    assert_eq!(media_url_path(&p("/other/a.mp4"), &dirs), None);
}

#[test]
fn media_urls_lead_back_to_the_file() {
    let dirs = vec![p("/media"), p("/srv/Filme & Serien")];
    for text in ["/media/a b/c%20d.mp4", "/srv/Filme & Serien/ä/100%.mkv", "/media/x+y~z_.mp3"] {
        let file = p(text);
        let (i, tail) = media_url_path(&file, &dirs).unwrap();
        let (j, relative) = media_request(&format!("/m/{i}/{tail}")).unwrap();
        assert_eq!(i, j);
        assert!(relative.same(&file.strip_prefix(&dirs[i]).unwrap()), "{text}");
    }
}

#[test]
fn media_request_reads_number_and_path() {
    let (idx, relative) = media_request("/m/0/%FF.mp4").unwrap();
    assert_eq!(idx, 0);
    assert_eq!(relative.text(), [0xff, b'.', b'm', b'p', b'4']);
    let (idx, relative) = media_request("/m/12/a/../b%2Fc").unwrap();
    assert_eq!(idx, 12);
    assert_eq!(relative.text(), b"a/../b/c");
    assert!(media_request("/m/0/").is_none());
    assert!(media_request("/m//x").is_none());
    assert!(media_request("/m/x/y").is_none());
    assert!(media_request("/m/0").is_none());
    assert!(media_request("/art/0/x").is_none());
}

#[test]
fn decoding_keeps_a_stray_percent_sign() {
    assert_eq!(decode_rel_path("100%").text(), b"100%");
    assert_eq!(decode_rel_path("%4%41").text(), b"%4A");
    assert_eq!(decode_rel_path("%zz+").text(), b"%zz+");
}

#[test]
fn format_dlna_duration_uses_h_mm_ss_mmm() {
    assert_eq!(format_dlna_duration(Duration::from_millis(0).as_millis()), "0:00:00.000");
    assert_eq!(format_dlna_duration(Duration::from_millis(125_250).as_millis()), "0:02:05.250");
    assert_eq!(format_dlna_duration(Duration::from_secs(3661).as_millis()), "1:01:01.000");
}

#[test]
fn duration_hours_have_no_limit() {
    assert_eq!(format_dlna_duration(359_999_999), "99:59:59.999");
    assert_eq!(format_dlna_duration(3_600_000_000), "1000:00:00.000");
}

#[test]
fn dlna_org_pn_maps_common_audio_and_h264_video() {
    assert_eq!(dlna_org_pn("mp3"), Some("MP3"));
    assert_eq!(dlna_org_pn("FLAC"), Some("FLAC"));
    assert_eq!(dlna_org_pn("mp4"), Some("AVC_MP4_MP_SD_AAC_MULT5"));
    assert_eq!(dlna_org_pn("webm"), None);
    assert_eq!(dlna_org_pn("avi"), None);
}

#[test]
fn dlna_org_pn_names_the_other_profiles() {
    assert_eq!(dlna_org_pn("wav"), Some("LPCM"));
    assert_eq!(dlna_org_pn("aac"), Some("AAC_ADTS_320"));
    assert_eq!(dlna_org_pn("m4a"), Some("AAC_ISO"));
    assert_eq!(dlna_org_pn("mov"), Some("AVC_MP4_MP_SD_AAC_MULT5"));
    assert_eq!(dlna_org_pn("mkv"), Some("AVC_MKV_MP_HD_AC3"));
    assert_eq!(dlna_org_pn("jpeg"), Some("JPEG_LRG"));
    assert_eq!(dlna_org_pn("png"), Some("PNG_LRG"));
}

#[test]
fn protocol_info_inserts_pn_when_known() {
    assert_eq!(
        protocol_info("audio/mpeg", "mp3", "DLNA.ORG_OP=01"),
        "http-get:*:audio/mpeg:DLNA.ORG_PN=MP3;DLNA.ORG_OP=01"
    );
    assert_eq!(
        protocol_info("video/webm", "webm", "DLNA.ORG_OP=01"),
        "http-get:*:video/webm:DLNA.ORG_OP=01"
    );
}

#[test]
fn build_folder_tree_links_a_deep_chain() {
    let root = p("/media");
    let mut file = p("/media");
    for i in 0..128 {
        file = file.child(format!("d{i}").into_bytes());
    }
    file = file.child(b"clip.mp4".to_vec());
    let nodes = build_folder_tree(&vec![root], &vec![file]);
    assert_eq!(nodes.len(), 129);
    assert_eq!(nodes[0].subfolder_indices, vec![1]);
    assert_eq!(nodes[128].display_name, "d127");
    assert!(nodes[128].subfolder_indices.is_empty());
    assert_eq!(nodes[128].media_indices, vec![0]);
}

#[test]
fn folder_tree_lists_each_file_once_in_its_folder() {
    let dirs = vec![p("/media"), p("/"), p("/music")];
    let files = vec![p("/music/a/x.mp3"), p("/media/y.mp4"), p("/music/a/z.mp3"), p("top.mp3")];
    let nodes = build_folder_tree(&dirs, &files);
    assert_eq!(nodes[0].display_name, "media");
    assert_eq!(nodes[1].display_name, "Source 1");
    assert_eq!(nodes[2].subfolder_indices, vec![3]);
    assert_eq!(nodes[3].media_indices, vec![0, 2]);
    assert_eq!(nodes[0].media_indices, vec![1]);
    let listed: usize = nodes.iter().map(|n| n.media_indices.len()).sum();
    assert_eq!(listed, 3);
}

#[test]
fn sort_folder_tree_sorts_by_name_in_lower_case() {
    let dirs = vec![p("/m")];
    let files = vec![p("/m/b/1.mp4"), p("/m/A/2.mp4"), p("/m/Z.mp4"), p("/m/y.mp4")];
    let mut nodes = build_folder_tree(&dirs, &files);
    assert_eq!(nodes[0].subfolder_indices, vec![1, 2]);
    sort_folder_tree(&mut nodes, &files);
    assert_eq!(nodes[0].subfolder_indices, vec![2, 1]);
    assert_eq!(nodes[0].media_indices, vec![3, 2]);
}

#[test]
fn index_media_shares_out_video_and_audio() {
    let index = index_media(&vec![p("/m")], vec![p("/m/b.mp3"), p("/m/a.mp4"), p("/m/c.flac")]);
    assert_eq!(all_shown(&index.media_files), ["/m/a.mp4", "/m/b.mp3", "/m/c.flac"]);
    assert_eq!(index.video_idx, vec![0]);
    assert_eq!(index.audio_idx, vec![1, 2]);
    assert_eq!(index.folder_nodes[0].media_indices, vec![0, 1, 2]);
}

#[test]
fn describe_media_keeps_sidecar_bits_aligned() {
    assert_eq!(all_shown(&subtitle_candidates(&p("/t/b.mp3"))), ["/t/b.srt", "/t/b.vtt", "/t/b.ass"]);
    assert_eq!(sidecar_subtitle_bits(false, false, false), 0);
    let bits = sidecar_subtitle_bits(true, false, false);
    assert_eq!(bits & spritz::library::SUBTITLE_SRT, spritz::library::SUBTITLE_SRT);
    assert_eq!(sidecar_subtitle_bits(true, true, true), 7);
    let record = file_record(Some(FileStat { len: 9, modified: Some(86_400) }), true, bits);
    assert_eq!((record.size, record.date.as_str(), record.has_art, record.subs), (9, "1970-01-02", true, 1));
    let record = file_record(None, false, 0);
    assert_eq!((record.size, record.date.as_str()), (0, "2000-01-01"));
    let record = file_record(Some(FileStat { len: 5, modified: None }), false, 0);
    assert_eq!((record.size, record.date.as_str()), (5, "2000-01-01"));
}
