use spritz::path::MediaPath;
use spritz::range::{parse_byte_range, serve_plan, ByteRange};
use spritz::serve::{
    is_logged, m3u_playlist, open_media_plan, places_of, safe_media_path, safe_media_steps, EntryKind,
};

fn p(text: &str) -> MediaPath {
    MediaPath::parse(text.as_bytes())
}

fn shown(path: &MediaPath) -> String {
    String::from_utf8_lossy(&path.text()).into_owned()
}

#[test]
fn safe_media_path_allows_media_under_root() {
    let root = p("/t");
    let steps = safe_media_steps(&root, &p("sub/clip.mp4")).unwrap();
    let steps: Vec<String> = steps.iter().map(shown).collect();
    assert_eq!(steps, ["/t/sub", "/t/sub/clip.mp4"]);
    let kinds = [EntryKind::Other, EntryKind::Other];
    let resolved = safe_media_path(&root, &p("sub/clip.mp4"), &kinds, true).unwrap();
    assert_eq!(shown(&resolved), "/t/sub/clip.mp4");
    let resolved = safe_media_path(&root, &p("./sub/clip.srt"), &kinds, true).unwrap();
    assert_eq!(shown(&resolved), "/t/sub/clip.srt");
}

#[test]
fn safe_media_path_rejects_parent_dir_and_non_media() {
    let root = p("/t");
    let one = [EntryKind::Other];
    assert!(safe_media_steps(&root, &p("../clip.mp4")).is_none());
    assert!(safe_media_path(&root, &p("../clip.mp4"), &one, true).is_none());
    assert!(safe_media_path(&root, &p("/etc/clip.mp4"), &one, true).is_none());
    assert!(safe_media_path(&root, &p("notes.txt"), &one, true).is_none());
    assert!(safe_media_path(&root, &p("clip.mp4"), &one, false).is_none());
    assert!(safe_media_path(&root, &p("clip.mp4"), &[], true).is_none());
}

#[test]
fn safe_media_path_rejects_symlinks() {
    let root = p("/t");
    assert!(safe_media_path(&root, &p("link.mp4"), &[EntryKind::Symlink], true).is_none());
    assert!(safe_media_path(&root, &p("gone.mp4"), &[EntryKind::Missing], true).is_none());
    let kinds = [EntryKind::Symlink, EntryKind::Other];
    assert!(safe_media_path(&root, &p("dir/x.mp4"), &kinds, true).is_none());
}

#[test]
fn open_media_file_rejects_parent_dir_and_non_media() {
    assert!(open_media_plan(&p("../clip.mp4")).is_none());
    assert!(open_media_plan(&p("a/../clip.mp4")).is_none());
    assert!(open_media_plan(&p("/clip.mp4")).is_none());
    assert!(open_media_plan(&p("notes.txt")).is_none());
    assert!(open_media_plan(&p("")).is_none());
    assert!(open_media_plan(&p(".")).is_none());
    assert!(open_media_plan(&MediaPath::parse(b"a\0.mp4")).is_none());
}

#[test]
fn open_plans_name_folders_and_file() {
    let plan = open_media_plan(&p("./sub/deep/clip.MP4")).unwrap();
    assert_eq!(plan.dirs, [b"sub".to_vec(), b"deep".to_vec()]);
    assert_eq!(plan.file_name, b"clip.MP4");
    assert_eq!(plan.mime, "video/mp4");
    assert_eq!(open_media_plan(&p("movie.srt")).unwrap().mime, "text/srt");
}

#[test]
fn places_are_tried_in_order() {
    let dirs = vec![p("/m/music"), p("/other"), p("/m")];
    let places = places_of(&p("/m/music/a/cover.jpg"), &dirs);
    let found: Vec<(usize, String)> = places.iter().map(|q| (q.root, shown(&q.relative))).collect();
    assert_eq!(found, [(0, "a/cover.jpg".to_string()), (2, "music/a/cover.jpg".to_string())]);
}

#[test]
fn logged_requests_are_for_media() {
    assert!(is_logged("/m/0/a.mp4"));
    assert!(is_logged("/upnp/description.xml"));
    assert!(is_logged("/art/1"));
    assert!(!is_logged("/health"));
    assert!(!is_logged("/spritz"));
}

#[test]
fn empty_library_m3u_is_a_valid_empty_playlist() {
    assert_eq!(m3u_playlist(&vec![], &vec![], "127.0.0.1"), "#EXTM3U\n");
}

#[test]
fn playlists_hold_an_entry_for_each_file() {
    let files = vec![p("/m/My Movie.mp4"), p("/elsewhere/x.mp4"), p("/m/b/å.mp3")];
    assert_eq!(
        m3u_playlist(&files, &vec![p("/m")], "nas:8080"),
        "#EXTM3U\n#EXTINF:-1,My Movie.mp4\nhttp://nas:8080/m/0/My%20Movie.mp4\n\
         #EXTINF:-1,å.mp3\nhttp://nas:8080/m/0/b/%C3%A5.mp3\n"
    );
}

#[test]
fn byte_ranges_are_read() {
    let part = |start, end| ByteRange::Part { start, end };
    assert_eq!(parse_byte_range(None, 10), ByteRange::Full);
    assert_eq!(parse_byte_range(Some("items=0-1"), 10), ByteRange::Full);
    assert_eq!(parse_byte_range(Some("bytes=0-1,3-4"), 10), ByteRange::Full);
    assert_eq!(parse_byte_range(Some(" bytes=2-5 "), 10), part(2, 5));
    assert_eq!(parse_byte_range(Some("bytes=2-"), 10), part(2, 9));
    assert_eq!(parse_byte_range(Some("bytes=2-99"), 10), part(2, 9));
    assert_eq!(parse_byte_range(Some("bytes=-3"), 10), part(7, 9));
    assert_eq!(parse_byte_range(Some("bytes=-30"), 10), part(0, 9));
    for bad in ["bytes=", "bytes=-", "bytes=-0", "bytes=10-", "bytes=5-2", "bytes=x-1", "bytes=1-x", "bytes=3"] {
        assert_eq!(parse_byte_range(Some(bad), 10), ByteRange::Unsatisfiable, "{bad}");
    }
    assert_eq!(parse_byte_range(Some("bytes=0-"), 0), ByteRange::Unsatisfiable);
    assert_eq!(parse_byte_range(None, 0), ByteRange::Full);
}

#[test]
fn serve_opened_returns_the_requested_byte_range() {
    let plan = serve_plan(Some("bytes=2-5"), 10, false);
    assert_eq!(plan.status, 206);
    assert_eq!(plan.content_range.as_deref(), Some("bytes 2-5/10"));
    assert_eq!(plan.content_length, Some(4));
    assert_eq!(plan.send, Some((2, 4)));
}

#[test]
fn serve_plans_cover_the_other_answers() {
    let whole = serve_plan(None, 10, false);
    assert_eq!((whole.status, whole.content_length, whole.send), (200, Some(10), Some((0, 10))));
    assert_eq!(whole.content_range, None);
    let head = serve_plan(Some("bytes=2-5"), 10, true);
    assert_eq!((head.status, head.content_length, head.send), (206, Some(4), None));
    assert_eq!(head.content_range.as_deref(), Some("bytes 2-5/10"));
    let refused = serve_plan(Some("bytes=20-"), 10, false);
    assert_eq!((refused.status, refused.content_length, refused.send), (416, None, None));
    assert_eq!(refused.content_range.as_deref(), Some("bytes */10"));
}
