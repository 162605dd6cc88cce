use spritz::browse::{
    browse, folder_parent_id, handle_connectionmanager, handle_contentdirectory, search,
    search_candidates,
};
use spritz::didl::{
    item_id, item_xml, page_slice, parse_item_id, AUDIO_ID, DEFAULT_BROWSE_PAGE, VIDEO_ID,
};
use spritz::folder::FolderNode;
use spritz::host::{HostIp, IpAddr};
use spritz::library::{index_media, publish_probe, DlnaConfig};
use spritz::path::MediaPath;
use spritz::query::{matches_search, title_search_terms};
use spritz::registrar;

fn p(text: &str) -> MediaPath {
    MediaPath::parse(text.as_bytes())
}

fn config(dirs: &[&str], files: &[&str]) -> DlnaConfig {
    let media_dirs: Vec<MediaPath> = dirs.iter().map(|d| p(d)).collect();
    let index = index_media(&media_dirs, files.iter().map(|f| p(f)).collect());
    let n = index.media_files.len();
    DlnaConfig {
        device_uuid: "u".into(),
        friendly_name: "Spritz".into(),
        http_port: 8080,
        local_ip: HostIp { ip: IpAddr::V4(0x7f00_0001), text: "127.0.0.1".into() },
        media_dirs,
        media_files: index.media_files,
        media_sizes: vec![0; n],
        media_dates: vec![String::new(); n],
        media_durations: vec![String::new(); n],
        media_resolutions: vec![String::new(); n],
        media_pns: vec![],
        media_has_art: vec![false; n],
        media_subs: vec![0; n],
        video_idx: index.video_idx,
        audio_idx: index.audio_idx,
        folder_nodes: index.folder_nodes,
    }
}

fn library() -> DlnaConfig {
    config(
        &["/m"],
        &["/m/a.mp4", "/m/shows/b.mkv", "/m/shows/s1/c.mkv", "/m/tunes/d.mp3"],
    )
}

fn ask(config: &DlnaConfig, id: &str, flag: &str, start: usize, count: usize) -> (u16, String) {
    let body = format!(
        "<u:Browse><ObjectID>{id}</ObjectID><BrowseFlag>{flag}</BrowseFlag>\
         <StartingIndex>{start}</StartingIndex><RequestedCount>{count}</RequestedCount></u:Browse>"
    );
    let reply = browse(Some("nas:8080"), &body, config);
    (reply.status, reply.body)
}

fn children(config: &DlnaConfig, id: &str) -> String {
    ask(config, id, "BrowseDirectChildren", 0, 0).1
}

fn counts(body: &str) -> (String, String) {
    let field = |name: &str| spritz::soap::extract_tag_value(body, name).unwrap();
    (field("NumberReturned"), field("TotalMatches"))
}

#[test]
fn page_slice_caps_requested_count_zero() {
    assert_eq!(page_slice(0, 0, 10), (0, 10));
    assert_eq!(page_slice(0, 0, 500), (0, DEFAULT_BROWSE_PAGE));
    assert_eq!(page_slice(180, 0, 250), (180, 250));
}

#[test]
fn page_slice_honors_explicit_count_and_clamps_start() {
    assert_eq!(page_slice(0, 50, 500), (0, 50));
    assert_eq!(page_slice(999, 10, 50), (50, 50));
    assert_eq!(page_slice(40, 20, 50), (40, 50));
    assert_eq!(page_slice(usize::MAX, usize::MAX, 3), (3, 3));
    assert_eq!(page_slice(1, usize::MAX, 3), (1, 3));
}

#[test]
fn pages_follow_each_other() {
    let mut start = 0;
    let mut seen = 0;
    loop {
        let (from, to) = page_slice(start, 7, 45);
        assert_eq!(from, start);
        seen += to - from;
        if to == 45 {
            break;
        }
        start = to;
    }
    assert_eq!(seen, 45);
}

#[test]
fn item_id_is_unique_per_browse_view() {
    assert_eq!(item_id(VIDEO_ID, 3), "v:3");
    assert_eq!(item_id(AUDIO_ID, 3), "a:3");
    assert_eq!(item_id("f:2", 3), "m:3");
}

#[test]
fn parse_item_id_restores_view_and_index() {
    assert_eq!(parse_item_id("v:3"), Some((VIDEO_ID, 3)));
    assert_eq!(parse_item_id("a:7"), Some((AUDIO_ID, 7)));
    assert_eq!(parse_item_id("m:4"), Some(("m", 4)));
    assert_eq!(parse_item_id("f:1"), None);
    assert_eq!(parse_item_id("m:nope"), None);
}

#[test]
fn item_ids_read_back() {
    for index in [0, 9, 10, 12345, usize::MAX] {
        assert_eq!(parse_item_id(&item_id(VIDEO_ID, index)), Some((VIDEO_ID, index)));
        assert_eq!(parse_item_id(&item_id("f:0", index)), Some(("m", index)));
    }
}

#[test]
fn matches_search_title_and_class() {
    assert!(matches_search("Movie.mp4", "video/mp4", "*"));
    assert!(matches_search(
        "The Office S01.mkv",
        "video/x-matroska",
        r#"dc:title contains "office""#
    ));
    assert!(!matches_search(
        "The Office S01.mkv",
        "video/x-matroska",
        r#"dc:title contains "seinfeld""#
    ));
    assert!(!matches_search(
        "track.mp3",
        "audio/mpeg",
        r#"upnp:class derivedfrom "object.item.videoItem""#
    ));
    assert!(matches_search(
        "track.mp3",
        "audio/mpeg",
        r#"upnp:class derivedfrom "object.item.audioItem""#
    ));
}

#[test]
fn search_terms_are_read_in_order() {
    assert_eq!(
        title_search_terms(r#"dc:title contains "A b" and dc:title CONTAINS " " or contains "c" contains "open"#),
        ["A b", "c"]
    );
    assert!(title_search_terms("nothing quoted").is_empty());
    assert!(!matches_search("x.mp4", "video/mp4", r#"upnp:class = "object.item.audioItem.musicTrack""#));
    assert!(matches_search("x", "y", "  "));
}

#[test]
fn item_xml_adds_sidecar_subtitle_resources() {
    let movie = p("/t/clip.mp4");
    let config = DlnaConfig {
        device_uuid: "u".into(),
        friendly_name: "Spritz".into(),
        http_port: 8080,
        local_ip: HostIp { ip: IpAddr::V4(0x7f00_0001), text: "127.0.0.1".into() },
        media_dirs: vec![p("/t")],
        media_files: vec![p("/t/clip.mp4")],
        media_sizes: vec![1],
        media_dates: vec!["2020-01-01".into()],
        media_durations: vec!["0:00:02.000".into()],
        media_resolutions: vec![],
        media_pns: vec![],
        media_has_art: vec![true],
        media_subs: vec![1],
        video_idx: vec![0],
        audio_idx: vec![],
        folder_nodes: vec![],
    };
    let xml = item_xml(0, &movie, "v:0", "V", &config, "127.0.0.1:8080").unwrap();
    assert!(xml.contains("/m/0/clip.mp4"), "{xml}");
    assert!(xml.contains("/m/0/clip.srt"), "{xml}");
    assert!(xml.contains("text/srt"), "{xml}");
    assert!(xml.contains(r#"duration="0:00:02.000""#), "{xml}");
    assert!(xml.contains("DLNA.ORG_PN=AVC_MP4_MP_SD_AAC_MULT5"), "{xml}");
    assert!(xml.contains("/art/0"), "{xml}");
    assert_eq!(
        xml,
        "<item id=\"v:0\" parentID=\"V\" restricted=\"1\" refID=\"m:0\">\n    \
         <dc:title>clip.mp4</dc:title>\n    \
         <upnp:class>object.item.videoItem</upnp:class>\n    \
         <dc:date>2020-01-01</dc:date>\n    \
         <upnp:albumArtURI>http://127.0.0.1:8080/art/0</upnp:albumArtURI>\n    \
         <res protocolInfo=\"http-get:*:video/mp4:DLNA.ORG_PN=AVC_MP4_MP_SD_AAC_MULT5;DLNA.ORG_OP=01;DLNA.ORG_CI=0;DLNA.ORG_FLAGS=01700000000000000000000000000000\" size=\"1\" duration=\"0:00:02.000\">http://127.0.0.1:8080/m/0/clip.mp4</res>\n    \
         <res protocolInfo=\"http-get:*:text/srt:*\">http://127.0.0.1:8080/m/0/clip.srt</res>\n  </item>"
    );
}

#[test]
fn items_tell_what_the_headers_said() {
    let mut config = library();
    let n = config.media_files.len();
    config.media_pns = vec![String::new(); n];
    let xml = item_xml(0, &config.media_files[0], "v:0", "V", &config, "h").unwrap();
    assert!(!xml.contains("DLNA.ORG_PN="), "{xml}");
    assert!(!xml.contains("resolution="), "{xml}");
    let pn = "AVC_MP4_MP_SD_AAC_MULT5";
    publish_probe(&mut config, 0, "0:00:01.000".into(), "1920x1080".into(), pn.into());
    let xml = item_xml(0, &config.media_files[0], "v:0", "V", &config, "h").unwrap();
    assert!(
        xml.contains(&format!(
            "<res protocolInfo=\"http-get:*:video/mp4:DLNA.ORG_PN={pn};DLNA.ORG_OP=01;DLNA.ORG_CI=0;\
             DLNA.ORG_FLAGS=01700000000000000000000000000000\" duration=\"0:00:01.000\" \
             resolution=\"1920x1080\">"
        )),
        "{xml}"
    );
    publish_probe(&mut config, n, "x".into(), "y".into(), "z".into());
    assert_eq!(config.media_durations.len(), n);
}

#[test]
fn items_leave_out_what_is_not_known() {
    let config = library();
    let xml = item_xml(3, &config.media_files[3], "m:3", "f:0", &config, "h").unwrap();
    assert!(xml.contains("object.item.audioItem.musicTrack"), "{xml}");
    assert!(xml.contains("<dc:date>2000-01-01</dc:date>"), "{xml}");
    assert!(!xml.contains("size="), "{xml}");
    assert!(!xml.contains("duration="), "{xml}");
    assert!(!xml.contains("refID"), "{xml}");
    assert!(!xml.contains("albumArtURI"), "{xml}");
    assert!(item_xml(0, &p("/elsewhere/x.mp4"), "m:0", "F", &config, "h").is_none());
    let odd = item_xml(9, &MediaPath::parse(b"/m/a&\xff.xyz"), "m:9", "F", &config, "h").unwrap();
    assert!(odd.contains("<dc:title>a&amp;\u{fffd}.xyz</dc:title>"), "{odd}");
    assert!(odd.contains("application/octet-stream"), "{odd}");
}

#[test]
fn root_lists_the_containers_that_hold_something() {
    let config = library();
    let body = children(&config, "0");
    assert!(body.contains("container id=&quot;V&quot; parentID=&quot;0&quot; restricted=&quot;1&quot; childCount=&quot;3&quot;"), "{body}");
    assert!(body.contains("id=&quot;A&quot;"), "{body}");
    assert!(body.contains("id=&quot;F&quot;"), "{body}");
    assert_eq!(counts(&body), ("3".into(), "3".into()));
    let (_, meta) = ask(&config, "0", "BrowseMetadata", 0, 0);
    assert!(meta.contains("childCount=&quot;3&quot;"), "{meta}");
    assert!(meta.contains("parentID=&quot;-1&quot;"), "{meta}");
    let silent = super_silent();
    let body = children(&silent, "0");
    assert!(!body.contains("id=&quot;A&quot;"), "{body}");
    assert_eq!(counts(&children(&config_without_media(), "0")), ("0".into(), "0".into()));
}

fn super_silent() -> DlnaConfig {
    config(&["/m"], &["/m/a.mp4"])
}

fn config_without_media() -> DlnaConfig {
    config(&["/m"], &[])
}

#[test]
fn categories_list_their_files() {
    let config = library();
    let body = children(&config, "V");
    assert_eq!(counts(&body), ("3".into(), "3".into()));
    assert!(body.contains("&lt;item id=&quot;v:0&quot; parentID=&quot;V&quot;"), "{body}");
    assert!(body.contains("http://nas:8080/m/0/shows/s1/c.mkv"), "{body}");
    let page = ask(&config, "V", "BrowseDirectChildren", 1, 1).1;
    assert_eq!(counts(&page), ("1".into(), "3".into()));
    assert!(page.contains("v:1") && !page.contains("v:0") && !page.contains("v:2"), "{page}");
    let audio = children(&config, "A");
    assert!(audio.contains("a:3"), "{audio}");
    let meta = ask(&config, "A", "BrowseMetadata", 0, 0).1;
    assert!(meta.contains("&lt;dc:title&gt;Music&lt;/dc:title&gt;"), "{meta}");
}

#[test]
fn folders_list_folders_and_files() {
    let config = library();
    let sources = children(&config, "F");
    assert!(sources.contains("container id=&quot;f:0&quot; parentID=&quot;F&quot;"), "{sources}");
    let root = children(&config, "f:0");
    assert_eq!(counts(&root), ("3".into(), "3".into()));
    assert!(root.contains("&lt;dc:title&gt;shows&lt;/dc:title&gt;"), "{root}");
    assert!(root.contains("&lt;dc:title&gt;tunes&lt;/dc:title&gt;"), "{root}");
    assert!(root.contains("&lt;item id=&quot;m:0&quot; parentID=&quot;f:0&quot;"), "{root}");
    let shows = (1..config.folder_nodes.len())
        .find(|i| config.folder_nodes[*i].display_name == "s1")
        .unwrap();
    let parent = folder_parent_id(&config, shows);
    assert!(children(&config, &parent).contains(&format!("id=&quot;f:{shows}&quot;")));
    let meta = ask(&config, &format!("f:{shows}"), "BrowseMetadata", 0, 0).1;
    assert!(meta.contains(&format!("parentID=&quot;{parent}&quot;")), "{meta}");
    assert_eq!(folder_parent_id(&config, 0), "F");
}

#[test]
fn items_have_metadata_and_no_children() {
    let config = library();
    let meta = ask(&config, "m:3", "BrowseMetadata", 0, 0);
    assert_eq!(meta.0, 200);
    let holder = (0..config.folder_nodes.len())
        .find(|i| config.folder_nodes[*i].media_indices.contains(&3))
        .unwrap();
    assert!(meta.1.contains(&format!("parentID=&quot;f:{holder}&quot;")), "{}", meta.1);
    let video = ask(&config, "v:1", "BrowseMetadata", 0, 0).1;
    assert!(video.contains("parentID=&quot;V&quot;"), "{video}");
    assert_eq!(counts(&children(&config, "m:3")), ("0".into(), "0".into()));
}

#[test]
fn unknown_objects_are_refused() {
    let config = library();
    for id in ["x", "f:99", "f:x", "m:99", "v:", "q:1"] {
        let (status, body) = ask(&config, id, "BrowseMetadata", 0, 0);
        assert_eq!(status, 500, "{id}");
        assert!(body.contains("<errorCode>701</errorCode>"), "{id}");
    }
    let reply = search(None, "<ContainerID>nope</ContainerID>", &config);
    assert_eq!(reply.status, 500);
    assert!(reply.body.contains("<errorCode>701</errorCode>"));
}

#[test]
fn search_looks_through_the_container() {
    let config = library();
    let all = |id: &str| search_candidates(id, &config);
    assert_eq!(all("0"), Some(vec![0, 1, 2, 3]));
    assert_eq!(all("V"), Some(vec![0, 1, 2]));
    assert_eq!(all("A"), Some(vec![3]));
    assert_eq!(all("F"), Some(vec![0, 1, 2, 3]));
    assert_eq!(all("m:1"), Some(vec![]));
    assert_eq!(all("f:77"), None);
    let shows = (0..config.folder_nodes.len())
        .find(|i| config.folder_nodes[*i].display_name == "shows")
        .unwrap();
    assert_eq!(all(&format!("f:{shows}")), Some(vec![1, 2]));
    let body = "<ContainerID>0</ContainerID><SearchCriteria>dc:title contains \"C.MK\"</SearchCriteria>";
    let reply = search(Some("nas"), body, &config);
    assert_eq!(counts(&reply.body), ("1".into(), "1".into()));
    assert!(reply.body.contains("id=&quot;m:2&quot; parentID=&quot;0&quot;"), "{}", reply.body);
    let reply = search(None, "<ObjectID>A</ObjectID>", &config);
    assert!(reply.body.contains("id=&quot;a:3&quot;"), "{}", reply.body);
    assert!(reply.body.contains("http://127.0.0.1:8080/m/0/tunes/d.mp3"), "{}", reply.body);
}

#[test]
fn search_copes_with_folders_that_list_each_other() {
    let node = |name: &str, subs: Vec<usize>, media: Vec<usize>| FolderNode {
        path: p(name),
        display_name: name.into(),
        subfolder_indices: subs,
        media_indices: media,
    };
    let mut config = config(&["/m"], &["/m/a.mp4", "/m/b.mp4"]);
    config.folder_nodes = vec![
        node("/m", vec![2, 99], vec![5]),
        node("/m/x", vec![0], vec![1]),
        node("/m/y", vec![1, 0], vec![0, 0]),
    ];
    assert_eq!(search_candidates("f:2", &config), Some(vec![0, 1, 5]));
    assert_eq!(search_candidates("F", &config), Some(vec![0, 1, 5]));
}

#[test]
fn actions_are_answered() {
    let config = library();
    let cd = |action: &str| {
        let header = format!("\"urn:schemas-upnp-org:service:ContentDirectory:1#{action}\"");
        handle_contentdirectory(Some(&header), None, "", &config)
    };
    assert!(cd("Browse").body.contains("<u:BrowseResponse "));
    assert!(cd("Search").body.contains("<u:SearchResponse "));
    assert!(cd("GetSystemUpdateID").body.contains("<Id>1</Id>"));
    assert!(cd("GetSearchCapabilities").body.contains("<SearchCaps>dc:title,upnp:class</SearchCaps>"));
    assert!(cd("GetSortCapabilities").body.contains("<SortCaps></SortCaps>"));
    assert_eq!(cd("Destroy").status, 500);
    assert!(cd("Destroy").body.contains("<errorCode>401</errorCode>"));
    assert_eq!(handle_contentdirectory(None, None, "", &config).status, 500);
    let cm = |action: &str| handle_connectionmanager(Some(&format!("x#{action}")));
    assert!(cm("GetProtocolInfo").body.contains("<Source>http-get:*:video/mp4:"));
    assert!(cm("GetCurrentConnectionIDs").body.contains("<ConnectionIDs>0</ConnectionIDs>"));
    assert!(cm("GetCurrentConnectionInfo").body.contains("<Direction>Output</Direction>"));
    assert_eq!(cm("Nope").status, 500);
}

#[test]
fn is_authorized_always_allows() {
    let res = registrar::handle(Some(
        r#""urn:microsoft.com:service:X_MS_MediaReceiverRegistrar:1#IsAuthorized""#,
    ));
    assert_eq!(res.status, 200);
    assert!(res.body.contains("<Result>1</Result>"), "{}", res.body);
    assert!(registrar::handle(Some("x#IsValidated")).body.contains("<u:IsValidatedResponse "));
    assert!(registrar::handle(Some("x#RegisterDevice")).body.contains("<RegistrationRespMsg></RegistrationRespMsg>"));
    assert_eq!(registrar::handle(None).status, 500);
}
