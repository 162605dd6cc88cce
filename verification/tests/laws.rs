use spritz::announce::{alive_plan, answer_plan, byebye_plan};
use spritz::browse::{browse, folder_parent_id, handle_contentdirectory, search};
use spritz::description::device_description;
use spritz::host::{share_url, HostIp, IpAddr};
use spritz::library::{
    index_media, sidecar_subtitle_bits, subtitle_candidates, DlnaConfig, SUBTITLE_ASS, SUBTITLE_SRT,
    SUBTITLE_VTT,
};
use spritz::media::{
    find_media, is_indexed_media, mime_for_ext, path_mime, unique_canonical_roots, FoundEntry,
    ALL_MIMES,
};
use spritz::path::MediaPath;
use spritz::probe::{album_art_candidates, album_art_sidecar};
use spritz::profile::mime_ext;
use spritz::serve::open_media_plan;
use spritz::soap::extract_tag_value;
use spritz::ssdp::{location_ip_for_family, IfAddr, Interface};
use spritz::url::{media_request, media_url_path};

fn p(text: &str) -> MediaPath {
    MediaPath::parse(text.as_bytes())
}

fn entry(text: &str) -> FoundEntry {
    FoundEntry { path: p(text), is_file: true }
}

fn library() -> DlnaConfig {
    let media_dirs = vec![p("/m"), p("/n")];
    let found = [
        "/m/a.mp4", "/m/shows/b.mkv", "/m/shows/s1/c.mkv", "/m/tunes/d <1>.mp3", "/n/e.flac",
    ];
    let index = index_media(&media_dirs, found.iter().map(|f| p(f)).collect());
    let n = index.media_files.len();
    DlnaConfig {
        device_uuid: "11111111-2222-3333-4444-555555555555".into(),
        friendly_name: "Spritz & Co".into(),
        http_port: 8080,
        local_ip: HostIp { ip: IpAddr::V4(0x0a00_0008), text: "10.0.0.8".into() },
        media_dirs,
        media_files: index.media_files,
        media_sizes: vec![0; n],
        media_dates: vec![String::new(); n],
        media_durations: vec![String::new(); n],
        media_resolutions: vec![String::new(); n],
        media_pns: vec![String::new(); n],
        media_has_art: vec![false; n],
        media_subs: vec![0; n],
        video_idx: index.video_idx,
        audio_idx: index.audio_idx,
        folder_nodes: index.folder_nodes,
    }
}

fn ask(config: &DlnaConfig, id: &str, flag: &str) -> String {
    let body = format!(
        "<u:Browse><ObjectID>{id}</ObjectID><BrowseFlag>{flag}</BrowseFlag>\
         <StartingIndex>0</StartingIndex><RequestedCount>0</RequestedCount></u:Browse>"
    );
    browse(None, &body, config).body
}

fn field(body: &str, name: &str) -> String {
    extract_tag_value(body, name).unwrap()
}

#[test]
fn listed_files_can_be_opened() {
    let config = library();
    for file in &config.media_files {
        let (dir, tail) = media_url_path(file, &config.media_dirs).unwrap();
        let (asked, relative) = media_request(&format!("/m/{dir}/{tail}")).unwrap();
        assert_eq!(asked, dir);
        let plan = open_media_plan(&relative).unwrap();
        assert_eq!(Some(&plan.file_name), file.file_name());
        assert_eq!(Some(plan.mime), path_mime(file));
        let mut opened = config.media_dirs[dir].copy();
        for name in plan.dirs {
            opened = opened.child(name);
        }
        assert!(opened.child(plan.file_name).same(file));
    }
}

#[test]
fn listed_subtitles_can_be_opened() {
    let dirs = vec![p("/m")];
    let mimes = ["text/srt", "text/vtt", "text/x-ssa"];
    for (sub, mime) in subtitle_candidates(&p("/m/shows/b.mkv")).iter().zip(mimes) {
        let (dir, tail) = media_url_path(sub, &dirs).unwrap();
        let (_, relative) = media_request(&format!("/m/{dir}/{tail}")).unwrap();
        assert_eq!(open_media_plan(&relative).unwrap().mime, mime);
    }
}

#[test]
fn subtitle_bits_tell_which_there_are() {
    for n in 0..8u8 {
        let (srt, vtt, ass) = (n & 1 != 0, n & 2 != 0, n & 4 != 0);
        let bits = sidecar_subtitle_bits(srt, vtt, ass);
        assert_eq!(bits & SUBTITLE_SRT != 0, srt);
        assert_eq!(bits & SUBTITLE_VTT != 0, vtt);
        assert_eq!(bits & SUBTITLE_ASS != 0, ass);
    }
}

#[test]
fn replaced_extensions_keep_stem_and_folder() {
    for (text, stem) in [("/m/a.b.mp4", "a.b"), ("x", "x"), ("/m/.hidden", ".hidden")] {
        let path = p(text);
        let changed = path.with_extension(b"srt");
        assert_eq!(changed.extension().unwrap(), b"srt");
        assert_eq!(changed.file_stem().unwrap(), stem.as_bytes());
        assert!(changed.parent().unwrap().same(&path.parent().unwrap()));
    }
}

#[test]
fn scanning_finds_all_media_in_one_order() {
    let found = find_media(&vec![
        entry("/m/b.mp4"), entry("/m/notes.txt"), entry("/m/A.mp3"), entry("/m/x/b.mp4"),
    ]);
    let again = find_media(&vec![
        entry("/m/x/b.mp4"), entry("/m/A.mp3"), entry("/m/b.mp4"), entry("/m/notes.txt"),
    ]);
    assert_eq!(found.len(), 3);
    assert_eq!(again.len(), 3);
    for (a, b) in found.iter().zip(&again) {
        assert!(a.same(b));
    }
    let twice = find_media(&vec![entry("/m/b.mp4"), entry("/m/a.mp4"), entry("/m/b.mp4")]);
    let other = find_media(&vec![entry("/m/b.mp4"), entry("/m/b.mp4"), entry("/m/a.mp4")]);
    assert_eq!(twice.len(), 3);
    for (a, b) in twice.iter().zip(&other) {
        assert!(a.same(b));
    }
}

#[test]
fn a_file_lies_under_one_source_folder() {
    let roots = unique_canonical_roots(&vec![p("/m/x"), p("/m"), p("/n"), p("/m")]);
    let holding = roots.iter().filter(|r| p("/m/x/a.mp4").starts_with(r)).count();
    assert_eq!(holding, 1);
}

#[test]
fn every_item_has_a_date_of_its_own_or_a_fixed_one() {
    let mut config = library();
    config.media_dates[0] = "2021-02-03".into();
    for (i, file) in config.media_files.iter().enumerate() {
        let id = format!("m:{i}");
        let xml = spritz::didl::item_xml(i, file, &id, "f:0", &config, "h").unwrap();
        let date = if i == 0 { "2021-02-03" } else { "2000-01-01" };
        assert!(xml.contains(&format!("<dc:date>{date}</dc:date>")), "{xml}");
    }
}

#[test]
fn containers_count_what_they_list() {
    let config = library();
    for id in ["0", "V", "A", "F", "f:0", "f:1", "f:2"] {
        let listed = field(&ask(&config, id, "BrowseDirectChildren"), "TotalMatches");
        let described = ask(&config, id, "BrowseMetadata");
        assert!(described.contains(&format!("childCount=&quot;{listed}&quot;")), "{id}: {described}");
    }
}

#[test]
fn pages_give_every_child_once() {
    let config = library();
    for id in ["0", "V", "A", "F", "f:0", "f:1", "f:2"] {
        let whole = ask(&config, id, "BrowseDirectChildren");
        let total: usize = field(&whole, "TotalMatches").parse().unwrap();
        let all = field(&whole, "Result").matches("parentID=").count();
        assert_eq!(all, total, "{id}");
        for n in 1..=3 {
            let mut joined: Vec<String> = Vec::new();
            for k in 0..=total {
                let body = format!(
                    "<ObjectID>{id}</ObjectID><BrowseFlag>BrowseDirectChildren</BrowseFlag>\
                     <StartingIndex>{}</StartingIndex><RequestedCount>{n}</RequestedCount>",
                    k * n
                );
                let page = browse(None, &body, &config).body;
                assert_eq!(field(&page, "TotalMatches"), total.to_string());
                let left = total - (k * n).min(total);
                assert_eq!(field(&page, "NumberReturned"), left.min(n).to_string());
                let result = field(&page, "Result");
                assert_eq!(result.matches("parentID=").count(), left.min(n));
                joined.extend(ids_of(&result));
            }
            assert_eq!(joined, ids_of(&field(&whole, "Result")), "{id} by {n}");
            let mut distinct = joined.clone();
            distinct.sort();
            distinct.dedup();
            assert_eq!(distinct.len(), total);
        }
    }
}

fn ids_of(result: &str) -> Vec<String> {
    result
        .split(" id=&quot;")
        .skip(1)
        .map(|rest| rest.split("&quot;").next().unwrap().to_string())
        .collect()
}

#[test]
fn parents_list_their_children() {
    let config = library();
    for idx in config.media_dirs.len()..config.folder_nodes.len() {
        let parent = folder_parent_id(&config, idx);
        let listed = ask(&config, &parent, "BrowseDirectChildren");
        assert!(listed.contains(&format!("id=&quot;f:{idx}&quot;")), "{listed}");
    }
    for i in 0..config.media_files.len() {
        let described = ask(&config, &format!("m:{i}"), "BrowseMetadata");
        let from = described.find("parentID=&quot;").unwrap() + "parentID=&quot;".len();
        let parent = described[from..].split("&quot;").next().unwrap();
        let listed = ask(&config, parent, "BrowseDirectChildren");
        assert!(listed.contains(&format!("item id=&quot;m:{i}&quot;")), "{listed}");
    }
}

#[test]
fn empty_containers_are_hidden() {
    let mut config = library();
    config.audio_idx.clear();
    let listed = ask(&config, "0", "BrowseDirectChildren");
    assert_eq!(field(&listed, "TotalMatches"), "2");
    assert!(!listed.contains("childCount=&quot;0&quot;"), "{listed}");
}

#[test]
fn searching_everything_gives_every_file_that_matches() {
    let config = library();
    let all = search(None, "<ContainerID>0</ContainerID>", &config);
    assert_eq!(field(&all.body, "TotalMatches"), "5");
    let some = search(
        None,
        "<ContainerID>0</ContainerID><SearchCriteria>dc:title contains \"B\"</SearchCriteria>",
        &config,
    );
    assert_eq!(field(&some.body, "TotalMatches"), "1");
}

#[test]
fn unknown_actions_get_a_fault() {
    let reply = handle_contentdirectory(Some("\"urn:x#Destroy\""), None, "", &library());
    assert_eq!(reply.status, 500);
    assert!(reply.body.contains("401"), "{}", reply.body);
}

#[test]
fn advertised_formats_are_those_of_the_library() {
    for mime in ALL_MIMES {
        assert_eq!(mime_for_ext(mime_ext(mime)), Some(mime));
        assert!(is_indexed_media(mime_ext(mime)));
    }
    for ext in ["MP4", "m4v", "oga", "opus", "aif"] {
        assert!(ALL_MIMES.contains(&mime_for_ext(ext).unwrap()));
    }
}

#[test]
fn link_local_addresses_are_not_advertised() {
    let link: u128 = 0xfe80_0000_0000_0000_0000_0000_0000_0001;
    let ifaces = vec![Interface {
        loopback: false,
        addr: IfAddr::V6 { ip: link, netmask: u128::MAX << 64 },
        text: "fe80::1".into(),
        index: Some(2),
    }];
    let local = HostIp { ip: IpAddr::V4(0x0a00_0008), text: "10.0.0.8".into() };
    assert_eq!(location_ip_for_family(true, &local, &ifaces).text, "10.0.0.8");
}

#[test]
fn cover_pictures_stand_next_to_the_file() {
    let song = p("/m/tunes/d.mp3");
    let candidates = album_art_candidates(&song);
    for i in 0..candidates.len() {
        let regular: Vec<bool> = (0..candidates.len()).map(|k| k >= i).collect();
        let art = album_art_sidecar(&song, &regular).unwrap();
        assert!(art.same(&candidates[i]));
        assert!(art.parent().unwrap().same(&p("/m/tunes")));
    }
}

#[test]
fn cover_pictures_have_the_same_stem_byte_for_byte() {
    let song = MediaPath::parse(b"/m/\xff\xe5.mp3");
    let candidates = album_art_candidates(&song);
    assert_eq!(candidates[0].text(), b"/m/\xff\xe5.jpg");
    assert_eq!(candidates[1].text(), b"/m/\xff\xe5.jpeg");
    assert_eq!(candidates[2].text(), b"/m/\xff\xe5.png");
    assert_eq!(candidates[3].text(), b"/m/cover.jpg");
}

#[test]
fn the_device_describes_itself() {
    let xml = device_description(&library(), "10.0.0.8:8080");
    assert!(xml.contains("<URLBase>http://10.0.0.8:8080/</URLBase>"), "{xml}");
    assert!(xml.contains("<deviceType>urn:schemas-upnp-org:device:MediaServer:1</deviceType>"));
    assert!(xml.contains("<friendlyName>Spritz &amp; Co</friendlyName>"), "{xml}");
    assert!(xml.contains("<UDN>uuid:11111111-2222-3333-4444-555555555555</UDN>"), "{xml}");
    assert!(xml.contains("<dlna:X_DLNADOC>DMS-1.50</dlna:X_DLNADOC>"), "{xml}");
    assert!(xml.contains("<url>/upnp/icon.png</url>"), "{xml}");
    for name in ["contentdirectory", "connectionmanager", "mediareceiverregistrar"] {
        assert!(xml.contains(&format!("<SCPDURL>/upnp/service/{name}.xml</SCPDURL>")), "{xml}");
        assert!(xml.contains(&format!("<controlURL>/upnp/control/{name}</controlURL>")), "{xml}");
        assert!(xml.contains(&format!("<eventSubURL>/upnp/event/{name}</eventSubURL>")), "{xml}");
    }
}

#[test]
fn every_message_is_sent_three_times() {
    let uuid = "11111111-2222-3333-4444-555555555555";
    let alive = alive_plan("239.255.255.250:1900", "http://h/d.xml", uuid);
    assert_eq!(alive.len(), 18);
    for (i, sending) in alive.iter().enumerate() {
        assert_eq!(sending.message, alive[i - i % 3].message);
        assert_eq!(sending.pause_ms, 200);
    }
    let byebye = byebye_plan("239.255.255.250:1900", uuid);
    assert_eq!(byebye.len(), 18);
    for (i, sending) in byebye.iter().enumerate() {
        assert_eq!(sending.message, byebye[i % 6].message);
        assert_eq!(sending.pause_ms, if i == 5 || i == 11 { 100 } else { 0 });
    }
    let answers = answer_plan("upnp:rootdevice", 784_111_777, "http://h/d.xml", uuid);
    assert_eq!(answers.len(), 3);
    assert!(answers[2].message.contains("DATE: Sun, 06 Nov 1994 08:49:37 GMT\r\n"));
    assert_eq!(answers[2].pause_ms, 100);
}

#[test]
fn people_are_told_the_playlist() {
    let host = HostIp { ip: IpAddr::V4(0x0a00_0008), text: "10.0.0.8".into() };
    assert_eq!(share_url(&host, 8080), "http://10.0.0.8:8080/spritz");
    assert_eq!(share_url(&host, 80), "http://10.0.0.8/spritz");
}
