use spritz::audio::{
    flac_duration_from_bytes, flac_step, wav_duration_from_bytes, wav_step, FlacState, WavState,
};
use spritz::mkv::{mkv_duration_from_bytes, mkv_video_from_bytes, FloatBits, MkvLength};
use spritz::mp4::{mp4_duration_from_bytes, mp4_video_codec};
use spritz::path::MediaPath;
use spritz::probe::{
    album_art_candidates, album_art_sidecar, container_of, dlna_org_pn_for, has_embedded_art,
    probe_duration, probe_fields, probe_media, Container, Length, ProbeStep, Ticks,
};
use spritz::profile::pn_for;
use spritz::video::{VideoCodec, VideoTrack};
use std::time::Duration;

fn p(text: &str) -> MediaPath {
    MediaPath::parse(text.as_bytes())
}

fn duration(t: Ticks) -> Duration {
    Duration::from_secs_f64(t.count as f64 / f64::from(t.per_second))
}

fn scaled(m: MkvLength) -> Duration {
    let ticks = match m.ticks {
        FloatBits::Single(b) => f64::from(f32::from_bits(b)),
        FloatBits::Double(b) => f64::from_bits(b),
    };
    Duration::from_secs_f64(ticks * m.scale as f64 / 1_000_000_000.0)
}

fn box_bytes(kind: &[u8; 4], payload: &[u8]) -> Vec<u8> {
    let size = (8 + payload.len()) as u32;
    let mut v = size.to_be_bytes().to_vec();
    v.extend(kind);
    v.extend(payload);
    v
}

#[test]
fn mp4_duration_reads_mvhd_timescale() {
    let mut mvhd = vec![0u8; 24];
    mvhd[12..16].copy_from_slice(&1000u32.to_be_bytes());
    mvhd[16..20].copy_from_slice(&2500u32.to_be_bytes());
    let moov = box_bytes(b"moov", &box_bytes(b"mvhd", &mvhd));
    let ftyp = box_bytes(b"ftyp", b"isom");
    let mut file = ftyp;
    file.extend(moov);
    let d = mp4_duration_from_bytes(&file).unwrap();
    assert_eq!(duration(d), Duration::from_millis(2500));
}

#[test]
fn mp4_duration_reads_wide_headers_and_large_boxes() {
    let mut mvhd = vec![0u8; 32];
    mvhd[0] = 1;
    mvhd[20..24].copy_from_slice(&600u32.to_be_bytes());
    mvhd[24..32].copy_from_slice(&1_200_000_000_000u64.to_be_bytes());
    let inner = box_bytes(b"mvhd", &mvhd);
    let mut large = 1u32.to_be_bytes().to_vec();
    large.extend(b"moov");
    large.extend(&((16 + inner.len()) as u64).to_be_bytes());
    large.extend(&inner);
    assert_eq!(
        mp4_duration_from_bytes(&large),
        Some(Ticks { count: 1_200_000_000_000, per_second: 600 })
    );
    let mut open_ended = 0u32.to_be_bytes().to_vec();
    open_ended.extend(b"moov");
    open_ended.extend(&inner);
    assert!(mp4_duration_from_bytes(&open_ended).is_some());
}

#[test]
fn mp4_duration_needs_a_header_inside_moov() {
    let mut mvhd = vec![0u8; 24];
    mvhd[16..20].copy_from_slice(&2500u32.to_be_bytes());
    assert_eq!(mp4_duration_from_bytes(&box_bytes(b"moov", &box_bytes(b"mvhd", &mvhd))), None);
    mvhd[12..16].copy_from_slice(&1000u32.to_be_bytes());
    assert_eq!(mp4_duration_from_bytes(&box_bytes(b"mvhd", &mvhd)), None);
    assert_eq!(mp4_duration_from_bytes(&box_bytes(b"moov", &box_bytes(b"mvhd", &mvhd[..19]))), None);
    assert_eq!(mp4_duration_from_bytes(b""), None);
    assert_eq!(mp4_duration_from_bytes(&[0, 0, 0, 1, b'm', b'o', b'o', b'v', 0]), None);
}

fn vint_id(id: u32) -> Vec<u8> {
    if id <= 0xff {
        vec![id as u8]
    } else if id <= 0xffff {
        vec![(id >> 8) as u8, id as u8]
    } else if id <= 0xff_ffff {
        vec![(id >> 16) as u8, (id >> 8) as u8, id as u8]
    } else {
        vec![(id >> 24) as u8, (id >> 16) as u8, (id >> 8) as u8, id as u8]
    }
}

fn sized(id: u32, payload: &[u8]) -> Vec<u8> {
    let mut v = vint_id(id);
    let size = payload.len();
    assert!(size < 0x7f);
    v.push(0x80 | size as u8);
    v.extend(payload);
    v
}

#[test]
fn mkv_duration_from_info_float() {
    let duration = sized(0x4489, &5000.0f32.to_be_bytes());
    let scale = sized(0x2AD7B1, &1_000_000u32.to_be_bytes());
    let mut info_payload = duration;
    info_payload.extend(scale);
    let info = sized(0x1549A966, &info_payload);
    let segment_payload = info;
    let segment = sized(0x18538067, &segment_payload);
    let d = mkv_duration_from_bytes(&segment).unwrap();
    // 5000 ticks * 1_000_000 ns = 5e9 ns = 5s
    assert_eq!(scaled(d), Duration::from_secs(5));
}

#[test]
fn mkv_duration_uses_the_default_scale_and_double_precision() {
    let header = sized(0x1A45DFA3, &[1, 2, 3]);
    let info = sized(0x1549A966, &sized(0x4489, &2500.0f64.to_be_bytes()));
    let mut file = header;
    file.extend(sized(0x18538067, &info));
    assert_eq!(
        mkv_duration_from_bytes(&file),
        Some(MkvLength { ticks: FloatBits::Double(2500.0f64.to_bits()), scale: 1_000_000 })
    );
}

#[test]
fn mkv_duration_gives_up_on_what_it_cannot_read() {
    assert_eq!(mkv_duration_from_bytes(b""), None);
    assert_eq!(mkv_duration_from_bytes(&[0x0f, 0x80]), None);
    // A duration of three bytes is no number.
    let info = sized(0x1549A966, &sized(0x4489, &[1, 2, 3]));
    assert_eq!(mkv_duration_from_bytes(&sized(0x18538067, &info)), None);
    // A segment of unknown size.
    let mut open_ended = vint_id(0x18538067);
    open_ended.push(0xff);
    open_ended.extend(sized(0x1549A966, &sized(0x4489, &1.0f32.to_be_bytes())));
    assert_eq!(mkv_duration_from_bytes(&open_ended), None);
}

fn tiny_wav(duration_secs: u32) -> Vec<u8> {
    let sr = 8000u32;
    let data_size = sr * 2 * duration_secs;
    let mut w = Vec::new();
    w.extend(b"RIFF");
    w.extend(&(36 + data_size).to_le_bytes());
    w.extend(b"WAVEfmt ");
    w.extend(&16u32.to_le_bytes());
    w.extend(&1u16.to_le_bytes());
    w.extend(&1u16.to_le_bytes());
    w.extend(&sr.to_le_bytes());
    w.extend(&(sr * 2).to_le_bytes());
    w.extend(&2u16.to_le_bytes());
    w.extend(&16u16.to_le_bytes());
    w.extend(b"data");
    w.extend(&data_size.to_le_bytes());
    w.extend(vec![0u8; data_size as usize]);
    w
}

#[test]
fn wav_duration_from_byte_rate() {
    match probe_duration(&p("/t/beep.wav"), &tiny_wav(2)) {
        Some(Length::Ticks(t)) => assert_eq!(duration(t), Duration::from_secs(2)),
        other => panic!("{other:?}"),
    }
}

#[test]
fn wav_duration_passes_over_other_chunks() {
    let plain = tiny_wav(1);
    let mut w = plain[..12].to_vec();
    w.extend(b"LIST");
    w.extend(&3u32.to_le_bytes());
    w.extend(b"abc\0");
    w.extend(&plain[12..]);
    assert_eq!(wav_duration_from_bytes(&w), wav_duration_from_bytes(&plain));
    assert_eq!(wav_duration_from_bytes(&plain), Some(Ticks { count: 16_000, per_second: 16_000 }));
    let mut no_format = plain[..12].to_vec();
    no_format.extend(&plain[36..]);
    assert_eq!(wav_duration_from_bytes(&no_format), None);
    assert_eq!(wav_duration_from_bytes(&plain[..40]), None);
    assert_eq!(wav_duration_from_bytes(b"RIFF0000WAVX"), None);
}

#[test]
fn wav_probe_asks_for_what_it_needs() {
    let wav = tiny_wav(1);
    let (state, step) = wav_step(WavState::Header, Some(&wav[..12]));
    assert_eq!(state, WavState::Chunk { byte_rate: 0 });
    assert_eq!(step, ProbeStep::Read { skip: 0, count: 8 });
    let (state, step) = wav_step(state, Some(&wav[12..20]));
    assert_eq!(step, ProbeStep::Read { skip: 0, count: 16 });
    let (state, step) = wav_step(state, Some(&wav[20..36]));
    assert_eq!(state, WavState::Chunk { byte_rate: 16_000 });
    assert_eq!(step, ProbeStep::Read { skip: 0, count: 8 });
    let (_, step) = wav_step(state, Some(&wav[36..44]));
    assert_eq!(step, ProbeStep::Done(Some(Ticks { count: 16_000, per_second: 16_000 })));
    assert_eq!(wav_step(state, None).1, ProbeStep::Done(None));
}

fn flac(rate: u32, total: u64) -> Vec<u8> {
    let mut info = vec![0u8; 34];
    info[10] = (rate >> 12) as u8;
    info[11] = (rate >> 4) as u8;
    info[12] = ((rate << 4) & 0xf0) as u8;
    info[13] = (total >> 32) as u8 & 0x0f;
    info[14..18].copy_from_slice(&(total as u32).to_be_bytes());
    let mut v = b"fLaC".to_vec();
    v.extend(&[4, 0, 0, 3, 9, 9, 9]);
    v.extend(&[0x80, 0, 0, 34]);
    v.extend(&info);
    v
}

#[test]
fn flac_duration_from_stream_info() {
    let file = flac(44_100, 441_000 + (3 << 32));
    assert_eq!(
        flac_duration_from_bytes(&file),
        Some(Ticks { count: 441_000 + (3 << 32), per_second: 44_100 })
    );
    assert_eq!(flac_duration_from_bytes(&flac(44_100, 0)), None);
    assert_eq!(flac_duration_from_bytes(&flac(0, 5)), None);
    assert_eq!(flac_duration_from_bytes(&file[..40]), None);
    assert_eq!(flac_duration_from_bytes(b"OggS"), None);
    // The last block is not the one that describes the stream.
    assert_eq!(flac_duration_from_bytes(&[b'f', b'L', b'a', b'C', 0x84, 0, 0, 0]), None);
}

#[test]
fn flac_probe_passes_over_blocks() {
    let (state, step) = flac_step(FlacState::Magic, Some(b"fLaC"));
    assert_eq!((state, step), (FlacState::Block, ProbeStep::Read { skip: 0, count: 4 }));
    assert_eq!(
        flac_step(state, Some(&[4, 0, 1, 2])),
        (FlacState::Block, ProbeStep::Read { skip: 258, count: 4 })
    );
    assert_eq!(
        flac_step(state, Some(&[0x80, 0, 0, 34])),
        (FlacState::StreamInfo, ProbeStep::Read { skip: 0, count: 34 })
    );
}

#[test]
fn containers_go_by_extension() {
    assert_eq!(container_of(&p("/a.M4A")), Some(Container::Mp4));
    assert_eq!(container_of(&p("/a.mov")), Some(Container::Mp4));
    assert_eq!(container_of(&p("/a.webm")), Some(Container::Mkv));
    assert_eq!(container_of(&p("/a.wav")), Some(Container::Wav));
    assert_eq!(container_of(&p("/a.flac")), Some(Container::Flac));
    assert_eq!(container_of(&p("/a.mp3")), None);
    assert_eq!(container_of(&p("/a")), None);
    assert_eq!(probe_duration(&p("/a.mp3"), b"anything"), None);
    assert!(!has_embedded_art(&p("/a.mp3")));
}

#[test]
fn album_art_sidecar_prefers_matching_stem() {
    let movie = p("/t/clip.mp4");
    let shown: Vec<String> = album_art_candidates(&movie)
        .iter()
        .map(|c| String::from_utf8(c.text()).unwrap())
        .collect();
    assert_eq!(
        shown,
        [
            "/t/clip.jpg",
            "/t/clip.jpeg",
            "/t/clip.png",
            "/t/cover.jpg",
            "/t/cover.png",
            "/t/folder.jpg",
            "/t/folder.png",
            "/t/album.jpg",
            "/t/poster.jpg",
        ]
    );
    let there = [true, false, false, true, false, false, false, false, false];
    let art = album_art_sidecar(&movie, &there).unwrap();
    assert_eq!(art.file_name().unwrap(), b"clip.jpg");
}

#[test]
fn album_art_sidecar_falls_back_to_cover() {
    let there = [false, false, false, false, true, false, false, false, false];
    let art = album_art_sidecar(&p("/t/clip.mp4"), &there).unwrap();
    assert_eq!(art.file_name().unwrap(), b"cover.png");
    assert!(album_art_sidecar(&p("/t/clip.mp4"), &[false; 9]).is_none());
    assert!(album_art_sidecar(&p("/"), &[true; 9]).is_none());
}

fn video_entry(kind: &[u8; 4], width: u16, height: u16) -> Vec<u8> {
    let mut body = vec![0u8; 24];
    body.extend(width.to_be_bytes());
    body.extend(height.to_be_bytes());
    body.extend([0u8; 50]);
    box_bytes(kind, &body)
}

fn track(handler: &[u8; 4], entry: &[u8]) -> Vec<u8> {
    let mut hdlr = vec![0u8; 8];
    hdlr.extend(handler);
    hdlr.extend([0u8; 12]);
    let mut stsd = vec![0, 0, 0, 0, 0, 0, 0, 1];
    stsd.extend(entry);
    let stbl = box_bytes(b"stbl", &box_bytes(b"stsd", &stsd));
    let mut mdia = box_bytes(b"hdlr", &hdlr);
    mdia.extend(box_bytes(b"minf", &stbl));
    box_bytes(b"trak", &box_bytes(b"mdia", &mdia))
}

fn film(tracks: &[Vec<u8>]) -> Vec<u8> {
    let mut data = box_bytes(b"ftyp", b"isom");
    data.extend(box_bytes(b"moov", &tracks.concat()));
    data
}

#[test]
fn mp4_video_is_read_from_the_first_video_track() {
    let sound = track(b"soun", &video_entry(b"mp4a", 1, 1));
    for (kind, codec) in [
        (b"avc1", VideoCodec::H264),
        (b"avc3", VideoCodec::H264),
        (b"hvc1", VideoCodec::Hevc),
        (b"hev1", VideoCodec::Hevc),
        (b"vp09", VideoCodec::Vp9),
        (b"av01", VideoCodec::Av1),
        (b"mp4v", VideoCodec::Other),
    ] {
        let picture = track(b"vide", &video_entry(kind, 1920, 1080));
        let second = track(b"vide", &video_entry(b"avc1", 3, 4));
        let data = film(&[sound.clone(), picture, second]);
        assert_eq!(mp4_video_codec(&data), Some(codec));
        let info = probe_media(&p("/m/a.MP4"), &data);
        assert_eq!(info.video, Some(VideoTrack { codec, width: 1920, height: 1080 }));
        assert_eq!(info.resolution_attr().as_deref(), Some("1920x1080"));
    }
    assert_eq!(mp4_video_codec(&film(&[sound])), None);
    assert_eq!(mp4_video_codec(b"not a film at all"), None);
}

fn mkv_film(codec: &[u8], kind: u8) -> Vec<u8> {
    let mut picture = sized(0xB0, &[0x05, 0x00]);
    picture.extend(sized(0xBA, &[0x02, 0xD0]));
    let mut entry = sized(0x83, &[kind]);
    entry.extend(sized(0x86, codec));
    entry.extend(sized(0xE0, &picture));
    let mut data = sized(0x1A45_DFA3, &[]);
    data.extend(sized(0x1853_8067, &sized(0x1654_AE6B, &sized(0xAE, &entry))));
    data
}

#[test]
fn mkv_video_is_read_from_the_tracks() {
    for (name, codec) in [
        (&b"V_MPEG4/ISO/AVC"[..], VideoCodec::H264),
        (&b"V_MPEGH/ISO/HEVC"[..], VideoCodec::Hevc),
        (&b"V_VP9"[..], VideoCodec::Vp9),
        (&b"V_AV1\0"[..], VideoCodec::Av1),
        (&b"V_THEORA"[..], VideoCodec::Other),
    ] {
        let video = mkv_video_from_bytes(&mkv_film(name, 1));
        assert_eq!(video, Some(VideoTrack { codec, width: 1280, height: 720 }));
    }
    assert_eq!(mkv_video_from_bytes(&mkv_film(b"V_VP9", 2)), None);
    assert_eq!(mkv_video_from_bytes(b""), None);
}

#[test]
fn profiles_go_by_the_codec() {
    let path = p("/m/a.mp4");
    for kind in [b"hvc1", b"vp09", b"av01"] {
        let data = film(&[track(b"vide", &video_entry(kind, 640, 0))]);
        let info = probe_media(&path, &data);
        assert_eq!(dlna_org_pn_for("mp4", &info), None);
        let fields = probe_fields(&path, &info);
        assert_eq!((fields.pn.as_str(), fields.resolution.as_str()), ("", ""));
    }
    let data = film(&[track(b"vide", &video_entry(b"avc1", 640, 480))]);
    let fields = probe_fields(&path, &probe_media(&path, &data));
    assert_eq!(fields.pn, "AVC_MP4_MP_SD_AAC_MULT5");
    assert_eq!(fields.resolution, "640x480");
    let fields = probe_fields(&path, &probe_media(&path, b""));
    assert_eq!(fields.pn, "AVC_MP4_MP_SD_AAC_MULT5");
    assert_eq!(pn_for("mkv", Some(VideoCodec::Hevc)), None);
    assert_eq!(pn_for("mkv", Some(VideoCodec::H264)), Some("AVC_MKV_MP_HD_AC3"));
    assert_eq!(pn_for("mp3", None), Some("MP3"));
}
