//! DLNA's names for media formats, and the attributes that describe a file.

use crate::media;
use crate::number;
use crate::seqs;
use crate::text;
use crate::video::VideoCodec;
use vstd::prelude::*;

verus! {

/// What DLNA clients are told of every stream: seeking by bytes, the original
/// format, and the flags for streaming, background transfer and stalling.
pub const DLNA_CONTENT_FEATURES: &'static str =
    "DLNA.ORG_OP=01;DLNA.ORG_CI=0;DLNA.ORG_FLAGS=01700000000000000000000000000000";

/// A duration in milliseconds as `H:MM:SS.mmm`.
pub open spec fn duration_text(millis: nat) -> Seq<char> {
    number::decimal(millis / 3_600_000) + ":"@ + number::zero_padded(
        number::decimal((millis / 60_000) % 60),
        2,
    ) + ":"@ + number::zero_padded(number::decimal((millis / 1000) % 60), 2) + "."@
        + number::zero_padded(number::decimal(millis % 1000), 3)
}

/// Writes a duration in milliseconds as DIDL's `duration` attribute.
pub fn format_dlna_duration(millis: u128) -> (r: String)
    ensures
        r@ == duration_text(millis as nat),
{
    let hours: u128 = millis / 3_600_000;
    let mins: u128 = (millis / 60_000) % 60;
    let secs: u128 = (millis / 1000) % 60;
    let ms: u128 = millis % 1000;
    let mut r = number::decimal_text(hours);
    r.append(":");
    r.append(number::padded_text(mins, 2).as_str());
    r.append(":");
    r.append(number::padded_text(secs, 2).as_str());
    r.append(".");
    r.append(number::padded_text(ms, 3).as_str());
    r
}

/// The fields of a written duration add up to the duration, and each but the
/// hours is less than a whole of the next.
pub proof fn law_duration_fields(millis: nat)
    ensures
        (millis / 3_600_000) * 3_600_000 + ((millis / 60_000) % 60) * 60_000 + ((millis / 1000)
            % 60) * 1000 + millis % 1000 == millis,
        (millis / 60_000) % 60 < 60,
        (millis / 1000) % 60 < 60,
        millis % 1000 < 1000,
{
}

/// The DLNA profile for a file extension in any case, where one is safe to claim.
pub open spec fn pn_of(ext: Seq<char>) -> Option<Seq<char>> {
    let e = text::lower(ext);
    if e == "mp3"@ {
        Some("MP3"@)
    } else if e == "flac"@ {
        Some("FLAC"@)
    } else if e == "wav"@ {
        Some("LPCM"@)
    } else if e == "aac"@ {
        Some("AAC_ADTS_320"@)
    } else if e == "m4a"@ {
        Some("AAC_ISO"@)
    } else if e == "mp4"@ || e == "m4v"@ || e == "mov"@ {
        Some("AVC_MP4_MP_SD_AAC_MULT5"@)
    } else if e == "mkv"@ {
        Some("AVC_MKV_MP_HD_AC3"@)
    } else if e == "jpg"@ || e == "jpeg"@ {
        Some("JPEG_LRG"@)
    } else if e == "png"@ {
        Some("PNG_LRG"@)
    } else {
        None
    }
}

/// The DLNA profile for a file extension. A wrong one makes players refuse a
/// file, so only common ones are named.
pub fn dlna_org_pn(ext: &str) -> (r: Option<&'static str>)
    ensures
        match r {
            Some(pn) => pn_of(ext@) == Some(pn@),
            None => pn_of(ext@) is None,
        },
{
    let e = text::to_ascii_lowercase(ext);
    if text::same_text(&e, "mp3") {
        Some("MP3")
    } else if text::same_text(&e, "flac") {
        Some("FLAC")
    } else if text::same_text(&e, "wav") {
        Some("LPCM")
    } else if text::same_text(&e, "aac") {
        Some("AAC_ADTS_320")
    } else if text::same_text(&e, "m4a") {
        Some("AAC_ISO")
    } else if text::same_text(&e, "mp4") || text::same_text(&e, "m4v") || text::same_text(&e, "mov") {
        Some("AVC_MP4_MP_SD_AAC_MULT5")
    } else if text::same_text(&e, "mkv") {
        Some("AVC_MKV_MP_HD_AC3")
    } else if text::same_text(&e, "jpg") || text::same_text(&e, "jpeg") {
        Some("JPEG_LRG")
    } else if text::same_text(&e, "png") {
        Some("PNG_LRG")
    } else {
        None
    }
}

/// The DLNA profile for a file with this extension whose video has this codec. The
/// profiles that extensions stand for are those of H.264, so none is claimed for
/// another codec; where the codec is not known, the extension decides.
pub open spec fn pn_for_codec(ext: Seq<char>, codec: Option<VideoCodec>) -> Option<Seq<char>> {
    match codec {
        Some(c) => if c == VideoCodec::H264 {
            pn_of(ext)
        } else {
            None
        },
        None => pn_of(ext),
    }
}

/// The DLNA profile for a file with this extension whose video has this codec.
pub fn pn_for(ext: &str, codec: Option<VideoCodec>) -> (r: Option<&'static str>)
    ensures
        match r {
            Some(pn) => pn_for_codec(ext@, codec) == Some(pn@),
            None => pn_for_codec(ext@, codec) is None,
        },
{
    match codec {
        Some(c) => if c == VideoCodec::H264 {
            dlna_org_pn(ext)
        } else {
            None
        },
        None => dlna_org_pn(ext),
    }
}

/// HEVC, VP9 and AV1 are never passed off as a profile of H.264.
pub proof fn law_other_codecs_claim_no_profile(ext: Seq<char>, codec: VideoCodec)
    requires
        codec == VideoCodec::Hevc || codec == VideoCodec::Vp9 || codec == VideoCodec::Av1,
    ensures
        pn_for_codec(ext, Some(codec)) is None,
{
}

/// DIDL's `protocolInfo` for a MIME type and a profile.
pub open spec fn protocol_with(mime: Seq<char>, pn: Option<Seq<char>>, flags: Seq<char>) -> Seq<
    char,
> {
    match pn {
        Some(pn) => "http-get:*:"@ + mime + ":DLNA.ORG_PN="@ + pn + ";"@ + flags,
        None => "http-get:*:"@ + mime + ":"@ + flags,
    }
}

/// Writes DIDL's `protocolInfo` for a MIME type and a profile.
pub fn protocol_info_pn(mime: &str, pn: Option<&str>, flags: &str) -> (r: String)
    ensures
        r@ == protocol_with(
            mime@,
            match pn {
                Some(pn) => Some(pn@),
                None => None,
            },
            flags@,
        ),
{
    let mut r = String::from_str("http-get:*:");
    r.append(mime);
    match pn {
        Some(pn) => {
            r.append(":DLNA.ORG_PN=");
            r.append(pn);
            r.append(";");
        },
        None => {
            r.append(":");
        },
    }
    r.append(flags);
    r
}

/// DIDL's `protocolInfo` for a file of which only the extension is known.
pub open spec fn protocol_text(mime: Seq<char>, ext: Seq<char>, flags: Seq<char>) -> Seq<char> {
    protocol_with(mime, pn_of(ext), flags)
}

/// Writes DIDL's `protocolInfo` for a file of which only the extension is known.
pub fn protocol_info(mime: &str, ext: &str, flags: &str) -> (r: String)
    ensures
        r@ == protocol_text(mime@, ext@, flags@),
{
    protocol_info_pn(mime, dlna_org_pn(ext), flags)
}

/// A file extension that stands for a MIME type of indexed media.
pub open spec fn ext_of_mime(mime: Seq<char>) -> Seq<char> {
    if mime == "video/mp4"@ {
        "mp4"@
    } else if mime == "video/x-matroska"@ {
        "mkv"@
    } else if mime == "video/x-msvideo"@ {
        "avi"@
    } else if mime == "video/quicktime"@ {
        "mov"@
    } else if mime == "video/webm"@ {
        "webm"@
    } else if mime == "video/x-flv"@ {
        "flv"@
    } else if mime == "audio/mpeg"@ {
        "mp3"@
    } else if mime == "audio/mp4"@ {
        "m4a"@
    } else if mime == "audio/aac"@ {
        "aac"@
    } else if mime == "audio/flac"@ {
        "flac"@
    } else if mime == "audio/ogg"@ {
        "ogg"@
    } else if mime == "audio/wav"@ {
        "wav"@
    } else if mime == "audio/x-ms-wma"@ {
        "wma"@
    } else if mime == "audio/aiff"@ {
        "aiff"@
    } else {
        ""@
    }
}

/// A file extension that stands for a MIME type of indexed media.
pub fn mime_ext(mime: &str) -> (r: &'static str)
    ensures
        r@ == ext_of_mime(mime@),
{
    if text::same_text(mime, "video/mp4") {
        "mp4"
    } else if text::same_text(mime, "video/x-matroska") {
        "mkv"
    } else if text::same_text(mime, "video/x-msvideo") {
        "avi"
    } else if text::same_text(mime, "video/quicktime") {
        "mov"
    } else if text::same_text(mime, "video/webm") {
        "webm"
    } else if text::same_text(mime, "video/x-flv") {
        "flv"
    } else if text::same_text(mime, "audio/mpeg") {
        "mp3"
    } else if text::same_text(mime, "audio/mp4") {
        "m4a"
    } else if text::same_text(mime, "audio/aac") {
        "aac"
    } else if text::same_text(mime, "audio/flac") {
        "flac"
    } else if text::same_text(mime, "audio/ogg") {
        "ogg"
    } else if text::same_text(mime, "audio/wav") {
        "wav"
    } else if text::same_text(mime, "audio/x-ms-wma") {
        "wma"
    } else if text::same_text(mime, "audio/aiff") {
        "aiff"
    } else {
        ""
    }
}

/// What the server says of one MIME type that it can send.
pub open spec fn source_entry(mime: Seq<char>) -> Seq<char> {
    protocol_text(mime, ext_of_mime(mime), DLNA_CONTENT_FEATURES@)
}

/// What the server says of each MIME type that it can send.
pub open spec fn source_entries() -> Seq<Seq<char>> {
    Seq::new(14, |i: int| source_entry(media::ALL_MIMES@[i]@))
}

/// The formats that the server can send.
pub fn source_protocol_info() -> (r: String)
    ensures
        r@ == seqs::join(source_entries(), ","@),
{
    let mimes = media::ALL_MIMES;
    let mut entries: Vec<String> = Vec::new();
    let mut i: usize = 0;
    while i < 14
        invariant
            i <= 14,
            mimes == media::ALL_MIMES,
            text::texts(entries@) =~= source_entries().take(i as int),
        decreases 14 - i,
    {
        let mime: &str = mimes[i];
        let ghost before = text::texts(entries@);
        let e = protocol_info(mime, mime_ext(mime), DLNA_CONTENT_FEATURES);
        entries.push(e);
        assert(text::texts(entries@) =~= before.push(e@));
        assert(e@ == source_entries()[i as int]);
        i += 1;
    }
    assert(source_entries().take(14) =~= source_entries());
    text::join_texts(&entries, ",")
}

/// A text in lower case is its own lower case.
proof fn lemma_lower_is_lower(s: Seq<char>)
    requires
        forall|i: int| 0 <= i < s.len() ==> text::lower_char(#[trigger] s[i]) == s[i],
    ensures
        text::lower(s) == s,
{
    assert(text::lower(s) =~= s);
}

/// The formats that stand for MIME types, taken apart into their letters.
proof fn lemma_mime_exts()
    ensures
        ext_of_mime("video/mp4"@) == "mp4"@,
        ext_of_mime("video/x-matroska"@) == "mkv"@,
        ext_of_mime("video/x-msvideo"@) == "avi"@,
        ext_of_mime("video/quicktime"@) == "mov"@,
        ext_of_mime("video/webm"@) == "webm"@,
        ext_of_mime("video/x-flv"@) == "flv"@,
        ext_of_mime("audio/mpeg"@) == "mp3"@,
        ext_of_mime("audio/mp4"@) == "m4a"@,
        ext_of_mime("audio/aac"@) == "aac"@,
        ext_of_mime("audio/flac"@) == "flac"@,
        ext_of_mime("audio/ogg"@) == "ogg"@,
        ext_of_mime("audio/wav"@) == "wav"@,
        ext_of_mime("audio/x-ms-wma"@) == "wma"@,
        ext_of_mime("audio/aiff"@) == "aiff"@,
{
    reveal_strlit("video/mp4");
    assert("video/mp4"@.len() == 9 && "video/mp4"@[0] == 'v' && "video/mp4"@[6] == 'm');
    reveal_strlit("video/x-matroska");
    assert("video/x-matroska"@.len() == 16 && "video/x-matroska"@[0] == 'v'
        && "video/x-matroska"@[6] == 'x');
    reveal_strlit("video/x-msvideo");
    assert("video/x-msvideo"@.len() == 15 && "video/x-msvideo"@[0] == 'v'
        && "video/x-msvideo"@[6] == 'x');
    reveal_strlit("video/quicktime");
    assert("video/quicktime"@.len() == 15 && "video/quicktime"@[0] == 'v'
        && "video/quicktime"@[6] == 'q');
    reveal_strlit("video/webm");
    assert("video/webm"@.len() == 10 && "video/webm"@[0] == 'v' && "video/webm"@[6] == 'w');
    reveal_strlit("video/x-flv");
    assert("video/x-flv"@.len() == 11 && "video/x-flv"@[0] == 'v' && "video/x-flv"@[6] == 'x');
    reveal_strlit("audio/mpeg");
    assert("audio/mpeg"@.len() == 10 && "audio/mpeg"@[0] == 'a' && "audio/mpeg"@[6] == 'm');
    reveal_strlit("audio/mp4");
    assert("audio/mp4"@.len() == 9 && "audio/mp4"@[0] == 'a' && "audio/mp4"@[6] == 'm');
    reveal_strlit("audio/aac");
    assert("audio/aac"@.len() == 9 && "audio/aac"@[0] == 'a' && "audio/aac"@[6] == 'a');
    reveal_strlit("audio/flac");
    assert("audio/flac"@.len() == 10 && "audio/flac"@[0] == 'a' && "audio/flac"@[6] == 'f');
    reveal_strlit("audio/ogg");
    assert("audio/ogg"@.len() == 9 && "audio/ogg"@[0] == 'a' && "audio/ogg"@[6] == 'o');
    reveal_strlit("audio/wav");
    assert("audio/wav"@.len() == 9 && "audio/wav"@[0] == 'a' && "audio/wav"@[6] == 'w');
    reveal_strlit("audio/x-ms-wma");
    assert("audio/x-ms-wma"@.len() == 14 && "audio/x-ms-wma"@[0] == 'a'
        && "audio/x-ms-wma"@[6] == 'x');
    reveal_strlit("audio/aiff");
    assert("audio/aiff"@.len() == 10 && "audio/aiff"@[0] == 'a' && "audio/aiff"@[6] == 'a');
}

/// The extensions that stand for formats are theirs.
proof fn lemma_ext_mimes()
    ensures
        media::mime_of("mp4"@) == Some("video/mp4"@),
        media::mime_of("mkv"@) == Some("video/x-matroska"@),
        media::mime_of("avi"@) == Some("video/x-msvideo"@),
        media::mime_of("mov"@) == Some("video/quicktime"@),
        media::mime_of("webm"@) == Some("video/webm"@),
        media::mime_of("flv"@) == Some("video/x-flv"@),
        media::mime_of("mp3"@) == Some("audio/mpeg"@),
        media::mime_of("m4a"@) == Some("audio/mp4"@),
        media::mime_of("aac"@) == Some("audio/aac"@),
        media::mime_of("flac"@) == Some("audio/flac"@),
        media::mime_of("ogg"@) == Some("audio/ogg"@),
        media::mime_of("wav"@) == Some("audio/wav"@),
        media::mime_of("wma"@) == Some("audio/x-ms-wma"@),
        media::mime_of("aiff"@) == Some("audio/aiff"@),
{
    reveal_strlit("mp4");
    assert("mp4"@[0] == 'm' && "mp4"@[1] == 'p' && "mp4"@[2] == '4');
    reveal_strlit("m4v");
    assert("m4v"@[0] == 'm' && "m4v"@[1] == '4' && "m4v"@[2] == 'v');
    reveal_strlit("mkv");
    assert("mkv"@[0] == 'm' && "mkv"@[1] == 'k' && "mkv"@[2] == 'v');
    reveal_strlit("avi");
    assert("avi"@[0] == 'a' && "avi"@[1] == 'v' && "avi"@[2] == 'i');
    reveal_strlit("mov");
    assert("mov"@[0] == 'm' && "mov"@[1] == 'o' && "mov"@[2] == 'v');
    reveal_strlit("webm");
    assert("webm"@.len() == 4 && "webm"@[0] == 'w');
    reveal_strlit("flv");
    assert("flv"@[0] == 'f' && "flv"@[1] == 'l' && "flv"@[2] == 'v');
    reveal_strlit("mp3");
    assert("mp3"@[0] == 'm' && "mp3"@[1] == 'p' && "mp3"@[2] == '3');
    reveal_strlit("m4a");
    assert("m4a"@[0] == 'm' && "m4a"@[1] == '4' && "m4a"@[2] == 'a');
    reveal_strlit("aac");
    assert("aac"@[0] == 'a' && "aac"@[1] == 'a' && "aac"@[2] == 'c');
    reveal_strlit("flac");
    assert("flac"@.len() == 4 && "flac"@[0] == 'f');
    reveal_strlit("ogg");
    assert("ogg"@[0] == 'o' && "ogg"@[1] == 'g' && "ogg"@[2] == 'g');
    reveal_strlit("oga");
    assert("oga"@[0] == 'o' && "oga"@[1] == 'g' && "oga"@[2] == 'a');
    reveal_strlit("opus");
    assert("opus"@.len() == 4 && "opus"@[0] == 'o');
    reveal_strlit("wav");
    assert("wav"@[0] == 'w' && "wav"@[1] == 'a' && "wav"@[2] == 'v');
    reveal_strlit("wma");
    assert("wma"@[0] == 'w' && "wma"@[1] == 'm' && "wma"@[2] == 'a');
    reveal_strlit("aiff");
    assert("aiff"@.len() == 4 && "aiff"@[0] == 'a');
    lemma_lower_is_lower("mp4"@);
    lemma_lower_is_lower("mkv"@);
    lemma_lower_is_lower("avi"@);
    lemma_lower_is_lower("mov"@);
    lemma_lower_is_lower("webm"@);
    lemma_lower_is_lower("flv"@);
    lemma_lower_is_lower("mp3"@);
    lemma_lower_is_lower("m4a"@);
    lemma_lower_is_lower("aac"@);
    lemma_lower_is_lower("flac"@);
    lemma_lower_is_lower("ogg"@);
    lemma_lower_is_lower("wav"@);
    lemma_lower_is_lower("wma"@);
    lemma_lower_is_lower("aiff"@);
}

/// Every format that the server says it can send is that of some extension of
/// playable media.
pub proof fn law_advertised_formats_are_indexed(i: int)
    requires
        0 <= i < 14,
    ensures
        media::mime_of(ext_of_mime(media::ALL_MIMES@[i]@)) == Some(media::ALL_MIMES@[i]@),
        media::is_indexed(ext_of_mime(media::ALL_MIMES@[i]@)),
{
    lemma_mime_exts();
    lemma_ext_mimes();
    reveal_strlit("video/");
    reveal_strlit("audio/");
    reveal_strlit("video/mp4");
    reveal_strlit("video/x-matroska");
    reveal_strlit("video/x-msvideo");
    reveal_strlit("video/quicktime");
    reveal_strlit("video/webm");
    reveal_strlit("video/x-flv");
    reveal_strlit("audio/mpeg");
    reveal_strlit("audio/mp4");
    reveal_strlit("audio/aac");
    reveal_strlit("audio/flac");
    reveal_strlit("audio/ogg");
    reveal_strlit("audio/wav");
    reveal_strlit("audio/x-ms-wma");
    reveal_strlit("audio/aiff");
    if i < 6 {
        assert(media::ALL_MIMES@[i]@.subrange(0, 6) =~= "video/"@);
    } else {
        assert(media::ALL_MIMES@[i]@.subrange(0, 6) =~= "audio/"@);
    }
}

/// The formats of subtitles and pictures are no playable media.
proof fn lemma_other_mimes()
    ensures
        !media::is_video_mime("text/srt"@) && !media::is_audio_mime("text/srt"@),
        !media::is_video_mime("text/vtt"@) && !media::is_audio_mime("text/vtt"@),
        !media::is_video_mime("text/x-ssa"@) && !media::is_audio_mime("text/x-ssa"@),
        !media::is_video_mime("image/jpeg"@) && !media::is_audio_mime("image/jpeg"@),
        !media::is_video_mime("image/png"@) && !media::is_audio_mime("image/png"@),
{
    reveal_strlit("video/");
    reveal_strlit("audio/");
    assert("video/"@[0] == 'v');
    assert("audio/"@[0] == 'a');
    reveal_strlit("text/srt");
    assert("text/srt"@.subrange(0, 6)[0] == "text/srt"@[0]);
    reveal_strlit("text/vtt");
    assert("text/vtt"@.subrange(0, 6)[0] == "text/vtt"@[0]);
    reveal_strlit("text/x-ssa");
    assert("text/x-ssa"@.subrange(0, 6)[0] == "text/x-ssa"@[0]);
    reveal_strlit("image/jpeg");
    assert("image/jpeg"@.subrange(0, 6)[0] == "image/jpeg"@[0]);
    reveal_strlit("image/png");
    assert("image/png"@.subrange(0, 6)[0] == "image/png"@[0]);
}

/// The server says that it can send every file that it has in its library.
pub proof fn law_indexed_formats_are_advertised(ext: Seq<char>)
    requires
        media::is_indexed(ext),
    ensures
        exists|k: int|
            0 <= k < 14 && media::mime_of(ext) == Some((#[trigger] media::ALL_MIMES@[k])@),
{
    lemma_other_mimes();
    assert(media::ALL_MIMES@[0]@ == "video/mp4"@);
    assert(media::ALL_MIMES@[1]@ == "video/x-matroska"@);
    assert(media::ALL_MIMES@[2]@ == "video/x-msvideo"@);
    assert(media::ALL_MIMES@[3]@ == "video/quicktime"@);
    assert(media::ALL_MIMES@[4]@ == "video/webm"@);
    assert(media::ALL_MIMES@[5]@ == "video/x-flv"@);
    assert(media::ALL_MIMES@[6]@ == "audio/mpeg"@);
    assert(media::ALL_MIMES@[7]@ == "audio/mp4"@);
    assert(media::ALL_MIMES@[8]@ == "audio/aac"@);
    assert(media::ALL_MIMES@[9]@ == "audio/flac"@);
    assert(media::ALL_MIMES@[10]@ == "audio/ogg"@);
    assert(media::ALL_MIMES@[11]@ == "audio/wav"@);
    assert(media::ALL_MIMES@[12]@ == "audio/x-ms-wma"@);
    assert(media::ALL_MIMES@[13]@ == "audio/aiff"@);
}

/// The flags name no profile.
proof fn lemma_flags_name_no_profile(j: int)
    requires
        0 <= j < DLNA_CONTENT_FEATURES@.len(),
    ensures
        DLNA_CONTENT_FEATURES@[j] == 'P' ==> j == 10 && DLNA_CONTENT_FEATURES@[11] == '=',
{
    reveal_strlit(
        "DLNA.ORG_OP=01;DLNA.ORG_CI=0;DLNA.ORG_FLAGS=01700000000000000000000000000000",
    );
}

/// MIME types are written without a capital P.
pub proof fn lemma_mimes_are_small(ext: Seq<char>, j: int)
    requires
        media::mime_of(ext) is Some,
        0 <= j < (media::mime_of(ext)->0).len(),
    ensures
        (media::mime_of(ext)->0)[j] != 'P',
{
    reveal_strlit("video/mp4");
    reveal_strlit("video/x-matroska");
    reveal_strlit("video/x-msvideo");
    reveal_strlit("video/quicktime");
    reveal_strlit("video/webm");
    reveal_strlit("video/x-flv");
    reveal_strlit("audio/mpeg");
    reveal_strlit("audio/mp4");
    reveal_strlit("audio/aac");
    reveal_strlit("audio/flac");
    reveal_strlit("audio/ogg");
    reveal_strlit("audio/wav");
    reveal_strlit("audio/x-ms-wma");
    reveal_strlit("audio/aiff");
    reveal_strlit("text/srt");
    reveal_strlit("text/vtt");
    reveal_strlit("text/x-ssa");
    reveal_strlit("image/jpeg");
    reveal_strlit("image/png");
}

/// Where no profile is claimed, none is named.
pub proof fn lemma_no_profile_is_named(mime: Seq<char>, k: int)
    requires
        forall|j: int| 0 <= j < mime.len() ==> #[trigger] mime[j] != 'P',
    ensures
        !text::occurs_at(
            protocol_with(mime, None, DLNA_CONTENT_FEATURES@),
            "DLNA.ORG_PN="@,
            k,
        ),
{
    let whole = protocol_with(mime, None, DLNA_CONTENT_FEATURES@);
    let name = "DLNA.ORG_PN="@;
    reveal_strlit("DLNA.ORG_PN=");
    reveal_strlit("http-get:*:");
    reveal_strlit(":");
    if text::occurs_at(whole, name, k) {
        let found = whole.subrange(k, k + name.len());
        assert(found[9] == 'P' && found[10] == 'N');
        assert(whole[k + 9] == 'P' && whole[k + 10] == 'N');
        let head = 12 + mime.len() as int;
        let j = k + 9 - head;
        if j >= 0 {
            assert(whole[k + 9] == DLNA_CONTENT_FEATURES@[j]);
            assert(whole[k + 10] == DLNA_CONTENT_FEATURES@[j + 1]);
            lemma_flags_name_no_profile(j);
        } else if k + 9 == head - 1 {
            assert(whole[k + 9] == ":"@[0]);
        } else if k + 9 >= 11 {
            assert(whole[k + 9] == mime[k + 9 - 11]);
        } else {
            assert(whole[k + 9] == "http-get:*:"@[k + 9]);
        }
    }
}

/// A duration of hours, minutes, seconds and milliseconds is written as
/// `H:MM:SS.mmm`.
pub proof fn law_durations_are_written(h: nat, m: nat, s: nat, ms: nat)
    requires
        m < 60,
        s < 60,
        ms < 1000,
    ensures
        duration_text(3_600_000 * h + 60_000 * m + 1000 * s + ms) == number::decimal(h) + ":"@
            + number::zero_padded(number::decimal(m), 2) + ":"@ + number::zero_padded(
            number::decimal(s),
            2,
        ) + "."@ + number::zero_padded(number::decimal(ms), 3),
{
    let t = 3_600_000 * h + 60_000 * m + 1000 * s + ms;
    assert(t / 3_600_000 == h);
    assert(t / 60_000 == 60 * h + m);
    assert((60 * h + m) % 60 == m);
    assert(t / 1000 == 3600 * h + 60 * m + s);
    assert((3600 * h + 60 * m + s) % 60 == s);
    assert(t % 1000 == ms);
}

/// An extension stands for a profile.
pub open spec fn is_profile(ext: Seq<char>, pn: Seq<char>) -> bool {
    ||| pn == "MP3"@ && ext == "mp3"@
    ||| pn == "FLAC"@ && ext == "flac"@
    ||| pn == "LPCM"@ && ext == "wav"@
    ||| pn == "AAC_ADTS_320"@ && ext == "aac"@
    ||| pn == "AAC_ISO"@ && ext == "m4a"@
    ||| pn == "AVC_MP4_MP_SD_AAC_MULT5"@ && (ext == "mp4"@ || ext == "m4v"@ || ext == "mov"@)
    ||| pn == "AVC_MKV_MP_HD_AC3"@ && ext == "mkv"@
    ||| pn == "JPEG_LRG"@ && (ext == "jpg"@ || ext == "jpeg"@)
    ||| pn == "PNG_LRG"@ && ext == "png"@
}

/// An extension stands for one profile.
proof fn lemma_profiles_differ(ext: Seq<char>, a: Seq<char>, b: Seq<char>)
    requires
        is_profile(ext, a),
        is_profile(ext, b),
    ensures
        a == b,
{
    reveal_strlit("mp3");
    reveal_strlit("flac");
    reveal_strlit("wav");
    reveal_strlit("aac");
    reveal_strlit("m4a");
    reveal_strlit("mp4");
    reveal_strlit("m4v");
    reveal_strlit("mov");
    reveal_strlit("mkv");
    reveal_strlit("jpg");
    reveal_strlit("jpeg");
    reveal_strlit("png");
    // The length and the first three letters tell them apart.
    let n = ext.len();
    let letters = (ext[0], ext[1], ext[2]);
}

/// A file's profile is the one that its extension stands for, in whatever case it
/// is spelled, as long as its video is not known to be of another codec than
/// H.264; no profile is claimed for any other file.
pub proof fn law_what_profile_is_claimed(
    ext: Seq<char>,
    codec: Option<VideoCodec>,
    pn: Seq<char>,
)
    ensures
        pn_of(ext) == Some(pn) <==> is_profile(text::lower(ext), pn),
        pn_for_codec(ext, codec) == Some(pn) <==> is_profile(text::lower(ext), pn) && (codec is None
            || codec == Some(VideoCodec::H264)),
{
    let e = text::lower(ext);
    match pn_of(ext) {
        Some(p) => {
            assert(is_profile(e, p));
            if is_profile(e, pn) {
                lemma_profiles_differ(e, p, pn);
            }
        },
        None => {},
    }
}

/// What a client is told of a file has four fields: the protocol, the network,
/// the MIME type, and what DLNA adds, which begins with the profile where one is
/// claimed.
pub proof fn law_protocols_can_be_read(mime: Seq<char>, pn: Option<Seq<char>>, flags: Seq<char>)
    requires
        !mime.contains(':'),
        !flags.contains(':'),
        match pn {
            Some(pn) => !pn.contains(':'),
            None => true,
        },
    ensures
        ({
            let fields = seqs::split(protocol_with(mime, pn, flags), ':');
            fields.len() == 4 && fields[0] == "http-get"@ && fields[1] == "*"@ && fields[2] == mime
                && fields[3] == match pn {
                Some(pn) => "DLNA.ORG_PN="@ + pn + ";"@ + flags,
                None => flags,
            }
        }),
{
    let more = match pn {
        Some(pn) => "DLNA.ORG_PN="@ + pn + ";"@ + flags,
        None => flags,
    };
    let fields = seq!["http-get"@, "*"@, mime, more];
    reveal_strlit("http-get");
    reveal_strlit("*");
    reveal_strlit("http-get:*:");
    reveal_strlit(":");
    reveal_strlit(":DLNA.ORG_PN=");
    reveal_strlit("DLNA.ORG_PN=");
    reveal_strlit(";");
    if more.contains(':') {
        let k = choose|k: int| 0 <= k < more.len() && more[k] == ':';
        match pn {
            Some(pn) => {
                if k < 12 {
                    assert(more[k] == "DLNA.ORG_PN="@[k]);
                } else if k < 12 + pn.len() {
                    assert(pn.contains(pn[k - 12]));
                } else if k > 12 + pn.len() {
                    assert(flags.contains(flags[k - 13 - pn.len()]));
                }
            },
            None => {},
        }
    }
    assert forall|i: int| 0 <= i < 4 implies !(#[trigger] fields[i]).contains(':') by {}
    seqs::lemma_split_join(fields, ':');
    let sep = seq![':'];
    seqs::lemma_join_front(fields, sep);
    seqs::lemma_join_front(fields.drop_first(), sep);
    seqs::lemma_join_front(fields.drop_first().drop_first(), sep);
    seqs::lemma_join_front(fields.drop_first().drop_first().drop_first(), sep);
    assert(seqs::join(fields, sep) =~= protocol_with(mime, pn, flags));
}

/// The flags hold neither a comma nor a colon.
pub proof fn lemma_flags_are_plain()
    ensures
        !DLNA_CONTENT_FEATURES@.contains(','),
        !DLNA_CONTENT_FEATURES@.contains(':'),
{
    reveal_strlit(
        "DLNA.ORG_OP=01;DLNA.ORG_CI=0;DLNA.ORG_FLAGS=01700000000000000000000000000000",
    );
}

/// MIME types hold neither a comma nor a colon.
pub proof fn lemma_mimes_are_plain(ext: Seq<char>)
    requires
        media::mime_of(ext) is Some,
    ensures
        !(media::mime_of(ext)->0).contains(','),
        !(media::mime_of(ext)->0).contains(':'),
{
    reveal_strlit("video/mp4");
    reveal_strlit("video/x-matroska");
    reveal_strlit("video/x-msvideo");
    reveal_strlit("video/quicktime");
    reveal_strlit("video/webm");
    reveal_strlit("video/x-flv");
    reveal_strlit("audio/mpeg");
    reveal_strlit("audio/mp4");
    reveal_strlit("audio/aac");
    reveal_strlit("audio/flac");
    reveal_strlit("audio/ogg");
    reveal_strlit("audio/wav");
    reveal_strlit("audio/x-ms-wma");
    reveal_strlit("audio/aiff");
    reveal_strlit("text/srt");
    reveal_strlit("text/vtt");
    reveal_strlit("text/x-ssa");
    reveal_strlit("image/jpeg");
    reveal_strlit("image/png");
}

/// Profiles hold neither a comma nor a colon.
pub proof fn lemma_profiles_are_plain(ext: Seq<char>)
    requires
        pn_of(ext) is Some,
    ensures
        (pn_of(ext)->0).len() > 0,
        !(pn_of(ext)->0).contains(','),
        !(pn_of(ext)->0).contains(':'),
{
    reveal_strlit("MP3");
    reveal_strlit("FLAC");
    reveal_strlit("LPCM");
    reveal_strlit("AAC_ADTS_320");
    reveal_strlit("AAC_ISO");
    reveal_strlit("AVC_MP4_MP_SD_AAC_MULT5");
    reveal_strlit("AVC_MKV_MP_HD_AC3");
    reveal_strlit("JPEG_LRG");
    reveal_strlit("PNG_LRG");
}

/// What a client is told of a format holds no comma.
proof fn lemma_protocols_hold_no_comma(mime: Seq<char>, ext: Seq<char>)
    requires
        !mime.contains(','),
    ensures
        !protocol_text(mime, ext, DLNA_CONTENT_FEATURES@).contains(','),
{
    let whole = protocol_text(mime, ext, DLNA_CONTENT_FEATURES@);
    let flags = DLNA_CONTENT_FEATURES@;
    lemma_flags_are_plain();
    reveal_strlit("http-get:*:");
    reveal_strlit(":");
    reveal_strlit(":DLNA.ORG_PN=");
    reveal_strlit(";");
    let m = mime.len() as int;
    if whole.contains(',') {
        let k = choose|k: int| 0 <= k < whole.len() && whole[k] == ',';
        if k < 11 {
            assert(whole[k] == "http-get:*:"@[k]);
        } else if k < 11 + m {
            assert(mime.contains(mime[k - 11]));
        } else {
            match pn_of(ext) {
                Some(pn) => {
                    lemma_profiles_are_plain(ext);
                    let n = pn.len() as int;
                    if k < 24 + m {
                        assert(whole[k] == ":DLNA.ORG_PN="@[k - 11 - m]);
                    } else if k < 24 + m + n {
                        assert(pn.contains(pn[k - 24 - m]));
                    } else if k > 24 + m + n {
                        assert(flags.contains(flags[k - 25 - m - n]));
                    }
                },
                None => {
                    if k > 11 + m {
                        assert(flags.contains(flags[k - 12 - m]));
                    }
                },
            }
        }
    }
}

/// The list of what the server can send, taken apart at its commas, holds an
/// entry for the format of every file in the library: an entry whose third field
/// is that MIME type.
pub proof fn law_files_are_of_listed_formats(ext: Seq<char>, mime: Seq<char>)
    requires
        media::is_indexed(ext),
        media::mime_of(ext) == Some(mime),
    ensures
        exists|k: int| #[trigger]
            is_listed(seqs::split(seqs::join(source_entries(), ","@), ','), k, mime),
{
    law_indexed_formats_are_advertised(ext);
    let k = choose|k: int|
        0 <= k < 14 && media::mime_of(ext) == Some((#[trigger] media::ALL_MIMES@[k])@);
    let entries = source_entries();
    assert forall|i: int| 0 <= i < entries.len() implies !(#[trigger] entries[i]).contains(',') by {
        law_advertised_formats_are_indexed(i);
        lemma_mimes_are_plain(ext_of_mime(media::ALL_MIMES@[i]@));
        lemma_protocols_hold_no_comma(
            media::ALL_MIMES@[i]@,
            ext_of_mime(media::ALL_MIMES@[i]@),
        );
    }
    seqs::lemma_split_join(entries, ',');
    reveal_strlit(",");
    assert(","@ =~= seq![',']);
    lemma_mimes_are_plain(ext);
    lemma_flags_are_plain();
    if pn_of(ext_of_mime(mime)) is Some {
        lemma_profiles_are_plain(ext_of_mime(mime));
    }
    law_protocols_can_be_read(mime, pn_of(ext_of_mime(mime)), DLNA_CONTENT_FEATURES@);
    assert(is_listed(entries, k, mime));
}

/// An entry of a list is for a MIME type.
pub open spec fn is_listed(entries: Seq<Seq<char>>, k: int, mime: Seq<char>) -> bool {
    &&& 0 <= k < entries.len()
    &&& seqs::split(entries[k], ':').len() == 4
    &&& seqs::split(entries[k], ':')[0] == "http-get"@
    &&& seqs::split(entries[k], ':')[2] == mime
}

} // verus!
