//! How long an MP4 file plays, and what its video is.

use crate::bytes;
use crate::probe::Ticks;
use crate::video::VideoCodec;
use crate::video::VideoTrack;
use vstd::prelude::*;

verus! {

/// The name of the box that holds a film's metadata, `moov`.
pub open spec fn moov() -> Seq<u8> {
    seq![109, 111, 111, 118]
}

/// The name of the box that holds a film's header, `mvhd`.
pub open spec fn mvhd() -> Seq<u8> {
    seq![109, 118, 104, 100]
}

/// The length that a film's header gives.
pub open spec fn header_length(payload: Seq<u8>) -> Option<Ticks> {
    if payload.len() == 0 {
        None
    } else {
        let wide = payload[0] == 1;
        let need: int = if wide {
            32
        } else {
            20
        };
        if payload.len() < need {
            None
        } else {
            let scale = bytes::be_value(
                bytes::slice(
                    payload,
                    if wide {
                        20
                    } else {
                        12
                    },
                    4,
                ),
            );
            let count = if wide {
                bytes::be_value(bytes::slice(payload, 24, 8))
            } else {
                bytes::be_value(bytes::slice(payload, 16, 4))
            };
            if scale == 0 {
                None
            } else {
                Some(Ticks { count: count as u64, per_second: scale as u32 })
            }
        }
    }
}

/// How many bytes the header of the box at `pos` takes up, and how many its
/// payload, in a file or box that ends at `end`.
pub open spec fn box_extent(data: Seq<u8>, pos: int, end: int) -> (int, int) {
    let size = bytes::be_value(bytes::slice(data, pos, 4));
    if size == 1 {
        let large = bytes::be_value(bytes::slice(data, pos + 8, 8));
        (
            16,
            if large >= 16 {
                large - 16
            } else {
                0
            },
        )
    } else if size == 0 {
        (8, end - pos - 8)
    } else {
        (
            8,
            if size >= 8 {
                size - 8
            } else {
                0
            },
        )
    }
}

/// The length that the boxes between `pos` and `end` give: that of the first
/// film header, in the order in which the boxes stand, inside a metadata box.
pub open spec fn boxes_length(data: Seq<u8>, pos: int, end: int, in_moov: bool) -> Option<Ticks>
    decreases end - pos,
{
    if pos < 0 || pos + 8 > end {
        None
    } else {
        let size = bytes::be_value(bytes::slice(data, pos, 4));
        let kind = bytes::slice(data, pos + 4, 4);
        if size == 1 && pos + 16 > end {
            None
        } else {
            let (head, body) = box_extent(data, pos, end);
            let start = pos + head;
            let stop = if start + body <= end {
                start + body
            } else {
                end
            };
            if in_moov && kind == mvhd() {
                header_length(data.subrange(start, stop))
            } else if kind == moov() && boxes_length(data, start, stop, true) is Some {
                boxes_length(data, start, stop, true)
            } else if size == 0 {
                None
            } else if size == 1 {
                boxes_length(data, stop, end, in_moov)
            } else if size <= 8 {
                boxes_length(data, pos + 8, end, in_moov)
            } else if pos + size <= end {
                boxes_length(data, pos + size, end, in_moov)
            } else {
                None
            }
        }
    }
}

/// The length that an MP4 file's contents give.
pub open spec fn mp4_length(data: Seq<u8>) -> Option<Ticks> {
    boxes_length(data, 0, data.len() as int, false)
}

/// Reads a film's header from `data[start..stop]`.
fn parse_mvhd(data: &[u8], start: usize, stop: usize) -> (r: Option<Ticks>)
    requires
        start <= stop <= data@.len(),
    ensures
        r == header_length(data@.subrange(start as int, stop as int)),
{
    let ghost payload = data@.subrange(start as int, stop as int);
    if start == stop {
        return None;
    }
    assert(payload[0] == data@[start as int]);
    proof {
        bytes::lemma_byte_powers();
    }
    if data[start] == 1 {
        if stop - start < 32 {
            return None;
        }
        assert(bytes::slice(payload, 20, 4) =~= bytes::slice(data@, start + 20, 4));
        assert(bytes::slice(payload, 24, 8) =~= bytes::slice(data@, start + 24, 8));
        proof {
            bytes::lemma_be_bound(bytes::slice(payload, 20, 4));
        }
        let scale: u64 = bytes::read_be(data, start + 20, 4);
        let count: u64 = bytes::read_be(data, start + 24, 8);
        if scale == 0 {
            return None;
        }
        Some(Ticks { count, per_second: scale as u32 })
    } else {
        if stop - start < 20 {
            return None;
        }
        assert(bytes::slice(payload, 12, 4) =~= bytes::slice(data@, start + 12, 4));
        assert(bytes::slice(payload, 16, 4) =~= bytes::slice(data@, start + 16, 4));
        proof {
            bytes::lemma_be_bound(bytes::slice(payload, 12, 4));
        }
        let scale: u64 = bytes::read_be(data, start + 12, 4);
        let count: u64 = bytes::read_be(data, start + 16, 4);
        if scale == 0 {
            return None;
        }
        Some(Ticks { count, per_second: scale as u32 })
    }
}

/// Where the payload of the box at `pos` starts and stops.
fn payload_range(data: &[u8], pos: usize, end: usize, size: u64) -> (r: (usize, usize))
    requires
        pos + 8 <= end <= data@.len(),
        size == bytes::be_value(bytes::slice(data@, pos as int, 4)),
        size == 1 ==> pos + 16 <= end,
    ensures
        ({
            let (head, body) = box_extent(data@, pos as int, end as int);
            let start = pos + head;
            &&& r.0 == start
            &&& r.1 == if start + body <= end {
                start + body
            } else {
                end as int
            }
            &&& pos < r.0 <= r.1 <= end
        }),
{
    let (start, body): (usize, u64) = if size == 1 {
        let large: u64 = bytes::read_be(data, pos + 8, 8);
        (
            pos + 16,
            if large >= 16 {
                large - 16
            } else {
                0
            },
        )
    } else if size == 0 {
        (pos + 8, (end - pos - 8) as u64)
    } else {
        (
            pos + 8,
            if size >= 8 {
                size - 8
            } else {
                0
            },
        )
    };
    if body <= (end - start) as u64 {
        (start, start + body as usize)
    } else {
        (start, end)
    }
}

/// Walks the boxes of `data[from..end]`.
fn walk(data: &[u8], from: usize, end: usize, in_moov: bool) -> (r: Option<Ticks>)
    requires
        from <= end <= data@.len(),
    ensures
        r == boxes_length(data@, from as int, end as int, in_moov),
    decreases end - from,
{
    let mut pos: usize = from;
    while end - pos >= 8
        invariant
            from <= pos <= end <= data@.len(),
            boxes_length(data@, from as int, end as int, in_moov) == boxes_length(
                data@,
                pos as int,
                end as int,
                in_moov,
            ),
        decreases end - pos,
    {
        let size: u64 = bytes::read_be(data, pos, 4);
        if size == 1 && end - pos < 16 {
            return None;
        }
        let (start, stop) = payload_range(data, pos, end, size);
        if in_moov && bytes::is_name_at(data, pos + 4, 109, 118, 104, 100) {
            return parse_mvhd(data, start, stop);
        }
        if bytes::is_name_at(data, pos + 4, 109, 111, 111, 118) {
            let inner = walk(data, start, stop, true);
            if inner.is_some() {
                return inner;
            }
        }
        if size == 0 {
            return None;
        }
        if size == 1 {
            pos = stop;
        } else if size <= 8 {
            pos = pos + 8;
        } else if size <= (end - pos) as u64 {
            pos = pos + size as usize;
        } else {
            return None;
        }
    }
    None
}

/// Reads how long an MP4 file plays from its contents.
pub fn mp4_duration_from_bytes(data: &[u8]) -> (r: Option<Ticks>)
    ensures
        r == mp4_length(data@),
{
    walk(data, 0, data.len(), false)
}

/// The name of the box that tells a track, `trak`.
pub open spec fn trak() -> Seq<u8> {
    seq![116, 114, 97, 107]
}

/// The name of the box that tells what a track is made of, `mdia`.
pub open spec fn mdia() -> Seq<u8> {
    seq![109, 100, 105, 97]
}

/// The name of the box that tells what kind of track it is, `hdlr`.
pub open spec fn hdlr() -> Seq<u8> {
    seq![104, 100, 108, 114]
}

/// The name of the box that tells how a track is stored, `minf`.
pub open spec fn minf() -> Seq<u8> {
    seq![109, 105, 110, 102]
}

/// The name of the box that tells a track's tables, `stbl`.
pub open spec fn stbl() -> Seq<u8> {
    seq![115, 116, 98, 108]
}

/// The name of the box that tells how a track's samples are coded, `stsd`.
pub open spec fn stsd() -> Seq<u8> {
    seq![115, 116, 115, 100]
}

/// The kind of track that holds video, `vide`.
pub open spec fn vide() -> Seq<u8> {
    seq![118, 105, 100, 101]
}

/// Where the payload of the box at `pos` starts and stops, and where the next box
/// is. None where no box fits.
pub open spec fn box_at(data: Seq<u8>, pos: int, end: int) -> Option<(int, int, int)> {
    if pos < 0 || pos + 8 > end {
        None
    } else {
        let size = bytes::be_value(bytes::slice(data, pos, 4));
        if size == 1 && pos + 16 > end {
            None
        } else {
            let (head, body) = box_extent(data, pos, end);
            let start = pos + head;
            let stop = if start + body <= end {
                start + body
            } else {
                end
            };
            let next = if size == 0 {
                end
            } else if size == 1 {
                stop
            } else if size <= 8 {
                pos + 8
            } else if pos + size <= end {
                pos + size
            } else {
                end
            };
            Some((start, stop, next))
        }
    }
}

/// The payload of the first box called `name` among those from `pos` to `end`.
pub open spec fn child_of(data: Seq<u8>, pos: int, end: int, name: Seq<u8>) -> Option<(int, int)>
    decreases end - pos,
{
    match box_at(data, pos, end) {
        None => None,
        Some((start, stop, next)) => if bytes::slice(data, pos + 4, 4) == name {
            Some((start, stop))
        } else if next > pos {
            child_of(data, next, end, name)
        } else {
            None
        },
    }
}

/// The payload of the first box called `name` in the payload `outer`.
pub open spec fn inside(data: Seq<u8>, outer: Option<(int, int)>, name: Seq<u8>) -> Option<
    (int, int),
> {
    match outer {
        Some((start, stop)) => child_of(data, start, stop, name),
        None => None,
    }
}

/// The codec that a sample entry's name stands for: `avc1` and `avc3` for H.264,
/// `hvc1`, `hev1`, `dvh1` and `dvhe` for HEVC, `vp09` for VP9, `av01` for AV1.
pub open spec fn entry_codec(name: Seq<u8>) -> VideoCodec {
    if name == seq![97u8, 118, 99, 49] || name == seq![97u8, 118, 99, 51] {
        VideoCodec::H264
    } else if name == seq![104u8, 118, 99, 49] || name == seq![104u8, 101, 118, 49] || name
        == seq![100u8, 118, 104, 49] || name == seq![100u8, 118, 104, 101] {
        VideoCodec::Hevc
    } else if name == seq![118u8, 112, 48, 57] {
        VideoCodec::Vp9
    } else if name == seq![97u8, 118, 48, 49] {
        VideoCodec::Av1
    } else {
        VideoCodec::Other
    }
}

/// The video that the first sample entry in `data[start..stop]` describes.
pub open spec fn entry_video(data: Seq<u8>, start: int, stop: int) -> Option<VideoTrack> {
    if stop - start < 16 {
        None
    } else {
        let sized = stop - start >= 44;
        Some(
            VideoTrack {
                codec: entry_codec(bytes::slice(data, start + 12, 4)),
                width: if sized {
                    bytes::be_value(bytes::slice(data, start + 40, 2)) as u64
                } else {
                    0
                },
                height: if sized {
                    bytes::be_value(bytes::slice(data, start + 42, 2)) as u64
                } else {
                    0
                },
            },
        )
    }
}

/// A track's description says that it holds video.
pub open spec fn is_video_track(data: Seq<u8>, media: Option<(int, int)>) -> bool {
    match inside(data, media, hdlr()) {
        Some((start, stop)) => stop - start >= 12 && bytes::slice(data, start + 8, 4) == vide(),
        None => false,
    }
}

/// The video of the track in `data[start..stop]`, where it holds any.
pub open spec fn track_video(data: Seq<u8>, start: int, stop: int) -> Option<VideoTrack> {
    let media = child_of(data, start, stop, mdia());
    if is_video_track(data, media) {
        match inside(data, inside(data, inside(data, media, minf()), stbl()), stsd()) {
            Some((a, b)) => entry_video(data, a, b),
            None => None,
        }
    } else {
        None
    }
}

/// The video of the first track from `pos` to `end` that holds any.
pub open spec fn tracks_video(data: Seq<u8>, pos: int, end: int) -> Option<VideoTrack>
    decreases end - pos,
{
    match box_at(data, pos, end) {
        None => None,
        Some((start, stop, next)) => if bytes::slice(data, pos + 4, 4) == trak() && track_video(
            data,
            start,
            stop,
        ) is Some {
            track_video(data, start, stop)
        } else if next > pos {
            tracks_video(data, next, end)
        } else {
            None
        },
    }
}

/// The video that an MP4 file's contents describe.
pub open spec fn mp4_video(data: Seq<u8>) -> Option<VideoTrack> {
    match child_of(data, 0, data.len() as int, moov()) {
        Some((start, stop)) => tracks_video(data, start, stop),
        None => None,
    }
}

/// Reads where the payload of the box at `pos` starts and stops, and where the next
/// box is.
fn read_box(data: &[u8], pos: usize, end: usize) -> (r: Option<(usize, usize, usize)>)
    requires
        pos <= end <= data@.len(),
    ensures
        match r {
            Some((start, stop, next)) => box_at(data@, pos as int, end as int) == Some(
                (start as int, stop as int, next as int),
            ) && pos + 8 <= start <= stop <= end && pos < next <= end,
            None => box_at(data@, pos as int, end as int) is None,
        },
{
    if end - pos < 8 {
        return None;
    }
    let size: u64 = bytes::read_be(data, pos, 4);
    if size == 1 && end - pos < 16 {
        return None;
    }
    let (start, stop) = payload_range(data, pos, end, size);
    let next: usize = if size == 0 {
        end
    } else if size == 1 {
        stop
    } else if size <= 8 {
        pos + 8
    } else if size <= (end - pos) as u64 {
        pos + size as usize
    } else {
        end
    };
    Some((start, stop, next))
}

/// Finds the payload of the first box with a given name.
fn find_child(data: &[u8], from: usize, end: usize, a: u8, b: u8, c: u8, d: u8) -> (r: Option<
    (usize, usize),
>)
    requires
        from <= end <= data@.len(),
    ensures
        match r {
            Some((start, stop)) => child_of(data@, from as int, end as int, seq![a, b, c, d])
                == Some((start as int, stop as int)) && start <= stop <= end,
            None => child_of(data@, from as int, end as int, seq![a, b, c, d]) is None,
        },
{
    let ghost name = seq![a, b, c, d];
    let mut pos: usize = from;
    loop
        invariant
            pos <= end <= data@.len(),
            name == seq![a, b, c, d],
            child_of(data@, from as int, end as int, name) == child_of(
                data@,
                pos as int,
                end as int,
                name,
            ),
        decreases end - pos,
    {
        match read_box(data, pos, end) {
            None => {
                return None;
            },
            Some((start, stop, next)) => {
                if bytes::is_name_at(data, pos + 4, a, b, c, d) {
                    return Some((start, stop));
                }
                pos = next;
            },
        }
    }
}

/// Tells the codec that a sample entry's name stands for.
fn read_codec(data: &[u8], at: usize) -> (r: VideoCodec)
    requires
        at + 4 <= data@.len(),
    ensures
        r == entry_codec(bytes::slice(data@, at as int, 4)),
{
    if bytes::is_name_at(data, at, 97, 118, 99, 49)
        || bytes::is_name_at(data, at, 97, 118, 99, 51) {
        VideoCodec::H264
    } else if bytes::is_name_at(data, at, 104, 118, 99, 49)
        || bytes::is_name_at(data, at, 104, 101, 118, 49)
        || bytes::is_name_at(data, at, 100, 118, 104, 49)
        || bytes::is_name_at(data, at, 100, 118, 104, 101) {
        VideoCodec::Hevc
    } else if bytes::is_name_at(data, at, 118, 112, 48, 57) {
        VideoCodec::Vp9
    } else if bytes::is_name_at(data, at, 97, 118, 48, 49) {
        VideoCodec::Av1
    } else {
        VideoCodec::Other
    }
}

/// Reads the video of the track in `data[start..stop]`.
fn read_track(data: &[u8], start: usize, stop: usize) -> (r: Option<VideoTrack>)
    requires
        start <= stop <= data@.len(),
    ensures
        r == track_video(data@, start as int, stop as int),
{
    let (m0, m1) = match find_child(data, start, stop, 109, 100, 105, 97) {
        Some(found) => found,
        None => {
            return None;
        },
    };
    let (h0, h1) = match find_child(data, m0, m1, 104, 100, 108, 114) {
        Some(found) => found,
        None => {
            return None;
        },
    };
    if h1 - h0 < 12 || !bytes::is_name_at(data, h0 + 8, 118, 105, 100, 101) {
        return None;
    }
    let (i0, i1) = match find_child(data, m0, m1, 109, 105, 110, 102) {
        Some(found) => found,
        None => {
            return None;
        },
    };
    let (t0, t1) = match find_child(data, i0, i1, 115, 116, 98, 108) {
        Some(found) => found,
        None => {
            return None;
        },
    };
    let (s0, s1) = match find_child(data, t0, t1, 115, 116, 115, 100) {
        Some(found) => found,
        None => {
            return None;
        },
    };
    if s1 - s0 < 16 {
        return None;
    }
    let codec = read_codec(data, s0 + 12);
    if s1 - s0 < 44 {
        return Some(VideoTrack { codec, width: 0, height: 0 });
    }
    let width: u64 = bytes::read_be(data, s0 + 40, 2);
    let height: u64 = bytes::read_be(data, s0 + 42, 2);
    Some(VideoTrack { codec, width, height })
}

/// Reads what the video in an MP4 file is from its contents.
pub fn mp4_video_from_bytes(data: &[u8]) -> (r: Option<VideoTrack>)
    ensures
        r == mp4_video(data@),
{
    let (from, end) = match find_child(data, 0, data.len(), 109, 111, 111, 118) {
        Some(found) => found,
        None => {
            return None;
        },
    };
    let mut pos: usize = from;
    loop
        invariant
            pos <= end <= data@.len(),
            mp4_video(data@) == tracks_video(data@, pos as int, end as int),
        decreases end - pos,
    {
        match read_box(data, pos, end) {
            None => {
                return None;
            },
            Some((start, stop, next)) => {
                if bytes::is_name_at(data, pos + 4, 116, 114, 97, 107) {
                    let video = read_track(data, start, stop);
                    if video.is_some() {
                        return video;
                    }
                }
                pos = next;
            },
        }
    }
}

/// The codec of the video that an MP4 file's contents describe.
pub open spec fn video_codec_of(data: Seq<u8>) -> Option<VideoCodec> {
    match mp4_video(data) {
        Some(v) => Some(v.codec),
        None => None,
    }
}

/// Reads the codec of the video in an MP4 file from its contents.
pub fn mp4_video_codec(data: &[u8]) -> (r: Option<VideoCodec>)
    ensures
        r == video_codec_of(data@),
{
    match mp4_video_from_bytes(data) {
        Some(v) => Some(v.codec),
        None => None,
    }
}

/// A box as it is written: its name, whether its size is written with eight
/// bytes in place of four, and its contents.
pub struct Written {
    pub name: Seq<u8>,
    pub large: bool,
    pub body: Seq<u8>,
}

/// A box can be written as it says.
pub open spec fn is_writable(b: Written) -> bool {
    &&& b.name.len() == 4
    &&& !b.large ==> b.body.len() + 8 < 0x1_0000_0000
    &&& b.large ==> b.body.len() + 16 < 0x1_0000_0000_0000_0000
}

/// The bytes of a box.
pub open spec fn box_bytes(b: Written) -> Seq<u8> {
    if b.large {
        bytes::be_bytes(1, 4) + b.name + bytes::be_bytes(b.body.len() + 16, 8) + b.body
    } else {
        bytes::be_bytes(b.body.len() + 8, 4) + b.name + b.body
    }
}

/// How many bytes stand in front of a box's contents.
pub open spec fn head_len(b: Written) -> int {
    if b.large {
        16
    } else {
        8
    }
}

/// The bytes of boxes, one behind the other.
pub open spec fn boxes_bytes(bs: Seq<Written>) -> Seq<u8>
    decreases bs.len(),
{
    if bs.len() == 0 {
        Seq::empty()
    } else {
        box_bytes(bs[0]) + boxes_bytes(bs.drop_first())
    }
}

/// Every box can be written as it says.
pub open spec fn are_writable(bs: Seq<Written>) -> bool {
    forall|i: int| 0 <= i < bs.len() ==> is_writable(#[trigger] bs[i])
}

/// A box reads as it was written: its name, its size and its contents.
proof fn lemma_box_read(data: Seq<u8>, pos: int, end: int, b: Written)
    requires
        is_writable(b),
        0 <= pos,
        pos + box_bytes(b).len() <= end <= data.len(),
        data.subrange(pos, pos + box_bytes(b).len()) == box_bytes(b),
    ensures
        box_bytes(b).len() == head_len(b) + b.body.len(),
        pos + head_len(b) <= end,
        bytes::slice(data, pos + 4, 4) == b.name,
        box_extent(data, pos, end) == (head_len(b), b.body.len() as int),
        bytes::be_value(bytes::slice(data, pos, 4)) == if b.large {
            1
        } else {
            b.body.len() + 8
        },
        data.subrange(pos + head_len(b), pos + head_len(b) + b.body.len()) == b.body,
        box_at(data, pos, end) == Some(
            (
                pos + head_len(b),
                pos + head_len(b) + b.body.len(),
                pos + head_len(b) + b.body.len(),
            ),
        ),
{
    bytes::lemma_byte_powers();
    let whole = box_bytes(b);
    let at = data.subrange(pos, pos + whole.len());
    let n = b.body.len() as int;
    if b.large {
        bytes::law_numbers_are_read_back(1, 4);
        bytes::law_numbers_are_read_back(b.body.len() + 16, 8);
        assert(whole.len() == 16 + n);
        assert(bytes::slice(data, pos, 4) =~= at.subrange(0, 4));
        assert(whole.subrange(0, 4) =~= bytes::be_bytes(1, 4));
        assert(bytes::slice(data, pos + 8, 8) =~= at.subrange(8, 16));
        assert(whole.subrange(8, 16) =~= bytes::be_bytes(b.body.len() + 16, 8));
        assert(data.subrange(pos + 16, pos + 16 + n) =~= at.subrange(16, 16 + n));
        assert(whole.subrange(16, 16 + n) =~= b.body);
    } else {
        bytes::law_numbers_are_read_back(b.body.len() + 8, 4);
        assert(whole.len() == 8 + n);
        assert(bytes::slice(data, pos, 4) =~= at.subrange(0, 4));
        assert(whole.subrange(0, 4) =~= bytes::be_bytes(b.body.len() + 8, 4));
        assert(data.subrange(pos + 8, pos + 8 + n) =~= at.subrange(8, 8 + n));
        assert(whole.subrange(8, 8 + n) =~= b.body);
    }
    assert(bytes::slice(data, pos + 4, 4) =~= at.subrange(4, 8));
    assert(whole.subrange(4, 8) =~= b.name);
}

/// The first of several boxes, and where the others are.
proof fn lemma_first_box(data: Seq<u8>, pos: int, end: int, bs: Seq<Written>)
    requires
        bs.len() > 0,
        are_writable(bs),
        0 <= pos <= end <= data.len(),
        data.subrange(pos, end) == boxes_bytes(bs),
    ensures
        pos + box_bytes(bs[0]).len() <= end,
        data.subrange(pos, pos + box_bytes(bs[0]).len()) == box_bytes(bs[0]),
        data.subrange(pos + box_bytes(bs[0]).len(), end) == boxes_bytes(bs.drop_first()),
        are_writable(bs.drop_first()),
{
    let first = box_bytes(bs[0]);
    let rest = boxes_bytes(bs.drop_first());
    let at = data.subrange(pos, end);
    assert(at.len() == first.len() + rest.len());
    assert(data.subrange(pos, pos + first.len()) =~= at.subrange(0, first.len() as int));
    assert(at.subrange(0, first.len() as int) =~= first);
    assert(data.subrange(pos + first.len(), end) =~= at.subrange(
        first.len() as int,
        at.len() as int,
    ));
    assert(at.subrange(first.len() as int, at.len() as int) =~= rest);
    assert forall|i: int| 0 <= i < bs.drop_first().len() implies is_writable(
        #[trigger] bs.drop_first()[i],
    ) by {
        assert(is_writable(bs[i + 1]));
    }
}

/// Among boxes that were written one behind the other, the first of a name is
/// found, with the contents that were written; and none where none has the name.
pub proof fn law_children_are_found(
    data: Seq<u8>,
    pos: int,
    end: int,
    bs: Seq<Written>,
    name: Seq<u8>,
    k: int,
)
    requires
        are_writable(bs),
        0 <= pos <= end <= data.len(),
        data.subrange(pos, end) == boxes_bytes(bs),
        0 <= k <= bs.len(),
        forall|i: int| 0 <= i < k ==> (#[trigger] bs[i]).name != name,
        k < bs.len() ==> bs[k].name == name,
    ensures
        match child_of(data, pos, end, name) {
            Some((start, stop)) => k < bs.len() && pos <= start <= stop <= end && data.subrange(
                start,
                stop,
            ) == bs[k].body,
            None => k == bs.len(),
        },
    decreases bs.len(),
{
    if bs.len() > 0 {
        lemma_first_box(data, pos, end, bs);
        lemma_box_read(data, pos, end, bs[0]);
        if k > 0 {
            let rest = bs.drop_first();
            assert forall|i: int| 0 <= i < k - 1 implies (#[trigger] rest[i]).name != name by {
                assert(bs[i + 1].name != name);
            }
            assert(k < bs.len() ==> rest[k - 1] == bs[k]);
            law_children_are_found(data, pos + box_bytes(bs[0]).len(), end, rest, name, k - 1);
        }
    } else {
        assert(data.subrange(pos, end).len() == end - pos);
    }
}

/// The first box of a name.
pub open spec fn is_first(bs: Seq<Written>, name: Seq<u8>, k: int) -> bool {
    0 <= k < bs.len() && bs[k].name == name && forall|i: int|
        0 <= i < k ==> (#[trigger] bs[i]).name != name
}

/// A film's header of the usual version: what stands in front of the length, how
/// many ticks a second has, how many there are, and what stands behind.
pub open spec fn short_header(front: Seq<u8>, scale: u32, count: u32, back: Seq<u8>) -> Seq<u8> {
    seq![0u8] + front + bytes::be_bytes(scale as nat, 4) + bytes::be_bytes(count as nat, 4) + back
}

/// A film's header of the version with wide numbers.
pub open spec fn wide_header(front: Seq<u8>, scale: u32, count: u64, back: Seq<u8>) -> Seq<u8> {
    seq![1u8] + front + bytes::be_bytes(scale as nat, 4) + bytes::be_bytes(count as nat, 8) + back
}

/// A film's header tells how many ticks the film plays and how many a second has,
/// in either version; one that has no ticks in a second tells nothing.
pub proof fn law_film_headers_are_read(
    front: Seq<u8>,
    wide_front: Seq<u8>,
    scale: u32,
    count: u32,
    wide_count: u64,
    back: Seq<u8>,
)
    requires
        front.len() == 11,
        wide_front.len() == 19,
    ensures
        scale > 0 ==> header_length(short_header(front, scale, count, back)) == Some(
            Ticks { count: count as u64, per_second: scale },
        ),
        scale > 0 ==> header_length(wide_header(wide_front, scale, wide_count, back)) == Some(
            Ticks { count: wide_count, per_second: scale },
        ),
        header_length(short_header(front, 0, count, back)) is None,
        header_length(wide_header(wide_front, 0, wide_count, back)) is None,
{
    lemma_short_header(front, scale, count, back);
    lemma_wide_header(wide_front, scale, wide_count, back);
    lemma_short_header(front, 0, count, back);
    lemma_wide_header(wide_front, 0, wide_count, back);
}

/// The fields of a header of the usual version.
proof fn lemma_short_header(front: Seq<u8>, scale: u32, count: u32, back: Seq<u8>)
    requires
        front.len() == 11,
    ensures
        header_length(short_header(front, scale, count, back)) == if scale == 0 {
            None
        } else {
            Some(Ticks { count: count as u64, per_second: scale })
        },
{
    bytes::lemma_byte_powers();
    bytes::law_numbers_are_read_back(scale as nat, 4);
    bytes::law_numbers_are_read_back(count as nat, 4);
    let p = short_header(front, scale, count, back);
    assert(p[0] == 0);
    assert(p.len() >= 20);
    assert(bytes::slice(p, 12, 4) =~= bytes::be_bytes(scale as nat, 4));
    assert(bytes::slice(p, 16, 4) =~= bytes::be_bytes(count as nat, 4));
}

/// The fields of a header of the version with wide numbers.
proof fn lemma_wide_header(front: Seq<u8>, scale: u32, count: u64, back: Seq<u8>)
    requires
        front.len() == 19,
    ensures
        header_length(wide_header(front, scale, count, back)) == if scale == 0 {
            None
        } else {
            Some(Ticks { count, per_second: scale })
        },
{
    bytes::lemma_byte_powers();
    bytes::law_numbers_are_read_back(scale as nat, 4);
    bytes::law_numbers_are_read_back(count as nat, 8);
    let p = wide_header(front, scale, count, back);
    assert(p[0] == 1);
    assert(p.len() >= 32);
    assert(bytes::slice(p, 20, 4) =~= bytes::be_bytes(scale as nat, 4));
    assert(bytes::slice(p, 24, 8) =~= bytes::be_bytes(count as nat, 8));
}

/// Boxes that are neither metadata nor, inside metadata, a film's header, are
/// passed over.
proof fn lemma_boxes_passed(
    data: Seq<u8>,
    pos: int,
    mid: int,
    end: int,
    bs: Seq<Written>,
    in_moov: bool,
)
    requires
        are_writable(bs),
        forall|i: int|
            0 <= i < bs.len() ==> (#[trigger] bs[i]).name != moov() && (in_moov ==> bs[i].name
                != mvhd()),
        0 <= pos <= mid <= end <= data.len(),
        data.subrange(pos, mid) == boxes_bytes(bs),
    ensures
        boxes_length(data, pos, end, in_moov) == boxes_length(data, mid, end, in_moov),
    decreases bs.len(),
{
    if bs.len() > 0 {
        let rest = bs.drop_first();
        lemma_first_box(data, pos, mid, bs);
        lemma_box_read(data, pos, end, bs[0]);
        assert(bs[0].name != moov());
        assert forall|i: int| 0 <= i < rest.len() implies (#[trigger] rest[i]).name != moov() && (
        in_moov ==> rest[i].name != mvhd()) by {
            assert(bs[i + 1].name != moov());
        }
        lemma_boxes_passed(data, pos + box_bytes(bs[0]).len(), mid, end, rest, in_moov);
    } else {
        assert(data.subrange(pos, mid).len() == mid - pos);
    }
}

/// A film plays as long as the header says in its first box of metadata, whatever
/// other boxes stand around, and however the sizes of the boxes are written.
pub proof fn law_lengths_are_read(
    before: Seq<Written>,
    film: Written,
    after: Seq<u8>,
    inside: Seq<Written>,
    header: Written,
    rest: Seq<u8>,
)
    requires
        are_writable(before),
        is_writable(film),
        are_writable(inside),
        is_writable(header),
        forall|i: int| 0 <= i < before.len() ==> (#[trigger] before[i]).name != moov(),
        film.name == seq![109u8, 111, 111, 118],
        film.body == boxes_bytes(inside) + box_bytes(header) + rest,
        forall|i: int|
            0 <= i < inside.len() ==> (#[trigger] inside[i]).name != moov() && inside[i].name
                != mvhd(),
        header.name == seq![109u8, 118, 104, 100],
        header_length(header.body) is Some,
    ensures
        mp4_length(boxes_bytes(before) + box_bytes(film) + after) == header_length(header.body),
{
    let data = boxes_bytes(before) + box_bytes(film) + after;
    let end = data.len() as int;
    let p0 = boxes_bytes(before).len() as int;
    assert(data.subrange(0, p0) =~= boxes_bytes(before));
    lemma_boxes_passed(data, 0, p0, end, before, false);
    let p1 = p0 + box_bytes(film).len();
    assert(data.subrange(p0, p1) =~= box_bytes(film));
    lemma_box_read(data, p0, end, film);
    let start = p0 + head_len(film);
    let stop = start + film.body.len();
    let body = data.subrange(start, stop);
    let q0 = start + boxes_bytes(inside).len();
    let q1 = q0 + box_bytes(header).len();
    assert(data.subrange(start, q0) =~= body.subrange(0, q0 - start));
    assert(film.body.subrange(0, q0 - start) =~= boxes_bytes(inside));
    lemma_boxes_passed(data, start, q0, stop, inside, true);
    assert(data.subrange(q0, q1) =~= body.subrange(q0 - start, q1 - start));
    assert(film.body.subrange(q0 - start, q1 - start) =~= box_bytes(header));
    lemma_box_read(data, q0, stop, header);
    assert(boxes_length(data, q0, stop, true) == header_length(header.body));
    assert(boxes_length(data, start, stop, true) is Some);
}

/// The name of a coding tells the codec.
pub proof fn law_codecs_are_known_by_name()
    ensures
        entry_codec(seq!['a' as u8, 'v' as u8, 'c' as u8, '1' as u8]) == VideoCodec::H264,
        entry_codec(seq!['a' as u8, 'v' as u8, 'c' as u8, '3' as u8]) == VideoCodec::H264,
        entry_codec(seq!['h' as u8, 'v' as u8, 'c' as u8, '1' as u8]) == VideoCodec::Hevc,
        entry_codec(seq!['h' as u8, 'e' as u8, 'v' as u8, '1' as u8]) == VideoCodec::Hevc,
        entry_codec(seq!['d' as u8, 'v' as u8, 'h' as u8, '1' as u8]) == VideoCodec::Hevc,
        entry_codec(seq!['d' as u8, 'v' as u8, 'h' as u8, 'e' as u8]) == VideoCodec::Hevc,
        entry_codec(seq!['v' as u8, 'p' as u8, '0' as u8, '9' as u8]) == VideoCodec::Vp9,
        entry_codec(seq!['a' as u8, 'v' as u8, '0' as u8, '1' as u8]) == VideoCodec::Av1,
{
    let avc1 = seq![97u8, 118, 99, 49];
    let avc3 = seq![97u8, 118, 99, 51];
    let hvc1 = seq![104u8, 118, 99, 49];
    let hev1 = seq![104u8, 101, 118, 49];
    let dvh1 = seq![100u8, 118, 104, 49];
    let dvhe = seq![100u8, 118, 104, 101];
    let vp09 = seq![118u8, 112, 48, 57];
    let av01 = seq![97u8, 118, 48, 49];
    assert(seq!['a' as u8, 'v' as u8, 'c' as u8, '1' as u8] =~= avc1);
    assert(seq!['a' as u8, 'v' as u8, 'c' as u8, '3' as u8] =~= avc3);
    assert(seq!['h' as u8, 'v' as u8, 'c' as u8, '1' as u8] =~= hvc1);
    assert(seq!['h' as u8, 'e' as u8, 'v' as u8, '1' as u8] =~= hev1);
    assert(seq!['d' as u8, 'v' as u8, 'h' as u8, '1' as u8] =~= dvh1);
    assert(seq!['d' as u8, 'v' as u8, 'h' as u8, 'e' as u8] =~= dvhe);
    assert(seq!['v' as u8, 'p' as u8, '0' as u8, '9' as u8] =~= vp09);
    assert(seq!['a' as u8, 'v' as u8, '0' as u8, '1' as u8] =~= av01);
    assert(avc1[0] == 97 && avc3[0] == 97 && av01[0] == 97 && avc1[2] == 99 && avc3[2] == 99
        && av01[2] == 48);
    assert(hvc1[0] == 104 && hev1[0] == 104 && dvh1[0] == 100 && dvhe[0] == 100 && vp09[0] == 118);
}

/// What a track's first coding says: the codec, and the size of the picture.
pub open spec fn coding_bytes(
    front: Seq<u8>,
    codec: Seq<u8>,
    middle: Seq<u8>,
    width: u16,
    height: u16,
    back: Seq<u8>,
) -> Seq<u8> {
    front + codec + middle + bytes::be_bytes(width as nat, 2) + bytes::be_bytes(height as nat, 2)
        + back
}

/// A coding tells the codec and the size of the picture.
proof fn lemma_coding_read(
    data: Seq<u8>,
    a: int,
    b: int,
    front: Seq<u8>,
    codec: Seq<u8>,
    middle: Seq<u8>,
    width: u16,
    height: u16,
    back: Seq<u8>,
)
    requires
        0 <= a <= b <= data.len(),
        data.subrange(a, b) == coding_bytes(front, codec, middle, width, height, back),
        front.len() == 12,
        codec.len() == 4,
        middle.len() == 24,
    ensures
        entry_video(data, a, b) == Some(
            VideoTrack {
                codec: entry_codec(codec),
                width: width as u64,
                height: height as u64,
            },
        ),
{
    bytes::lemma_byte_powers();
    bytes::law_numbers_are_read_back(width as nat, 2);
    bytes::law_numbers_are_read_back(height as nat, 2);
    let whole = coding_bytes(front, codec, middle, width, height, back);
    let at = data.subrange(a, b);
    assert(whole.len() >= 44);
    assert(bytes::slice(data, a + 12, 4) =~= at.subrange(12, 16));
    assert(whole.subrange(12, 16) =~= codec);
    assert(bytes::slice(data, a + 40, 2) =~= at.subrange(40, 42));
    assert(whole.subrange(40, 42) =~= bytes::be_bytes(width as nat, 2));
    assert(bytes::slice(data, a + 42, 2) =~= at.subrange(42, 44));
    assert(whole.subrange(42, 44) =~= bytes::be_bytes(height as nat, 2));
}

/// The boxes of a track: what is in it, in the box about its media, in the box
/// about its storage, and in that with its tables; and where in each list the
/// next one is.
pub struct Track {
    pub parts: Seq<Written>,
    pub media: Seq<Written>,
    pub storage: Seq<Written>,
    pub tables: Seq<Written>,
    pub mdia: int,
    pub hdlr: int,
    pub minf: int,
    pub stbl: int,
    pub stsd: int,
}

/// The boxes of a track stand inside each other.
pub open spec fn is_track(t: Track) -> bool {
    &&& are_writable(t.parts)
    &&& are_writable(t.media)
    &&& are_writable(t.storage)
    &&& are_writable(t.tables)
    &&& is_first(t.parts, seq![109u8, 100, 105, 97], t.mdia)
    &&& t.parts[t.mdia].body == boxes_bytes(t.media)
    &&& is_first(t.media, seq![104u8, 100, 108, 114], t.hdlr)
    &&& is_first(t.media, seq![109u8, 105, 110, 102], t.minf)
    &&& t.media[t.minf].body == boxes_bytes(t.storage)
    &&& is_first(t.storage, seq![115u8, 116, 98, 108], t.stbl)
    &&& t.storage[t.stbl].body == boxes_bytes(t.tables)
    &&& is_first(t.tables, seq![115u8, 116, 115, 100], t.stsd)
}

/// A track says what kind it is of with the bytes from the ninth to the twelfth
/// of the box about its handler.
pub open spec fn is_of_kind(t: Track, kind: Seq<u8>) -> bool {
    t.media[t.hdlr].body.len() >= 12 && t.media[t.hdlr].body.subrange(8, 12) == kind
}

/// The video of a track that says that it holds video is what its first coding
/// says; a track of another kind has none.
pub proof fn law_video_tracks_are_read(
    data: Seq<u8>,
    start: int,
    stop: int,
    t: Track,
    front: Seq<u8>,
    codec: Seq<u8>,
    middle: Seq<u8>,
    width: u16,
    height: u16,
    back: Seq<u8>,
)
    requires
        0 <= start <= stop <= data.len(),
        is_track(t),
        data.subrange(start, stop) == boxes_bytes(t.parts),
        t.tables[t.stsd].body == coding_bytes(front, codec, middle, width, height, back),
        front.len() == 12,
        codec.len() == 4,
        middle.len() == 24,
    ensures
        is_of_kind(t, seq![118u8, 105, 100, 101]) ==> track_video(data, start, stop) == Some(
            VideoTrack {
                codec: entry_codec(codec),
                width: width as u64,
                height: height as u64,
            },
        ),
        !is_of_kind(t, seq![118u8, 105, 100, 101]) ==> track_video(data, start, stop) is None,
{
    law_children_are_found(data, start, stop, t.parts, mdia(), t.mdia);
    let (m0, m1) = child_of(data, start, stop, mdia())->0;
    law_children_are_found(data, m0, m1, t.media, hdlr(), t.hdlr);
    let (h0, h1) = child_of(data, m0, m1, hdlr())->0;
    assert(h1 - h0 == t.media[t.hdlr].body.len());
    if h1 - h0 >= 12 {
        assert(bytes::slice(data, h0 + 8, 4) =~= data.subrange(h0, h1).subrange(8, 12));
    }
    law_children_are_found(data, m0, m1, t.media, minf(), t.minf);
    let (s0, s1) = child_of(data, m0, m1, minf())->0;
    law_children_are_found(data, s0, s1, t.storage, stbl(), t.stbl);
    let (b0, b1) = child_of(data, s0, s1, stbl())->0;
    law_children_are_found(data, b0, b1, t.tables, stsd(), t.stsd);
    let (c0, c1) = child_of(data, b0, b1, stsd())->0;
    lemma_coding_read(data, c0, c1, front, codec, middle, width, height, back);
}

/// A track says that it holds something else than video.
pub open spec fn is_other_track(
    b: Written,
    parts: Seq<Written>,
    media: Seq<Written>,
    m: int,
    h: int,
) -> bool {
    &&& b.body == boxes_bytes(parts)
    &&& are_writable(parts)
    &&& are_writable(media)
    &&& is_first(parts, seq![109u8, 100, 105, 97], m)
    &&& parts[m].body == boxes_bytes(media)
    &&& is_first(media, seq![104u8, 100, 108, 114], h)
    &&& media[h].body.len() >= 12
    &&& media[h].body.subrange(8, 12) != seq![118u8, 105, 100, 101]
}

/// A box is no track, or one of another kind.
pub open spec fn holds_no_video(b: Written) -> bool {
    b.name != seq![116u8, 114, 97, 107] || exists|
        parts: Seq<Written>,
        media: Seq<Written>,
        m: int,
        h: int,
    | is_other_track(b, parts, media, m, h)
}

/// A track that says that it holds something else has no video.
pub proof fn law_other_tracks_hold_no_video(
    data: Seq<u8>,
    start: int,
    stop: int,
    b: Written,
    parts: Seq<Written>,
    media: Seq<Written>,
    m: int,
    h: int,
)
    requires
        0 <= start <= stop <= data.len(),
        data.subrange(start, stop) == b.body,
        is_other_track(b, parts, media, m, h),
    ensures
        track_video(data, start, stop) is None,
{
    law_children_are_found(data, start, stop, parts, mdia(), m);
    let (m0, m1) = child_of(data, start, stop, mdia())->0;
    law_children_are_found(data, m0, m1, media, hdlr(), h);
    let (h0, h1) = child_of(data, m0, m1, hdlr())->0;
    assert(bytes::slice(data, h0 + 8, 4) =~= data.subrange(h0, h1).subrange(8, 12));
}

/// A file's video is that of the first track in its metadata that holds any.
pub proof fn law_videos_are_read(
    top: Seq<Written>,
    film: int,
    inside: Seq<Written>,
    k: int,
    t: Track,
    front: Seq<u8>,
    codec: Seq<u8>,
    middle: Seq<u8>,
    width: u16,
    height: u16,
    back: Seq<u8>,
)
    requires
        are_writable(top),
        is_first(top, seq![109u8, 111, 111, 118], film),
        are_writable(inside),
        top[film].body == boxes_bytes(inside),
        0 <= k < inside.len(),
        inside[k].name == seq![116u8, 114, 97, 107],
        forall|i: int| 0 <= i < k ==> holds_no_video(#[trigger] inside[i]),
        is_track(t),
        inside[k].body == boxes_bytes(t.parts),
        is_of_kind(t, seq![118u8, 105, 100, 101]),
        t.tables[t.stsd].body == coding_bytes(front, codec, middle, width, height, back),
        front.len() == 12,
        codec.len() == 4,
        middle.len() == 24,
    ensures
        mp4_video(boxes_bytes(top)) == Some(
            VideoTrack {
                codec: entry_codec(codec),
                width: width as u64,
                height: height as u64,
            },
        ),
        video_codec_of(boxes_bytes(top)) == Some(entry_codec(codec)),
{
    let data = boxes_bytes(top);
    let end = data.len() as int;
    assert(data.subrange(0, end) =~= data);
    law_children_are_found(data, 0, end, top, moov(), film);
    let (start, stop) = child_of(data, 0, end, moov())->0;
    lemma_tracks_read(data, start, stop, inside, k, t, front, codec, middle, width, height, back);
}

/// The first track of a list of boxes.
proof fn lemma_tracks_read(
    data: Seq<u8>,
    pos: int,
    end: int,
    inside: Seq<Written>,
    k: int,
    t: Track,
    front: Seq<u8>,
    codec: Seq<u8>,
    middle: Seq<u8>,
    width: u16,
    height: u16,
    back: Seq<u8>,
)
    requires
        0 <= pos <= end <= data.len(),
        are_writable(inside),
        data.subrange(pos, end) == boxes_bytes(inside),
        0 <= k < inside.len(),
        inside[k].name == seq![116u8, 114, 97, 107],
        forall|i: int| 0 <= i < k ==> holds_no_video(#[trigger] inside[i]),
        is_track(t),
        inside[k].body == boxes_bytes(t.parts),
        is_of_kind(t, seq![118u8, 105, 100, 101]),
        t.tables[t.stsd].body == coding_bytes(front, codec, middle, width, height, back),
        front.len() == 12,
        codec.len() == 4,
        middle.len() == 24,
    ensures
        tracks_video(data, pos, end) == Some(
            VideoTrack {
                codec: entry_codec(codec),
                width: width as u64,
                height: height as u64,
            },
        ),
    decreases inside.len(),
{
    lemma_first_box(data, pos, end, inside);
    let b = inside[0];
    lemma_box_read(data, pos, end, b);
    if k == 0 {
        law_video_tracks_are_read(
            data,
            pos + head_len(b),
            pos + head_len(b) + b.body.len(),
            t,
            front,
            codec,
            middle,
            width,
            height,
            back,
        );
    } else {
        let rest = inside.drop_first();
        assert(holds_no_video(inside[0]));
        if b.name == trak() {
            let (parts, media, m, h) = choose|
                parts: Seq<Written>,
                media: Seq<Written>,
                m: int,
                h: int,
            | is_other_track(b, parts, media, m, h);
            law_other_tracks_hold_no_video(
                data,
                pos + head_len(b),
                pos + head_len(b) + b.body.len(),
                b,
                parts,
                media,
                m,
                h,
            );
        }
        assert forall|i: int| 0 <= i < k - 1 implies holds_no_video(#[trigger] rest[i]) by {
            assert(holds_no_video(inside[i + 1]));
        }
        assert(rest[k - 1] == inside[k]);
        lemma_tracks_read(
            data,
            pos + box_bytes(b).len(),
            end,
            rest,
            k - 1,
            t,
            front,
            codec,
            middle,
            width,
            height,
            back,
        );
    }
}

/// A box whose size is written as 0 is the last one: it reaches to the end of
/// what holds it.
pub proof fn law_boxes_of_no_size_reach_the_end(
    data: Seq<u8>,
    pos: int,
    end: int,
    name: Seq<u8>,
    other: Seq<u8>,
)
    requires
        0 <= pos,
        pos + 8 <= end <= data.len(),
        data.subrange(pos, pos + 8) == seq![0u8, 0, 0, 0] + name,
        name.len() == 4,
        name != other,
    ensures
        child_of(data, pos, end, name) == Some((pos + 8, end)),
        child_of(data, pos, end, other) is None,
        name == seq![109u8, 111, 111, 118] ==> boxes_length(data, pos, end, false) == boxes_length(
            data,
            pos + 8,
            end,
            true,
        ),
        name == seq![109u8, 118, 104, 100] ==> boxes_length(data, pos, end, true) == header_length(
            data.subrange(pos + 8, end),
        ),
{
    let head = data.subrange(pos, pos + 8);
    assert(bytes::slice(data, pos, 4) =~= head.subrange(0, 4));
    assert(head.subrange(0, 4) =~= seq![0u8, 0, 0, 0]);
    assert(bytes::slice(data, pos + 4, 4) =~= head.subrange(4, 8));
    assert(head.subrange(4, 8) =~= name);
    bytes::lemma_byte_powers();
    bytes::law_numbers_are_read_back(0, 4);
    reveal_with_fuel(bytes::be_bytes, 5);
    assert(bytes::be_bytes(0, 4) =~= seq![0u8, 0, 0, 0]);
    assert(child_of(data, end, end, other) is None);
    assert(moov() == seq![109u8, 111, 111, 118]);
    assert(mvhd() == seq![109u8, 118, 104, 100]);
    assert(seq![109u8, 111, 111, 118][1] != seq![109u8, 118, 104, 100][1]);
}

/// A coding that is cut off in front of the size of the picture tells the codec
/// alone, and one that is cut off in front of the codec tells nothing.
pub proof fn law_cut_codings_tell_what_they_hold(
    data: Seq<u8>,
    start: int,
    stop: int,
    front: Seq<u8>,
    codec: Seq<u8>,
    rest: Seq<u8>,
)
    requires
        0 <= start <= stop <= data.len(),
        front.len() == 12,
        codec.len() == 4,
        rest.len() < 28,
    ensures
        data.subrange(start, stop) == front + codec + rest ==> entry_video(data, start, stop)
            == Some(VideoTrack { codec: entry_codec(codec), width: 0, height: 0 }),
        stop - start < 16 ==> entry_video(data, start, stop) is None,
{
    if data.subrange(start, stop) == front + codec + rest {
        let at = data.subrange(start, stop);
        assert(at.len() == stop - start);
        assert(bytes::slice(data, start + 12, 4) =~= at.subrange(12, 16));
        assert(at.subrange(12, 16) =~= codec);
    }
}

} // verus!
