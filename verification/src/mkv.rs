//! How long a Matroska or WebM file plays, and what its video is.

use crate::bytes;
use crate::video::VideoCodec;
use crate::video::VideoTrack;
use vstd::prelude::*;
use vstd::utf8;

verus! {

/// The bits of a floating-point number, single or double precision.
#[derive(Clone, Copy, Debug, PartialEq, Eq, Structural)]
pub enum FloatBits {
    Single(u32),
    Double(u64),
}

/// A length of time as a number of ticks, each of them `scale` nanoseconds long.
#[derive(Clone, Copy, Debug, PartialEq, Eq, Structural)]
pub struct MkvLength {
    pub ticks: FloatBits,
    pub scale: u64,
}

/// The id of the element that holds a segment's description.
pub const INFO_ID: u64 = 0x1549_A966;

/// The id of the element that holds all others but the header.
pub const SEGMENT_ID: u64 = 0x1853_8067;

/// The id of the element that says how long a tick is.
pub const SCALE_ID: u64 = 0x2A_D7B1;

/// The id of the element that says how many ticks there are.
pub const DURATION_ID: u64 = 0x4489;

/// How long a tick is where nothing says so, in nanoseconds.
pub const DEFAULT_SCALE: u64 = 1_000_000;

/// How much of a file is looked at.
pub const SCAN_LIMIT: usize = 262_144;

/// How many bytes an id takes up, by its first byte.
pub open spec fn id_width(first: u8) -> int {
    if first >= 0x80 {
        1
    } else if first >= 0x40 {
        2
    } else if first >= 0x20 {
        3
    } else if first >= 0x10 {
        4
    } else {
        0
    }
}

/// The id at `pos`, and how many bytes it takes up.
pub open spec fn id_at(data: Seq<u8>, pos: int, end: int) -> Option<(nat, int)> {
    if pos >= end {
        None
    } else {
        let n = id_width(data[pos]);
        if n == 0 || pos + n > end {
            None
        } else {
            Some((bytes::be_value(bytes::slice(data, pos, n)), n))
        }
    }
}

/// How many bytes a size takes up, by its first byte, and the value of the bit
/// that says so.
pub open spec fn size_width(first: u8) -> (int, u8) {
    if first >= 0x80 {
        (1, 0x80)
    } else if first >= 0x40 {
        (2, 0x40)
    } else if first >= 0x20 {
        (3, 0x20)
    } else if first >= 0x10 {
        (4, 0x10)
    } else if first >= 8 {
        (5, 8)
    } else if first >= 4 {
        (6, 4)
    } else if first >= 2 {
        (7, 2)
    } else {
        (8, 1)
    }
}

/// The largest size that `n` bytes can spell, which stands for an unknown one.
pub open spec fn unknown_size(n: int) -> int {
    if n == 1 {
        0x7f
    } else if n == 2 {
        0x3fff
    } else if n == 3 {
        0x1f_ffff
    } else if n == 4 {
        0xfff_ffff
    } else if n == 5 {
        0x7_ffff_ffff
    } else if n == 6 {
        0x3ff_ffff_ffff
    } else if n == 7 {
        0x1_ffff_ffff_ffff
    } else {
        0xff_ffff_ffff_ffff
    }
}

/// The size at `pos`, where it is known, and how many bytes it takes up.
pub open spec fn size_at(data: Seq<u8>, pos: int, end: int) -> Option<(nat, int)> {
    if pos >= end || data[pos] == 0 {
        None
    } else {
        let (n, mark) = size_width(data[pos]);
        if pos + n > end {
            None
        } else {
            let rest = bytes::slice(data, pos + 1, n - 1);
            let value = bytes::be_value(seq![(data[pos] - mark) as u8] + rest);
            if value == unknown_size(n) {
                None
            } else {
                Some((value, n))
            }
        }
    }
}

/// An unsigned number of one to eight bytes.
pub open spec fn uint_of(s: Seq<u8>) -> Option<nat> {
    if s.len() == 0 || s.len() > 8 {
        None
    } else {
        Some(bytes::be_value(s))
    }
}

/// A floating-point number of four or eight bytes.
pub open spec fn float_of(s: Seq<u8>) -> Option<FloatBits> {
    if s.len() == 4 {
        Some(FloatBits::Single(bytes::be_value(s) as u32))
    } else if s.len() == 8 {
        Some(FloatBits::Double(bytes::be_value(s) as u64))
    } else {
        None
    }
}

/// The smaller of two numbers.
pub open spec fn least(a: int, b: int) -> int {
    if a <= b {
        a
    } else {
        b
    }
}

/// What a segment's description from `pos` to `end` says, beyond what is known
/// already: how long a tick is, and how many there are. Nothing, where either
/// cannot be read.
pub open spec fn info_of(
    data: Seq<u8>,
    pos: int,
    end: int,
    scale: u64,
    ticks: Option<FloatBits>,
) -> Option<(u64, Option<FloatBits>)>
    decreases end - pos,
{
    if pos < 0 || pos + 1 >= end {
        Some((scale, ticks))
    } else {
        match id_at(data, pos, end) {
            None => Some((scale, ticks)),
            Some((id, n)) => match size_at(data, pos + n, end) {
                None => Some((scale, ticks)),
                Some((size, k)) => {
                    let start = pos + n + k;
                    let stop = least(start + size, end);
                    if id == SCALE_ID {
                        match uint_of(data.subrange(start, stop)) {
                            None => None,
                            Some(v) => info_of(data, stop, end, v as u64, ticks),
                        }
                    } else if id == DURATION_ID {
                        match float_of(data.subrange(start, stop)) {
                            None => None,
                            Some(f) => info_of(data, stop, end, scale, Some(f)),
                        }
                    } else {
                        info_of(data, stop, end, scale, ticks)
                    }
                },
            },
        }
    }
}

/// The length that the elements from `pos` on give. A segment's elements are
/// looked at in turn, the header and all others are passed over, and the first
/// description that says how many ticks there are decides.
pub open spec fn elements_length(data: Seq<u8>, pos: int, end: int, scale: u64) -> Option<MkvLength>
    decreases end - pos,
{
    if pos < 0 || pos + 1 >= end {
        None
    } else {
        match id_at(data, pos, end) {
            None => None,
            Some((id, n)) => match size_at(data, pos + n, end) {
                None => None,
                Some((size, k)) => {
                    let start = pos + n + k;
                    let stop = least(start + size, end);
                    if id == INFO_ID {
                        match info_of(data, start, stop, scale, None) {
                            None => None,
                            Some((s, Some(t))) => Some(MkvLength { ticks: t, scale: s }),
                            Some((s, None)) => elements_length(data, stop, end, s),
                        }
                    } else if id == SEGMENT_ID {
                        elements_length(data, start, end, scale)
                    } else {
                        elements_length(data, stop, end, scale)
                    }
                },
            },
        }
    }
}

/// The length that a Matroska file's contents give.
pub open spec fn mkv_length(data: Seq<u8>) -> Option<MkvLength> {
    elements_length(data, 0, least(data.len() as int, SCAN_LIMIT as int), DEFAULT_SCALE)
}

/// Reads the id at `pos`.
fn ebml_id(data: &[u8], pos: usize, end: usize) -> (r: Option<(u64, usize)>)
    requires
        pos <= end <= data@.len(),
    ensures
        match r {
            Some((id, n)) => id_at(data@, pos as int, end as int) == Some((id as nat, n as int))
                && 0 < n <= end - pos,
            None => id_at(data@, pos as int, end as int) is None,
        },
{
    if pos >= end {
        return None;
    }
    let first: u8 = data[pos];
    let n: usize = if first >= 0x80 {
        1
    } else if first >= 0x40 {
        2
    } else if first >= 0x20 {
        3
    } else if first >= 0x10 {
        4
    } else {
        return None;
    };
    if end - pos < n {
        return None;
    }
    Some((bytes::read_be(data, pos, n), n))
}

/// Reads the size at `pos`.
fn ebml_size(data: &[u8], pos: usize, end: usize) -> (r: Option<(u64, usize)>)
    requires
        pos <= end <= data@.len(),
    ensures
        match r {
            Some((size, n)) => size_at(data@, pos as int, end as int) == Some(
                (size as nat, n as int),
            ) && 0 < n <= end - pos,
            None => size_at(data@, pos as int, end as int) is None,
        },
{
    if pos >= end || data[pos] == 0 {
        return None;
    }
    let first: u8 = data[pos];
    let (n, mark, unknown): (usize, u8, u64) = if first >= 0x80 {
        (1, 0x80, 0x7f)
    } else if first >= 0x40 {
        (2, 0x40, 0x3fff)
    } else if first >= 0x20 {
        (3, 0x20, 0x1f_ffff)
    } else if first >= 0x10 {
        (4, 0x10, 0xfff_ffff)
    } else if first >= 8 {
        (5, 8, 0x7_ffff_ffff)
    } else if first >= 4 {
        (6, 4, 0x3ff_ffff_ffff)
    } else if first >= 2 {
        (7, 2, 0x1_ffff_ffff_ffff)
    } else {
        (8, 1, 0xff_ffff_ffff_ffff)
    };
    if end - pos < n {
        return None;
    }
    let ghost rest = bytes::slice(data@, pos + 1, n - 1);
    let ghost unmarked = seq![(first - mark) as u8] + rest;
    let mut value: u64 = (first - mark) as u64;
    let mut i: usize = 1;
    proof {
        assert(unmarked.take(1) =~= seq![(first - mark) as u8]);
        assert(unmarked.take(1).drop_last() =~= Seq::<u8>::empty());
        assert(bytes::be_value(Seq::<u8>::empty()) == 0);
        assert(unmarked.take(1).last() == value);
    }
    while i < n
        invariant
            1 <= i <= n <= 8,
            pos + n <= end <= data@.len(),
            rest == bytes::slice(data@, pos + 1, n - 1),
            unmarked == seq![(first - mark) as u8] + rest,
            value == bytes::be_value(unmarked.take(i as int)),
        decreases n - i,
    {
        proof {
            let now = unmarked.take(i + 1);
            assert(now.drop_last() =~= unmarked.take(i as int));
            assert(now.last() == data@[pos + i]);
            bytes::lemma_be_bound(now);
            bytes::lemma_byte_powers();
            assert(now.len() <= 8);
            bytes::lemma_byte_power_at_most_eight(now.len());
        }
        value = value * 256 + data[pos + i] as u64;
        i += 1;
    }
    assert(unmarked.take(n as int) =~= unmarked);
    if value == unknown {
        return None;
    }
    Some((value, n))
}

/// Reads an unsigned number from `data[start..stop]`.
fn ebml_uint(data: &[u8], start: usize, stop: usize) -> (r: Option<u64>)
    requires
        start <= stop <= data@.len(),
    ensures
        match r {
            Some(v) => uint_of(data@.subrange(start as int, stop as int)) == Some(v as nat),
            None => uint_of(data@.subrange(start as int, stop as int)) is None,
        },
{
    if start == stop || stop - start > 8 {
        return None;
    }
    Some(bytes::read_be(data, start, stop - start))
}

/// Reads the bits of a floating-point number from `data[start..stop]`.
fn ebml_float(data: &[u8], start: usize, stop: usize) -> (r: Option<FloatBits>)
    requires
        start <= stop <= data@.len(),
    ensures
        r == float_of(data@.subrange(start as int, stop as int)),
{
    if stop - start == 4 {
        let v: u64 = bytes::read_be(data, start, 4);
        Some(FloatBits::Single(v as u32))
    } else if stop - start == 8 {
        Some(FloatBits::Double(bytes::read_be(data, start, 8)))
    } else {
        None
    }
}

/// Where an element's contents stop.
fn contents_stop(start: usize, size: u64, end: usize) -> (r: usize)
    requires
        start <= end,
    ensures
        r == least(start + size, end as int),
        start <= r <= end,
{
    if size <= (end - start) as u64 {
        start + size as usize
    } else {
        end
    }
}

/// Reads a segment's description from `data[from..end]`.
fn read_info(data: &[u8], from: usize, end: usize, scale0: u64) -> (r: Option<
    (u64, Option<FloatBits>),
>)
    requires
        from <= end <= data@.len(),
    ensures
        r == info_of(data@, from as int, end as int, scale0, None),
{
    let mut pos: usize = from;
    let mut scale: u64 = scale0;
    let mut ticks: Option<FloatBits> = None;
    while pos < end && end - pos > 1
        invariant
            from <= pos <= end <= data@.len(),
            info_of(data@, from as int, end as int, scale0, None) == info_of(
                data@,
                pos as int,
                end as int,
                scale,
                ticks,
            ),
        decreases end - pos,
    {
        let (id, n) = match ebml_id(data, pos, end) {
            Some(found) => found,
            None => {
                return Some((scale, ticks));
            },
        };
        let (size, k) = match ebml_size(data, pos + n, end) {
            Some(found) => found,
            None => {
                return Some((scale, ticks));
            },
        };
        let start: usize = pos + n + k;
        let stop: usize = contents_stop(start, size, end);
        if id == SCALE_ID {
            match ebml_uint(data, start, stop) {
                Some(v) => {
                    scale = v;
                },
                None => {
                    return None;
                },
            }
        } else if id == DURATION_ID {
            match ebml_float(data, start, stop) {
                Some(f) => {
                    ticks = Some(f);
                },
                None => {
                    return None;
                },
            }
        }
        pos = stop;
    }
    Some((scale, ticks))
}

/// Reads how long a Matroska file plays from its contents.
pub fn mkv_duration_from_bytes(data: &[u8]) -> (r: Option<MkvLength>)
    ensures
        r == mkv_length(data@),
{
    let len: usize = data.len();
    let end: usize = if len <= SCAN_LIMIT {
        len
    } else {
        SCAN_LIMIT
    };
    let mut pos: usize = 0;
    let mut scale: u64 = DEFAULT_SCALE;
    while pos < end && end - pos > 1
        invariant
            pos <= end <= data@.len(),
            mkv_length(data@) == elements_length(data@, pos as int, end as int, scale),
        decreases end - pos,
    {
        let (id, n) = match ebml_id(data, pos, end) {
            Some(found) => found,
            None => {
                return None;
            },
        };
        let (size, k) = match ebml_size(data, pos + n, end) {
            Some(found) => found,
            None => {
                return None;
            },
        };
        let start: usize = pos + n + k;
        let stop: usize = contents_stop(start, size, end);
        if id == INFO_ID {
            match read_info(data, start, stop, scale) {
                None => {
                    return None;
                },
                Some((s, Some(t))) => {
                    return Some(MkvLength { ticks: t, scale: s });
                },
                Some((s, None)) => {
                    scale = s;
                    pos = stop;
                },
            }
        } else if id == SEGMENT_ID {
            pos = start;
        } else {
            pos = stop;
        }
    }
    None
}

/// The id of the element that holds the tracks.
pub const TRACKS_ID: u64 = 0x1654_AE6B;

/// The id of the element that holds one track.
pub const TRACK_ENTRY_ID: u64 = 0xAE;

/// The id of the element that says what kind of track it is.
pub const TRACK_TYPE_ID: u64 = 0x83;

/// The id of the element that names a track's codec.
pub const CODEC_ID: u64 = 0x86;

/// The id of the element that describes a track's picture.
pub const VIDEO_ID: u64 = 0xE0;

/// The id of the element that says how wide a picture is.
pub const PIXEL_WIDTH_ID: u64 = 0xB0;

/// The id of the element that says how high a picture is.
pub const PIXEL_HEIGHT_ID: u64 = 0xBA;

/// The kind of track that holds video.
pub const VIDEO_TRACK: u64 = 1;

/// The id of the element at `pos`, and where its contents start and stop. None
/// where no element can be read.
pub open spec fn element_at(data: Seq<u8>, pos: int, end: int) -> Option<(nat, int, int)> {
    if pos < 0 || pos + 1 >= end {
        None
    } else {
        match id_at(data, pos, end) {
            None => None,
            Some((id, n)) => match size_at(data, pos + n, end) {
                None => None,
                Some((size, k)) => Some(
                    (id, pos + n + k, least(pos + n + k + size, end)),
                ),
            },
        }
    }
}

/// The contents of the first element `id` among those from `pos` to `end`.
pub open spec fn child_of(data: Seq<u8>, pos: int, end: int, id: u64) -> Option<(int, int)>
    decreases end - pos,
{
    match element_at(data, pos, end) {
        None => None,
        Some((found, start, stop)) => if found == id {
            Some((start, stop))
        } else if stop > pos {
            child_of(data, stop, end, id)
        } else {
            None
        },
    }
}

/// The number that the first element `id` from `pos` to `end` holds; 0 where there
/// is none.
pub open spec fn number_in(data: Seq<u8>, pos: int, end: int, id: u64) -> u64 {
    match child_of(data, pos, end, id) {
        Some((start, stop)) => match uint_of(data.subrange(start, stop)) {
            Some(v) => v as u64,
            None => 0,
        },
        None => 0,
    }
}

/// Bytes begin with a text.
pub open spec fn begins(s: Seq<u8>, name: Seq<char>) -> bool {
    let n = utf8::encode_utf8(name);
    n.len() <= s.len() && s.take(n.len() as int) == n
}

/// The codec that a name stands for.
pub open spec fn named_codec(name: Seq<u8>) -> VideoCodec {
    if begins(name, "V_MPEG4/ISO/AVC"@) {
        VideoCodec::H264
    } else if begins(name, "V_MPEGH/ISO/HEVC"@) {
        VideoCodec::Hevc
    } else if begins(name, "V_VP9"@) {
        VideoCodec::Vp9
    } else if begins(name, "V_AV1"@) {
        VideoCodec::Av1
    } else {
        VideoCodec::Other
    }
}

/// The video of the track in `data[start..stop]`, where it holds any and names its
/// codec.
pub open spec fn entry_video(data: Seq<u8>, start: int, stop: int) -> Option<VideoTrack> {
    if number_in(data, start, stop, TRACK_TYPE_ID) != VIDEO_TRACK {
        None
    } else {
        match child_of(data, start, stop, CODEC_ID) {
            None => None,
            Some((a, b)) => {
                let codec = named_codec(data.subrange(a, b));
                match child_of(data, start, stop, VIDEO_ID) {
                    Some((v, w)) => Some(
                        VideoTrack {
                            codec,
                            width: number_in(data, v, w, PIXEL_WIDTH_ID),
                            height: number_in(data, v, w, PIXEL_HEIGHT_ID),
                        },
                    ),
                    None => Some(VideoTrack { codec, width: 0, height: 0 }),
                }
            },
        }
    }
}

/// The video of the first track from `pos` to `end` that holds any.
pub open spec fn tracks_video(data: Seq<u8>, pos: int, end: int) -> Option<VideoTrack>
    decreases end - pos,
{
    match element_at(data, pos, end) {
        None => None,
        Some((id, start, stop)) => if id == TRACK_ENTRY_ID && entry_video(data, start, stop)
            is Some {
            entry_video(data, start, stop)
        } else if stop > pos {
            tracks_video(data, stop, end)
        } else {
            None
        },
    }
}

/// The video that a Matroska file's contents describe.
pub open spec fn mkv_video(data: Seq<u8>) -> Option<VideoTrack> {
    match child_of(data, 0, least(data.len() as int, SCAN_LIMIT as int), SEGMENT_ID) {
        None => None,
        Some((a, b)) => match child_of(data, a, b, TRACKS_ID) {
            None => None,
            Some((start, stop)) => tracks_video(data, start, stop),
        },
    }
}

/// Reads the element at `pos`.
fn read_element(data: &[u8], pos: usize, end: usize) -> (r: Option<(u64, usize, usize)>)
    requires
        pos <= end <= data@.len(),
    ensures
        match r {
            Some((id, start, stop)) => element_at(data@, pos as int, end as int) == Some(
                (id as nat, start as int, stop as int),
            ) && pos < start <= stop <= end,
            None => element_at(data@, pos as int, end as int) is None,
        },
{
    if end - pos <= 1 {
        return None;
    }
    let (id, n) = match ebml_id(data, pos, end) {
        Some(found) => found,
        None => {
            return None;
        },
    };
    let (size, k) = match ebml_size(data, pos + n, end) {
        Some(found) => found,
        None => {
            return None;
        },
    };
    let start: usize = pos + n + k;
    Some((id, start, contents_stop(start, size, end)))
}

/// Finds the contents of the first element with a given id.
fn find_child(data: &[u8], from: usize, end: usize, id: u64) -> (r: Option<(usize, usize)>)
    requires
        from <= end <= data@.len(),
    ensures
        match r {
            Some((start, stop)) => child_of(data@, from as int, end as int, id) == Some(
                (start as int, stop as int),
            ) && start <= stop <= end,
            None => child_of(data@, from as int, end as int, id) is None,
        },
{
    let mut pos: usize = from;
    loop
        invariant
            pos <= end <= data@.len(),
            child_of(data@, from as int, end as int, id) == child_of(
                data@,
                pos as int,
                end as int,
                id,
            ),
        decreases end - pos,
    {
        match read_element(data, pos, end) {
            None => {
                return None;
            },
            Some((found, start, stop)) => {
                if found == id {
                    return Some((start, stop));
                }
                pos = stop;
            },
        }
    }
}

/// Reads the number that the first element with a given id holds.
fn read_number(data: &[u8], from: usize, end: usize, id: u64) -> (r: u64)
    requires
        from <= end <= data@.len(),
    ensures
        r == number_in(data@, from as int, end as int, id),
{
    match find_child(data, from, end, id) {
        Some((start, stop)) => match ebml_uint(data, start, stop) {
            Some(v) => v,
            None => 0,
        },
        None => 0,
    }
}

/// Decides whether `data[start..stop]` begins with a text.
fn begins_with(data: &[u8], start: usize, stop: usize, name: &str) -> (r: bool)
    requires
        start <= stop <= data@.len(),
    ensures
        r == begins(data@.subrange(start as int, stop as int), name@),
{
    let n = name.as_bytes();
    let ghost s = data@.subrange(start as int, stop as int);
    if stop - start < n.len() {
        return false;
    }
    let mut i: usize = 0;
    while i < n.len()
        invariant
            i <= n@.len() <= stop - start,
            n@ == utf8::encode_utf8(name@),
            start <= stop <= data@.len(),
            s == data@.subrange(start as int, stop as int),
            forall|k: int| 0 <= k < i ==> #[trigger] s[k] == n@[k],
        decreases n@.len() - i,
    {
        assert(s[i as int] == data@[start + i]);
        if data[start + i] != n[i] {
            assert(s.take(n@.len() as int)[i as int] == s[i as int]);
            return false;
        }
        i += 1;
    }
    assert(s.take(n@.len() as int) =~= n@);
    true
}

/// Reads the video of the track in `data[start..stop]`.
fn read_track(data: &[u8], start: usize, stop: usize) -> (r: Option<VideoTrack>)
    requires
        start <= stop <= data@.len(),
    ensures
        r == entry_video(data@, start as int, stop as int),
{
    if read_number(data, start, stop, TRACK_TYPE_ID) != VIDEO_TRACK {
        return None;
    }
    let (a, b) = match find_child(data, start, stop, CODEC_ID) {
        Some(found) => found,
        None => {
            return None;
        },
    };
    let codec = if begins_with(data, a, b, "V_MPEG4/ISO/AVC") {
        VideoCodec::H264
    } else if begins_with(data, a, b, "V_MPEGH/ISO/HEVC") {
        VideoCodec::Hevc
    } else if begins_with(data, a, b, "V_VP9") {
        VideoCodec::Vp9
    } else if begins_with(data, a, b, "V_AV1") {
        VideoCodec::Av1
    } else {
        VideoCodec::Other
    };
    match find_child(data, start, stop, VIDEO_ID) {
        Some((v, w)) => {
            let width: u64 = read_number(data, v, w, PIXEL_WIDTH_ID);
            let height: u64 = read_number(data, v, w, PIXEL_HEIGHT_ID);
            Some(VideoTrack { codec, width, height })
        },
        None => Some(VideoTrack { codec, width: 0, height: 0 }),
    }
}

/// Reads what the video in a Matroska file is from its contents.
pub fn mkv_video_from_bytes(data: &[u8]) -> (r: Option<VideoTrack>)
    ensures
        r == mkv_video(data@),
{
    let len: usize = data.len();
    let limit: usize = if len <= SCAN_LIMIT {
        len
    } else {
        SCAN_LIMIT
    };
    let (a, b) = match find_child(data, 0, limit, SEGMENT_ID) {
        Some(found) => found,
        None => {
            return None;
        },
    };
    let (from, end) = match find_child(data, a, b, TRACKS_ID) {
        Some(found) => found,
        None => {
            return None;
        },
    };
    let mut pos: usize = from;
    loop
        invariant
            pos <= end <= data@.len(),
            mkv_video(data@) == tracks_video(data@, pos as int, end as int),
        decreases end - pos,
    {
        match read_element(data, pos, end) {
            None => {
                return None;
            },
            Some((id, start, stop)) => {
                if id == TRACK_ENTRY_ID {
                    let video = read_track(data, start, stop);
                    if video.is_some() {
                        return video;
                    }
                }
                pos = stop;
            },
        }
    }
}

/// The value of the bit that marks how many bytes a size has: two to the power
/// of seven for each byte.
pub open spec fn size_mark(n: nat) -> nat
    decreases n,
{
    if n == 0 {
        1
    } else {
        128 * size_mark((n - 1) as nat)
    }
}

/// The marks of the sizes of one to eight bytes.
proof fn lemma_size_marks()
    ensures
        size_mark(1) == 0x80,
        size_mark(2) == 0x4000,
        size_mark(3) == 0x20_0000,
        size_mark(4) == 0x1000_0000,
        size_mark(5) == 0x8_0000_0000,
        size_mark(6) == 0x400_0000_0000,
        size_mark(7) == 0x2_0000_0000_0000,
        size_mark(8) == 0x100_0000_0000_0000,
{
    reveal_with_fuel(size_mark, 9);
}

/// The `n` bytes that spell a size.
pub open spec fn written_size(v: nat, n: nat) -> Seq<u8> {
    bytes::be_bytes(v + size_mark(n), n)
}

/// The first byte of a size says how many bytes it has.
proof fn lemma_size_width(v: nat, n: nat)
    requires
        1 <= n <= 8,
        v < size_mark(n),
    ensures
        written_size(v, n).len() == n,
        written_size(v, n)[0] != 0,
        size_width(written_size(v, n)[0]).0 == n,
{
    let s = written_size(v, n);
    let w = v + size_mark(n);
    lemma_size_marks();
    bytes::lemma_byte_powers();
    assert(bytes::byte_power(0) == 1);
    assert(w < bytes::byte_power(n));
    bytes::law_numbers_are_read_back(w, n);
    bytes::lemma_first_byte(s);
    let rest = s.drop_first();
    bytes::lemma_be_bound(rest);
    let f = s[0];
    let r = bytes::be_value(rest) as int;
    let mark: int = if n == 1 {
        0x80
    } else if n == 2 {
        0x40
    } else if n == 3 {
        0x20
    } else if n == 4 {
        0x10
    } else if n == 5 {
        8
    } else if n == 6 {
        4
    } else if n == 7 {
        2
    } else {
        1
    };
    lemma_leading_byte(f as int, r, w as int, bytes::byte_power((n - 1) as nat) as int, mark);
}

/// A number between a power and twice the power has its first byte there too.
proof fn lemma_leading_byte(f: int, r: int, w: int, p: int, mark: int)
    requires
        f * p + r == w,
        0 <= r < p,
        mark * p <= w < 2 * (mark * p),
    ensures
        mark <= f < 2 * mark,
{
    assert(mark <= f < 2 * mark) by (nonlinear_arith)
        requires
            f * p + r == w,
            0 <= r < p,
            mark * p <= w < 2 * (mark * p),
    ;
}

/// A size of one to eight bytes reads as it was written. The largest one of each
/// width stands for an unknown size, and is not read.
pub proof fn law_sizes_are_read_back(data: Seq<u8>, pos: int, end: int, v: nat, n: nat)
    requires
        1 <= n <= 8,
        v < size_mark(n),
        0 <= pos,
        pos + n <= end <= data.len(),
        data.subrange(pos, pos + n) == written_size(v, n),
    ensures
        v + 1 < size_mark(n) ==> size_at(data, pos, end) == Some((v, n as int)),
        v + 1 == size_mark(n) ==> size_at(data, pos, end) is None,
{
    let s = written_size(v, n);
    let w = v + size_mark(n);
    lemma_size_marks();
    bytes::lemma_byte_powers();
    assert(bytes::byte_power(0) == 1);
    assert(w < bytes::byte_power(n));
    bytes::law_numbers_are_read_back(w, n);
    bytes::lemma_first_byte(s);
    let rest = s.drop_first();
    bytes::lemma_be_bound(rest);
    let f = s[0];
    assert(data[pos] == data.subrange(pos, pos + n)[0]);
    assert(bytes::slice(data, pos + 1, n - 1) =~= rest);
    let (k, mark) = size_width(f);
    let p = bytes::byte_power((n - 1) as nat);
    lemma_size_width(v, n);
    let low = (f - mark) as u8;
    let unmarked = seq![low] + rest;
    bytes::lemma_first_byte(unmarked);
    assert(unmarked.drop_first() =~= rest);
    assert(low * p == f * p - mark * p) by (nonlinear_arith)
        requires
            low == f - mark,
    ;
    assert(mark * p == size_mark(n)) by {
        if n == 1 {
            assert(mark * p == 0x80);
        } else if n == 2 {
            assert(mark * p == 0x40 * 0x100);
        } else if n == 3 {
            assert(mark * p == 0x20 * 0x1_0000);
        } else if n == 4 {
            assert(mark * p == 0x10 * 0x100_0000);
        } else if n == 5 {
            assert(mark * p == 8 * 0x1_0000_0000);
        } else if n == 6 {
            assert(mark * p == 4 * 0x100_0000_0000);
        } else if n == 7 {
            assert(mark * p == 2 * 0x1_0000_0000_0000);
        } else {
            assert(mark * p == 0x100_0000_0000_0000);
        }
    }
    assert(bytes::be_value(unmarked) == v);
}

/// A size that is cut off, or that begins with an empty byte, is not read.
pub proof fn law_cut_sizes_are_not_read(data: Seq<u8>, pos: int, end: int, v: nat, n: nat)
    requires
        1 <= n <= 8,
        v < size_mark(n),
        0 <= pos < end <= data.len(),
        pos + n > end,
        data.subrange(pos, end) == written_size(v, n).take(end - pos),
    ensures
        size_at(data, pos, end) is None,
{
    let s = written_size(v, n);
    let w = v + size_mark(n);
    bytes::lemma_be_bytes_len(w, n);
    assert(data[pos] == data.subrange(pos, end)[0]);
    assert(data[pos] == s[0]);
    lemma_size_width(v, n);
}

/// An id of `n` bytes: its first byte says how many they are.
pub open spec fn is_id(id: nat, n: nat) -> bool {
    ||| n == 1 && 0x80 <= id <= 0xff
    ||| n == 2 && 0x4000 <= id <= 0x7fff
    ||| n == 3 && 0x20_0000 <= id <= 0x3f_ffff
    ||| n == 4 && 0x1000_0000 <= id <= 0x1fff_ffff
}

/// An id of one to four bytes reads as it was written.
pub proof fn law_ids_are_read_back(data: Seq<u8>, pos: int, end: int, id: nat, n: nat)
    requires
        is_id(id, n),
        0 <= pos,
        pos + n <= end <= data.len(),
        data.subrange(pos, pos + n) == bytes::be_bytes(id, n),
    ensures
        id_at(data, pos, end) == Some((id, n as int)),
{
    let s = bytes::be_bytes(id, n);
    bytes::lemma_byte_powers();
    assert(bytes::byte_power(0) == 1);
    bytes::law_numbers_are_read_back(id, n);
    bytes::lemma_first_byte(s);
    bytes::lemma_be_bound(s.drop_first());
    let f = s[0];
    assert(data[pos] == data.subrange(pos, pos + n)[0]);
    let p = bytes::byte_power((n - 1) as nat);
    if n == 1 {
        assert(f * 1 == f);
    } else if n == 2 {
        assert(f * p == f * 0x100);
    } else if n == 3 {
        assert(f * p == f * 0x1_0000);
    } else {
        assert(f * p == f * 0x100_0000);
    }
}

/// An element as it is written: its id, how many bytes that has, how many bytes
/// its size is written with, and its contents.
pub struct Written {
    pub id: nat,
    pub id_bytes: nat,
    pub size_bytes: nat,
    pub body: Seq<u8>,
}

/// An element can be written as it says.
pub open spec fn is_writable(e: Written) -> bool {
    &&& is_id(e.id, e.id_bytes)
    &&& 1 <= e.size_bytes <= 8
    &&& e.body.len() + 1 < size_mark(e.size_bytes)
}

/// The bytes of an element.
pub open spec fn element_bytes(e: Written) -> Seq<u8> {
    bytes::be_bytes(e.id, e.id_bytes) + written_size(e.body.len(), e.size_bytes) + e.body
}

/// The bytes of elements, one behind the other.
pub open spec fn elements_bytes(es: Seq<Written>) -> Seq<u8>
    decreases es.len(),
{
    if es.len() == 0 {
        Seq::empty()
    } else {
        element_bytes(es[0]) + elements_bytes(es.drop_first())
    }
}

/// Every element can be written as it says.
pub open spec fn are_writable(es: Seq<Written>) -> bool {
    forall|i: int| 0 <= i < es.len() ==> is_writable(#[trigger] es[i])
}

/// An element reads as it was written: its id, its size and its contents.
proof fn lemma_element_read(data: Seq<u8>, pos: int, end: int, e: Written)
    requires
        is_writable(e),
        0 <= pos,
        pos + element_bytes(e).len() <= end <= data.len(),
        data.subrange(pos, pos + element_bytes(e).len()) == element_bytes(e),
    ensures
        element_bytes(e).len() == e.id_bytes + e.size_bytes + e.body.len(),
        pos + 1 < end,
        id_at(data, pos, end) == Some((e.id, e.id_bytes as int)),
        size_at(data, pos + e.id_bytes, end) == Some((e.body.len(), e.size_bytes as int)),
        data.subrange(
            pos + e.id_bytes + e.size_bytes,
            pos + e.id_bytes + e.size_bytes + e.body.len(),
        ) == e.body,
        element_at(data, pos, end) == Some(
            (
                e.id,
                pos + e.id_bytes + e.size_bytes,
                pos + e.id_bytes + e.size_bytes + e.body.len(),
            ),
        ),
{
    let a = bytes::be_bytes(e.id, e.id_bytes);
    let b = written_size(e.body.len(), e.size_bytes);
    bytes::lemma_be_bytes_len(e.id, e.id_bytes);
    bytes::lemma_be_bytes_len(e.body.len() + size_mark(e.size_bytes), e.size_bytes);
    let whole = element_bytes(e);
    let at = data.subrange(pos, pos + whole.len());
    let m = e.id_bytes as int;
    let k = e.size_bytes as int;
    assert(data.subrange(pos, pos + m) =~= at.subrange(0, m));
    assert(whole.subrange(0, m) =~= a);
    law_ids_are_read_back(data, pos, end, e.id, e.id_bytes);
    assert(data.subrange(pos + m, pos + m + k) =~= at.subrange(m, m + k));
    assert(whole.subrange(m, m + k) =~= b);
    law_sizes_are_read_back(data, pos + m, end, e.body.len(), e.size_bytes);
    assert(data.subrange(pos + m + k, pos + m + k + e.body.len()) =~= at.subrange(
        m + k,
        m + k + e.body.len(),
    ));
    assert(whole.subrange(m + k, m + k + e.body.len()) =~= e.body);
}

/// The first of several elements, and where the others are.
proof fn lemma_first_element(data: Seq<u8>, pos: int, end: int, es: Seq<Written>)
    requires
        es.len() > 0,
        are_writable(es),
        0 <= pos <= end <= data.len(),
        data.subrange(pos, end) == elements_bytes(es),
    ensures
        pos + element_bytes(es[0]).len() <= end,
        data.subrange(pos, pos + element_bytes(es[0]).len()) == element_bytes(es[0]),
        data.subrange(pos + element_bytes(es[0]).len(), end) == elements_bytes(es.drop_first()),
        are_writable(es.drop_first()),
{
    let first = element_bytes(es[0]);
    let rest = elements_bytes(es.drop_first());
    let at = data.subrange(pos, end);
    assert(at.len() == first.len() + rest.len());
    assert(data.subrange(pos, pos + first.len()) =~= at.subrange(0, first.len() as int));
    assert(at.subrange(0, first.len() as int) =~= first);
    assert(data.subrange(pos + first.len(), end) =~= at.subrange(
        first.len() as int,
        at.len() as int,
    ));
    assert(at.subrange(first.len() as int, at.len() as int) =~= rest);
    assert forall|i: int| 0 <= i < es.drop_first().len() implies is_writable(
        #[trigger] es.drop_first()[i],
    ) by {
        assert(is_writable(es[i + 1]));
    }
}

/// Among elements that were written one behind the other, the first with an id
/// is found, with the contents that were written, however many bytes its size
/// and the sizes before it were written with; and none where none has the id.
pub proof fn law_children_are_found(
    data: Seq<u8>,
    pos: int,
    end: int,
    es: Seq<Written>,
    id: u64,
    k: int,
)
    requires
        are_writable(es),
        0 <= pos <= end <= data.len(),
        data.subrange(pos, end) == elements_bytes(es),
        0 <= k <= es.len(),
        forall|i: int| 0 <= i < k ==> (#[trigger] es[i]).id != id,
        k < es.len() ==> es[k].id == id,
    ensures
        match child_of(data, pos, end, id) {
            Some((start, stop)) => k < es.len() && pos <= start <= stop <= end && data.subrange(
                start,
                stop,
            ) == es[k].body,
            None => k == es.len(),
        },
    decreases es.len(),
{
    if es.len() > 0 {
        lemma_first_element(data, pos, end, es);
        lemma_element_read(data, pos, end, es[0]);
        if k > 0 {
            let rest = es.drop_first();
            assert forall|i: int| 0 <= i < k - 1 implies (#[trigger] rest[i]).id != id by {
                assert(es[i + 1].id != id);
            }
            assert(k < es.len() ==> rest[k - 1] == es[k]);
            law_children_are_found(data, pos + element_bytes(es[0]).len(), end, rest, id, k - 1);
        }
    }
}

/// The bytes that spell the bits of a floating-point number.
pub open spec fn float_bytes(f: FloatBits) -> Seq<u8> {
    match f {
        FloatBits::Single(b) => bytes::be_bytes(b as nat, 4),
        FloatBits::Double(b) => bytes::be_bytes(b as nat, 8),
    }
}

/// The bits of a floating-point number read as they were written.
proof fn lemma_float_read(f: FloatBits)
    ensures
        float_of(float_bytes(f)) == Some(f),
{
    bytes::lemma_byte_powers();
    match f {
        FloatBits::Single(b) => {
            bytes::law_numbers_are_read_back(b as nat, 4);
        },
        FloatBits::Double(b) => {
            bytes::law_numbers_are_read_back(b as nat, 8);
        },
    }
}

/// A number of one to eight bytes reads as it was written.
proof fn lemma_uint_read(v: u64, n: nat)
    requires
        1 <= n <= 8,
        v < bytes::byte_power(n),
    ensures
        uint_of(bytes::be_bytes(v as nat, n)) == Some(v as nat),
{
    bytes::law_numbers_are_read_back(v as nat, n);
}

/// A description that gives how long a tick is and how many there are, in
/// either order and among other elements, is read as it was written.
proof fn lemma_info_read(
    data: Seq<u8>,
    pos: int,
    end: int,
    es: Seq<Written>,
    scale: u64,
    ticks: Option<FloatBits>,
    s: u64,
    n: nat,
    d: FloatBits,
)
    requires
        are_writable(es),
        0 <= pos <= end <= data.len(),
        data.subrange(pos, end) == elements_bytes(es),
        1 <= n <= 8,
        s < bytes::byte_power(n),
        forall|i: int|
            0 <= i < es.len() && (#[trigger] es[i]).id == 0x2A_D7B1 ==> es[i].body
                == bytes::be_bytes(s as nat, n),
        forall|i: int|
            0 <= i < es.len() && (#[trigger] es[i]).id == 0x4489 ==> es[i].body == float_bytes(d),
    ensures
        info_of(data, pos, end, scale, ticks) == Some(
            (
                if exists|i: int| 0 <= i < es.len() && (#[trigger] es[i]).id == 0x2A_D7B1 {
                    s
                } else {
                    scale
                },
                if exists|i: int| 0 <= i < es.len() && (#[trigger] es[i]).id == 0x4489 {
                    Some(d)
                } else {
                    ticks
                },
            ),
        ),
    decreases es.len(),
{
    if es.len() > 0 {
        let e = es[0];
        let rest = es.drop_first();
        lemma_first_element(data, pos, end, es);
        lemma_element_read(data, pos, end, e);
        lemma_float_read(d);
        lemma_uint_read(s, n);
        let scale1 = if e.id == 0x2A_D7B1 {
            s
        } else {
            scale
        };
        let ticks1 = if e.id == 0x4489 {
            Some(d)
        } else {
            ticks
        };
        let next = pos + element_bytes(e).len();
        assert forall|i: int|
            0 <= i < rest.len() && (#[trigger] rest[i]).id == 0x2A_D7B1 implies rest[i].body
            == bytes::be_bytes(s as nat, n) by {
            assert(es[i + 1].id == 0x2A_D7B1);
        }
        assert forall|i: int|
            0 <= i < rest.len() && (#[trigger] rest[i]).id == 0x4489 implies rest[i].body
            == float_bytes(d) by {
            assert(es[i + 1].id == 0x4489);
        }
        lemma_info_read(data, next, end, rest, scale1, ticks1, s, n, d);
        assert(info_of(data, pos, end, scale, ticks) == info_of(data, next, end, scale1, ticks1));
        if exists|i: int| 0 <= i < rest.len() && (#[trigger] rest[i]).id == 0x2A_D7B1 {
            let i = choose|i: int| 0 <= i < rest.len() && (#[trigger] rest[i]).id == 0x2A_D7B1;
            assert(es[i + 1].id == 0x2A_D7B1);
        }
        if exists|i: int| 0 <= i < rest.len() && (#[trigger] rest[i]).id == 0x4489 {
            let i = choose|i: int| 0 <= i < rest.len() && (#[trigger] rest[i]).id == 0x4489;
            assert(es[i + 1].id == 0x4489);
        }
        if exists|i: int| 0 <= i < es.len() && (#[trigger] es[i]).id == 0x2A_D7B1 {
            let i = choose|i: int| 0 <= i < es.len() && (#[trigger] es[i]).id == 0x2A_D7B1;
            assert(i > 0 ==> rest[i - 1].id == 0x2A_D7B1);
        }
        if exists|i: int| 0 <= i < es.len() && (#[trigger] es[i]).id == 0x4489 {
            let i = choose|i: int| 0 <= i < es.len() && (#[trigger] es[i]).id == 0x4489;
            assert(i > 0 ==> rest[i - 1].id == 0x4489);
        }
    }
}

/// Elements that are neither a segment nor a description are passed over.
proof fn lemma_others_passed(
    data: Seq<u8>,
    pos: int,
    mid: int,
    end: int,
    es: Seq<Written>,
    scale: u64,
)
    requires
        are_writable(es),
        forall|i: int|
            0 <= i < es.len() ==> (#[trigger] es[i]).id != 0x1549_A966 && es[i].id != 0x1853_8067,
        0 <= pos <= mid <= end <= data.len(),
        data.subrange(pos, mid) == elements_bytes(es),
    ensures
        elements_length(data, pos, end, scale) == elements_length(data, mid, end, scale),
    decreases es.len(),
{
    if es.len() > 0 {
        let rest = es.drop_first();
        lemma_first_element(data, pos, mid, es);
        lemma_element_read(data, pos, end, es[0]);
        assert(es[0].id != 0x1549_A966 && es[0].id != 0x1853_8067);
        assert forall|i: int| 0 <= i < rest.len() implies (#[trigger] rest[i]).id != 0x1549_A966
            && rest[i].id != 0x1853_8067 by {
            assert(es[i + 1].id != 0x1549_A966 && es[i + 1].id != 0x1853_8067);
        }
        lemma_others_passed(data, pos + element_bytes(es[0]).len(), mid, end, rest, scale);
    }
}

/// The beginning of a file: elements, the head of a segment, elements of the
/// segment, and its description.
pub open spec fn described_start(
    head: Seq<Written>,
    segment_size: nat,
    size_bytes: nat,
    inside: Seq<Written>,
    info: Written,
) -> Seq<u8> {
    elements_bytes(head) + (bytes::be_bytes(0x1853_8067, 4) + written_size(
        segment_size,
        size_bytes,
    )) + elements_bytes(inside) + element_bytes(info)
}

/// A file that begins with elements of any kind, then a segment, then elements
/// of any kind, and then a description that gives how many ticks the file plays,
/// plays that many ticks; they are as long as the description says, and a
/// millisecond where it says nothing. Every size may be written with any number
/// of bytes that it fits in.
pub proof fn law_lengths_are_read(
    data: Seq<u8>,
    head: Seq<Written>,
    segment_size: nat,
    size_bytes: nat,
    inside: Seq<Written>,
    info: Written,
    es: Seq<Written>,
    scale: u64,
    n: nat,
    ticks: FloatBits,
)
    requires
        are_writable(head),
        are_writable(inside),
        is_writable(info),
        are_writable(es),
        1 <= size_bytes <= 8,
        segment_size + 1 < size_mark(size_bytes),
        forall|i: int|
            0 <= i < head.len() ==> (#[trigger] head[i]).id != 0x1549_A966 && head[i].id
                != 0x1853_8067,
        forall|i: int|
            0 <= i < inside.len() ==> (#[trigger] inside[i]).id != 0x1549_A966 && inside[i].id
                != 0x1853_8067,
        info.id == 0x1549_A966,
        info.body == elements_bytes(es),
        1 <= n <= 8,
        scale < bytes::byte_power(n),
        forall|i: int|
            0 <= i < es.len() && (#[trigger] es[i]).id == 0x2A_D7B1 ==> es[i].body
                == bytes::be_bytes(scale as nat, n),
        forall|i: int|
            0 <= i < es.len() && (#[trigger] es[i]).id == 0x4489 ==> es[i].body == float_bytes(
                ticks,
            ),
        exists|i: int| 0 <= i < es.len() && (#[trigger] es[i]).id == 0x4489,
        described_start(head, segment_size, size_bytes, inside, info).len() <= 262_144,
        described_start(head, segment_size, size_bytes, inside, info).len() <= data.len(),
        data.take(described_start(head, segment_size, size_bytes, inside, info).len() as int)
            == described_start(head, segment_size, size_bytes, inside, info),
    ensures
        mkv_length(data) == Some(
            MkvLength {
                ticks,
                scale: if exists|i: int| 0 <= i < es.len() && (#[trigger] es[i]).id == 0x2A_D7B1 {
                    scale
                } else {
                    1_000_000
                },
            },
        ),
{
    let end = least(data.len() as int, SCAN_LIMIT as int);
    lemma_start_parts(data, head, segment_size, size_bytes, inside, info);
    let p0 = elements_bytes(head).len() as int;
    let p1 = p0 + 4 + size_bytes;
    let p2 = p1 + elements_bytes(inside).len();
    lemma_others_passed(data, 0, p0, end, head, DEFAULT_SCALE);
    law_ids_are_read_back(data, p0, end, 0x1853_8067, 4);
    law_sizes_are_read_back(data, p0 + 4, end, segment_size, size_bytes);
    assert(elements_length(data, p0, end, DEFAULT_SCALE) == elements_length(
        data,
        p1,
        end,
        DEFAULT_SCALE,
    ));
    lemma_others_passed(data, p1, p2, end, inside, DEFAULT_SCALE);
    lemma_element_read(data, p2, end, info);
    let from = p2 + info.id_bytes + info.size_bytes;
    let stop = from + info.body.len();
    lemma_info_read(data, from, stop, es, DEFAULT_SCALE, None, scale, n, ticks);
}

/// The parts of the beginning of a file.
proof fn lemma_start_parts(
    data: Seq<u8>,
    head: Seq<Written>,
    segment_size: nat,
    size_bytes: nat,
    inside: Seq<Written>,
    info: Written,
)
    requires
        described_start(head, segment_size, size_bytes, inside, info).len() <= data.len(),
        data.take(described_start(head, segment_size, size_bytes, inside, info).len() as int)
            == described_start(head, segment_size, size_bytes, inside, info),
    ensures
        ({
            let p0 = elements_bytes(head).len() as int;
            let p1 = p0 + 4 + size_bytes;
            let p2 = p1 + elements_bytes(inside).len();
            let p3 = p2 + element_bytes(info).len();
            &&& described_start(head, segment_size, size_bytes, inside, info).len() == p3
            &&& data.subrange(0, p0) == elements_bytes(head)
            &&& data.subrange(p0, p0 + 4) == bytes::be_bytes(0x1853_8067, 4)
            &&& data.subrange(p0 + 4, p0 + 4 + size_bytes) == written_size(
                segment_size,
                size_bytes,
            )
            &&& data.subrange(p1, p2) == elements_bytes(inside)
            &&& data.subrange(p2, p3) == element_bytes(info)
        }),
{
    let start = described_start(head, segment_size, size_bytes, inside, info);
    let front = data.take(start.len() as int);
    bytes::lemma_be_bytes_len(0x1853_8067, 4);
    bytes::lemma_be_bytes_len(segment_size + size_mark(size_bytes), size_bytes);
    let p0 = elements_bytes(head).len() as int;
    let p1 = p0 + 4 + size_bytes;
    let p2 = p1 + elements_bytes(inside).len();
    let p3 = p2 + element_bytes(info).len();
    assert(start.len() == p3);
    assert(data.subrange(0, p0) =~= front.subrange(0, p0));
    assert(data.subrange(p0, p0 + 4) =~= front.subrange(p0, p0 + 4));
    assert(data.subrange(p0 + 4, p1) =~= front.subrange(p0 + 4, p1));
    assert(data.subrange(p1, p2) =~= front.subrange(p1, p2));
    assert(data.subrange(p2, p3) =~= front.subrange(p2, p3));
    assert(start.subrange(0, p0) =~= elements_bytes(head));
    assert(start.subrange(p0, p0 + 4) =~= bytes::be_bytes(0x1853_8067, 4));
    assert(start.subrange(p0 + 4, p1) =~= written_size(segment_size, size_bytes));
    assert(start.subrange(p1, p2) =~= elements_bytes(inside));
    assert(start.subrange(p2, p3) =~= element_bytes(info));
}

/// A number that an element holds reads as it was written.
proof fn lemma_number_in(
    data: Seq<u8>,
    pos: int,
    end: int,
    es: Seq<Written>,
    id: u64,
    k: int,
    v: u64,
    n: nat,
)
    requires
        are_writable(es),
        0 <= pos <= end <= data.len(),
        data.subrange(pos, end) == elements_bytes(es),
        0 <= k < es.len(),
        forall|i: int| 0 <= i < k ==> (#[trigger] es[i]).id != id,
        es[k].id == id,
        1 <= n <= 8,
        v < bytes::byte_power(n),
        es[k].body == bytes::be_bytes(v as nat, n),
    ensures
        number_in(data, pos, end, id) == v,
{
    law_children_are_found(data, pos, end, es, id, k);
    lemma_uint_read(v, n);
}

/// The first element of an id.
pub open spec fn is_first(es: Seq<Written>, id: nat, k: int) -> bool {
    0 <= k < es.len() && es[k].id == id && forall|i: int|
        0 <= i < k ==> (#[trigger] es[i]).id != id
}

/// A track that says that it holds video, names its codec and gives the size of
/// its picture reads as it was written, whatever else it holds.
pub proof fn law_video_tracks_are_read(
    data: Seq<u8>,
    start: int,
    stop: int,
    es: Seq<Written>,
    picture: Seq<Written>,
    kind: int,
    codec: int,
    video: int,
    wide: int,
    high: int,
    width: u64,
    height: u64,
    n: nat,
    m: nat,
)
    requires
        are_writable(es),
        are_writable(picture),
        0 <= start <= stop <= data.len(),
        data.subrange(start, stop) == elements_bytes(es),
        is_first(es, 0x83, kind),
        es[kind].body == seq![1u8],
        is_first(es, 0x86, codec),
        is_first(es, 0xE0, video),
        es[video].body == elements_bytes(picture),
        is_first(picture, 0xB0, wide),
        is_first(picture, 0xBA, high),
        1 <= n <= 8,
        1 <= m <= 8,
        width < bytes::byte_power(n),
        height < bytes::byte_power(m),
        picture[wide].body == bytes::be_bytes(width as nat, n),
        picture[high].body == bytes::be_bytes(height as nat, m),
    ensures
        entry_video(data, start, stop) == Some(
            VideoTrack { codec: named_codec(es[codec].body), width, height },
        ),
{
    bytes::lemma_byte_powers();
    assert(bytes::be_bytes(1, 1) =~= seq![1u8]) by {
        assert(bytes::be_bytes(0, 0) =~= Seq::<u8>::empty());
    }
    lemma_number_in(data, start, stop, es, TRACK_TYPE_ID, kind, 1, 1);
    law_children_are_found(data, start, stop, es, CODEC_ID, codec);
    law_children_are_found(data, start, stop, es, VIDEO_ID, video);
    match child_of(data, start, stop, VIDEO_ID) {
        Some((v, w)) => {
            lemma_number_in(data, v, w, picture, PIXEL_WIDTH_ID, wide, width, n);
            lemma_number_in(data, v, w, picture, PIXEL_HEIGHT_ID, high, height, m);
        },
        None => {},
    }
}

/// A track that does not say that it holds video has none, nor has one that
/// names no codec.
pub proof fn law_other_tracks_hold_no_video(
    data: Seq<u8>,
    start: int,
    stop: int,
    es: Seq<Written>,
    kind: int,
    t: u8,
)
    requires
        are_writable(es),
        0 <= start <= stop <= data.len(),
        data.subrange(start, stop) == elements_bytes(es),
        is_first(es, 0x83, kind),
        es[kind].body == seq![t],
        t != 1 || forall|i: int| 0 <= i < es.len() ==> (#[trigger] es[i]).id != 0x86,
    ensures
        entry_video(data, start, stop) is None,
{
    bytes::lemma_byte_powers();
    assert(bytes::be_bytes(t as nat, 1) =~= seq![t]) by {
        assert(bytes::be_bytes(0, 0) =~= Seq::<u8>::empty());
    }
    lemma_number_in(data, start, stop, es, TRACK_TYPE_ID, kind, t as u64, 1);
    if t == 1 {
        law_children_are_found(data, start, stop, es, CODEC_ID, es.len() as int);
    }
}

/// The codecs are known by how their names begin, and by nothing else.
pub proof fn law_codecs_are_known_by_name(more: Seq<u8>, name: Seq<u8>)
    ensures
        named_codec(utf8::encode_utf8("V_MPEG4/ISO/AVC"@) + more) == VideoCodec::H264,
        named_codec(utf8::encode_utf8("V_MPEGH/ISO/HEVC"@) + more) == VideoCodec::Hevc,
        named_codec(utf8::encode_utf8("V_VP9"@) + more) == VideoCodec::Vp9,
        named_codec(utf8::encode_utf8("V_AV1"@) + more) == VideoCodec::Av1,
        named_codec(name) != VideoCodec::Other ==> begins(name, "V_MPEG4/ISO/AVC"@) || begins(
            name,
            "V_MPEGH/ISO/HEVC"@,
        ) || begins(name, "V_VP9"@) || begins(name, "V_AV1"@),
{
    lemma_begins("V_MPEG4/ISO/AVC"@, more);
    lemma_begins("V_MPEGH/ISO/HEVC"@, more);
    lemma_begins("V_VP9"@, more);
    lemma_begins("V_AV1"@, more);
    reveal_strlit("V_MPEG4/ISO/AVC");
    reveal_strlit("V_MPEGH/ISO/HEVC");
    reveal_strlit("V_VP9");
    reveal_strlit("V_AV1");
    assert(utf8::is_ascii_chars("V_MPEG4/ISO/AVC"@));
    assert(utf8::is_ascii_chars("V_MPEGH/ISO/HEVC"@));
    assert(utf8::is_ascii_chars("V_VP9"@));
    assert(utf8::is_ascii_chars("V_AV1"@));
    let avc = utf8::encode_utf8("V_MPEG4/ISO/AVC"@);
    let hevc = utf8::encode_utf8("V_MPEGH/ISO/HEVC"@);
    let vp9 = utf8::encode_utf8("V_VP9"@);
    let av1 = utf8::encode_utf8("V_AV1"@);
    utf8::is_ascii_chars_encode_utf8("V_MPEG4/ISO/AVC"@);
    utf8::is_ascii_chars_encode_utf8("V_MPEGH/ISO/HEVC"@);
    utf8::is_ascii_chars_encode_utf8("V_VP9"@);
    utf8::is_ascii_chars_encode_utf8("V_AV1"@);
    assert(avc[6] == '4' as u8 && avc[2] == 'M' as u8);
    assert(hevc[6] == 'H' as u8 && hevc[2] == 'M' as u8);
    assert(vp9[2] == 'V' as u8 && vp9[3] == 'P' as u8);
    assert(av1[2] == 'A' as u8);
    let h = hevc + more;
    assert(h[6] == hevc[6]);
    assert(begins(h, "V_MPEG4/ISO/AVC"@) ==> h.take(avc.len() as int)[6] == avc[6]);
    let v = vp9 + more;
    assert(v[2] == vp9[2]);
    assert(begins(v, "V_MPEG4/ISO/AVC"@) ==> v.take(avc.len() as int)[2] == avc[2]);
    assert(begins(v, "V_MPEGH/ISO/HEVC"@) ==> v.take(hevc.len() as int)[2] == hevc[2]);
    let a = av1 + more;
    assert(a[2] == av1[2]);
    assert(begins(a, "V_MPEG4/ISO/AVC"@) ==> a.take(avc.len() as int)[2] == avc[2]);
    assert(begins(a, "V_MPEGH/ISO/HEVC"@) ==> a.take(hevc.len() as int)[2] == hevc[2]);
    assert(begins(a, "V_VP9"@) ==> a.take(vp9.len() as int)[2] == vp9[2]);
}

/// Bytes begin with the text that was put in front of them.
proof fn lemma_begins(name: Seq<char>, more: Seq<u8>)
    ensures
        begins(utf8::encode_utf8(name) + more, name),
{
    let n = utf8::encode_utf8(name);
    assert((n + more).take(n.len() as int) =~= n);
}

/// Elements of other ids are passed over.
proof fn lemma_child_passed(
    data: Seq<u8>,
    pos: int,
    mid: int,
    end: int,
    es: Seq<Written>,
    id: u64,
)
    requires
        are_writable(es),
        forall|i: int| 0 <= i < es.len() ==> (#[trigger] es[i]).id != id,
        0 <= pos <= mid <= end <= data.len(),
        data.subrange(pos, mid) == elements_bytes(es),
    ensures
        child_of(data, pos, end, id) == child_of(data, mid, end, id),
    decreases es.len(),
{
    if es.len() > 0 {
        let rest = es.drop_first();
        lemma_first_element(data, pos, mid, es);
        lemma_element_read(data, pos, end, es[0]);
        assert forall|i: int| 0 <= i < rest.len() implies (#[trigger] rest[i]).id != id by {
            assert(es[i + 1].id != id);
        }
        lemma_child_passed(data, pos + element_bytes(es[0]).len(), mid, end, rest, id);
    }
}

/// An element is no track, or one that says that it holds something else than
/// video.
pub open spec fn holds_no_video(e: Written) -> bool {
    e.id != 0xAE || exists|es: Seq<Written>, kind: int, t: u8|
        is_other_track(e, es, kind, t)
}

/// The elements of a track, the one that says what it holds, and what that says.
pub open spec fn is_other_track(e: Written, es: Seq<Written>, kind: int, t: u8) -> bool {
    &&& are_writable(es)
    &&& e.body == elements_bytes(es)
    &&& is_first(es, 0x83, kind)
    &&& es[kind].body == seq![t]
    &&& t != 1
}

/// The first track that holds video decides.
proof fn lemma_tracks_read(data: Seq<u8>, pos: int, end: int, tr: Seq<Written>, c: int)
    requires
        are_writable(tr),
        0 <= pos <= end <= data.len(),
        data.subrange(pos, end) == elements_bytes(tr),
        0 <= c < tr.len(),
        forall|i: int| 0 <= i < c ==> holds_no_video(#[trigger] tr[i]),
        tr[c].id == 0xAE,
    ensures
        exists|a: int, b: int|
            0 <= a <= b <= data.len() && #[trigger] data.subrange(a, b) == tr[c].body && (
            entry_video(data, a, b) is Some ==> tracks_video(data, pos, end) == entry_video(
                data,
                a,
                b,
            )),
    decreases tr.len(),
{
    lemma_first_element(data, pos, end, tr);
    let e = tr[0];
    lemma_element_read(data, pos, end, e);
    let a = pos + e.id_bytes + e.size_bytes;
    let b = a + e.body.len();
    if c == 0 {
        assert(data.subrange(a, b) == tr[c].body);
    } else {
        let rest = tr.drop_first();
        assert forall|i: int| 0 <= i < c - 1 implies holds_no_video(#[trigger] rest[i]) by {
            assert(holds_no_video(tr[i + 1]));
        }
        assert(rest[c - 1] == tr[c]);
        lemma_tracks_read(data, b, end, rest, c - 1);
        assert(holds_no_video(tr[0]));
        if e.id == 0xAE {
            let (es, kind, t) = choose|es: Seq<Written>, kind: int, t: u8|
                is_other_track(e, es, kind, t);
            law_other_tracks_hold_no_video(data, a, b, es, kind, t);
        }
    }
}

/// The video of a file is that of the first track in the segment's list of
/// tracks that holds any, with the codec and the size of the picture that the
/// track gives; whatever else the file, the segment and the track hold, and with
/// every size written with any number of bytes that it fits in.
pub proof fn law_videos_are_read(
    data: Seq<u8>,
    head: Seq<Written>,
    segment_size: nat,
    size_bytes: nat,
    inside: Seq<Written>,
    tracks: Written,
    tr: Seq<Written>,
    c: int,
    es: Seq<Written>,
    picture: Seq<Written>,
    kind: int,
    codec: int,
    video: int,
    wide: int,
    high: int,
    width: u64,
    height: u64,
    n: nat,
    m: nat,
)
    requires
        are_writable(head),
        are_writable(inside),
        is_writable(tracks),
        are_writable(tr),
        are_writable(es),
        are_writable(picture),
        1 <= size_bytes <= 8,
        segment_size + 1 < size_mark(size_bytes),
        elements_bytes(inside).len() + element_bytes(tracks).len() <= segment_size,
        forall|i: int| 0 <= i < head.len() ==> (#[trigger] head[i]).id != 0x1853_8067,
        forall|i: int| 0 <= i < inside.len() ==> (#[trigger] inside[i]).id != 0x1654_AE6B,
        tracks.id == 0x1654_AE6B,
        tracks.body == elements_bytes(tr),
        0 <= c < tr.len(),
        forall|i: int| 0 <= i < c ==> holds_no_video(#[trigger] tr[i]),
        tr[c].id == 0xAE,
        tr[c].body == elements_bytes(es),
        is_first(es, 0x83, kind),
        es[kind].body == seq![1u8],
        is_first(es, 0x86, codec),
        is_first(es, 0xE0, video),
        es[video].body == elements_bytes(picture),
        is_first(picture, 0xB0, wide),
        is_first(picture, 0xBA, high),
        1 <= n <= 8,
        1 <= m <= 8,
        width < bytes::byte_power(n),
        height < bytes::byte_power(m),
        picture[wide].body == bytes::be_bytes(width as nat, n),
        picture[high].body == bytes::be_bytes(height as nat, m),
        described_start(head, segment_size, size_bytes, inside, tracks).len() <= 262_144,
        described_start(head, segment_size, size_bytes, inside, tracks).len() <= data.len(),
        data.take(described_start(head, segment_size, size_bytes, inside, tracks).len() as int)
            == described_start(head, segment_size, size_bytes, inside, tracks),
    ensures
        mkv_video(data) == Some(
            VideoTrack { codec: named_codec(es[codec].body), width, height },
        ),
{
    let end = least(data.len() as int, SCAN_LIMIT as int);
    lemma_start_parts(data, head, segment_size, size_bytes, inside, tracks);
    let p0 = elements_bytes(head).len() as int;
    let p1 = p0 + 4 + size_bytes;
    let p2 = p1 + elements_bytes(inside).len();
    let p3 = p2 + element_bytes(tracks).len();
    lemma_child_passed(data, 0, p0, end, head, SEGMENT_ID);
    law_ids_are_read_back(data, p0, end, 0x1853_8067, 4);
    law_sizes_are_read_back(data, p0 + 4, end, segment_size, size_bytes);
    let stop = least(p1 + segment_size, end);
    assert(child_of(data, 0, end, SEGMENT_ID) == Some((p1, stop)));
    lemma_child_passed(data, p1, p2, stop, inside, TRACKS_ID);
    lemma_element_read(data, p2, stop, tracks);
    let from = p2 + tracks.id_bytes + tracks.size_bytes;
    assert(child_of(data, p1, stop, TRACKS_ID) == Some((from, p3)));
    lemma_tracks_read(data, from, p3, tr, c);
    let (a, b) = choose|a: int, b: int|
        0 <= a <= b <= data.len() && #[trigger] data.subrange(a, b) == tr[c].body && (entry_video(
            data,
            a,
            b,
        ) is Some ==> tracks_video(data, from, p3) == entry_video(data, a, b));
    law_video_tracks_are_read(
        data,
        a,
        b,
        es,
        picture,
        kind,
        codec,
        video,
        wide,
        high,
        width,
        height,
        n,
        m,
    );
}

/// A track of video that does not describe its picture has a codec, and a picture
/// of unknown size.
pub proof fn law_pictures_need_not_be_described(
    data: Seq<u8>,
    start: int,
    stop: int,
    es: Seq<Written>,
    kind: int,
    codec: int,
)
    requires
        are_writable(es),
        0 <= start <= stop <= data.len(),
        data.subrange(start, stop) == elements_bytes(es),
        is_first(es, 0x83, kind),
        es[kind].body == seq![1u8],
        is_first(es, 0x86, codec),
        forall|i: int| 0 <= i < es.len() ==> (#[trigger] es[i]).id != 0xE0,
    ensures
        entry_video(data, start, stop) == Some(
            VideoTrack { codec: named_codec(es[codec].body), width: 0, height: 0 },
        ),
{
    bytes::lemma_byte_powers();
    assert(bytes::be_bytes(1, 1) =~= seq![1u8]) by {
        assert(bytes::be_bytes(0, 0) =~= Seq::<u8>::empty());
    }
    lemma_number_in(data, start, stop, es, TRACK_TYPE_ID, kind, 1, 1);
    law_children_are_found(data, start, stop, es, CODEC_ID, codec);
    law_children_are_found(data, start, stop, es, VIDEO_ID, es.len() as int);
}

/// A number that is not there is 0, and so is one of no bytes or of more than
/// eight.
pub proof fn law_missing_numbers_are_none(
    data: Seq<u8>,
    pos: int,
    end: int,
    es: Seq<Written>,
    id: u64,
    k: int,
)
    requires
        are_writable(es),
        0 <= pos <= end <= data.len(),
        data.subrange(pos, end) == elements_bytes(es),
        0 <= k <= es.len(),
        forall|i: int| 0 <= i < k ==> (#[trigger] es[i]).id != id,
        k < es.len() ==> es[k].id == id && (es[k].body.len() == 0 || es[k].body.len() > 8),
    ensures
        number_in(data, pos, end, id) == 0,
{
    law_children_are_found(data, pos, end, es, id, k);
}

/// A description that says nothing of how long the file plays is passed over, and
/// what it says of how long a tick is holds for the next.
pub proof fn law_descriptions_without_a_length_are_passed(
    data: Seq<u8>,
    pos: int,
    mid: int,
    end: int,
    info: Written,
    es: Seq<Written>,
    before: u64,
    scale: u64,
    n: nat,
)
    requires
        is_writable(info),
        info.id == 0x1549_A966,
        info.body == elements_bytes(es),
        are_writable(es),
        0 <= pos <= mid <= end <= data.len(),
        data.subrange(pos, mid) == element_bytes(info),
        1 <= n <= 8,
        scale < bytes::byte_power(n),
        forall|i: int|
            0 <= i < es.len() && (#[trigger] es[i]).id == 0x2A_D7B1 ==> es[i].body
                == bytes::be_bytes(scale as nat, n),
        forall|i: int| 0 <= i < es.len() ==> (#[trigger] es[i]).id != 0x4489,
    ensures
        elements_length(data, pos, end, before) == elements_length(
            data,
            mid,
            end,
            if exists|i: int| 0 <= i < es.len() && (#[trigger] es[i]).id == 0x2A_D7B1 {
                scale
            } else {
                before
            },
        ),
{
    assert(data.subrange(pos, mid).len() == mid - pos);
    lemma_element_read(data, pos, end, info);
    let from = pos + info.id_bytes + info.size_bytes;
    let stop = from + info.body.len();
    assert forall|i: int| 0 <= i < es.len() && (#[trigger] es[i]).id == 0x4489 implies es[i].body
        == float_bytes(FloatBits::Single(0)) by {}
    lemma_info_read(data, from, stop, es, before, None, scale, n, FloatBits::Single(0));
}

} // verus!
