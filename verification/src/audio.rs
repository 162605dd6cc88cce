//! How long a WAV or FLAC file plays. Only the parts of a file that matter are
//! read, so each probe is a machine that says what to read next.

use crate::bytes;
use crate::path;
use crate::probe::ProbeStep;
use crate::probe::Ticks;
use vstd::prelude::*;

verus! {

/// What the next bytes of a WAV file are.
#[derive(Clone, Copy, Debug, PartialEq, Eq, Structural)]
pub enum WavState {
    /// The file's header.
    Header,
    /// The header of a chunk.
    Chunk { byte_rate: u32 },
    /// The contents of the chunk that describes the format.
    Format { byte_rate: u32 },
}

/// What a WAV probe does with the bytes that it asked for. None are given where
/// they could not be read.
pub open spec fn wav_next(state: WavState, read: Option<Seq<u8>>) -> (WavState, ProbeStep) {
    match read {
        None => (state, ProbeStep::Done(None)),
        Some(b) => match state {
            WavState::Header => if b.len() == 12 && bytes::slice(b, 0, 4) == seq![
                82u8,
                73,
                70,
                70,
            ] && bytes::slice(b, 8, 4) == seq![87u8, 65, 86, 69] {
                (WavState::Chunk { byte_rate: 0 }, ProbeStep::Read { skip: 0, count: 8 })
            } else {
                (state, ProbeStep::Done(None))
            },
            WavState::Chunk { byte_rate } => if b.len() != 8 {
                (state, ProbeStep::Done(None))
            } else {
                let size = bytes::le32(bytes::slice(b, 4, 4));
                let name = bytes::slice(b, 0, 4);
                if name == seq![102u8, 109, 116, 32] {
                    (
                        WavState::Format { byte_rate },
                        ProbeStep::Read { skip: 0, count: size as u64 },
                    )
                } else if name == seq![100u8, 97, 116, 97] {
                    (
                        state,
                        ProbeStep::Done(
                            if byte_rate == 0 {
                                None
                            } else {
                                Some(Ticks { count: size as u64, per_second: byte_rate })
                            },
                        ),
                    )
                } else {
                    (state, ProbeStep::Read { skip: (size + size % 2) as u64, count: 8 })
                }
            },
            WavState::Format { byte_rate } => (
                WavState::Chunk {
                    byte_rate: if b.len() >= 16 {
                        bytes::le32(bytes::slice(b, 8, 4)) as u32
                    } else {
                        byte_rate
                    },
                },
                ProbeStep::Read { skip: (b.len() % 2) as u64, count: 8 },
            ),
        },
    }
}

/// Decides what a WAV probe does next.
pub fn wav_step(state: WavState, read: Option<&[u8]>) -> (r: (WavState, ProbeStep))
    ensures
        r == wav_next(
            state,
            match read {
                Some(b) => Some(b@),
                None => None,
            },
        ),
{
    let b: &[u8] = match read {
        Some(b) => b,
        None => {
            return (state, ProbeStep::Done(None));
        },
    };
    match state {
        WavState::Header => {
            if b.len() == 12 && bytes::is_name_at(b, 0, 82, 73, 70, 70) && bytes::is_name_at(
                b,
                8,
                87,
                65,
                86,
                69,
            ) {
                (WavState::Chunk { byte_rate: 0 }, ProbeStep::Read { skip: 0, count: 8 })
            } else {
                (state, ProbeStep::Done(None))
            }
        },
        WavState::Chunk { byte_rate } => {
            if b.len() != 8 {
                return (state, ProbeStep::Done(None));
            }
            let size: u32 = bytes::read_le32(b, 4);
            if bytes::is_name_at(b, 0, 102, 109, 116, 32) {
                (WavState::Format { byte_rate }, ProbeStep::Read { skip: 0, count: size as u64 })
            } else if bytes::is_name_at(b, 0, 100, 97, 116, 97) {
                if byte_rate == 0 {
                    (state, ProbeStep::Done(None))
                } else {
                    (
                        state,
                        ProbeStep::Done(Some(Ticks { count: size as u64, per_second: byte_rate })),
                    )
                }
            } else {
                (state, ProbeStep::Read { skip: size as u64 + size as u64 % 2, count: 8 })
            }
        },
        WavState::Format { byte_rate } => {
            let rate: u32 = if b.len() >= 16 {
                bytes::read_le32(b, 8)
            } else {
                byte_rate
            };
            let odd: usize = b.len() % 2;
            (WavState::Chunk { byte_rate: rate }, ProbeStep::Read { skip: odd as u64, count: 8 })
        },
    }
}

/// The length that the chunks of a WAV file from `pos` on give: the size of the
/// first `data` chunk over the byte rate that the last `fmt ` chunk before it gave.
pub open spec fn chunks_length(data: Seq<u8>, pos: int, byte_rate: u32) -> Option<Ticks>
    decreases data.len() - pos,
{
    if pos < 0 || pos + 8 > data.len() {
        None
    } else {
        let size = bytes::le32(bytes::slice(data, pos + 4, 4));
        let name = bytes::slice(data, pos, 4);
        let next = pos + 8 + size + size % 2;
        if name == seq![100u8, 97, 116, 97] {
            if byte_rate == 0 {
                None
            } else {
                Some(Ticks { count: size as u64, per_second: byte_rate })
            }
        } else if next > data.len() {
            None
        } else if name == seq![102u8, 109, 116, 32] && size >= 16 {
            chunks_length(data, next, bytes::le32(bytes::slice(data, pos + 16, 4)) as u32)
        } else {
            chunks_length(data, next, byte_rate)
        }
    }
}

/// The length that a WAV file's contents give.
pub open spec fn wav_length(data: Seq<u8>) -> Option<Ticks> {
    if data.len() >= 12 && bytes::slice(data, 0, 4) == seq![82u8, 73, 70, 70] && bytes::slice(
        data,
        8,
        4,
    ) == seq![87u8, 65, 86, 69] {
        chunks_length(data, 12, 0)
    } else {
        None
    }
}

/// The length that a WAV file's contents from `pos` on give to a probe that asked
/// for `count` bytes there.
spec fn wav_rest(data: Seq<u8>, pos: int, state: WavState, count: int) -> Option<Ticks> {
    match state {
        WavState::Header => wav_length(data),
        WavState::Chunk { byte_rate } => chunks_length(data, pos, byte_rate),
        WavState::Format { byte_rate } => {
            let next = pos + count + count % 2;
            if next > data.len() {
                None
            } else if count >= 16 {
                chunks_length(data, next, bytes::le32(bytes::slice(data, pos + 8, 4)) as u32)
            } else {
                chunks_length(data, next, byte_rate)
            }
        },
    }
}

/// What a WAV probe may ask for in each state.
spec fn wav_asks(state: WavState, pos: int, skip: int, count: int) -> bool {
    match state {
        WavState::Header => pos == 0 && skip == 0 && count == 12,
        WavState::Chunk { .. } => count == 8,
        WavState::Format { .. } => skip == 0,
    }
}

/// One for the state in which a probe may ask for no bytes at all.
spec fn wav_turn(state: WavState) -> int {
    match state {
        WavState::Format { .. } => 1,
        _ => 0,
    }
}

/// The bytes that a probe asks for, where the file holds them.
fn fetch(data: &[u8], pos: usize, skip: u64, count: u64) -> (r: Option<(usize, Vec<u8>)>)
    requires
        pos <= data@.len(),
    ensures
        match r {
            Some((at, b)) => at == pos + skip && at + count <= data@.len() && b@ == bytes::slice(
                data@,
                at as int,
                count as int,
            ),
            None => pos + skip + count > data@.len(),
        },
{
    let len: usize = data.len();
    if skip > (len - pos) as u64 {
        return None;
    }
    let at: usize = pos + skip as usize;
    if count > (len - at) as u64 {
        return None;
    }
    Some((at, path::copy_bytes(data, at, at + count as usize)))
}

/// A slice of a slice is a slice.
proof fn lemma_slice_of_slice(data: Seq<u8>, at: int, n: int, from: int, k: int)
    requires
        0 <= at,
        0 <= from,
        0 <= k,
        from + k <= n,
        at + n <= data.len(),
    ensures
        bytes::slice(bytes::slice(data, at, n), from, k) == bytes::slice(data, at + from, k),
{
    assert(bytes::slice(bytes::slice(data, at, n), from, k) =~= bytes::slice(data, at + from, k));
}

/// Runs a WAV probe over a file's contents.
pub fn wav_duration_from_bytes(data: &[u8]) -> (r: Option<Ticks>)
    ensures
        r == wav_length(data@),
{
    let len: usize = data.len();
    let mut state = WavState::Header;
    let mut pos: usize = 0;
    let mut skip: u64 = 0;
    let mut count: u64 = 12;
    loop
        invariant
            pos <= len == data@.len(),
            wav_asks(state, pos as int, skip as int, count as int),
            wav_length(data@) == wav_rest(data@, pos + skip, state, count as int),
        decreases 2 * (data@.len() - pos) + wav_turn(state),
    {
        let got = fetch(data, pos, skip, count);
        match got {
            None => {
                return None;
            },
            Some((at, b)) => {
                let (next, step) = wav_step(state, Some(b.as_slice()));
                proof {
                    if count >= 12 {
                        lemma_slice_of_slice(data@, at as int, count as int, 8, 4);
                    }
                    if count >= 8 {
                        lemma_slice_of_slice(data@, at as int, count as int, 0, 4);
                        lemma_slice_of_slice(data@, at as int, count as int, 4, 4);
                    }
                }
                match step {
                    ProbeStep::Done(answer) => {
                        return answer;
                    },
                    ProbeStep::Read { skip: s, count: c } => {
                        pos = at + count as usize;
                        skip = s;
                        count = c;
                        state = next;
                    },
                }
            },
        }
    }
}

/// What the next bytes of a FLAC file are.
#[derive(Clone, Copy, Debug, PartialEq, Eq, Structural)]
pub enum FlacState {
    /// The file's magic number.
    Magic,
    /// The header of a metadata block.
    Block,
    /// The block that describes the stream.
    StreamInfo,
}

/// The length that the block that describes a FLAC stream gives.
pub open spec fn stream_length(info: Seq<u8>) -> Option<Ticks> {
    if info.len() < 18 {
        None
    } else {
        let rate = bytes::be_value(bytes::slice(info, 10, 3)) / 16;
        let total = (info[13] as nat % 16) * 0x1_0000_0000 + bytes::be_value(
            bytes::slice(info, 14, 4),
        );
        if rate == 0 || total == 0 {
            None
        } else {
            Some(Ticks { count: total as u64, per_second: rate as u32 })
        }
    }
}

/// What a FLAC probe does with the bytes that it asked for. None are given where
/// they could not be read.
pub open spec fn flac_next(state: FlacState, read: Option<Seq<u8>>) -> (FlacState, ProbeStep) {
    match read {
        None => (state, ProbeStep::Done(None)),
        Some(b) => match state {
            FlacState::Magic => if b == seq![102u8, 76, 97, 67] {
                (FlacState::Block, ProbeStep::Read { skip: 0, count: 4 })
            } else {
                (state, ProbeStep::Done(None))
            },
            FlacState::Block => if b.len() != 4 {
                (state, ProbeStep::Done(None))
            } else {
                let len = bytes::be_value(bytes::slice(b, 1, 3));
                if b[0] % 128 == 0 {
                    (FlacState::StreamInfo, ProbeStep::Read { skip: 0, count: len as u64 })
                } else if b[0] >= 128 {
                    (state, ProbeStep::Done(None))
                } else {
                    (state, ProbeStep::Read { skip: len as u64, count: 4 })
                }
            },
            FlacState::StreamInfo => (state, ProbeStep::Done(stream_length(b))),
        },
    }
}

/// Decides what a FLAC probe does next.
pub fn flac_step(state: FlacState, read: Option<&[u8]>) -> (r: (FlacState, ProbeStep))
    ensures
        r == flac_next(
            state,
            match read {
                Some(b) => Some(b@),
                None => None,
            },
        ),
{
    let b: &[u8] = match read {
        Some(b) => b,
        None => {
            return (state, ProbeStep::Done(None));
        },
    };
    match state {
        FlacState::Magic => {
            if b.len() == 4 && bytes::is_name_at(b, 0, 102, 76, 97, 67) {
                assert(bytes::slice(b@, 0, 4) =~= b@);
                (FlacState::Block, ProbeStep::Read { skip: 0, count: 4 })
            } else {
                assert(b@.len() == 4 ==> bytes::slice(b@, 0, 4) =~= b@);
                (state, ProbeStep::Done(None))
            }
        },
        FlacState::Block => {
            if b.len() != 4 {
                return (state, ProbeStep::Done(None));
            }
            let len: u64 = bytes::read_be(b, 1, 3);
            if b[0] % 128 == 0 {
                (FlacState::StreamInfo, ProbeStep::Read { skip: 0, count: len })
            } else if b[0] >= 128 {
                (state, ProbeStep::Done(None))
            } else {
                (state, ProbeStep::Read { skip: len, count: 4 })
            }
        },
        FlacState::StreamInfo => (state, ProbeStep::Done(stream_info(b))),
    }
}

/// Reads the block that describes a FLAC stream.
fn stream_info(info: &[u8]) -> (r: Option<Ticks>)
    ensures
        r == stream_length(info@),
{
    if info.len() < 18 {
        return None;
    }
    proof {
        bytes::lemma_byte_powers();
        bytes::lemma_be_bound(bytes::slice(info@, 10, 3));
        bytes::lemma_be_bound(bytes::slice(info@, 14, 4));
    }
    let packed: u64 = bytes::read_be(info, 10, 3);
    let rate: u64 = packed / 16;
    let low: u64 = bytes::read_be(info, 14, 4);
    let high: u64 = info[13] as u64 % 16;
    let total: u64 = high * 0x1_0000_0000 + low;
    if rate == 0 || total == 0 {
        None
    } else {
        Some(Ticks { count: total, per_second: rate as u32 })
    }
}

/// The length that the metadata blocks of a FLAC file from `pos` on give: that
/// of the first block that describes the stream.
pub open spec fn blocks_length(data: Seq<u8>, pos: int) -> Option<Ticks>
    decreases data.len() - pos,
{
    if pos < 0 || pos + 4 > data.len() {
        None
    } else {
        let len = bytes::be_value(bytes::slice(data, pos + 1, 3));
        let next = pos + 4 + len;
        if next > data.len() {
            None
        } else if data[pos] % 128 == 0 {
            stream_length(data.subrange(pos + 4, next))
        } else if data[pos] >= 128 {
            None
        } else {
            blocks_length(data, next)
        }
    }
}

/// The length that a FLAC file's contents give.
pub open spec fn flac_length(data: Seq<u8>) -> Option<Ticks> {
    if data.len() >= 4 && bytes::slice(data, 0, 4) == seq![102u8, 76, 97, 67] {
        blocks_length(data, 4)
    } else {
        None
    }
}

/// The length that a FLAC file's contents from `pos` on give to a probe that
/// asked for `count` bytes there.
spec fn flac_rest(data: Seq<u8>, pos: int, state: FlacState, count: int) -> Option<Ticks> {
    match state {
        FlacState::Magic => flac_length(data),
        FlacState::Block => blocks_length(data, pos),
        FlacState::StreamInfo => if pos + count > data.len() {
            None
        } else {
            stream_length(bytes::slice(data, pos, count))
        },
    }
}

/// What a FLAC probe may ask for in each state.
spec fn flac_asks(state: FlacState, pos: int, skip: int, count: int) -> bool {
    match state {
        FlacState::Magic => pos == 0 && skip == 0 && count == 4,
        FlacState::Block => count == 4,
        FlacState::StreamInfo => skip == 0,
    }
}

/// Runs a FLAC probe over a file's contents.
pub fn flac_duration_from_bytes(data: &[u8]) -> (r: Option<Ticks>)
    ensures
        r == flac_length(data@),
{
    let len: usize = data.len();
    let mut state = FlacState::Magic;
    let mut pos: usize = 0;
    let mut skip: u64 = 0;
    let mut count: u64 = 4;
    loop
        invariant
            pos <= len == data@.len(),
            flac_asks(state, pos as int, skip as int, count as int),
            flac_length(data@) == flac_rest(data@, pos + skip, state, count as int),
        decreases data@.len() - pos,
    {
        let got = fetch(data, pos, skip, count);
        match got {
            None => {
                return None;
            },
            Some((at, b)) => {
                let (next, step) = flac_step(state, Some(b.as_slice()));
                proof {
                    if count >= 4 {
                        lemma_slice_of_slice(data@, at as int, count as int, 1, 3);
                        lemma_slice_of_slice(data@, at as int, count as int, 0, 4);
                        assert(b@[0] == data@[at as int]);
                        bytes::lemma_be_bound(bytes::slice(b@, 1, 3));
                        bytes::lemma_byte_powers();
                    }
                    if count == 4 {
                        assert(bytes::slice(b@, 0, 4) =~= b@);
                    }
                }
                match step {
                    ProbeStep::Done(answer) => {
                        return answer;
                    },
                    ProbeStep::Read { skip: s, count: c } => {
                        pos = at + count as usize;
                        skip = s;
                        count = c;
                        state = next;
                    },
                }
            },
        }
    }
}

/// The four bytes that spell a number, least significant first.
pub open spec fn le_bytes(v: u32) -> Seq<u8> {
    seq![
        (v % 0x100) as u8,
        (v / 0x100 % 0x100) as u8,
        (v / 0x1_0000 % 0x100) as u8,
        (v / 0x100_0000) as u8,
    ]
}

/// A chunk of a WAV file as it is written: its name and its contents, with a byte
/// behind them where their number is odd.
pub struct Chunk {
    pub name: Seq<u8>,
    pub body: Seq<u8>,
    pub filler: u8,
}

/// A chunk can be written.
pub open spec fn is_chunk(c: Chunk) -> bool {
    c.name.len() == 4 && c.body.len() <= u32::MAX
}

/// The bytes of a chunk.
pub open spec fn chunk_bytes(c: Chunk) -> Seq<u8> {
    c.name + le_bytes(c.body.len() as u32) + c.body + (if c.body.len() % 2 == 1 {
        seq![c.filler]
    } else {
        Seq::empty()
    })
}

/// The bytes of chunks, one behind the other.
pub open spec fn chunks_bytes(cs: Seq<Chunk>) -> Seq<u8>
    decreases cs.len(),
{
    if cs.len() == 0 {
        Seq::empty()
    } else {
        chunk_bytes(cs[0]) + chunks_bytes(cs.drop_first())
    }
}

/// A chunk reads as it was written.
proof fn lemma_chunk_read(data: Seq<u8>, pos: int, c: Chunk)
    requires
        is_chunk(c),
        0 <= pos,
        pos + chunk_bytes(c).len() <= data.len(),
        data.subrange(pos, pos + chunk_bytes(c).len()) == chunk_bytes(c),
    ensures
        chunk_bytes(c).len() == 8 + c.body.len() + c.body.len() % 2,
        bytes::slice(data, pos, 4) == c.name,
        bytes::le32(bytes::slice(data, pos + 4, 4)) == c.body.len(),
        data.subrange(pos + 8, pos + 8 + c.body.len()) == c.body,
{
    let whole = chunk_bytes(c);
    let at = data.subrange(pos, pos + whole.len());
    let n = c.body.len() as int;
    bytes::law_small_end_first_is_read_back(c.body.len() as u32);
    assert(bytes::slice(data, pos, 4) =~= at.subrange(0, 4));
    assert(whole.subrange(0, 4) =~= c.name);
    assert(bytes::slice(data, pos + 4, 4) =~= at.subrange(4, 8));
    assert(whole.subrange(4, 8) =~= le_bytes(c.body.len() as u32));
    assert(data.subrange(pos + 8, pos + 8 + n) =~= at.subrange(8, 8 + n));
    assert(whole.subrange(8, 8 + n) =~= c.body);
}

/// Chunks of other names are passed over.
proof fn lemma_chunks_passed(data: Seq<u8>, pos: int, mid: int, cs: Seq<Chunk>, byte_rate: u32)
    requires
        forall|i: int| 0 <= i < cs.len() ==> is_chunk(#[trigger] cs[i]),
        forall|i: int|
            0 <= i < cs.len() ==> (#[trigger] cs[i]).name != seq![100u8, 97, 116, 97] && cs[i].name
                != seq![102u8, 109, 116, 32],
        0 <= pos <= mid <= data.len(),
        data.subrange(pos, mid) == chunks_bytes(cs),
    ensures
        chunks_length(data, pos, byte_rate) == chunks_length(data, mid, byte_rate),
    decreases cs.len(),
{
    let at = data.subrange(pos, mid);
    assert(at.len() == mid - pos);
    if cs.len() > 0 {
        let first = chunk_bytes(cs[0]);
        let rest = cs.drop_first();
        let next = pos + first.len();
        assert(at.len() == first.len() + chunks_bytes(rest).len());
        assert(data.subrange(pos, next) =~= at.subrange(0, first.len() as int));
        assert(at.subrange(0, first.len() as int) =~= first);
        assert(data.subrange(next, mid) =~= at.subrange(first.len() as int, at.len() as int));
        assert(at.subrange(first.len() as int, at.len() as int) =~= chunks_bytes(rest));
        assert(is_chunk(cs[0]));
        lemma_chunk_read(data, pos, cs[0]);
        assert forall|i: int| 0 <= i < rest.len() implies is_chunk(#[trigger] rest[i]) by {
            assert(is_chunk(cs[i + 1]));
        }
        assert forall|i: int| 0 <= i < rest.len() implies (#[trigger] rest[i]).name != seq![
            100u8,
            97,
            116,
            97,
        ] && rest[i].name != seq![102u8, 109, 116, 32] by {
            assert(cs[i + 1].name != seq![100u8, 97, 116, 97]);
        }
        lemma_chunks_passed(data, next, mid, rest, byte_rate);
    }
}

/// The beginning of a WAV file: its header, chunks, the one that describes the
/// format, further chunks, and the head of the one that holds the sound.
pub open spec fn wav_start(
    size: Seq<u8>,
    before: Seq<Chunk>,
    format: Chunk,
    between: Seq<Chunk>,
    sound: u32,
) -> Seq<u8> {
    (seq![82u8, 73, 70, 70] + size + seq![87u8, 65, 86, 69]) + chunks_bytes(before) + chunk_bytes(
        format,
    ) + chunks_bytes(between) + (seq![100u8, 97, 116, 97] + le_bytes(sound))
}

/// A WAV file plays as many bytes of sound as its `data` chunk says, at as many
/// bytes a second as its `fmt ` chunk says, whatever other chunks stand around.
pub proof fn law_wav_lengths_are_read(
    size: Seq<u8>,
    before: Seq<Chunk>,
    format: Chunk,
    between: Seq<Chunk>,
    sound: u32,
    rest: Seq<u8>,
    byte_rate: u32,
)
    requires
        size.len() == 4,
        forall|i: int| 0 <= i < before.len() ==> is_chunk(#[trigger] before[i]),
        forall|i: int|
            0 <= i < before.len() ==> (#[trigger] before[i]).name != seq![100u8, 97, 116, 97]
                && before[i].name != seq![102u8, 109, 116, 32],
        is_chunk(format),
        format.name == seq![102u8, 109, 116, 32],
        format.body.len() >= 16,
        format.body.subrange(8, 12) == le_bytes(byte_rate),
        forall|i: int| 0 <= i < between.len() ==> is_chunk(#[trigger] between[i]),
        forall|i: int|
            0 <= i < between.len() ==> (#[trigger] between[i]).name != seq![100u8, 97, 116, 97]
                && between[i].name != seq![102u8, 109, 116, 32],
    ensures
        wav_length(wav_start(size, before, format, between, sound) + rest) == if byte_rate == 0 {
            None
        } else {
            Some(Ticks { count: sound as u64, per_second: byte_rate })
        },
{
    let data = wav_start(size, before, format, between, sound) + rest;
    let head = seq![82u8, 73, 70, 70] + size + seq![87u8, 65, 86, 69];
    let first = head + chunks_bytes(before);
    let second = first + chunk_bytes(format);
    let third = second + chunks_bytes(between);
    let tail = seq![100u8, 97, 116, 97] + le_bytes(sound);
    assert(bytes::slice(data, 0, 4) == seq![82u8, 73, 70, 70] && bytes::slice(data, 8, 4) == seq![
        87u8,
        65,
        86,
        69,
    ]) by {
        lemma_cut(Seq::empty(), head, data.skip(12), data);
        assert(head.subrange(0, 4) =~= seq![82u8, 73, 70, 70]);
        assert(head.subrange(8, 12) =~= seq![87u8, 65, 86, 69]);
        assert(bytes::slice(data, 0, 4) =~= head.subrange(0, 4));
        assert(bytes::slice(data, 8, 4) =~= head.subrange(8, 12));
    }
    lemma_cut(head, chunks_bytes(before), chunk_bytes(format) + chunks_bytes(between) + tail + rest, data);
    lemma_cut(first, chunk_bytes(format), chunks_bytes(between) + tail + rest, data);
    lemma_cut(second, chunks_bytes(between), tail + rest, data);
    lemma_cut(third, tail, rest, data);
    lemma_wav_chunks(
        data,
        first.len() as int,
        second.len() as int,
        third.len() as int,
        before,
        format,
        between,
        sound,
        byte_rate,
    );
}

/// The middle one of three pieces stands behind the first.
proof fn lemma_cut(a: Seq<u8>, b: Seq<u8>, c: Seq<u8>, data: Seq<u8>)
    requires
        data =~= a + b + c,
    ensures
        data.len() == a.len() + b.len() + c.len(),
        data.subrange(a.len() as int, (a + b).len() as int) == b,
{
    assert(data.subrange(a.len() as int, (a + b).len() as int) =~= b);
}

/// The chunks of a WAV file, told by where they stand.
proof fn lemma_wav_chunks(
    data: Seq<u8>,
    p1: int,
    p2: int,
    p3: int,
    before: Seq<Chunk>,
    format: Chunk,
    between: Seq<Chunk>,
    sound: u32,
    byte_rate: u32,
)
    requires
        forall|i: int| 0 <= i < before.len() ==> is_chunk(#[trigger] before[i]),
        forall|i: int|
            0 <= i < before.len() ==> (#[trigger] before[i]).name != seq![100u8, 97, 116, 97]
                && before[i].name != seq![102u8, 109, 116, 32],
        is_chunk(format),
        format.name == seq![102u8, 109, 116, 32],
        format.body.len() >= 16,
        format.body.subrange(8, 12) == le_bytes(byte_rate),
        forall|i: int| 0 <= i < between.len() ==> is_chunk(#[trigger] between[i]),
        forall|i: int|
            0 <= i < between.len() ==> (#[trigger] between[i]).name != seq![100u8, 97, 116, 97]
                && between[i].name != seq![102u8, 109, 116, 32],
        12 <= p1 <= p2 <= p3,
        p3 + 8 <= data.len(),
        data.subrange(12, p1) == chunks_bytes(before),
        data.subrange(p1, p2) == chunk_bytes(format),
        data.subrange(p2, p3) == chunks_bytes(between),
        data.subrange(p3, p3 + 8) == seq![100u8, 97, 116, 97] + le_bytes(sound),
    ensures
        chunks_length(data, 12, 0) == if byte_rate == 0 {
            None
        } else {
            Some(Ticks { count: sound as u64, per_second: byte_rate })
        },
{
    lemma_chunks_passed(data, 12, p1, before, 0);
    assert(chunks_length(data, p1, 0) == chunks_length(data, p2, byte_rate)) by {
        assert(data.subrange(p1, p2).len() == p2 - p1);
        lemma_chunk_read(data, p1, format);
        assert(bytes::slice(data, p1 + 16, 4) =~= data.subrange(
            p1 + 8,
            p1 + 8 + format.body.len(),
        ).subrange(8, 12));
        bytes::law_small_end_first_is_read_back(byte_rate);
        assert(seq![102u8, 109, 116, 32][0] == 102 && seq![100u8, 97, 116, 97][0] == 100);
    }
    lemma_chunks_passed(data, p2, p3, between, byte_rate);
    let head = data.subrange(p3, p3 + 8);
    bytes::law_small_end_first_is_read_back(sound);
    assert(bytes::slice(data, p3, 4) =~= head.subrange(0, 4));
    assert(head.subrange(0, 4) =~= seq![100u8, 97, 116, 97]);
    assert(bytes::slice(data, p3 + 4, 4) =~= head.subrange(4, 8));
    assert(head.subrange(4, 8) =~= le_bytes(sound));
}

/// A metadata block of a FLAC file as it is written: its kind, whether it is the
/// last, and its contents.
pub struct Block {
    pub kind: u8,
    pub last: bool,
    pub body: Seq<u8>,
}

/// A block can be written.
pub open spec fn is_block(b: Block) -> bool {
    b.kind < 128 && b.body.len() < 0x100_0000
}

/// The bytes of a block.
pub open spec fn block_bytes(b: Block) -> Seq<u8> {
    seq![
        (if b.last {
            128 + b.kind
        } else {
            b.kind as int
        }) as u8,
    ] + bytes::be_bytes(b.body.len(), 3) + b.body
}

/// The bytes of blocks, one behind the other.
pub open spec fn blocks_bytes(bs: Seq<Block>) -> Seq<u8>
    decreases bs.len(),
{
    if bs.len() == 0 {
        Seq::empty()
    } else {
        block_bytes(bs[0]) + blocks_bytes(bs.drop_first())
    }
}

/// A block reads as it was written.
proof fn lemma_block_read(data: Seq<u8>, pos: int, b: Block)
    requires
        is_block(b),
        0 <= pos,
        pos + block_bytes(b).len() <= data.len(),
        data.subrange(pos, pos + block_bytes(b).len()) == block_bytes(b),
    ensures
        block_bytes(b).len() == 4 + b.body.len(),
        data[pos] % 128 == b.kind,
        (data[pos] >= 128) == b.last,
        bytes::be_value(bytes::slice(data, pos + 1, 3)) == b.body.len(),
        data.subrange(pos + 4, pos + 4 + b.body.len()) == b.body,
{
    let whole = block_bytes(b);
    let at = data.subrange(pos, pos + whole.len());
    let n = b.body.len() as int;
    bytes::lemma_byte_powers();
    bytes::law_numbers_are_read_back(b.body.len(), 3);
    assert(whole.len() == 4 + n);
    assert(data[pos] == at[0]);
    assert(bytes::slice(data, pos + 1, 3) =~= at.subrange(1, 4));
    assert(whole.subrange(1, 4) =~= bytes::be_bytes(b.body.len(), 3));
    assert(data.subrange(pos + 4, pos + 4 + n) =~= at.subrange(4, 4 + n));
    assert(whole.subrange(4, 4 + n) =~= b.body);
}

/// Blocks of other kinds are passed over.
proof fn lemma_blocks_passed(data: Seq<u8>, pos: int, mid: int, bs: Seq<Block>)
    requires
        forall|i: int|
            0 <= i < bs.len() ==> is_block(#[trigger] bs[i]) && bs[i].kind != 0 && !bs[i].last,
        0 <= pos <= mid <= data.len(),
        data.subrange(pos, mid) == blocks_bytes(bs),
    ensures
        blocks_length(data, pos) == blocks_length(data, mid),
    decreases bs.len(),
{
    let at = data.subrange(pos, mid);
    assert(at.len() == mid - pos);
    if bs.len() > 0 {
        let first = block_bytes(bs[0]);
        let rest = bs.drop_first();
        let next = pos + first.len();
        assert(at.len() == first.len() + blocks_bytes(rest).len());
        assert(data.subrange(pos, next) =~= at.subrange(0, first.len() as int));
        assert(at.subrange(0, first.len() as int) =~= first);
        assert(data.subrange(next, mid) =~= at.subrange(first.len() as int, at.len() as int));
        assert(at.subrange(first.len() as int, at.len() as int) =~= blocks_bytes(rest));
        assert(is_block(bs[0]));
        lemma_block_read(data, pos, bs[0]);
        assert forall|i: int| 0 <= i < rest.len() implies is_block(#[trigger] rest[i])
            && rest[i].kind != 0 && !rest[i].last by {
            assert(is_block(bs[i + 1]));
        }
        lemma_blocks_passed(data, next, mid, rest);
    }
}

/// The contents of the block that describes a FLAC stream: ten bytes, the rate in
/// twenty bits, eight bits about channels and samples, the number of samples in
/// thirty-six bits, and the rest.
pub open spec fn stream_bytes(
    front: Seq<u8>,
    rate: nat,
    high: nat,
    low: nat,
    samples: nat,
    back: Seq<u8>,
) -> Seq<u8> {
    front + bytes::be_bytes(16 * rate + high, 3) + seq![
        (16 * low + samples / 0x1_0000_0000) as u8,
    ] + bytes::be_bytes(samples % 0x1_0000_0000, 4) + back
}

/// A FLAC file plays as many samples as the block that describes the stream says,
/// at as many a second as it says, whatever other blocks stand in front. One that
/// says neither tells nothing.
pub proof fn law_flac_lengths_are_read(
    others: Seq<Block>,
    stream: Block,
    rest: Seq<u8>,
    front: Seq<u8>,
    rate: nat,
    high: nat,
    low: nat,
    samples: nat,
    back: Seq<u8>,
)
    requires
        forall|i: int|
            0 <= i < others.len() ==> is_block(#[trigger] others[i]) && others[i].kind != 0
                && !others[i].last,
        is_block(stream),
        stream.kind == 0,
        front.len() == 10,
        rate < 0x10_0000,
        high < 16,
        low < 16,
        samples < 0x10_0000_0000,
        stream.body == stream_bytes(front, rate, high, low, samples, back),
    ensures
        flac_length(
            seq![102u8, 76, 97, 67] + blocks_bytes(others) + block_bytes(stream) + rest,
        ) == if rate == 0 || samples == 0 {
            None
        } else {
            Some(Ticks { count: samples as u64, per_second: rate as u32 })
        },
{
    let data = seq![102u8, 76, 97, 67] + blocks_bytes(others) + block_bytes(stream) + rest;
    assert(bytes::slice(data, 0, 4) =~= seq![102u8, 76, 97, 67]);
    let p1 = 4 + blocks_bytes(others).len();
    let p2 = p1 + block_bytes(stream).len();
    assert(data.subrange(4, p1 as int) =~= blocks_bytes(others));
    lemma_blocks_passed(data, 4, p1 as int, others);
    assert(data.subrange(p1 as int, p2 as int) =~= block_bytes(stream));
    lemma_block_read(data, p1 as int, stream);
    lemma_stream_read(front, rate, high, low, samples, back);
}

/// The description of a stream reads as it was written.
proof fn lemma_stream_read(
    front: Seq<u8>,
    rate: nat,
    high: nat,
    low: nat,
    samples: nat,
    back: Seq<u8>,
)
    requires
        front.len() == 10,
        rate < 0x10_0000,
        high < 16,
        low < 16,
        samples < 0x10_0000_0000,
    ensures
        stream_length(stream_bytes(front, rate, high, low, samples, back)) == if rate == 0
            || samples == 0 {
            None
        } else {
            Some(Ticks { count: samples as u64, per_second: rate as u32 })
        },
{
    let s = stream_bytes(front, rate, high, low, samples, back);
    bytes::lemma_byte_powers();
    bytes::law_numbers_are_read_back(16 * rate + high, 3);
    bytes::law_numbers_are_read_back(samples % 0x1_0000_0000, 4);
    assert(s.len() >= 18);
    assert(bytes::slice(s, 10, 3) =~= bytes::be_bytes(16 * rate + high, 3));
    assert(bytes::slice(s, 14, 4) =~= bytes::be_bytes(samples % 0x1_0000_0000, 4));
    let top = samples / 0x1_0000_0000;
    assert(top < 16);
    assert(s[13] == (16 * low + top) as u8);
    assert((16 * low + top) % 16 == top);
    assert((16 * rate + high) / 16 == rate);
    assert(top * 0x1_0000_0000 + samples % 0x1_0000_0000 == samples);
}

} // verus!
