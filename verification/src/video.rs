//! What the video in a file is: its codec and the size of its picture.

use crate::number;
use crate::seqs;
use vstd::prelude::*;

verus! {

/// A video codec.
#[derive(Clone, Copy, Debug, PartialEq, Eq, Structural)]
pub enum VideoCodec {
    H264,
    Hevc,
    Vp9,
    Av1,
    /// One that is none of these.
    Other,
}

/// A video track: its codec, and how wide and high its picture is; 0 where that is
/// not known.
#[derive(Clone, Copy, Debug, PartialEq, Eq, Structural)]
pub struct VideoTrack {
    pub codec: VideoCodec,
    pub width: u64,
    pub height: u64,
}

/// The size of a track's picture as `WxH`, where both sides are known.
pub open spec fn resolution_of(track: VideoTrack) -> Option<Seq<char>> {
    if track.width > 0 && track.height > 0 {
        Some(number::decimal(track.width as nat) + "x"@ + number::decimal(track.height as nat))
    } else {
        None
    }
}

/// Writes the size of a track's picture.
pub fn resolution_text(track: &VideoTrack) -> (r: Option<String>)
    ensures
        match r {
            Some(s) => resolution_of(*track) == Some(s@),
            None => resolution_of(*track) is None,
        },
{
    if track.width == 0 || track.height == 0 {
        return None;
    }
    let mut r = number::decimal_text(track.width as u128);
    r.append("x");
    number::push_decimal(&mut r, track.height as u128);
    Some(r)
}

/// The size of a picture is its width and its height, in figures that can be read
/// back, with an `x` between them; there is none where either is not known.
pub proof fn law_sizes_of_pictures_can_be_read(track: VideoTrack, size: Seq<char>)
    ensures
        resolution_of(track) == Some(size) ==> {
            let sides = seqs::split(size, 'x');
            sides.len() == 2 && number::unsigned(sides[0], u64::MAX as nat) == Some(
                track.width as nat,
            ) && number::unsigned(sides[1], u64::MAX as nat) == Some(track.height as nat)
        },
        resolution_of(track) is None <==> track.width == 0 || track.height == 0,
{
    if resolution_of(track) == Some(size) {
        let w = number::decimal(track.width as nat);
        let h = number::decimal(track.height as nat);
        number::lemma_decimal_digits(track.width as nat);
        number::lemma_decimal_digits(track.height as nat);
        number::law_numeral_round_trip(track.width as nat, u64::MAX as nat);
        number::law_numeral_round_trip(track.height as nat, u64::MAX as nat);
        let sides = seq![w, h];
        assert forall|i: int| 0 <= i < 2 implies !(#[trigger] sides[i]).contains('x') by {
            if sides[i].contains('x') {
                let k = choose|k: int| 0 <= k < sides[i].len() && sides[i][k] == 'x';
                assert(number::is_digit(sides[i][k]));
            }
        }
        seqs::lemma_split_join(sides, 'x');
        seqs::lemma_join_front(sides, seq!['x']);
        seqs::lemma_join_front(sides.drop_first(), seq!['x']);
        reveal_strlit("x");
        assert(seqs::join(sides, seq!['x']) =~= size);
    }
}

} // verus!
