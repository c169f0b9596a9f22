//! What the bytes of a df2 stream mean.
//!
//! All integers are unsigned, 16 bits wide and little-endian. A segment is a
//! sample count `n`, `n` samples, a time interval and a reserved word. A shot
//! record is a shot number, an offset, one outgoing segment and as many echo
//! segments as the offset leaves room for: the offset counts the 16-bit words
//! of the record that follow it.

use vstd::prelude::*;

verus! {

/// The 16-bit number whose little-endian encoding is `lo` followed by `hi`.
pub open spec fn le_word(lo: u8, hi: u8) -> u16 {
    (lo as int + 256 * (hi as int)) as u16
}

/// The 16-bit number stored at byte `at` of `s`.
pub open spec fn word_at(s: Seq<u8>, at: int) -> u16
    recommends
        0 <= at,
        at + 2 <= s.len(),
{
    le_word(s[at], s[at + 1])
}

/// The `n` consecutive 16-bit numbers stored from byte `at` of `s`.
pub open spec fn words_at(s: Seq<u8>, at: int, n: nat) -> Seq<u16>
    recommends
        0 <= at,
        at + 2 * n <= s.len(),
{
    Seq::new(n, |k: int| word_at(s, at + 2 * k))
}

/// A waveform segment as a mathematical value.
pub struct SegmentView {
    /// The samples, in stream order.
    pub data: Seq<u16>,
    /// The sampling period, in device clock cycles.
    pub time_interval: u16,
}

impl SegmentView {
    /// The number of bytes that the segment takes in a stream: the sample
    /// count, the samples, the time interval and the reserved word.
    pub open spec fn encoded_len(self) -> nat {
        2 + 2 * self.data.len() + 2 + 2
    }
}

/// The segment that starts at byte `at` of `s`, if `s` holds all of it.
pub open spec fn segment_at(s: Seq<u8>, at: int) -> Option<SegmentView>
    recommends
        0 <= at,
{
    if at + 2 <= s.len() && at + 2 + 2 * word_at(s, at) + 4 <= s.len() {
        let n = word_at(s, at) as nat;
        Some(
            SegmentView {
                data: words_at(s, at + 2, n),
                time_interval: word_at(s, at + 2 + 2 * n),
            },
        )
    } else {
        None
    }
}

/// The bytes that the segments of `segments` take in a stream, together.
pub open spec fn total_len(segments: Seq<SegmentView>) -> nat
    decreases segments.len(),
{
    if segments.len() == 0 {
        0
    } else {
        segments[0].encoded_len() + total_len(segments.drop_first())
    }
}

/// A shot as a mathematical value.
pub struct ShotView {
    /// The shot number, counted from one.
    pub number: u16,
    /// The samples of the outgoing pulse.
    pub outgoing: Seq<u16>,
    /// The echo segments, in stream order.
    pub segments: Seq<SegmentView>,
}

impl ShotView {
    /// The number of bytes that the segments of the shot take in a stream,
    /// the outgoing one and the echoes: the record without its header.
    pub open spec fn body_len(self) -> nat {
        (2 + 2 * self.outgoing.len() + 2 + 2) + total_len(self.segments)
    }
}

/// What a run of echo segments decodes to.
pub enum Echoes {
    /// The segments fill the bytes that were left to them, to the last.
    Complete(Seq<SegmentView>),
    /// The stream ends inside one of the segments.
    Truncated,
    /// One of the segments is longer than the bytes that were left.
    Overrun,
}

impl Echoes {
    /// The same outcome after the segments of `first`.
    pub open spec fn after(self, first: Seq<SegmentView>) -> Echoes {
        match self {
            Echoes::Complete(rest) => Echoes::Complete(first + rest),
            Echoes::Truncated => Echoes::Truncated,
            Echoes::Overrun => Echoes::Overrun,
        }
    }
}

/// The echo segments that start at byte `at` of `s` when `remaining` bytes of
/// the shot record are still to be accounted for. Segments are taken one after
/// the other until none of those bytes is left. A segment that the stream does
/// not hold in full is reported before its length is looked at.
pub open spec fn echoes_at(s: Seq<u8>, at: int, remaining: nat) -> Echoes
    decreases remaining,
{
    if remaining == 0 {
        Echoes::Complete(Seq::empty())
    } else {
        match segment_at(s, at) {
            None => Echoes::Truncated,
            Some(segment) => {
                if segment.encoded_len() > remaining {
                    Echoes::Overrun
                } else {
                    echoes_at(
                        s,
                        at + segment.encoded_len(),
                        (remaining - segment.encoded_len()) as nat,
                    ).after(seq![segment])
                }
            },
        }
    }
}

/// Why a stream does not decode or a seek does not arrive: an error without
/// the payload of the I/O failure.
pub enum Failure {
    /// The segments of the shot `shot_number` do not add up to its declared
    /// `offset`.
    InvalidOffset { shot_number: u16, offset: u16 },
    /// No shot of this number can be reached.
    InvalidShotNumber(u16),
    /// An I/O failure. From a decoder: the stream ends inside a field.
    Io,
}

/// What the bytes from some position of a stream decode to.
pub enum Decoded {
    /// No byte is left: the stream ends cleanly.
    End,
    /// A whole shot record, and the position of the byte after it.
    Shot { shot: ShotView, end: int },
    /// A record that is cut short or whose lengths do not add up.
    Failed(Failure),
}

/// The shot record that starts at byte `at` of `s`.
///
/// No byte at `at` is a clean end. Otherwise the header must be there in full,
/// then the outgoing segment, which may not be longer than the offset allows,
/// then echo segments that use up what is left of the offset exactly.
pub open spec fn shot_at(s: Seq<u8>, at: int) -> Decoded
    recommends
        0 <= at,
{
    if at >= s.len() {
        Decoded::End
    } else if at + 4 > s.len() {
        Decoded::Failed(Failure::Io)
    } else {
        let number = word_at(s, at);
        let offset = word_at(s, at + 2);
        let invalid = Decoded::Failed(Failure::InvalidOffset { shot_number: number, offset });
        match segment_at(s, at + 4) {
            None => Decoded::Failed(Failure::Io),
            Some(outgoing) => {
                if outgoing.encoded_len() > 2 * offset {
                    invalid
                } else {
                    match echoes_at(
                        s,
                        at + 4 + outgoing.encoded_len(),
                        (2 * offset - outgoing.encoded_len()) as nat,
                    ) {
                        Echoes::Truncated => Decoded::Failed(Failure::Io),
                        Echoes::Overrun => invalid,
                        Echoes::Complete(segments) => Decoded::Shot {
                            shot: ShotView { number, outgoing: outgoing.data, segments },
                            end: at + 4 + 2 * offset,
                        },
                    }
                }
            },
        }
    }
}

/// The byte at which the shot record with the one-based index `number` starts,
/// found by following the offsets from the first record. A record is followed
/// only where its header is there in full and the stream reaches as far as its
/// offset says. The record after the last starts at the end of the stream.
pub open spec fn shot_start(s: Seq<u8>, number: nat) -> Option<int>
    decreases number,
{
    if number == 0 {
        None
    } else if number == 1 {
        Some(0)
    } else {
        match shot_start(s, (number - 1) as nat) {
            None => None,
            Some(at) => {
                if at + 4 <= s.len() && at + 4 + 2 * word_at(s, at + 2) <= s.len() {
                    Some(at + 4 + 2 * word_at(s, at + 2))
                } else {
                    None
                }
            },
        }
    }
}

/// What a reader yields from byte `at` of `s` on, one item for each read: the
/// shots in stream order, and after them the failure that ends the sequence,
/// if one does. Nothing follows a failure.
pub open spec fn shots_from(s: Seq<u8>, at: int) -> Seq<Result<ShotView, Failure>>
    decreases s.len() - at,
{
    match shot_at(s, at) {
        Decoded::End => Seq::empty(),
        Decoded::Failed(failure) => seq![Err(failure)],
        Decoded::Shot { shot, end } => {
            if at < end <= s.len() {
                seq![Ok(shot)] + shots_from(s, end)
            } else {
                seq![Ok(shot)]
            }
        },
    }
}

/// The lengths of a run of segments add up over concatenation.
pub proof fn lemma_total_len_add(first: Seq<SegmentView>, rest: Seq<SegmentView>)
    ensures
        total_len(first + rest) == total_len(first) + total_len(rest),
    decreases first.len(),
{
    if first.len() > 0 {
        assert((first + rest).drop_first() =~= first.drop_first() + rest);
        lemma_total_len_add(first.drop_first(), rest);
    }
}

/// Echo segments that decode use up the bytes left to them exactly, and lie
/// inside the stream.
pub proof fn lemma_echoes_exact(s: Seq<u8>, at: int, remaining: nat)
    requires
        0 <= at <= s.len(),
    ensures
        echoes_at(s, at, remaining) matches Echoes::Complete(segments) ==> total_len(segments)
            == remaining && at + remaining <= s.len(),
    decreases remaining,
{
    if remaining > 0 {
        if let Some(segment) = segment_at(s, at) {
            if segment.encoded_len() <= remaining {
                let next = at + segment.encoded_len();
                let left = (remaining - segment.encoded_len()) as nat;
                lemma_echoes_exact(s, next, left);
                if let Echoes::Complete(rest) = echoes_at(s, next, left) {
                    let one = seq![segment];
                    lemma_total_len_add(one, rest);
                    assert(total_len(one) == segment.encoded_len() + total_len(one.drop_first()));
                }
            }
        }
    }
}

/// In every shot record that decodes, the encoded lengths of the outgoing
/// segment and of the echo segments add up to twice the declared offset, and
/// the record ends where the offset says: inside the stream, with no byte to
/// spare.
pub proof fn lemma_shot_accounts_for_offset(s: Seq<u8>, at: int)
    requires
        0 <= at,
    ensures
        shot_at(s, at) is Shot ==> shot_at(s, at)->shot.body_len() == 2 * word_at(s, at + 2),
        shot_at(s, at) is Shot ==> shot_at(s, at)->end == at + 4 + shot_at(s, at)->shot.body_len(),
        shot_at(s, at) is Shot ==> at + 10 <= shot_at(s, at)->end <= s.len(),
{
    if at + 4 <= s.len() {
        if let Some(outgoing) = segment_at(s, at + 4) {
            let offset = word_at(s, at + 2);
            if outgoing.encoded_len() <= 2 * offset {
                lemma_echoes_exact(
                    s,
                    at + 4 + outgoing.encoded_len(),
                    (2 * offset - outgoing.encoded_len()) as nat,
                );
            }
        }
    }
}

/// Where a shot record cannot be reached, none of the later ones can.
pub proof fn lemma_shot_start_none_beyond(s: Seq<u8>, number: nat, later: nat)
    requires
        1 <= number <= later,
        shot_start(s, number) is None,
    ensures
        shot_start(s, later) is None,
    decreases later,
{
    if number < later {
        lemma_shot_start_none_beyond(s, number, (later - 1) as nat);
    }
}

} // verus!
