//! How shots and segments are laid out as bytes, and the proof that decoding
//! gives back what was laid out.
//!
//! Nothing here runs: the encoders are mathematical functions, written down
//! so that the decoder can be held against them.

use vstd::prelude::*;

use crate::layout::{
    echoes_at, le_word, segment_at, shot_at, total_len, word_at, words_at, Decoded, Echoes,
    SegmentView, ShotView,
};

verus! {

/// The two bytes of `word`, low byte first.
pub open spec fn word_bytes(word: u16) -> Seq<u8> {
    seq![(word % 256) as u8, (word / 256) as u8]
}

/// The bytes of `words`, each word low byte first, one word after the other.
pub open spec fn words_bytes(words: Seq<u16>) -> Seq<u8> {
    Seq::new(
        2 * words.len(),
        |i: int|
            if i % 2 == 0 {
                (words[i / 2] % 256) as u8
            } else {
                (words[i / 2] / 256) as u8
            },
    )
}

/// One segment as it is stored: its values, and the reserved word that
/// decoding drops.
pub struct SegmentRecord {
    /// The values that decoding gives back.
    pub segment: SegmentView,
    /// The trailing word, which carries no meaning.
    pub reserved: u16,
}

impl SegmentRecord {
    /// A segment can be stored when its sample count fits in 16 bits.
    pub open spec fn encodable(self) -> bool {
        self.segment.data.len() <= u16::MAX
    }

    /// The stored form: sample count, samples, time interval, reserved word.
    pub open spec fn bytes(self) -> Seq<u8> {
        word_bytes(self.segment.data.len() as u16) + words_bytes(self.segment.data) + word_bytes(
            self.segment.time_interval,
        ) + word_bytes(self.reserved)
    }
}

/// `s` holds the bytes of `part` from its byte `at` on.
pub open spec fn holds_at(s: Seq<u8>, at: int, part: Seq<u8>) -> bool {
    &&& 0 <= at
    &&& at + part.len() <= s.len()
    &&& forall|i: int| 0 <= i < part.len() ==> s[at + i] == #[trigger] part[i]
}

/// A word is read back from its two bytes.
pub proof fn lemma_word_round_trip(word: u16)
    ensures
        le_word(word_bytes(word)[0], word_bytes(word)[1]) == word,
{
}

/// Decoding a stored segment gives back its values, whatever the reserved
/// word is and whatever surrounds the segment in the stream.
pub proof fn lemma_segment_round_trip(record: SegmentRecord, s: Seq<u8>, at: int)
    requires
        record.encodable(),
        holds_at(s, at, record.bytes()),
    ensures
        record.bytes().len() == record.segment.encoded_len(),
        segment_at(s, at) == Some(record.segment),
{
    let data = record.segment.data;
    let n = data.len() as int;
    let bytes = record.bytes();
    let count = word_bytes(n as u16);
    let samples = words_bytes(data);
    let interval = word_bytes(record.segment.time_interval);
    assert(bytes[0] == count[0] && bytes[1] == count[1]);
    assert(word_at(s, at) == n) by {
        lemma_word_round_trip(n as u16);
    }
    assert(word_at(s, at + 2 + 2 * n) == record.segment.time_interval) by {
        assert(bytes[2 + 2 * n] == interval[0]);
        assert(bytes[2 + 2 * n + 1] == interval[1]);
        lemma_word_round_trip(record.segment.time_interval);
    }
    assert forall|k: int| 0 <= k < n implies #[trigger] words_at(s, at + 2, data.len())[k]
        == data[k] by {
        assert(bytes[2 + 2 * k] == samples[2 * k]);
        assert(bytes[2 + 2 * k + 1] == samples[2 * k + 1]);
    }
    assert(words_at(s, at + 2, data.len()) =~= data);
}

/// The values of a run of stored segments.
pub open spec fn segments_of(records: Seq<SegmentRecord>) -> Seq<SegmentView> {
    records.map_values(|record: SegmentRecord| record.segment)
}

/// The stored form of a run of segments: one after the other, nothing between.
pub open spec fn segments_bytes(records: Seq<SegmentRecord>) -> Seq<u8>
    decreases records.len(),
{
    if records.len() == 0 {
        Seq::empty()
    } else {
        records[0].bytes() + segments_bytes(records.drop_first())
    }
}

/// One shot as it is stored: its number, the outgoing segment with the time
/// interval that decoding drops, and the echo segments.
pub struct ShotRecord {
    /// The shot number.
    pub number: u16,
    /// The outgoing pulse, as a stored segment.
    pub outgoing: SegmentRecord,
    /// The echo segments, in stream order.
    pub echoes: Seq<SegmentRecord>,
}

impl ShotRecord {
    /// The shot that the record stores.
    pub open spec fn shot(self) -> ShotView {
        ShotView {
            number: self.number,
            outgoing: self.outgoing.segment.data,
            segments: segments_of(self.echoes),
        }
    }

    /// A shot can be stored when each of its segments can, and the words
    /// after its header can be counted in 16 bits.
    pub open spec fn encodable(self) -> bool {
        &&& self.outgoing.encodable()
        &&& forall|i: int| 0 <= i < self.echoes.len() ==> (#[trigger] self.echoes[i]).encodable()
        &&& self.shot().body_len() <= 2 * u16::MAX
    }

    /// The offset field: the number of 16-bit words after the header.
    pub open spec fn offset(self) -> u16 {
        (self.shot().body_len() / 2) as u16
    }

    /// The stored form: number, offset, outgoing segment, echo segments.
    pub open spec fn bytes(self) -> Seq<u8> {
        word_bytes(self.number) + word_bytes(self.offset()) + self.outgoing.bytes()
            + segments_bytes(self.echoes)
    }
}

/// What holds a concatenation holds both of its parts, the second where the
/// first ends.
pub proof fn lemma_holds_at_split(s: Seq<u8>, at: int, first: Seq<u8>, second: Seq<u8>)
    requires
        holds_at(s, at, first + second),
    ensures
        holds_at(s, at, first),
        holds_at(s, at + first.len(), second),
{
    let whole = first + second;
    assert forall|i: int| 0 <= i < first.len() implies s[at + i] == #[trigger] first[i] by {
        assert(whole[i] == first[i]);
    }
    assert forall|i: int| 0 <= i < second.len() implies s[at + first.len() + i]
        == #[trigger] second[i] by {
        assert(whole[first.len() + i] == second[i]);
    }
}

/// A concatenation holds its middle part where the first part ends.
pub proof fn lemma_holds_at_middle(before: Seq<u8>, part: Seq<u8>, after: Seq<u8>)
    ensures
        holds_at(before + part + after, before.len() as int, part),
{
}

/// Every run of segments has an even length in bytes.
pub proof fn lemma_total_len_even(segments: Seq<SegmentView>)
    ensures
        total_len(segments) % 2 == 0,
    decreases segments.len(),
{
    if segments.len() > 0 {
        lemma_total_len_even(segments.drop_first());
    }
}

/// Decoding a stored run of echo segments, with exactly their bytes left to
/// account for, gives back their values.
pub proof fn lemma_echoes_round_trip(records: Seq<SegmentRecord>, s: Seq<u8>, at: int)
    requires
        forall|i: int| 0 <= i < records.len() ==> (#[trigger] records[i]).encodable(),
        holds_at(s, at, segments_bytes(records)),
    ensures
        segments_bytes(records).len() == total_len(segments_of(records)),
        echoes_at(s, at, segments_bytes(records).len()) == Echoes::Complete(segments_of(records)),
    decreases records.len(),
{
    if records.len() == 0 {
        assert(segments_of(records) =~= Seq::<SegmentView>::empty());
    } else {
        let head = records[0];
        let tail = records.drop_first();
        lemma_holds_at_split(s, at, head.bytes(), segments_bytes(tail));
        lemma_segment_round_trip(head, s, at);
        lemma_echoes_round_trip(tail, s, at + head.bytes().len());
        assert(segments_of(records).drop_first() =~= segments_of(tail));
        assert(seq![head.segment] + segments_of(tail) =~= segments_of(records));
    }
}

/// Decoding a stored shot gives back the shot, and ends where its bytes end,
/// whatever surrounds the record in the stream.
pub proof fn lemma_shot_round_trip(record: ShotRecord, s: Seq<u8>, at: int)
    requires
        record.encodable(),
        holds_at(s, at, record.bytes()),
    ensures
        record.bytes().len() == 4 + record.shot().body_len(),
        shot_at(s, at) == (Decoded::Shot {
            shot: record.shot(),
            end: at + record.bytes().len(),
        }),
{
    let number = word_bytes(record.number);
    let offset = word_bytes(record.offset());
    let outgoing = record.outgoing.bytes();
    let echoes = segments_bytes(record.echoes);
    lemma_holds_at_split(s, at, number + offset + outgoing, echoes);
    lemma_holds_at_split(s, at, number + offset, outgoing);
    lemma_holds_at_split(s, at, number, offset);
    lemma_segment_round_trip(record.outgoing, s, at + 4);
    lemma_echoes_round_trip(record.echoes, s, at + 4 + outgoing.len());
    lemma_total_len_even(record.shot().segments);
    assert(word_at(s, at) == record.number) by {
        lemma_word_round_trip(record.number);
    }
    assert(word_at(s, at + 2) == record.offset()) by {
        lemma_word_round_trip(record.offset());
    }
}

} // verus!
