//! The reader of df2 streams: shots in sequence, and seeking by shot number.

use vstd::prelude::*;

use crate::error::Error;
use crate::layout::{
    echoes_at, lemma_shot_accounts_for_offset, lemma_shot_start_none_beyond, segment_at, shot_at,
    shot_start, shots_from, word_at, Decoded, Echoes, Failure, SegmentView, ShotView,
};
use crate::segment::Segment;
use crate::shot::{segment_views, Shot};
use crate::source::ByteSource;

verus! {

/// A reader as a mathematical value: the bytes of its stream and its cursor.
pub struct ReaderView {
    /// The whole stream, from its first byte.
    pub bytes: Seq<u8>,
    /// How many bytes of the stream lie before the next read.
    pub position: nat,
}

impl ReaderView {
    /// What the next read finds under the cursor.
    pub open spec fn decoded(self) -> Decoded {
        shot_at(self.bytes, self.position as int)
    }

    /// The reader after its next read. A shot moves the cursor to the byte
    /// after the record. A clean end leaves it where it is. A failure uses the
    /// stream up: the cursor goes to its end, and nothing more is read.
    pub open spec fn after_read(self) -> ReaderView {
        match self.decoded() {
            Decoded::End => self,
            Decoded::Shot { end, .. } => ReaderView { bytes: self.bytes, position: end as nat },
            Decoded::Failed(_) => ReaderView { bytes: self.bytes, position: self.bytes.len() },
        }
    }

    /// The reader after a seek to the shot `number`: at the start of that
    /// record where it can be reached, and where it was before where not.
    pub open spec fn after_seek(self, number: u16) -> ReaderView {
        match shot_start(self.bytes, number as nat) {
            Some(at) => ReaderView { bytes: self.bytes, position: at as nat },
            None => self,
        }
    }
}

/// The mathematical values of the items that a reader has yielded.
pub open spec fn item_views(items: Seq<Result<Shot, Error>>) -> Seq<Result<ShotView, Failure>> {
    items.map_values(
        |item: Result<Shot, Error>|
            match item {
                Ok(shot) => Ok(shot@),
                Err(err) => Err(err@),
            },
    )
}

/// Where a seek lands depends on the stream and on the target alone: not on
/// where the reader was, nor on what it has read. So a seek to a shot that
/// can be reached, made twice in a row, or made again after reading, or made
/// from anywhere else in the same stream, leaves the reader in one and the
/// same state, and the read that follows decodes one and the same shot.
pub proof fn lemma_seek_is_repeatable(reader: ReaderView, elsewhere: ReaderView, number: u16)
    requires
        shot_start(reader.bytes, number as nat) is Some,
        elsewhere.bytes == reader.bytes,
    ensures
        reader.after_seek(number).after_seek(number) == reader.after_seek(number),
        reader.after_seek(number).after_read().after_seek(number) == reader.after_seek(number),
        elsewhere.after_seek(number) == reader.after_seek(number),
        elsewhere.after_seek(number).decoded() == reader.after_seek(number).decoded(),
{
}

/// The sequence of shots ends for good: once a read has failed, or has found
/// the end of the stream, every later read finds the end of the stream.
pub proof fn lemma_sequence_ends(reader: ReaderView)
    requires
        !(reader.decoded() is Shot),
    ensures
        reader.after_read().decoded() is End,
        reader.after_read().after_read() == reader.after_read(),
{
}

/// Reads df2 waveform data.
#[derive(Debug)]
pub struct Reader {
    reader: ByteSource,
}

impl View for Reader {
    type V = ReaderView;

    closed spec fn view(&self) -> ReaderView {
        ReaderView { bytes: self.reader.bytes(), position: self.reader.position() }
    }
}

/// Putting `segment` behind `first` before the rest of a run is putting
/// `first` before the run that starts with `segment`.
proof fn lemma_after_push(rest: Echoes, first: Seq<SegmentView>, segment: SegmentView)
    ensures
        rest.after(seq![segment]).after(first) == rest.after(first.push(segment)),
{
    match rest {
        Echoes::Complete(segments) => {
            assert(first + (seq![segment] + segments) =~= first.push(segment) + segments);
        },
        _ => {},
    }
}

impl Reader {
    /// A reader of the stream that `source` holds, from its cursor on.
    pub fn new(source: ByteSource) -> (reader: Reader)
        ensures
            reader@ == (ReaderView { bytes: source.bytes(), position: source.position() }),
    {
        Reader { reader: source }
    }

    /// Reads one shot.
    ///
    /// Returns `None` when no byte is left. Otherwise the shot number and the
    /// offset are read, then the outgoing segment, then echo segments until
    /// the bytes that the offset declares are used up. A field that the
    /// stream does not hold in full is an I/O error. A segment that is longer
    /// than what the offset still allows, the outgoing one included, is an
    /// invalid offset. After either, the stream counts as used up.
    pub fn read_one(&mut self) -> (r: Result<Option<Shot>, Error>)
        ensures
            final(self)@ == old(self)@.after_read(),
            old(self)@.decoded() is End ==> r is Ok && r->Ok_0 is None,
            old(self)@.decoded() is Shot ==> (
                r matches Ok(Some(decoded)) && decoded.wf()
                    && decoded@ == old(self)@.decoded()->shot
            ),
            old(self)@.decoded() is Failed ==> (
                r matches Err(err) && err@ == old(self)@.decoded()->Failed_0
            ),
            r matches Ok(Some(decoded)) ==> (
                decoded@.body_len() == 2 * word_at(old(self)@.bytes, old(self)@.position as int + 2)
                    && final(self)@.position == old(self)@.position + 4 + decoded@.body_len()
            ),
    {
        proof {
            lemma_shot_accounts_for_offset(old(self)@.bytes, old(self)@.position as int);
        }
        let ghost s = self@.bytes;
        let ghost at = self@.position as int;
        let end: usize = self.reader.len();
        if self.reader.tell() >= end {
            return Ok(None);
        }
        let number: u16 = match self.reader.read_u16() {
            Ok(n) => n,
            Err(err) => {
                return Err(Error::from(err));
            },
        };
        let offset: u16 = match self.reader.read_u16() {
            Ok(n) => n,
            Err(err) => {
                return Err(Error::from(err));
            },
        };
        let mut bytes_remaining: u32 = offset as u32 * 2;
        let outgoing = match Segment::from_read(&mut self.reader) {
            Ok(segment) => segment,
            Err(err) => {
                return Err(err);
            },
        };
        if outgoing.len() > bytes_remaining {
            self.reader.seek_to(end);
            return Err(Error::InvalidOffset { shot_number: number, offset });
        }
        bytes_remaining -= outgoing.len();
        let ghost first = at + 4 + outgoing@.encoded_len();
        let ghost budget = bytes_remaining as nat;
        let mut segments: Vec<Segment> = Vec::new();
        while bytes_remaining > 0
            invariant
                s == old(self)@.bytes,
                at == old(self)@.position,
                self@.bytes == s,
                end == s.len(),
                0 <= at,
                at + 4 <= s.len(),
                number == word_at(s, at),
                offset == word_at(s, at + 2),
                segment_at(s, at + 4) == Some(outgoing@),
                first == at + 4 + outgoing@.encoded_len(),
                budget == 2 * offset - outgoing@.encoded_len(),
                self@.position == at + 4 + 2 * offset - bytes_remaining,
                echoes_at(s, first, budget) == echoes_at(
                    s,
                    self@.position as int,
                    bytes_remaining as nat,
                ).after(segment_views(segments@)),
                outgoing.wf(),
                forall|i: int| 0 <= i < segments@.len() ==> (#[trigger] segments@[i]).wf(),
            decreases bytes_remaining,
        {
            let ghost before = segment_views(segments@);
            let ghost here = self@.position as int;
            let segment = match Segment::from_read(&mut self.reader) {
                Ok(segment) => segment,
                Err(err) => {
                    return Err(err);
                },
            };
            if segment.len() > bytes_remaining {
                self.reader.seek_to(end);
                return Err(Error::InvalidOffset { shot_number: number, offset });
            }
            proof {
                lemma_after_push(
                    echoes_at(
                        s,
                        here + segment@.encoded_len(),
                        (bytes_remaining - segment@.encoded_len()) as nat,
                    ),
                    before,
                    segment@,
                );
                assert(segment_views(segments@.push(segment)) =~= before.push(segment@));
            }
            bytes_remaining -= segment.len();
            segments.push(segment);
        }
        proof {
            assert(segment_views(segments@) + Seq::<SegmentView>::empty() =~= segment_views(
                segments@,
            ));
        }
        Ok(Some(Shot { number, outgoing: outgoing.data, segments }))
    }

    /// The cursor: how many bytes of the stream lie before the next read.
    pub fn position(&self) -> (p: usize)
        ensures
            p == self@.position,
            p <= self@.bytes.len(),
    {
        self.reader.tell()
    }

    /// Seeks to the shot with the given number.
    ///
    /// The stream has no index, so the offsets are followed from the first
    /// record on, one record for each number below the target. The walk stops
    /// with an error where a record's offset field is missing or cut, or
    /// where the stream is shorter than the record claims to be. Seeking to
    /// the shot after the last is not an error: it puts the cursor at the end
    /// of the stream. Shot 0 does not exist. A failed seek moves nothing.
    pub fn seek(&mut self, number: u16) -> (r: Result<(), Error>)
        ensures
            final(self)@ == old(self)@.after_seek(number),
            shot_start(old(self)@.bytes, number as nat) is Some ==> r is Ok,
            shot_start(old(self)@.bytes, number as nat) is None ==> (
                r matches Err(err) && err@ == Failure::InvalidShotNumber(number)
            ),
    {
        if number == 0 {
            return Err(Error::InvalidShotNumber(number));
        }
        let ghost s = self@.bytes;
        let origin: usize = self.reader.tell();
        let end: usize = self.reader.len();
        let mut position: usize = 0;
        let mut current: u16 = 1;
        while current < number
            invariant
                s == old(self)@.bytes,
                origin == old(self)@.position,
                self@.bytes == s,
                end == s.len(),
                origin <= end,
                position <= end,
                1 <= current <= number,
                shot_start(s, current as nat) == Some(position as int),
            decreases number - current,
        {
            if end - position < 2 {
                proof {
                    lemma_shot_start_none_beyond(s, (current + 1) as nat, number as nat);
                }
                self.reader.seek_to(origin);
                return Err(Error::InvalidShotNumber(number));
            }
            self.reader.seek_to(position + 2);
            let offset: u16 = match self.reader.read_u16() {
                Ok(n) => n,
                Err(_) => {
                    proof {
                        lemma_shot_start_none_beyond(s, (current + 1) as nat, number as nat);
                    }
                    self.reader.seek_to(origin);
                    return Err(Error::InvalidShotNumber(number));
                },
            };
            let stride: usize = offset as usize * 2;
            if stride > end - position - 4 {
                proof {
                    lemma_shot_start_none_beyond(s, (current + 1) as nat, number as nat);
                }
                self.reader.seek_to(origin);
                return Err(Error::InvalidShotNumber(number));
            }
            position = position + 4 + stride;
            current += 1;
        }
        self.reader.seek_to(position);
        Ok(())
    }

    /// Reads the next item of the sequence of shots: a shot, the error that
    /// ends the sequence, or `None` when the sequence is over. After an error
    /// the sequence is over.
    pub fn next(&mut self) -> (item: Option<Result<Shot, Error>>)
        ensures
            final(self)@ == old(self)@.after_read(),
            old(self)@.decoded() is End ==> item is None,
            old(self)@.decoded() is Shot ==> (
                item matches Some(Ok(decoded)) && decoded.wf()
                    && decoded@ == old(self)@.decoded()->shot
            ),
            old(self)@.decoded() is Failed ==> (
                item matches Some(Err(err)) && err@ == old(self)@.decoded()->Failed_0
            ),
    {
        match self.read_one() {
            Ok(option) => match option {
                Some(shot) => Some(Ok(shot)),
                None => None,
            },
            Err(err) => Some(Err(err)),
        }
    }

    /// Reads the rest of the sequence: every shot from the cursor on, and
    /// last the error that cut the sequence short, if one did.
    pub fn read_all(&mut self) -> (items: Vec<Result<Shot, Error>>)
        ensures
            final(self)@.bytes == old(self)@.bytes,
            final(self)@.position == old(self)@.bytes.len(),
            item_views(items@) == shots_from(old(self)@.bytes, old(self)@.position as int),
            forall|i: int|
                0 <= i < items@.len() ==> ((#[trigger] items@[i]) matches Ok(shot) ==> shot.wf()),
    {
        let ghost s = self@.bytes;
        let ghost start = self@.position as int;
        let mut items: Vec<Result<Shot, Error>> = Vec::new();
        let mut done = false;
        proof {
            use_type_invariant(&self.reader);
        }
        while !done
            invariant
                s == old(self)@.bytes,
                start == old(self)@.position,
                self@.bytes == s,
                self@.position <= s.len(),
                done ==> item_views(items@) == shots_from(s, start),
                done ==> self@.position == s.len(),
                !done ==> shots_from(s, start) == item_views(items@) + shots_from(
                    s,
                    self@.position as int,
                ),
                forall|i: int|
                    0 <= i < items@.len() ==> ((#[trigger] items@[i]) matches Ok(shot)
                        ==> shot.wf()),
            decreases s.len() - self@.position + (if done { 0int } else { 1int }),
        {
            let ghost here = self@.position as int;
            let ghost before = item_views(items@);
            proof {
                lemma_shot_accounts_for_offset(s, here);
            }
            match self.next() {
                None => {
                    done = true;
                },
                Some(item) => {
                    let ghost view = item_views(seq![item])[0];
                    if item.is_err() {
                        done = true;
                    }
                    items.push(item);
                    proof {
                        if !done {
                            assert(before + (seq![view] + shots_from(s, self@.position as int))
                                =~= before.push(view) + shots_from(s, self@.position as int));
                        }
                    }
                },
            }
        }
        items
    }
}

} // verus!
