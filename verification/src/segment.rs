//! One waveform segment and its decoder.

use vstd::prelude::*;

use crate::error::Error;
use crate::layout::{segment_at, word_at, words_at, Failure, SegmentView};
use crate::source::ByteSource;

verus! {

/// A waveform segment.
#[derive(Debug, PartialEq)]
pub struct Segment {
    /// The waveform samples.
    pub data: Vec<u16>,
    /// The time interval, in cycles.
    pub time_interval: u16,
}

impl View for Segment {
    type V = SegmentView;

    open spec fn view(&self) -> SegmentView {
        SegmentView { data: self.data@, time_interval: self.time_interval }
    }
}

impl Segment {
    /// A segment can be stored when its sample count fits the 16-bit field
    /// that leads it. Every decoded segment is of that kind.
    pub open spec fn wf(&self) -> bool {
        self.data@.len() <= u16::MAX
    }

    /// Decodes the segment under the cursor of `read` and steps over it.
    ///
    /// The four fields are read in order: the sample count, the samples, the
    /// time interval, and the reserved word, whose value is dropped. When the
    /// source ends before the segment does, the read fails and the cursor is
    /// left at the end of the source.
    pub fn from_read(read: &mut ByteSource) -> (r: Result<Segment, Error>)
        ensures
            final(read).bytes() == old(read).bytes(),
            segment_at(old(read).bytes(), old(read).position() as int) matches Some(segment) ==> (
                r matches Ok(decoded) && decoded.wf() && decoded@ == segment
                    && final(read).position() == old(read).position() + segment.encoded_len()
            ),
            segment_at(old(read).bytes(), old(read).position() as int) is None ==> (
                r matches Err(err) && err@ == Failure::Io
                    && final(read).position() == old(read).bytes().len()
            ),
    {
        let ghost s = read.bytes();
        let ghost at = read.position() as int;
        let nsamples: u16 = match read.read_u16() {
            Ok(n) => n,
            Err(err) => {
                return Err(Error::from(err));
            },
        };
        let mut data: Vec<u16> = Vec::new();
        let mut i: u16 = 0;
        while i < nsamples
            invariant
                s == old(read).bytes(),
                at == old(read).position(),
                read.bytes() == s,
                at + 2 <= s.len(),
                nsamples == word_at(s, at),
                i <= nsamples,
                read.position() == at + 2 + 2 * i,
                data@ == words_at(s, at + 2, i as nat),
            decreases nsamples - i,
        {
            match read.read_u16() {
                Ok(sample) => {
                    data.push(sample);
                },
                Err(err) => {
                    return Err(Error::from(err));
                },
            }
            i += 1;
        }
        let time_interval: u16 = match read.read_u16() {
            Ok(t) => t,
            Err(err) => {
                return Err(Error::from(err));
            },
        };
        match read.read_u16() {
            Ok(_) => {},
            Err(err) => {
                return Err(Error::from(err));
            },
        }
        Ok(Segment { data, time_interval })
    }

    /// Returns the length of this segment in bytes, as it is stored.
    pub fn len(&self) -> (n: u32)
        requires
            self.wf(),
        ensures
            n == self@.encoded_len(),
            n % 2 == 0,
            n >= 6,
    {
        let samples: u32 = self.data.len() as u32;
        samples * 2 + 6
    }

    /// Returns true if this segment has no data.
    pub fn is_empty(&self) -> (b: bool)
        ensures
            b <==> self@.data.len() == 0,
    {
        self.data.is_empty()
    }
}

} // verus!
