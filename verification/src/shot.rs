//! One laser shot.

use vstd::prelude::*;

use crate::layout::{SegmentView, ShotView};
use crate::segment::Segment;

verus! {

/// A laser shot.
#[derive(Debug, PartialEq)]
pub struct Shot {
    /// The shot number (one-indexed).
    pub number: u16,
    /// The outgoing laser pulse.
    pub outgoing: Vec<u16>,
    /// The waveform segments.
    pub segments: Vec<Segment>,
}

/// The mathematical values of a run of segments.
pub open spec fn segment_views(segments: Seq<Segment>) -> Seq<SegmentView> {
    segments.map_values(|segment: Segment| segment@)
}

impl View for Shot {
    type V = ShotView;

    open spec fn view(&self) -> ShotView {
        ShotView {
            number: self.number,
            outgoing: self.outgoing@,
            segments: segment_views(self.segments@),
        }
    }
}

impl Shot {
    /// A shot can be stored when the sample count of each of its segments,
    /// the outgoing one and the echoes, fits the 16-bit field that leads it,
    /// and the 16-bit words of all the segments together can be counted in
    /// the offset field. Every decoded shot is of that kind.
    pub open spec fn wf(&self) -> bool {
        &&& self.outgoing@.len() <= u16::MAX
        &&& forall|i: int| 0 <= i < self.segments@.len() ==> (#[trigger] self.segments@[i]).wf()
        &&& self@.body_len() <= 2 * u16::MAX
    }
}

} // verus!
