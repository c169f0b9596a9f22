//! An in-memory byte source with a cursor.

use byteorder::{LittleEndian, ReadBytesExt};
use vstd::prelude::*;
use vstd::slice::slice_subrange;

use crate::layout::{le_word, word_at};

verus! {

/// Calls `byteorder::ReadBytesExt::read_u16::<LittleEndian>` on the slice
/// `bytes` as a reader. That method fills a two-byte buffer with `read_exact`
/// and decodes it as a little-endian integer; on a slice, `read_exact` copies
/// from the front and fails when the slice is too short. So the call yields
/// the number stored in the first two bytes when there are two, and an error
/// otherwise.
#[verifier::external_body]
fn read_u16_le(bytes: &[u8]) -> (word: Result<u16, std::io::Error>)
    ensures
        bytes@.len() >= 2 ==> word is Ok && word->Ok_0 == le_word(bytes@[0], bytes@[1]),
        bytes@.len() < 2 ==> word is Err,
{
    let mut rest = bytes;
    rest.read_u16::<LittleEndian>()
}

/// A sequence of bytes held in memory, read through a cursor that only an
/// explicit seek moves backwards. The cursor never leaves the bytes: it lies
/// between 0 and their number.
#[derive(Debug)]
pub struct ByteSource {
    bytes: Vec<u8>,
    position: usize,
}

impl ByteSource {
    /// The bytes of the source, from its first.
    pub closed spec fn bytes(&self) -> Seq<u8> {
        self.bytes@
    }

    /// The cursor: how many bytes lie before the next one to be read.
    pub closed spec fn position(&self) -> nat {
        self.position as nat
    }

    /// The cursor lies inside the bytes or at their end.
    #[verifier::type_invariant]
    pub open spec fn bounded(&self) -> bool {
        self.position() <= self.bytes().len()
    }

    /// A source over `bytes`, with the cursor on the first of them.
    pub fn new(bytes: Vec<u8>) -> (source: ByteSource)
        ensures
            source.bytes() == bytes@,
            source.position() == 0,
    {
        ByteSource { bytes, position: 0 }
    }

    /// The number of bytes in the source.
    pub fn len(&self) -> (n: usize)
        ensures
            n == self.bytes().len(),
    {
        self.bytes.len()
    }

    /// The cursor.
    pub fn tell(&self) -> (p: usize)
        ensures
            p == self.position(),
            p <= self.bytes().len(),
    {
        proof {
            use_type_invariant(self);
        }
        self.position
    }

    /// Reads the 16-bit little-endian number under the cursor and steps over
    /// it. Where fewer than two bytes are left the read fails, and the cursor
    /// moves to the end of the source.
    pub fn read_u16(&mut self) -> (r: Result<u16, std::io::Error>)
        ensures
            final(self).bytes() == old(self).bytes(),
            old(self).position() + 2 <= old(self).bytes().len() ==> (
                r is Ok && r->Ok_0 == word_at(old(self).bytes(), old(self).position() as int)
                    && final(self).position() == old(self).position() + 2
            ),
            old(self).position() + 2 > old(self).bytes().len() ==> (
                r is Err && final(self).position() == old(self).bytes().len()
            ),
    {
        proof {
            use_type_invariant(&*self);
        }
        let end: usize = self.bytes.len();
        let rest = slice_subrange(self.bytes.as_slice(), self.position, end);
        let r = read_u16_le(rest);
        if r.is_ok() {
            self.position = self.position + 2;
        } else {
            self.position = end;
        }
        r
    }

    /// Moves the cursor to `position`, counted from the first byte. A position
    /// past the end cannot be reached: the cursor then stays where it is.
    pub fn seek_to(&mut self, position: usize) -> (moved: bool)
        ensures
            final(self).bytes() == old(self).bytes(),
            moved <==> position <= old(self).bytes().len(),
            moved ==> final(self).position() == position,
            !moved ==> final(self).position() == old(self).position(),
    {
        if position <= self.bytes.len() {
            self.position = position;
            true
        } else {
            false
        }
    }
}

} // verus!
