//! Block encoding/decoding
//!
//! A coded block starts with its length as a 32-bit word, low byte first.
//! The payload follows: the arithmetic code of everything needed to rebuild
//! the block, ending with the four bytes that flush the range coder. An
//! empty block is its header alone.

pub mod dc;
pub mod law;
pub mod steps;
pub mod raw;

use vstd::prelude::*;
use crate::error::Error;

verus! {

/// The number of bytes of the header.
pub const HEADER_BYTES: usize = 4;

/// The four bytes of a block length, low byte first.
pub open spec fn header(n: u32) -> Seq<u8> {
    seq![(n % 0x100) as u8, (n / 0x100 % 0x100) as u8, (n / 0x1_0000 % 0x100) as u8, (n / 0x100_0000) as u8]
}

/// The block length that four header bytes stand for.
pub open spec fn header_value(b: Seq<u8>) -> int {
    b[0] + b[1] * 0x100 + b[2] * 0x1_0000 + b[3] * 0x100_0000
}

/// `byteorder::ByteOrder::write_u32` of `byteorder::LittleEndian` into a
/// buffer of four bytes: the bytes of `n`, low byte first.
#[verifier::external_body]
pub(crate) fn le_bytes(n: u32) -> (r: [u8; 4])
    ensures
        r@ == header(n),
{
    let mut buf = [0u8; 4];
    <byteorder::LittleEndian as byteorder::ByteOrder>::write_u32(&mut buf, n);
    buf
}

/// `byteorder::ByteOrder::read_u32` of `byteorder::LittleEndian`: the word
/// whose bytes, low byte first, are the first four of `bytes`. It panics on
/// fewer than four.
#[verifier::external_body]
fn le_word(bytes: &[u8]) -> (r: u32)
    requires
        bytes.len() >= 4,
    ensures
        r == header_value(bytes@.subrange(0, 4)),
{
    <byteorder::LittleEndian as byteorder::ByteOrder>::read_u32(bytes)
}

/// Appends the header of a block of `n` bytes to `writer`.
pub fn write_header(writer: &mut Vec<u8>, n: u32)
    ensures
        final(writer)@ == old(writer)@ + header(n),
{
    let bytes: [u8; 4] = le_bytes(n);
    let mut k: usize = 0;
    while k < HEADER_BYTES
        invariant
            k <= HEADER_BYTES,
            bytes@ == header(n),
            writer@ == old(writer)@ + bytes@.subrange(0, k as int),
        decreases HEADER_BYTES - k,
    {
        writer.push(bytes[k]);
        assert(writer@ =~= old(writer)@ + bytes@.subrange(0, k + 1));
        k += 1;
    }
    assert(bytes@.subrange(0, 4) =~= bytes@);
}

/// Reads the length of the block off the head of `reader`. Fails where it
/// has no four bytes.
pub fn read_header(reader: &[u8]) -> (r: Result<u32, Error>)
    ensures
        r is Ok <==> reader.len() >= HEADER_BYTES,
        r is Ok ==> r->Ok_0 == header_value(reader@.subrange(0, 4)),
        r is Err ==> r == Err::<u32, Error>(Error::Io),
{
    if reader.len() < HEADER_BYTES {
        return Err(Error::Io);
    }
    Ok(le_word(reader))
}

/// A header reads back as the length that it was written for.
pub proof fn lemma_header_roundtrip(n: u32)
    ensures
        header_value(header(n)) == n,
{
}

/// Generic block encoder
pub trait Encoder {
    /// The encoder's tables are whole.
    spec fn wf(&self) -> bool;

    /// The longest block that the encoder takes.
    spec fn capacity(&self) -> nat;

    /// Encode a block onto the end of the given writer. A block beyond the
    /// capacity is refused with `InvalidInput` and nothing is written; an
    /// empty block is written as its header alone.
    fn encode(&mut self, input: &[u8], writer: Vec<u8>) -> (r: (Vec<u8>, Result<(), Error>))
        requires
            old(self).wf(),
        ensures
            final(self).wf(),
            final(self).capacity() == old(self).capacity(),
            input.len() > old(self).capacity() ==> r.1 == Err::<(), Error>(Error::InvalidInput) && r.0@
                == writer@,
            r.1 is Err ==> r.1 == Err::<(), Error>(Error::InvalidInput),
            r.1 is Ok ==> writer@ + header(input.len() as u32) == r.0@.subrange(0, writer@.len() + HEADER_BYTES),
            input.len() == 0 ==> r.1 is Ok && r.0@ == writer@ + header(0),
    ;
}

/// Generic block decoder
pub trait Decoder {
    /// The decoder's tables are whole.
    spec fn wf(&self) -> bool;

    /// The longest block that the decoder rebuilds.
    spec fn capacity(&self) -> nat;

    /// Decode a block by reading from the given bytes onto the end of the
    /// given writer. A header that announces an empty block is all that is
    /// read of it. Fails with `Io` where the bytes end too soon or hold
    /// what no encoder writes, and with `InvalidInput` where they announce
    /// a block beyond the capacity or an origin outside the block.
    fn decode(&mut self, reader: &[u8], writer: Vec<u8>) -> (r: (Vec<u8>, Result<(), Error>))
        requires
            old(self).wf(),
        ensures
            final(self).wf(),
            final(self).capacity() == old(self).capacity(),
            reader.len() < HEADER_BYTES ==> r.1 == Err::<(), Error>(Error::Io),
            reader.len() >= HEADER_BYTES && header_value(reader@.subrange(0, 4)) > old(self).capacity() ==> r.1
                == Err::<(), Error>(Error::InvalidInput),
            r.1 is Ok ==> r.0@.len() == writer@.len() + header_value(reader@.subrange(0, 4)) && r.0@.subrange(
                0,
                writer@.len() as int,
            ) == writer@,
            r.1 is Err ==> r.0@ == writer@,
            r.1 is Err ==> r.1->Err_0 == Error::Io || r.1->Err_0 == Error::InvalidInput,
            reader.len() >= HEADER_BYTES && header_value(reader@.subrange(0, 4)) == 0 ==> r.1 is Ok && r.0@ == writer@,
    ;
}

} // verus!
