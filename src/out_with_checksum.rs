//! A byte sink that counts what it receives and gives its CRC-32.
use vstd::prelude::*;

verus! {

/// The CRC-32 (IEEE polynomial, reflected, final XOR `0xFFFFFFFF`, as in gzip)
/// of a byte sequence.
pub uninterp spec fn crc32_ieee(data: Seq<u8>) -> u32;

/// Relies on `crc32fast::hash`: the CRC-32 (IEEE) of the bytes.
#[verifier::external_body]
pub(crate) fn crc32_of(data: &[u8]) -> (r: u32)
    ensures
        r == crc32_ieee(data@),
{
    crc32fast::hash(data)
}

/// Collects written bytes, with their count modulo 2^32 and their CRC-32.
pub struct OutWithChecksum {
    out: Vec<u8>,
    size: u32,
}

impl OutWithChecksum {
    /// The bytes written so far.
    pub closed spec fn view(&self) -> Seq<u8> {
        self.out@
    }

    pub closed spec fn wf(&self) -> bool {
        self.size == self.out@.len() % 0x1_0000_0000
    }

    /// A sink that has received nothing.
    pub fn new() -> (r: Self)
        ensures
            r.wf(),
            r.view() == Seq::<u8>::empty(),
    {
        OutWithChecksum { out: Vec::new(), size: 0 }
    }

    /// The number of bytes written, modulo 2^32.
    pub fn size(&self) -> (r: u32)
        requires
            self.wf(),
        ensures
            r == self.view().len() % 0x1_0000_0000,
    {
        self.size
    }

    /// The CRC-32 of the bytes written.
    pub fn crc32(&self) -> (r: u32)
        ensures
            r == crc32_ieee(self.view()),
    {
        crc32_of(self.out.as_slice())
    }

    /// Appends one byte.
    pub fn write_byte(&mut self, byte: u8)
        requires
            old(self).wf(),
        ensures
            final(self).wf(),
            final(self).view() == old(self).view().push(byte),
    {
        self.out.push(byte);
        self.size = self.size.wrapping_add(1);
    }

    /// Appends all of `buf`; returns how many bytes that was.
    pub fn write(&mut self, buf: &[u8]) -> (r: usize)
        requires
            old(self).wf(),
        ensures
            final(self).wf(),
            final(self).view() == old(self).view() + buf@,
            r == buf.len(),
    {
        let mut i: usize = 0;
        while i < buf.len()
            invariant
                self.wf(),
                i <= buf.len(),
                self.view() == old(self).view() + buf@.subrange(0, i as int),
            decreases buf.len() - i,
        {
            self.write_byte(buf[i]);
            proof {
                assert(buf@.subrange(0, i + 1) =~= buf@.subrange(0, i as int).push(buf@[i as int]));
            }
            i = i + 1;
        }
        proof {
            assert(buf@.subrange(0, buf.len() as int) =~= buf@);
        }
        buf.len()
    }

    /// The bytes written.
    pub fn into_inner(self) -> (r: Vec<u8>)
        ensures
            r@ == self.view(),
    {
        self.out
    }
}

} // verus!
