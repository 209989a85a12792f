//! The gzip (RFC 1952) decoder: member headers and trailers around DEFLATE
//! streams; concatenated members decode to the concatenation of their outputs.
use crate::bit_io::{bit_of, bits_value, lemma_bits_value_bound, lsb0_bit, BitReader};
use crate::deflate::{decode_run, lemma_run_advances, DecodeStage, DeflateDecoder};
use crate::error::DecodeError;
use crate::out_with_checksum::{crc32_ieee, crc32_of, OutWithChecksum};
use crate::arith::lemma_pow2_values;
use vstd::prelude::*;

verus! {

pub const GZIP_ID1: u8 = 0x1f;

pub const GZIP_ID2: u8 = 0x8b;

pub const GZIP_CM_DEFLATE: u8 = 0x08;

/// The byte read at bit `pos`.
pub open spec fn byte_at(data: Seq<u8>, pos: int) -> u8 {
    bits_value(data, pos, 8) as u8
}

/// The bytes read from bit `pos` up to bit `end`.
pub open spec fn bytes_between(data: Seq<u8>, pos: int, end: int) -> Seq<u8> {
    Seq::new(((end - pos) / 8) as nat, |i: int| byte_at(data, pos + 8 * i))
}

/// The little-endian 16-bit value read at bit `pos`.
pub open spec fn u16_at(data: Seq<u8>, pos: int) -> nat {
    byte_at(data, pos) as nat + 256 * byte_at(data, pos + 8) as nat
}

/// The bit position after a zero-terminated field that starts at bit `pos`,
/// or `None` when the stream ends first.
pub open spec fn zero_terminated_end(data: Seq<u8>, pos: int) -> Option<int>
    decreases 8 * data.len() - pos,
{
    if pos + 8 > 8 * data.len() {
        None
    } else if byte_at(data, pos) == 0 {
        Some(pos + 8)
    } else {
        zero_terminated_end(data, pos + 8)
    }
}

/// A zero-terminated field, skipped when `present` is false.
pub open spec fn skip_zero_terminated(data: Seq<u8>, pos: int, present: bool) -> Result<
    int,
    DecodeError,
> {
    if !present {
        Ok(pos)
    } else {
        match zero_terminated_end(data, pos) {
            Some(p) => Ok(p),
            None => Err(DecodeError::UnexpectedEof),
        }
    }
}

/// Parsing a member header at bit `pos`: ID1, ID2, CM, FLG, MTIME, XFL, OS,
/// then the optional extra field, name, comment and header CRC that FLG
/// announces. Gives the bit position after the header.
pub open spec fn gzip_header(data: Seq<u8>, pos: int) -> Result<int, DecodeError> {
    let end = 8 * data.len();
    if pos + 8 > end {
        Err(DecodeError::UnexpectedEof)
    } else if byte_at(data, pos) != GZIP_ID1 {
        Err(DecodeError::InvalidData)
    } else if pos + 16 > end {
        Err(DecodeError::UnexpectedEof)
    } else if byte_at(data, pos + 8) != GZIP_ID2 {
        Err(DecodeError::InvalidData)
    } else if pos + 24 > end {
        Err(DecodeError::UnexpectedEof)
    } else if byte_at(data, pos + 16) != GZIP_CM_DEFLATE {
        Err(DecodeError::InvalidData)
    } else if pos + 80 > end {
        Err(DecodeError::UnexpectedEof)
    } else {
        header_fields(data, pos, byte_at(data, pos + 24) as nat)
    }
}

/// The extra field of a member header at bit `pos_a`, when FLG announces one:
/// XLEN, then XLEN bytes. Gives the bit position after it.
pub open spec fn header_extra(data: Seq<u8>, pos_a: int, flg: nat) -> Result<int, DecodeError> {
    if !bit_of(flg, 2) {
        Ok(pos_a)
    } else if pos_a + 16 > 8 * data.len() {
        Err(DecodeError::UnexpectedEof)
    } else if pos_a + 16 + 8 * u16_at(data, pos_a) > 8 * data.len() {
        Err(DecodeError::UnexpectedEof)
    } else {
        Ok(pos_a + 16 + 8 * u16_at(data, pos_a))
    }
}

/// The optional parts of a member header that starts at bit `pos`, whose FLG
/// byte is `flg`: the extra field, name, comment and header CRC. Gives the bit
/// position after the header.
pub open spec fn header_fields(data: Seq<u8>, pos: int, flg: nat) -> Result<int, DecodeError> {
    let end = 8 * data.len();
    match header_extra(data, pos + 80, flg) {
        Err(e) => Err(e),
        Ok(pos_b) => match skip_zero_terminated(data, pos_b, bit_of(flg, 3)) {
            Err(e) => Err(e),
            Ok(pos_c) => match skip_zero_terminated(data, pos_c, bit_of(flg, 4)) {
                Err(e) => Err(e),
                Ok(pos_d) => if !bit_of(flg, 1) {
                    Ok(pos_d)
                } else if pos_d + 16 > end {
                    Err(DecodeError::UnexpectedEof)
                } else if u16_at(data, pos_d) != (crc32_ieee(bytes_between(data, pos, pos_d)) % 0x1_0000) as nat {
                    Err(DecodeError::InvalidData)
                } else {
                    Ok(pos_d + 16)
                },
            },
        },
    }
}

/// Decoding a member's DEFLATE stream at bit `pos` and checking its trailer:
/// the CRC-32 and the length modulo 2^32 of the output. Gives the output and
/// the bit position after the trailer.
pub open spec fn gzip_body(data: Seq<u8>, pos: int) -> Result<(Seq<u8>, int), DecodeError> {
    match decode_run(DecodeStage::NewBlock, data, pos, Seq::empty()) {
        Err(e) => Err(e),
        Ok((o, p)) => if p + 64 > 8 * data.len() {
            Err(DecodeError::UnexpectedEof)
        } else if bits_value(data, p, 32) != crc32_ieee(o) as nat {
            Err(DecodeError::InvalidData)
        } else if bits_value(data, p + 32, 32) != o.len() % 0x1_0000_0000 {
            Err(DecodeError::InvalidData)
        } else {
            Ok((o, p + 64))
        },
    }
}

/// A member header, when parsed, is at least ten bytes long.
proof fn lemma_header_advances(data: Seq<u8>, pos: int)
    ensures
        gzip_header(data, pos) matches Ok(p) ==> pos + 80 <= p <= 8 * data.len(),
{
    let end = 8 * data.len();
    if pos + 80 <= end {
        let flg = byte_at(data, pos + 24) as nat;
        let pos_a = pos + 80;
        let pos_b = if bit_of(flg, 2) {
            pos_a + 16 + 8 * u16_at(data, pos_a)
        } else {
            pos_a
        };
        lemma_zero_terminated_advances(data, pos_b);
        if let Ok(pos_c) = skip_zero_terminated(data, pos_b, bit_of(flg, 3)) {
            lemma_zero_terminated_advances(data, pos_c);
        }
    }
}

proof fn lemma_zero_terminated_advances(data: Seq<u8>, pos: int)
    ensures
        zero_terminated_end(data, pos) matches Some(p) ==> pos < p <= 8 * data.len(),
    decreases 8 * data.len() - pos,
{
    if pos + 8 <= 8 * data.len() && byte_at(data, pos) != 0 {
        lemma_zero_terminated_advances(data, pos + 8);
    }
}

/// Every step of the gzip decoder but the last reduces `gzip_measure`.
proof fn lemma_gzip_step_advances(stage: GzipStage, data: Seq<u8>, pos: int)
    requires
        !(stage is Complete),
        0 <= pos <= 8 * data.len(),
    ensures
        gzip_step(stage, data, pos) matches Ok((st, p, o)) ==> gzip_measure(st, data, p)
            < gzip_measure(stage, data, pos) && 0 <= p <= 8 * data.len(),
{
    lemma_header_advances(data, pos);
    lemma_run_advances(DecodeStage::NewBlock, data, pos, Seq::empty());
}

/// A member is accepted only when its trailer holds the CRC-32 and the length
/// modulo 2^32 of the bytes it decodes to.
pub proof fn lemma_member_trailer(data: Seq<u8>, pos: int)
    ensures
        gzip_body(data, pos) matches Ok((o, p)) ==> {
            &&& bits_value(data, p - 64, 32) == crc32_ieee(o) as nat
            &&& bits_value(data, p - 32, 32) == o.len() % 0x1_0000_0000
        },
{
    if let Ok((o, p)) = gzip_body(data, pos) {
        assert(p - 64 + 32 == p - 32);
    }
}

/// Where the gzip decoder stands.
#[derive(Debug, Clone, Copy, PartialEq, Eq, Structural)]
pub enum GzipStage {
    NewMember,
    DecodeDeflate,
    Complete,
}

/// One step of the gzip decoder: the end of the input or a member header, or
/// a member's body and trailer. Gives the next stage, the bit position and the
/// bytes produced.
pub open spec fn gzip_step(stage: GzipStage, data: Seq<u8>, pos: int) -> Result<
    (GzipStage, int, Seq<u8>),
    DecodeError,
> {
    match stage {
        GzipStage::NewMember => if pos == 8 * data.len() {
            Ok((GzipStage::Complete, pos, Seq::empty()))
        } else {
            match gzip_header(data, pos) {
                Err(e) => Err(e),
                Ok(p) => Ok((GzipStage::DecodeDeflate, p, Seq::empty())),
            }
        },
        GzipStage::DecodeDeflate => match gzip_body(data, pos) {
            Err(e) => Err(e),
            Ok((o, p)) => Ok((GzipStage::NewMember, p, o)),
        },
        GzipStage::Complete => Ok((GzipStage::Complete, pos, Seq::empty())),
    }
}

/// What is left to decode, which every step reduces.
pub open spec fn gzip_measure(stage: GzipStage, data: Seq<u8>, pos: int) -> int {
    match stage {
        GzipStage::Complete => -1,
        GzipStage::DecodeDeflate => 2 * (8 * data.len() - pos),
        GzipStage::NewMember => 2 * (8 * data.len() - pos) + 1,
    }
}

/// Running the gzip decoder from `stage` at bit `pos` to the end of the input,
/// after output `out`.
pub open spec fn gzip_run(stage: GzipStage, data: Seq<u8>, pos: int, out: Seq<u8>) -> Result<
    Seq<u8>,
    DecodeError,
>
    decreases gzip_measure(stage, data, pos) + 2,
{
    if stage is Complete {
        Ok(out)
    } else {
        match gzip_step(stage, data, pos) {
            Err(e) => Err(e),
            Ok((st, p, o)) => if gzip_measure(st, data, p) < gzip_measure(stage, data, pos) && p <= 8
                * data.len() {
                gzip_run(st, data, p, out + o)
            } else {
                Err(DecodeError::InvalidData)
            },
        }
    }
}

/// Decoding a whole gzip file: the concatenated outputs of its members.
pub open spec fn gunzip(data: Seq<u8>) -> Result<Seq<u8>, DecodeError> {
    gzip_run(GzipStage::NewMember, data, 0, Seq::empty())
}


/// Reads one header byte and records it.
fn read_header_byte(in_: &mut BitReader, header: &mut Vec<u8>, Ghost(start): Ghost<int>) -> (r: Result<
    u8,
    DecodeError,
>)
    requires
        old(in_).wf(),
        old(header)@ == bytes_between(old(in_).data(), start, old(in_).pos()),
        old(in_).pos() == start + 8 * old(header).len(),
    ensures
        final(in_).wf(),
        final(in_).data() == old(in_).data(),
        match r {
            Ok(b) => {
                &&& old(in_).pos() + 8 <= 8 * old(in_).data().len()
                &&& b == byte_at(old(in_).data(), old(in_).pos())
                &&& final(in_).pos() == old(in_).pos() + 8
                &&& final(header)@ == bytes_between(old(in_).data(), start, final(in_).pos())
                &&& final(in_).pos() == start + 8 * final(header).len()
            },
            Err(e) => e == DecodeError::UnexpectedEof && old(in_).pos() + 8 > 8 * old(
                in_,
            ).data().len(),
        },
{
    let ghost data = in_.data();
    let ghost pos = in_.pos();
    let b = in_.read_u8()?;
    proof {
        lemma_bits_value_bound(data, pos, 8);
        lemma_pow2_values();
    }
    header.push(b);
    proof {
        assert(header@ =~= bytes_between(data, start, in_.pos()));
    }
    Ok(b)
}

/// Reads a zero-terminated header field, the zero included.
fn read_zero_terminated(in_: &mut BitReader, header: &mut Vec<u8>, Ghost(start): Ghost<int>) -> (r:
    Result<(), DecodeError>)
    requires
        old(in_).wf(),
        old(header)@ == bytes_between(old(in_).data(), start, old(in_).pos()),
        old(in_).pos() == start + 8 * old(header).len(),
    ensures
        final(in_).wf(),
        final(in_).data() == old(in_).data(),
        r is Ok ==> final(header)@ == bytes_between(old(in_).data(), start, final(in_).pos()),
        r is Ok ==> final(in_).pos() == start + 8 * final(header).len(),
        match zero_terminated_end(old(in_).data(), old(in_).pos()) {
            Some(p) => r is Ok && final(in_).pos() == p,
            None => r == Err::<(), DecodeError>(DecodeError::UnexpectedEof),
        },
{
    let ghost data = in_.data();
    let ghost goal = zero_terminated_end(data, in_.pos());
    proof {
        in_.lemma_pos_bounds();
    }
    loop
        invariant
            in_.wf(),
            in_.data() == data,
            data == old(in_).data(),
            goal == zero_terminated_end(data, old(in_).pos()),
            header@ == bytes_between(data, start, in_.pos()),
            in_.pos() == start + 8 * header.len(),
            zero_terminated_end(data, in_.pos()) == goal,
            in_.pos() <= 8 * data.len(),
        decreases 8 * data.len() - in_.pos(),
    {
        let byte = match read_header_byte(in_, header, Ghost(start)) {
            Ok(b) => b,
            Err(e) => {
                return Err(e);
            },
        };
        proof {
            in_.lemma_pos_bounds();
        }
        if byte == 0 {
            return Ok(());
        }
    }
}

/// Parses a member header; fails with `InvalidData` on a wrong ID1, ID2 or
/// CM, or on a header CRC that does not match.
#[verifier::loop_isolation(false)]
#[verifier::rlimit(60)]
fn parse_header(in_: &mut BitReader) -> (r: Result<(), DecodeError>)
    requires
        old(in_).wf(),
    ensures
        final(in_).wf(),
        final(in_).data() == old(in_).data(),
        match gzip_header(old(in_).data(), old(in_).pos()) {
            Ok(p) => r is Ok && final(in_).pos() == p,
            Err(e) => r == Err::<(), DecodeError>(e),
        },
{
    let ghost data = in_.data();
    let ghost pos = in_.pos();
    let mut header: Vec<u8> = Vec::new();
    proof {
        assert(header@ =~= bytes_between(data, pos, pos));
    }
    let id1 = read_header_byte(in_, &mut header, Ghost(pos))?;
    if id1 != GZIP_ID1 {
        return Err(DecodeError::InvalidData);
    }
    let id2 = read_header_byte(in_, &mut header, Ghost(pos))?;
    if id2 != GZIP_ID2 {
        return Err(DecodeError::InvalidData);
    }
    let cm = read_header_byte(in_, &mut header, Ghost(pos))?;
    if cm != GZIP_CM_DEFLATE {
        return Err(DecodeError::InvalidData);
    }
    let flg = read_header_byte(in_, &mut header, Ghost(pos))?;
    // MTIME (4 bytes), XFL, OS
    let mut i: usize = 0;
    while i < 6
        invariant
            in_.wf(),
            in_.data() == data,
            i <= 6,
            in_.pos() == pos + 32 + 8 * i,
            header@ == bytes_between(data, pos, in_.pos()),
            in_.pos() == pos + 8 * header.len(),
        decreases 6 - i,
    {
        match read_header_byte(in_, &mut header, Ghost(pos)) {
            Ok(_) => {},
            Err(e) => {
                return Err(e);
            },
        }
        i = i + 1;
    }
    proof {
        in_.lemma_pos_bounds();
    }
    parse_header_fields(in_, &mut header, flg, Ghost(pos))
}

/// Parses the optional parts of a member header, as FLG announces them.
#[verifier::loop_isolation(false)]
fn parse_header_fields(in_: &mut BitReader, header: &mut Vec<u8>, flg: u8, Ghost(pos): Ghost<int>) -> (r:
    Result<(), DecodeError>)
    requires
        old(in_).wf(),
        old(in_).pos() == pos + 80,
        old(header)@ == bytes_between(old(in_).data(), pos, old(in_).pos()),
        old(in_).pos() == pos + 8 * old(header).len(),
    ensures
        final(in_).wf(),
        final(in_).data() == old(in_).data(),
        match header_fields(old(in_).data(), pos, flg as nat) {
            Ok(p) => r is Ok && final(in_).pos() == p,
            Err(e) => r == Err::<(), DecodeError>(e),
        },
{
    let ghost data = in_.data();
    let fhcrc = lsb0_bit(flg, 1);
    let fextra = lsb0_bit(flg, 2);
    let fname = lsb0_bit(flg, 3);
    let fcomment = lsb0_bit(flg, 4);
    if fextra {
        let ghost pos_a = in_.pos();
        let lo = read_header_byte(in_, header, Ghost(pos))?;
        let hi = read_header_byte(in_, header, Ghost(pos))?;
        let xlen = lo as u32 + 256 * hi as u32;
        let mut k: u32 = 0;
        while k < xlen
            invariant
                in_.wf(),
                in_.data() == data,
                k <= xlen,
                xlen == u16_at(data, pos_a),
                in_.pos() == pos_a + 16 + 8 * k,
                header@ == bytes_between(data, pos, in_.pos()),
                in_.pos() == pos + 8 * header.len(),
            decreases xlen - k,
        {
            match read_header_byte(in_, header, Ghost(pos)) {
                Ok(_) => {},
                Err(e) => {
                    return Err(e);
                },
            }
            k = k + 1;
        }
    }
    let ghost pos_b = in_.pos();
    proof {
        in_.lemma_pos_bounds();
    }
    assert(header_extra(data, pos + 80, flg as nat) == Ok::<int, DecodeError>(pos_b));
    if fname {
        read_zero_terminated(in_, header, Ghost(pos))?;
    }
    let ghost pos_c = in_.pos();
    assert(skip_zero_terminated(data, pos_b, fname) == Ok::<int, DecodeError>(pos_c));
    if fcomment {
        read_zero_terminated(in_, header, Ghost(pos))?;
    }
    let ghost pos_d = in_.pos();
    assert(skip_zero_terminated(data, pos_c, fcomment) == Ok::<int, DecodeError>(pos_d));
    if fhcrc {
        let actual_crc32 = crc32_of(header.as_slice());
        let lo = in_.read_u8()?;
        let hi = in_.read_u8()?;
        proof {
            lemma_bits_value_bound(data, pos_d, 8);
            lemma_bits_value_bound(data, pos_d + 8, 8);
            lemma_pow2_values();
        }
        let crc16 = lo as u32 + 256 * hi as u32;
        if crc16 != actual_crc32 % 0x1_0000 {
            return Err(DecodeError::InvalidData);
        }
    }
    Ok(())
}

/// Decodes gzip files, member after member.
pub struct GzipDecoder {
    stage: GzipStage,
}

impl GzipDecoder {
    /// Where the decoder stands.
    pub closed spec fn stage(&self) -> GzipStage {
        self.stage
    }

    /// A decoder before its first member.
    pub fn new() -> (r: Self)
        ensures
            r.stage() == GzipStage::NewMember,
    {
        GzipDecoder { stage: GzipStage::NewMember }
    }

    /// Performs one step: detects the end of the input or reads a member
    /// header, or decodes a member's body and checks its trailer.
    fn advance_stage(&mut self, in_: &mut BitReader, out: &mut Vec<u8>) -> (r: Result<(), DecodeError>)
        requires
            old(in_).wf(),
        ensures
            final(in_).wf(),
            final(in_).data() == old(in_).data(),
            match gzip_step(old(self).stage(), old(in_).data(), old(in_).pos()) {
                Ok((st, p, o)) => r is Ok && final(self).stage() == st && final(in_).pos() == p
                    && final(out)@ == old(out)@ + o,
                Err(e) => r == Err::<(), DecodeError>(e),
            },
    {
        match self.stage {
            GzipStage::NewMember => {
                if in_.is_eof() {
                    self.stage = GzipStage::Complete;
                    proof {
                        assert(out@ =~= old(out)@ + Seq::<u8>::empty());
                    }
                    return Ok(());
                }
                parse_header(in_)?;
                self.stage = GzipStage::DecodeDeflate;
                proof {
                    assert(out@ =~= old(out)@ + Seq::<u8>::empty());
                }
                Ok(())
            },
            GzipStage::DecodeDeflate => {
                let ghost data = in_.data();
                let ghost pos0 = in_.pos();
                let mut out_with_checksum = OutWithChecksum::new();
                let mut deflate_decoder = DeflateDecoder::new();
                deflate_decoder.decode(in_, &mut out_with_checksum)?;
                proof {
                    match decode_run(DecodeStage::NewBlock, data, pos0, Seq::empty()) {
                        Ok((o, p)) => {
                            assert(o.subrange(0, o.len() as int) =~= o);
                            assert(out_with_checksum.view() =~= o);
                        },
                        Err(_) => {},
                    }
                }
                let actual_crc32 = out_with_checksum.crc32();
                let actual_input_size = out_with_checksum.size();
                let crc32 = in_.read_u32()?;
                let input_size = in_.read_u32()?;
                if crc32 != actual_crc32 {
                    return Err(DecodeError::InvalidData);
                }
                if input_size != actual_input_size {
                    return Err(DecodeError::InvalidData);
                }
                let mut bytes = out_with_checksum.into_inner();
                out.append(&mut bytes);
                self.stage = GzipStage::NewMember;
                Ok(())
            },
            GzipStage::Complete => {
                proof {
                    assert(out@ =~= old(out)@ + Seq::<u8>::empty());
                }
                Ok(())
            },
        }
    }

    /// Decodes members until the input ends, appending their outputs to `out`.
    pub fn decode(&mut self, in_: &mut BitReader, out: &mut Vec<u8>) -> (r: Result<(), DecodeError>)
        requires
            old(in_).wf(),
        ensures
            final(in_).wf(),
            final(in_).data() == old(in_).data(),
            match gzip_run(old(self).stage(), old(in_).data(), old(in_).pos(), old(out)@) {
                Ok(o) => r is Ok && final(out)@ == o && final(self).stage() == GzipStage::Complete,
                Err(e) => r == Err::<(), DecodeError>(e),
            },
    {
        let ghost data = in_.data();
        let ghost goal = gzip_run(self.stage, data, in_.pos(), out@);
        proof {
            in_.lemma_pos_bounds();
        }
        while self.stage != GzipStage::Complete
            invariant
                in_.wf(),
                in_.data() == data,
                data == old(in_).data(),
                goal == gzip_run(old(self).stage(), data, old(in_).pos(), old(out)@),
                gzip_run(self.stage, data, in_.pos(), out@) == goal,
                0 <= in_.pos() <= 8 * data.len(),
            decreases gzip_measure(self.stage, data, in_.pos()) + 2,
        {
            let ghost stage = self.stage;
            let ghost pos = in_.pos();
            proof {
                lemma_gzip_step_advances(stage, data, pos);
            }
            self.advance_stage(in_, out)?;
            proof {
                in_.lemma_pos_bounds();
            }
        }
        Ok(())
    }
}

} // verus!
