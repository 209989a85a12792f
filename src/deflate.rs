//! The DEFLATE decoder (stored, fixed-Huffman and dynamic-Huffman blocks) and
//! the stored-block encoder.
use crate::arith::{lemma_pow2_values, pow2};
use crate::bit_io::{
    align_up, bit_of, bits_value, byte_bits, lemma_bits_value_bound, lemma_bits_value_split,
    lemma_byte_bits_value, lemma_byte_bits_value_from, lemma_stream_bits_injective,
    lemma_stream_bits_push, stream_bit, stream_bits, BitReader, BitWriter,
};
use crate::error::DecodeError;
use crate::huffman::{
    bits_value_msb, distance_decode, huffman_decode, huffman_walk, lengths_in_symbol_order,
    rle_lengths, tree_model, DistanceEncoding, HuffmanTree,
};
use crate::lzss::{
    distance_base, distance_code_extra_bits, length_base, length_code_extra_bits, OutBuffer, Symbol,
};
use crate::out_with_checksum::OutWithChecksum;
use vstd::prelude::*;

verus! {

/// How a block's body is encoded.
#[derive(Debug, Clone, Copy, PartialEq, Eq, Structural)]
pub enum DeflateEncoding {
    NoCompression,
    FixedHuffman,
    DynamicHuffman,
}

/// Where the decoder stands between blocks.
#[derive(Debug, Clone, Copy, PartialEq, Eq, Structural)]
pub enum DecodeStage {
    NewBlock,
    ParsedMode { is_final: bool, encoding: DeflateEncoding },
    Complete,
}

/// A length code's extra bits never take `length_minus_three` past 255, and a
/// distance code's never take `distance_minus_one` past 32767.
pub proof fn lemma_code_ranges(m: nat, c: nat)
    requires
        m <= 28,
        c <= 29,
    ensures
        length_base(m) + pow2(length_code_extra_bits(m)) <= 256,
        length_code_extra_bits(m) <= 5,
        distance_base(c) + pow2(distance_code_extra_bits(c)) <= 32768,
        distance_code_extra_bits(c) <= 13,
{
    lemma_pow2_values();
    if 8 <= m < 28 {
        let k = m / 4;
        assert(2 <= k <= 6);
        assert(m % 4 <= 3);
        let q = m % 4;
        assert(length_code_extra_bits(m) == (k - 1) as nat);
        if k == 2 {
            assert(length_base(m) == 8 + 2 * q);
        } else if k == 3 {
            assert(length_base(m) == 16 + 4 * q);
        } else if k == 4 {
            assert(length_base(m) == 32 + 8 * q);
        } else if k == 5 {
            assert(length_base(m) == 64 + 16 * q);
        } else {
            assert(length_base(m) == 128 + 32 * q);
        }
    }
    if c >= 4 {
        let k = c / 2;
        assert(2 <= k <= 14);
        assert(c % 2 <= 1);
        assert(pow2(k) == 2 * pow2((k - 1) as nat));
        assert(pow2(k) <= 16384) by {
            crate::arith::lemma_pow2_monotonic(k, 14);
        }
        let h = pow2((k - 1) as nat);
        let q = c % 2;
        assert(h * q <= h) by (nonlinear_arith)
            requires
                q <= 1,
        ;
        assert(distance_base(c) == pow2(k) + h * q);
        assert(distance_code_extra_bits(c) == (k - 1) as nat);
    }
}

/// Parsing one symbol at bit `pos`: a literal/length code, then for a length
/// code its extra bits, the distance code and the distance's extra bits.
pub open spec fn parse_symbol_spec(
    lit: Seq<Option<u16>>,
    dist: Option<Seq<Option<u16>>>,
    data: Seq<u8>,
    pos: int,
) -> Result<(Symbol, int), DecodeError> {
    match huffman_decode(lit, data, pos) {
        Err(e) => Err(e),
        Ok((code, p)) => if code < 256 {
            Ok((Symbol::Literal(code as u8), p))
        } else if code == 256 {
            Ok((Symbol::EndOfBlock, p))
        } else if code <= 285 {
            let m = (code - 257) as nat;
            let eb = length_code_extra_bits(m);
            if p + eb > 8 * data.len() {
                Err(DecodeError::UnexpectedEof)
            } else {
                let l3 = length_base(m) + bits_value(data, p, eb);
                match distance_decode(dist, data, p + eb) {
                    Err(e) => Err(e),
                    Ok((dc, pos_c)) => if dc > 29 {
                        Err(DecodeError::InvalidData)
                    } else {
                        let deb = distance_code_extra_bits(dc as nat);
                        if pos_c + deb > 8 * data.len() {
                            Err(DecodeError::UnexpectedEof)
                        } else {
                            let d1 = distance_base(dc as nat) + bits_value(data, pos_c, deb);
                            Ok(
                                (
                                    Symbol::BackReference {
                                        length_minus_three: l3 as u8,
                                        distance_minus_one: d1 as u16,
                                    },
                                    pos_c + deb,
                                ),
                            )
                        }
                    },
                }
            }
        } else {
            Err(DecodeError::InvalidData)
        },
    }
}

/// `out` extended by `n` bytes, each copied from `distance_minus_one + 1`
/// places back, one at a time, so that a run may repeat bytes it just wrote.
pub open spec fn copy_back(out: Seq<u8>, d1: nat, n: nat) -> Seq<u8>
    decreases n,
{
    if n == 0 {
        out
    } else {
        copy_back(out.push(out[out.len() - 1 - d1]), d1, (n - 1) as nat)
    }
}

/// Decoding the body of a Huffman block from bit `pos`, after output `out`, up
/// to its end-of-block symbol. Gives the output and the bit position after it.
pub open spec fn huffman_block(
    lit: Seq<Option<u16>>,
    dist: Option<Seq<Option<u16>>>,
    data: Seq<u8>,
    pos: int,
    out: Seq<u8>,
) -> Result<(Seq<u8>, int), DecodeError>
    decreases 8 * data.len() - pos,
{
    match parse_symbol_spec(lit, dist, data, pos) {
        Err(e) => Err(e),
        Ok((sym, p)) => if p <= pos || p > 8 * data.len() {
            Err(DecodeError::InvalidData)
        } else {
            match sym {
                Symbol::Literal(b) => huffman_block(lit, dist, data, p, out.push(b)),
                Symbol::EndOfBlock => Ok((out, p)),
                Symbol::BackReference { length_minus_three, distance_minus_one } => {
                    if distance_minus_one >= out.len() {
                        Err(DecodeError::InvalidData)
                    } else {
                        huffman_block(
                            lit,
                            dist,
                            data,
                            p,
                            copy_back(
                                out,
                                distance_minus_one as nat,
                                length_minus_three as nat + 3,
                            ),
                        )
                    }
                },
            }
        },
    }
}

/// The `n` bytes stored from bit `pos` on.
pub open spec fn stored_bytes(data: Seq<u8>, pos: int, n: nat) -> Seq<u8> {
    Seq::new(n, |i: int| bits_value(data, pos + 8 * i, 8) as u8)
}

/// Decoding the body of a stored block at bit `pos`: skip to a byte boundary,
/// read LEN and NLEN, check that NLEN is the complement of LEN, copy LEN bytes.
pub open spec fn stored_block(data: Seq<u8>, pos: int, out: Seq<u8>) -> Result<
    (Seq<u8>, int),
    DecodeError,
> {
    let p = align_up(pos);
    if p + 32 > 8 * data.len() {
        Err(DecodeError::UnexpectedEof)
    } else {
        let len = bits_value(data, p, 16);
        let nlen = bits_value(data, p + 16, 16);
        if nlen + len != 0xffff {
            Err(DecodeError::InvalidData)
        } else if p + 32 + 8 * len > 8 * data.len() {
            Err(DecodeError::UnexpectedEof)
        } else {
            Ok((out + stored_bytes(data, p + 32, len), p + 32 + 8 * len))
        }
    }
}

/// The code lengths sent in a dynamic block's header from bit `pos`: the
/// literal/length lengths, the distance lengths, and the bit position after them.
/// Literal and distance lengths form one run-length coded sequence.
pub open spec fn dynamic_lengths(data: Seq<u8>, pos: int) -> Result<
    (Seq<u8>, Seq<u8>, int),
    DecodeError,
> {
    if pos + 14 > 8 * data.len() {
        Err(DecodeError::UnexpectedEof)
    } else {
        let hlit = bits_value(data, pos, 5) + 257;
        let hdist = bits_value(data, pos + 5, 5) + 1;
        let hclen = bits_value(data, pos + 10, 4) + 4;
        let p = pos + 14;
        if p + 3 * hclen > 8 * data.len() {
            Err(DecodeError::UnexpectedEof)
        } else {
            let cl = Seq::new(hclen, |i: int| bits_value(data, p + 3 * i, 3) as u8);
            let cl_tree = tree_model(lengths_in_symbol_order(cl, hclen as int));
            match rle_lengths(cl_tree, data, p + 3 * hclen, hlit + hdist, Seq::empty(), None) {
                Err(e) => Err(e),
                Ok((lengths, pos_b)) => Ok(
                    (lengths.subrange(0, hlit as int), lengths.subrange(hlit as int, lengths.len() as int), pos_b),
                ),
            }
        }
    }
}

/// Decoding a block body of the given encoding at bit `pos`, after output `out`.
#[verifier::opaque]
pub open spec fn block_body(encoding: DeflateEncoding, data: Seq<u8>, pos: int, out: Seq<u8>) -> Result<
    (Seq<u8>, int),
    DecodeError,
> {
    match encoding {
        DeflateEncoding::NoCompression => stored_block(data, pos, out),
        DeflateEncoding::FixedHuffman => huffman_block(
            tree_model(crate::huffman::fixed_literal_lengths()),
            None,
            data,
            pos,
            out,
        ),
        DeflateEncoding::DynamicHuffman => match dynamic_lengths(data, pos) {
            Err(e) => Err(e),
            Ok((lit, dist, p)) => huffman_block(tree_model(lit), Some(tree_model(dist)), data, p, out),
        },
    }
}

/// One step of the decoder: a block header, or a block body.
#[verifier::opaque]
pub open spec fn decode_step(stage: DecodeStage, data: Seq<u8>, pos: int, out: Seq<u8>) -> Result<
    (DecodeStage, int, Seq<u8>),
    DecodeError,
> {
    match stage {
        DecodeStage::NewBlock => if pos + 3 > 8 * data.len() {
            Err(DecodeError::UnexpectedEof)
        } else {
            let is_final = stream_bit(data, pos);
            match encoding_of_bits(bits_value(data, pos + 1, 2)) {
                Some(encoding) => Ok((DecodeStage::ParsedMode { is_final, encoding }, pos + 3, out)),
                None => Err(DecodeError::InvalidData),
            }
        },
        DecodeStage::ParsedMode { is_final, encoding } => match block_body(encoding, data, pos, out) {
            Err(e) => Err(e),
            Ok((o, p)) => if is_final {
                Ok((DecodeStage::Complete, align_up(p), o))
            } else {
                Ok((DecodeStage::NewBlock, p, o))
            },
        },
        DecodeStage::Complete => Ok((DecodeStage::Complete, pos, out)),
    }
}

/// What is left to decode, which every step reduces.
pub open spec fn stage_measure(stage: DecodeStage, data: Seq<u8>, pos: int) -> int {
    2 * (8 * data.len() - pos) + (if stage is NewBlock {
        1int
    } else {
        0int
    })
}

/// Running the decoder from `stage` at bit `pos`, after output `out`, until
/// the final block is done. Gives the output and the bit position after the
/// stream, which ends on a byte boundary.
pub open spec fn decode_run(stage: DecodeStage, data: Seq<u8>, pos: int, out: Seq<u8>) -> Result<
    (Seq<u8>, int),
    DecodeError,
>
    decreases stage_measure(stage, data, pos) + 2,
{
    if stage is Complete {
        Ok((out, pos))
    } else {
        match decode_step(stage, data, pos, out) {
            Err(e) => Err(e),
            Ok((st, p, o)) => if stage_measure(st, data, p) < stage_measure(stage, data, pos)
                && p <= 8 * data.len() {
                decode_run(st, data, p, o)
            } else {
                Err(DecodeError::InvalidData)
            },
        }
    }
}

/// Decoding a whole DEFLATE stream: its output and the bit position after it.
pub open spec fn inflate(data: Seq<u8>) -> Result<(Seq<u8>, int), DecodeError> {
    decode_run(DecodeStage::NewBlock, data, 0, Seq::empty())
}


proof fn lemma_walk_advances(tree: Seq<Option<u16>>, data: Seq<u8>, pos: int, idx: nat)
    ensures
        huffman_walk(tree, data, pos, idx) matches Ok((s, p)) ==> pos < p <= 8 * data.len(),
    decreases tree.len() - idx,
{
    if idx != 0 && pos + 1 <= 8 * data.len() {
        let j = 2 * idx + (if stream_bit(data, pos) {
            1nat
        } else {
            0nat
        });
        if j < tree.len() && tree[j as int] is None {
            lemma_walk_advances(tree, data, pos + 1, j);
        }
    }
}

proof fn lemma_parse_advances(
    lit: Seq<Option<u16>>,
    dist: Option<Seq<Option<u16>>>,
    data: Seq<u8>,
    pos: int,
)
    ensures
        parse_symbol_spec(lit, dist, data, pos) matches Ok((s, p)) ==> pos < p <= 8 * data.len(),
        parse_symbol_spec(lit, dist, data, pos) matches Ok(
            (Symbol::BackReference { length_minus_three, distance_minus_one }, p),
        ) ==> distance_minus_one <= 32767,
{
    lemma_walk_advances(lit, data, pos, 1);
    if let Ok((code, p)) = huffman_decode(lit, data, pos) {
        if 257 <= code <= 285 {
            let eb = length_code_extra_bits((code - 257) as nat);
            if let Some(t) = dist {
                lemma_walk_advances(t, data, p + eb, 1);
            }
            if let Ok((dc, pos_c)) = distance_decode(dist, data, p + eb) {
                if dc <= 29 {
                    lemma_code_ranges(0, dc as nat);
                    lemma_bits_value_bound(data, pos_c, distance_code_extra_bits(dc as nat));
                }
            }
        }
    }
}

proof fn lemma_rle_advances(
    tree: Seq<Option<u16>>,
    data: Seq<u8>,
    pos: int,
    count: nat,
    acc: Seq<u8>,
    prev: Option<u8>,
)
    requires
        forall|i: int| 0 <= i < acc.len() ==> acc[i] <= 15,
        prev matches Some(x) ==> x <= 15,
    ensures
        rle_lengths(tree, data, pos, count, acc, prev) matches Ok((lengths, p)) ==> pos <= p
            && lengths.len() == count && (forall|i: int| 0 <= i < lengths.len() ==> lengths[i] <= 15),
    decreases count - acc.len(),
{
    if acc.len() < count {
        lemma_walk_advances(tree, data, pos, 1);
        if let Ok((sym, p)) = huffman_decode(tree, data, pos) {
            if sym <= 15 {
                lemma_rle_advances(tree, data, p, count, acc.push(sym as u8), Some(sym as u8));
            } else if sym <= 18 {
                let (width, add): (nat, nat) = if sym == 16 {
                    (2, 3)
                } else if sym == 17 {
                    (3, 3)
                } else {
                    (7, 11)
                };
                if p + width <= 8 * data.len() && !(sym == 16 && prev is None) {
                    let n = bits_value(data, p, width) + add;
                    let x: u8 = if sym == 16 {
                        prev->0
                    } else {
                        0
                    };
                    let next = acc + crate::huffman::repeat(x, n);
                    if next.len() <= count {
                        lemma_rle_advances(tree, data, p + width, count, next, Some(x));
                    }
                }
            }
        }
    }
}

proof fn lemma_block_advances(
    lit: Seq<Option<u16>>,
    dist: Option<Seq<Option<u16>>>,
    data: Seq<u8>,
    pos: int,
    out: Seq<u8>,
)
    ensures
        huffman_block(lit, dist, data, pos, out) matches Ok((o, p)) ==> pos < p <= 8 * data.len(),
    decreases 8 * data.len() - pos,
{
    if let Ok((sym, p)) = parse_symbol_spec(lit, dist, data, pos) {
        if pos < p <= 8 * data.len() {
            match sym {
                Symbol::Literal(b) => lemma_block_advances(lit, dist, data, p, out.push(b)),
                Symbol::EndOfBlock => {},
                Symbol::BackReference { length_minus_three, distance_minus_one } => {
                    if distance_minus_one < out.len() {
                        lemma_block_advances(
                            lit,
                            dist,
                            data,
                            p,
                            copy_back(
                                out,
                                distance_minus_one as nat,
                                length_minus_three as nat + 3,
                            ),
                        );
                    }
                },
            }
        }
    }
}

proof fn lemma_align_up(pos: int, limit: int)
    requires
        0 <= pos <= 8 * limit,
    ensures
        pos <= align_up(pos) <= 8 * limit,
        align_up(pos) % 8 == 0,
{
}

/// A block body, when decoded, ends past where it began.
proof fn lemma_body_advances(encoding: DeflateEncoding, data: Seq<u8>, pos: int, out: Seq<u8>)
    requires
        0 <= pos <= 8 * data.len(),
    ensures
        block_body(encoding, data, pos, out) matches Ok((o, p)) ==> pos < p <= 8 * data.len(),
{
    reveal(block_body);
    lemma_align_up(pos, data.len() as int);
    match encoding {
        DeflateEncoding::NoCompression => {},
        DeflateEncoding::FixedHuffman => {
            lemma_block_advances(
                tree_model(crate::huffman::fixed_literal_lengths()),
                None,
                data,
                pos,
                out,
            );
        },
        DeflateEncoding::DynamicHuffman => {
            if pos + 14 <= 8 * data.len() {
                let hlit = bits_value(data, pos, 5) + 257;
                let hdist = bits_value(data, pos + 5, 5) + 1;
                let hclen = bits_value(data, pos + 10, 4) + 4;
                let p = pos + 14;
                let cl = Seq::new(hclen, |i: int| bits_value(data, p + 3 * i, 3) as u8);
                let cl_tree = tree_model(lengths_in_symbol_order(cl, hclen as int));
                lemma_rle_advances(cl_tree, data, p + 3 * hclen, hlit + hdist, Seq::empty(), None);
            }
            if let Ok((lit, dist, p)) = dynamic_lengths(data, pos) {
                lemma_block_advances(tree_model(lit), Some(tree_model(dist)), data, p, out);
            }
        },
    }
}

/// The encoding named by the two BTYPE bits, read as an integer.
pub open spec fn encoding_of_bits(bits: nat) -> Option<DeflateEncoding> {
    if bits == 0 {
        Some(DeflateEncoding::NoCompression)
    } else if bits == 1 {
        Some(DeflateEncoding::FixedHuffman)
    } else if bits == 2 {
        Some(DeflateEncoding::DynamicHuffman)
    } else {
        None
    }
}

/// `a` begins with `b`.
pub open spec fn extends(a: Seq<u8>, b: Seq<u8>) -> bool {
    b.len() <= a.len() && a.subrange(0, b.len() as int) == b
}

proof fn lemma_extends_trans(a: Seq<u8>, b: Seq<u8>, c: Seq<u8>)
    requires
        extends(a, b),
        extends(b, c),
    ensures
        extends(a, c),
{
    assert(a.subrange(0, c.len() as int) =~= b.subrange(0, c.len() as int));
}

/// Every step of the decoder but the last reduces `stage_measure`.
proof fn lemma_step_advances(stage: DecodeStage, data: Seq<u8>, pos: int, out: Seq<u8>)
    requires
        !(stage is Complete),
        0 <= pos <= 8 * data.len(),
    ensures
        decode_step(stage, data, pos, out) matches Ok((st, p, o)) ==> stage_measure(st, data, p)
            < stage_measure(stage, data, pos) && 0 <= p <= 8 * data.len(),
{
    reveal(decode_step);
    if let DecodeStage::ParsedMode { is_final, encoding } = stage {
        lemma_body_advances(encoding, data, pos, out);
        if let Ok((o, p)) = block_body(encoding, data, pos, out) {
            lemma_align_up(p, data.len() as int);
        }
    }
}

/// A decoded stream ends at or after where decoding began.
pub proof fn lemma_run_advances(stage: DecodeStage, data: Seq<u8>, pos: int, out: Seq<u8>)
    requires
        0 <= pos <= 8 * data.len(),
    ensures
        decode_run(stage, data, pos, out) matches Ok((o, p)) ==> pos <= p <= 8 * data.len(),
    decreases stage_measure(stage, data, pos) + 2,
{
    if !(stage is Complete) {
        if let Ok((st, p, o)) = decode_step(stage, data, pos, out) {
            if stage_measure(st, data, p) < stage_measure(stage, data, pos) && p <= 8 * data.len() {
                lemma_step_advances(stage, data, pos, out);
                lemma_run_advances(st, data, p, o);
            }
        }
    }
}

impl DeflateEncoding {
    /// The encoding of the two BTYPE bits, read as an integer; `0b11` is
    /// invalid.
    pub fn from_bits(bits: u8) -> (r: Result<Self, DecodeError>)
        ensures
            r == match encoding_of_bits(bits as nat) {
                Some(e) => Ok(e),
                None => Err::<DeflateEncoding, DecodeError>(DecodeError::InvalidData),
            },
    {
        if bits == 0 {
            Ok(DeflateEncoding::NoCompression)
        } else if bits == 1 {
            Ok(DeflateEncoding::FixedHuffman)
        } else if bits == 2 {
            Ok(DeflateEncoding::DynamicHuffman)
        } else {
            Err(DecodeError::InvalidData)
        }
    }

    /// The two BTYPE bits of the encoding, as an integer.
    pub fn to_bits(self) -> (r: u8)
        ensures
            encoding_of_bits(r as nat) == Some(self),
            r <= 2,
    {
        match self {
            DeflateEncoding::NoCompression => 0,
            DeflateEncoding::FixedHuffman => 1,
            DeflateEncoding::DynamicHuffman => 2,
        }
    }
}

/// Parses one symbol: a literal/length code, and for a length code its extra
/// bits, the distance code and the distance's extra bits. Fails with
/// `InvalidData` on a length code above 285 or a distance code above 29.
fn parse_symbol(
    length_huffman_tree: &HuffmanTree,
    distance_encoding: &DistanceEncoding,
    in_: &mut BitReader,
) -> (r: Result<Symbol, DecodeError>)
    requires
        length_huffman_tree.wf(),
        distance_encoding.wf(),
        old(in_).wf(),
    ensures
        final(in_).wf(),
        final(in_).data() == old(in_).data(),
        match parse_symbol_spec(
            length_huffman_tree.view(),
            distance_encoding.model(),
            old(in_).data(),
            old(in_).pos(),
        ) {
            Ok((s, p)) => r == Ok::<Symbol, DecodeError>(s) && final(in_).pos() == p,
            Err(e) => r == Err::<Symbol, DecodeError>(e),
        },
{
    let ghost data = in_.data();
    let length_code = length_huffman_tree.decode(in_)?;
    proof {
        in_.lemma_pos_bounds();
    }
    if length_code < 256 {
        Ok(Symbol::Literal(length_code as u8))
    } else if length_code == 256 {
        Ok(Symbol::EndOfBlock)
    } else if length_code <= 285 {
        let m = (length_code - 257) as u8;
        proof {
            lemma_code_ranges(m as nat, 0);
            lemma_pow2_values();
        }
        let extra_bit_count: usize = if 8 <= m && m < 28 {
            (m / 4 - 1) as usize
        } else {
            0
        };
        let base: u32 = if m < 8 {
            m as u32
        } else if m == 28 {
            255
        } else {
            crate::huffman::pow2_u32((m / 4 + 1) as usize) + crate::huffman::pow2_u32(
                (m / 4 - 1) as usize,
            ) * (m % 4) as u32
        };
        let ghost pos_a = in_.pos();
        let extra_bits = in_.read_u8_from_bits(extra_bit_count)?;
        proof {
            lemma_bits_value_bound(data, pos_a, extra_bit_count as nat);
            assert(length_base(m as nat) == base);
            assert(length_code_extra_bits(m as nat) == extra_bit_count);
        }
        let length_minus_three = (base + extra_bits as u32) as u8;
        let distance_code = distance_encoding.decode(in_)?;
        proof {
            in_.lemma_pos_bounds();
        }
        if distance_code > 29 {
            return Err(DecodeError::InvalidData);
        }
        proof {
            lemma_code_ranges(0, distance_code as nat);
        }
        let dc = distance_code as u32;
        let distance_extra_count: usize = if dc < 4 {
            0
        } else {
            (dc / 2 - 1) as usize
        };
        let distance_base_value: u32 = if dc < 4 {
            dc
        } else {
            crate::huffman::pow2_u32((dc / 2) as usize) + crate::huffman::pow2_u32(
                (dc / 2 - 1) as usize,
            ) * (dc % 2)
        };
        let ghost pos_c = in_.pos();
        let distance_extra = in_.read_u16_from_bits(distance_extra_count)?;
        proof {
            lemma_bits_value_bound(data, pos_c, distance_extra_count as nat);
            assert(distance_base(dc as nat) == distance_base_value);
            assert(distance_code_extra_bits(dc as nat) == distance_extra_count);
        }
        let distance_minus_one = (distance_base_value + distance_extra as u32) as u16;
        Ok(Symbol::BackReference { length_minus_three, distance_minus_one })
    } else {
        Err(DecodeError::InvalidData)
    }
}


/// The code lengths expanded from run-length coding are at most 15.
proof fn lemma_rle_lengths_small(tree: Seq<Option<u16>>, data: Seq<u8>, pos: int, count: nat)
    ensures
        rle_lengths(tree, data, pos, count, Seq::empty(), None) matches Ok((lengths, p)) ==> pos
            <= p && lengths.len() == count && (forall|i: int|
            0 <= i < lengths.len() ==> lengths[i] <= 15),
{
    lemma_rle_advances(tree, data, pos, count, Seq::empty(), None);
}

/// Decodes a DEFLATE stream block by block, keeping the last 32 768 bytes it
/// produced for back-references.
pub struct DeflateDecoder {
    out_buffer: OutBuffer,
    stage: DecodeStage,
}

impl DeflateDecoder {
    /// Where the decoder stands.
    pub closed spec fn stage(&self) -> DecodeStage {
        self.stage
    }

    /// Every byte the decoder has produced.
    pub closed spec fn history(&self) -> Seq<u8> {
        self.out_buffer.history()
    }

    pub closed spec fn wf(&self) -> bool {
        self.out_buffer.wf()
    }

    /// A decoder at the start of a stream.
    pub fn new() -> (r: Self)
        ensures
            r.wf(),
            r.stage() == DecodeStage::NewBlock,
            r.history() == Seq::<u8>::empty(),
    {
        DeflateDecoder { out_buffer: OutBuffer::new(), stage: DecodeStage::NewBlock }
    }

    /// Emits one byte to the sink and to the window.
    fn emit(&mut self, out: &mut OutWithChecksum, byte: u8, Ghost(out0): Ghost<Seq<u8>>, Ghost(
        h0,
    ): Ghost<nat>)
        requires
            old(self).wf(),
            old(out).wf(),
            h0 <= old(self).history().len(),
            old(out).view() == out0 + old(self).history().subrange(
                h0 as int,
                old(self).history().len() as int,
            ),
        ensures
            final(self).wf(),
            final(out).wf(),
            final(self).stage == old(self).stage,
            final(self).history() == old(self).history().push(byte),
            extends(final(self).history(), old(self).history()),
            final(out).view() == out0 + final(self).history().subrange(
                h0 as int,
                final(self).history().len() as int,
            ),
    {
        out.write_byte(byte);
        self.out_buffer.push(byte);
        proof {
            let h = self.history();
            assert(h.subrange(0, old(self).history().len() as int) =~= old(self).history());
            assert(h.subrange(h0 as int, h.len() as int) =~= old(self).history().subrange(
                h0 as int,
                old(self).history().len() as int,
            ).push(byte));
        }
    }

    /// Decodes the body of a Huffman block up to its end-of-block symbol.
    /// Fails with `InvalidData` on a back-reference beyond the bytes produced.
    #[verifier::loop_isolation(false)]
    #[verifier::rlimit(40)]
    fn decode_huffman_block(
        &mut self,
        in_: &mut BitReader,
        out: &mut OutWithChecksum,
        literal_huffman_tree: &HuffmanTree,
        distance_encoding: &DistanceEncoding,
    ) -> (r: Result<(), DecodeError>)
        requires
            old(self).wf(),
            old(in_).wf(),
            old(out).wf(),
            literal_huffman_tree.wf(),
            distance_encoding.wf(),
        ensures
            final(self).wf(),
            final(in_).wf(),
            final(out).wf(),
            final(self).stage == old(self).stage,
            final(in_).data() == old(in_).data(),
            extends(final(self).history(), old(self).history()),
            final(out).view() == old(out).view() + final(self).history().subrange(
                old(self).history().len() as int,
                final(self).history().len() as int,
            ),
            match huffman_block(
                literal_huffman_tree.view(),
                distance_encoding.model(),
                old(in_).data(),
                old(in_).pos(),
                old(self).history(),
            ) {
                Ok((o, p)) => r is Ok && final(self).history() == o && final(in_).pos() == p,
                Err(e) => r == Err::<(), DecodeError>(e),
            },
    {
        let ghost data = in_.data();
        let ghost out0 = out.view();
        let ghost h0 = self.history().len();
        let ghost lit = literal_huffman_tree.view();
        let ghost dist = distance_encoding.model();
        let ghost goal = huffman_block(lit, dist, data, in_.pos(), self.history());
        proof {
            assert(self.history().subrange(0, h0 as int) =~= self.history());
        }
        loop
            invariant
                self.wf(),
                in_.wf(),
                out.wf(),
                literal_huffman_tree.wf(),
                distance_encoding.wf(),
                lit == literal_huffman_tree.view(),
                dist == distance_encoding.model(),
                self.stage == old(self).stage,
                in_.data() == data,
                data == old(in_).data(),
                goal == huffman_block(lit, dist, data, old(in_).pos(), old(self).history()),
                h0 == old(self).history().len(),
                out0 == old(out).view(),
                h0 <= self.history().len(),
                extends(self.history(), old(self).history()),
                out.view() == out0 + self.history().subrange(h0 as int, self.history().len() as int),
                huffman_block(lit, dist, data, in_.pos(), self.history()) == goal,
            decreases 8 * data.len() - in_.pos(),
        {
            proof {
                in_.lemma_pos_bounds();
                lemma_parse_advances(lit, dist, data, in_.pos());
            }
            let ghost pos = in_.pos();
            let symbol = match parse_symbol(literal_huffman_tree, distance_encoding, in_) {
                Ok(s) => s,
                Err(e) => {
                    return Err(e);
                },
            };
            let ghost hb = self.history();
            proof {
                assert(huffman_block(lit, dist, data, pos, hb) == match symbol {
                    Symbol::Literal(b) => huffman_block(lit, dist, data, in_.pos(), hb.push(b)),
                    Symbol::EndOfBlock => Ok((hb, in_.pos())),
                    Symbol::BackReference { length_minus_three, distance_minus_one } => {
                        if distance_minus_one >= hb.len() {
                            Err(DecodeError::InvalidData)
                        } else {
                            huffman_block(
                                lit,
                                dist,
                                data,
                                in_.pos(),
                                copy_back(
                                    hb,
                                    distance_minus_one as nat,
                                    length_minus_three as nat + 3,
                                ),
                            )
                        }
                    },
                });
            }
            match symbol {
                Symbol::Literal(literal) => {
                    self.emit(out, literal, Ghost(out0), Ghost(h0));
                    proof {
                        lemma_extends_trans(self.history(), hb, old(self).history());
                    }
                },
                Symbol::EndOfBlock => {
                    return Ok(());
                },
                Symbol::BackReference { length_minus_three, distance_minus_one } => {
                    let length = length_minus_three as u16 + 3;
                    let ghost start = self.history();
                    proof {
                        assert(start.subrange(0, start.len() as int) =~= start);
                    }
                    let mut k: u16 = 0;
                    while k < length
                        invariant
                            self.wf(),
                            out.wf(),
                            self.stage == old(self).stage,
                            k <= length,
                            length == length_minus_three + 3,
                            distance_minus_one <= 32767,
                            h0 <= start.len() <= self.history().len(),
                            extends(self.history(), start),
                            extends(start, old(self).history()),
                            out.view() == out0 + self.history().subrange(
                                h0 as int,
                                self.history().len() as int,
                            ),
                            k > 0 ==> distance_minus_one < start.len(),
                            k == 0 ==> self.history() == start,
                            copy_back(self.history(), distance_minus_one as nat, (length - k) as nat)
                                == copy_back(start, distance_minus_one as nat, length as nat),
                        decreases length - k,
                    {
                        let byte = match self.out_buffer.get(distance_minus_one as usize) {
                            Some(b) => b,
                            None => {
                                return Err(DecodeError::InvalidData);
                            },
                        };
                        proof {
                            let h = self.history();
                            assert(byte == h[h.len() - 1 - distance_minus_one]);
                            assert(copy_back(h, distance_minus_one as nat, (length - k) as nat)
                                == copy_back(
                                h.push(byte),
                                distance_minus_one as nat,
                                (length - k - 1) as nat,
                            ));
                        }
                        let ghost hk = self.history();
                        self.emit(out, byte, Ghost(out0), Ghost(h0));
                        proof {
                            lemma_extends_trans(self.history(), hk, start);
                        }
                        k = k + 1;
                    }
                    proof {
                        lemma_extends_trans(self.history(), start, old(self).history());
                        assert(copy_back(self.history(), distance_minus_one as nat, 0)
                            == self.history());
                    }
                },
            }
        }
    }

    /// Decodes the body of a stored block: skips to a byte boundary, reads LEN
    /// and NLEN, and copies LEN bytes. Fails with `InvalidData` unless NLEN is
    /// the complement of LEN.
    #[verifier::loop_isolation(false)]
    fn decode_stored_block(&mut self, in_: &mut BitReader, out: &mut OutWithChecksum) -> (r: Result<
        (),
        DecodeError,
    >)
        requires
            old(self).wf(),
            old(in_).wf(),
            old(out).wf(),
        ensures
            final(self).wf(),
            final(in_).wf(),
            final(out).wf(),
            final(self).stage == old(self).stage,
            final(in_).data() == old(in_).data(),
            extends(final(self).history(), old(self).history()),
            final(out).view() == old(out).view() + final(self).history().subrange(
                old(self).history().len() as int,
                final(self).history().len() as int,
            ),
            match stored_block(old(in_).data(), old(in_).pos(), old(self).history()) {
                Ok((o, p)) => r is Ok && final(self).history() == o && final(in_).pos() == p,
                Err(e) => r == Err::<(), DecodeError>(e),
            },
    {
        let ghost data = in_.data();
        let ghost out0 = out.view();
        let ghost h0 = self.history().len();
        proof {
            assert(self.history().subrange(0, h0 as int) =~= self.history());
        }
        in_.skip_to_byte_end();
        let len = in_.read_u16()?;
        let nlen = in_.read_u16()?;
        proof {
            assert(!len == 0xffff - len) by (bit_vector);
        }
        if !len != nlen {
            return Err(DecodeError::InvalidData);
        }
        let ghost p = in_.pos();
        let ghost start = self.history();
        let mut i: u16 = 0;
        while i < len
            invariant
                self.wf(),
                in_.wf(),
                out.wf(),
                self.stage == old(self).stage,
                in_.data() == data,
                i <= len,
                in_.pos() == p + 8 * i,
                p + 8 * i <= 8 * data.len(),
                h0 == start.len(),
                start == old(self).history(),
                extends(self.history(), start),
                self.history() == start + stored_bytes(data, p, i as nat),
                out.view() == out0 + self.history().subrange(h0 as int, self.history().len() as int),
            decreases len - i,
        {
            let byte = in_.read_u8()?;
            proof {
                lemma_bits_value_bound(data, p + 8 * i, 8);
                lemma_pow2_values();
            }
            self.emit(out, byte, Ghost(out0), Ghost(h0));
            proof {
                assert(self.history() =~= start + stored_bytes(data, p, (i + 1) as nat));
                assert(self.history().subrange(0, h0 as int) =~= start);
            }
            i = i + 1;
        }
        proof {
            assert(self.history().subrange(0, h0 as int) =~= start);
        }
        Ok(())
    }

    /// Decodes a block body of the given encoding.
    #[verifier::rlimit(40)]
    fn decode_block_body(
        &mut self,
        encoding: DeflateEncoding,
        in_: &mut BitReader,
        out: &mut OutWithChecksum,
    ) -> (r: Result<(), DecodeError>)
        requires
            old(self).wf(),
            old(in_).wf(),
            old(out).wf(),
        ensures
            final(self).wf(),
            final(in_).wf(),
            final(out).wf(),
            final(self).stage == old(self).stage,
            final(in_).data() == old(in_).data(),
            extends(final(self).history(), old(self).history()),
            final(out).view() == old(out).view() + final(self).history().subrange(
                old(self).history().len() as int,
                final(self).history().len() as int,
            ),
            match block_body(encoding, old(in_).data(), old(in_).pos(), old(self).history()) {
                Ok((o, p)) => r is Ok && final(in_).pos() == p && final(self).history() == o,
                Err(e) => r == Err::<(), DecodeError>(e),
            },
    {
        proof {
            reveal(block_body);
            assert(self.history().subrange(0, self.history().len() as int) =~= self.history());
        }
        match encoding {
            DeflateEncoding::NoCompression => self.decode_stored_block(in_, out),
            DeflateEncoding::FixedHuffman => {
                let literal_huffman_tree = HuffmanTree::fixed_literal();
                self.decode_huffman_block(in_, out, &literal_huffman_tree, &DistanceEncoding::Fixed)
            },
            DeflateEncoding::DynamicHuffman => {
                let (literal_huffman_tree, distance_huffman_tree) = Self::read_dynamic_trees(in_)?;
                let distance_encoding = DistanceEncoding::Dynamic(distance_huffman_tree);
                proof {
                    assert(distance_encoding.model() == Some(distance_huffman_tree.view()));
                }
                self.decode_huffman_block(in_, out, &literal_huffman_tree, &distance_encoding)
            },
        }
    }

    /// Performs one step: reads a block header, or decodes a block body.
    #[verifier::loop_isolation(false)]
    fn advance_stage(&mut self, in_: &mut BitReader, out: &mut OutWithChecksum) -> (r: Result<
        (),
        DecodeError,
    >)
        requires
            old(self).wf(),
            old(in_).wf(),
            old(out).wf(),
        ensures
            final(self).wf(),
            final(in_).wf(),
            final(out).wf(),
            final(in_).data() == old(in_).data(),
            extends(final(self).history(), old(self).history()),
            final(out).view() == old(out).view() + final(self).history().subrange(
                old(self).history().len() as int,
                final(self).history().len() as int,
            ),
            match decode_step(old(self).stage(), old(in_).data(), old(in_).pos(), old(self).history()) {
                Ok((st, p, o)) => r is Ok && final(self).stage() == st && final(in_).pos() == p
                    && final(self).history() == o,
                Err(e) => r == Err::<(), DecodeError>(e),
            },
    {
        proof {
            reveal(decode_step);
            assert(self.history().subrange(0, self.history().len() as int) =~= self.history());
        }
        match self.stage {
            DecodeStage::NewBlock => {
                let ghost pos = in_.pos();
                let is_final = in_.read_bool()?;
                let encoding_bits = in_.read_u8_from_bits(2)?;
                let encoding = DeflateEncoding::from_bits(encoding_bits)?;
                self.stage = DecodeStage::ParsedMode { is_final, encoding };
                proof {
                    assert(self.history().subrange(0, self.history().len() as int) =~= self.history());
                    assert(self.history().subrange(
                        self.history().len() as int,
                        self.history().len() as int,
                    ) =~= Seq::<u8>::empty());
                    assert(out.view() =~= old(out).view() + Seq::<u8>::empty());
                }
                Ok(())
            },
            DecodeStage::ParsedMode { is_final, encoding } => {
                self.decode_block_body(encoding, in_, out)?;
                if is_final {
                    in_.skip_to_byte_end();
                    self.stage = DecodeStage::Complete;
                } else {
                    self.stage = DecodeStage::NewBlock;
                }
                Ok(())
            },
            DecodeStage::Complete => {
                proof {
                    assert(self.history().subrange(0, self.history().len() as int) =~= self.history());
                    assert(self.history().subrange(
                        self.history().len() as int,
                        self.history().len() as int,
                    ) =~= Seq::<u8>::empty());
                    assert(out.view() =~= old(out).view() + Seq::<u8>::empty());
                }
                Ok(())
            },
        }
    }

    /// Decodes the stream from where the decoder stands to the end of its
    /// final block, writing what it produces to `out`; the reader is then on
    /// a byte boundary after the stream.
    pub fn decode(&mut self, in_: &mut BitReader, out: &mut OutWithChecksum) -> (r: Result<
        (),
        DecodeError,
    >)
        requires
            old(self).wf(),
            old(in_).wf(),
            old(out).wf(),
        ensures
            final(self).wf(),
            final(in_).wf(),
            final(out).wf(),
            final(in_).data() == old(in_).data(),
            match decode_run(old(self).stage(), old(in_).data(), old(in_).pos(), old(self).history()) {
                Ok((o, p)) => {
                    &&& r is Ok
                    &&& final(self).stage() == DecodeStage::Complete
                    &&& final(in_).pos() == p
                    &&& final(self).history() == o
                    &&& old(self).history().len() <= o.len()
                    &&& final(out).view() == old(out).view() + o.subrange(
                        old(self).history().len() as int,
                        o.len() as int,
                    )
                },
                Err(e) => r == Err::<(), DecodeError>(e),
            },
    {
        let ghost data = in_.data();
        let ghost goal = decode_run(self.stage, data, in_.pos(), self.history());
        let ghost out0 = out.view();
        let ghost h0 = self.history().len();
        proof {
            in_.lemma_pos_bounds();
            assert(self.history().subrange(0, h0 as int) =~= self.history());
        }
        while self.stage != DecodeStage::Complete
            invariant
                self.wf(),
                in_.wf(),
                out.wf(),
                in_.data() == data,
                data == old(in_).data(),
                goal == decode_run(old(self).stage(), data, old(in_).pos(), old(self).history()),
                out0 == old(out).view(),
                h0 == old(self).history().len(),
                h0 <= self.history().len(),
                extends(self.history(), old(self).history()),
                out.view() == out0 + self.history().subrange(h0 as int, self.history().len() as int),
                decode_run(self.stage, data, in_.pos(), self.history()) == goal,
                0 <= in_.pos() <= 8 * data.len(),
            decreases stage_measure(self.stage, data, in_.pos()) + 2,
        {
            let ghost stage = self.stage;
            let ghost pos = in_.pos();
            let ghost hist = self.history();
            let ghost out1 = out.view();
            proof {
                lemma_step_advances(stage, data, pos, hist);
            }
            self.advance_stage(in_, out)?;
            proof {
                in_.lemma_pos_bounds();
                lemma_extends_trans(self.history(), hist, old(self).history());
                assert(self.history().subrange(h0 as int, self.history().len() as int) =~= hist.subrange(
                    h0 as int,
                    hist.len() as int,
                ) + self.history().subrange(hist.len() as int, self.history().len() as int));
            }
        }
        proof {
            assert(self.stage() == DecodeStage::Complete);
        }
        Ok(())
    }

    /// Reads a dynamic block's header and builds its two trees.
    #[verifier::loop_isolation(false)]
    fn read_dynamic_trees(in_: &mut BitReader) -> (r: Result<(HuffmanTree, HuffmanTree), DecodeError>)
        requires
            old(in_).wf(),
        ensures
            final(in_).wf(),
            final(in_).data() == old(in_).data(),
            match dynamic_lengths(old(in_).data(), old(in_).pos()) {
                Ok((lit, dist, p)) => r matches Ok((lt, dt)) && lt.wf() && dt.wf() && lt.view()
                    == tree_model(lit) && dt.view() == tree_model(dist) && final(in_).pos() == p,
                Err(e) => r matches Err(x) && x == e,
            },
    {
        let ghost data = in_.data();
        let ghost pos = in_.pos();
        let hlit = in_.read_u16_from_bits(5)?;
        let hdist = in_.read_u8_from_bits(5)?;
        let hclen = in_.read_u8_from_bits(4)?;
        proof {
            lemma_bits_value_bound(data, pos, 5);
            lemma_bits_value_bound(data, pos + 5, 5);
            lemma_bits_value_bound(data, pos + 10, 4);
            lemma_pow2_values();
        }
        let literal_code_length_count = hlit as usize + 257;
        let distance_code_length_count = hdist as usize + 1;
        let code_length_symbol_count = hclen as usize + 4;
        let ghost p = pos + 14;
        let mut code_lengths_in_symbol_order: Vec<u8> = Vec::new();
        let mut i: usize = 0;
        while i < code_length_symbol_count
            invariant
                in_.wf(),
                in_.data() == data,
                i <= code_length_symbol_count,
                code_length_symbol_count <= 19,
                in_.pos() == p + 3 * i,
                code_lengths_in_symbol_order@ == Seq::new(
                    i as nat,
                    |j: int| bits_value(data, p + 3 * j, 3) as u8,
                ),
                forall|j: int| 0 <= j < i ==> code_lengths_in_symbol_order@[j] <= 7,
            decreases code_length_symbol_count - i,
        {
            let ghost q = in_.pos();
            let code_length = match in_.read_u8_from_bits(3) {
                Ok(c) => c,
                Err(e) => {
                    return Err(e);
                },
            };
            proof {
                lemma_bits_value_bound(data, q, 3);
                lemma_pow2_values();
            }
            code_lengths_in_symbol_order.push(code_length);
            proof {
                assert(code_lengths_in_symbol_order@ =~= Seq::new(
                    (i + 1) as nat,
                    |j: int| bits_value(data, p + 3 * j, 3) as u8,
                ));
            }
            i = i + 1;
        }
        let code_lengths_huffman_tree = HuffmanTree::dynamic_code_lengths(
            code_lengths_in_symbol_order.as_slice(),
        );
        let ghost q = in_.pos();
        let lengths = code_lengths_huffman_tree.decode_code_lengths(
            literal_code_length_count + distance_code_length_count,
            in_,
        )?;
        proof {
            lemma_rle_lengths_small(
                code_lengths_huffman_tree.view(),
                data,
                q,
                (literal_code_length_count + distance_code_length_count) as nat,
            );
        }
        let mut literal_lengths: Vec<u8> = Vec::new();
        let mut distance_lengths: Vec<u8> = Vec::new();
        let mut k: usize = 0;
        while k < lengths.len()
            invariant
                k <= lengths.len(),
                literal_code_length_count <= lengths.len(),
                k <= literal_code_length_count ==> literal_lengths@ == lengths@.subrange(0, k as int)
                    && distance_lengths@.len() == 0,
                k > literal_code_length_count ==> literal_lengths@ == lengths@.subrange(
                    0,
                    literal_code_length_count as int,
                ) && distance_lengths@ == lengths@.subrange(
                    literal_code_length_count as int,
                    k as int,
                ),
            decreases lengths.len() - k,
        {
            if k < literal_code_length_count {
                literal_lengths.push(lengths[k]);
            } else {
                distance_lengths.push(lengths[k]);
            }
            proof {
                assert(literal_lengths@ =~= lengths@.subrange(
                    0,
                    if k < literal_code_length_count {
                        k + 1
                    } else {
                        literal_code_length_count as int
                    },
                ));
                if k >= literal_code_length_count {
                    assert(distance_lengths@ =~= lengths@.subrange(
                        literal_code_length_count as int,
                        k + 1,
                    ));
                }
            }
            k = k + 1;
        }
        proof {
            if lengths.len() == literal_code_length_count {
                assert(distance_lengths@ =~= lengths@.subrange(
                    literal_code_length_count as int,
                    lengths.len() as int,
                ));
            }
        }
        let literal_tree = HuffmanTree::from_code_lengths(literal_lengths.as_slice());
        let distance_tree = HuffmanTree::from_code_lengths(distance_lengths.as_slice());
        Ok((literal_tree, distance_tree))
    }
}


/// The largest number of bytes in a stored block.
pub const MAX_BYTES_PER_BLOCK: usize = 65535;

/// A 16-bit value in little-endian byte order.
pub open spec fn le16(n: nat) -> Seq<u8> {
    seq![(n % 256) as u8, ((n / 256) % 256) as u8]
}

/// One stored block holding `chunk`: a header byte with BFINAL and BTYPE 00,
/// LEN, NLEN, and the bytes.
pub open spec fn stored_block_bytes(chunk: Seq<u8>, is_final: bool) -> Seq<u8> {
    seq![if is_final { 1u8 } else { 0u8 }] + le16(chunk.len()) + le16(
        (65535 - chunk.len()) as nat,
    ) + chunk
}

/// The stored-block encoding of `s`: blocks of 65 535 bytes, then a final
/// block with what is left, which is empty when 65 535 divides the length.
pub open spec fn stored_encoding(s: Seq<u8>) -> Seq<u8>
    decreases s.len(),
{
    if s.len() < 65535 {
        stored_block_bytes(s, true)
    } else {
        stored_block_bytes(s.subrange(0, 65535), false) + stored_encoding(
            s.subrange(65535, s.len() as int),
        )
    }
}

/// Where the encoder stands.
#[derive(Debug, Clone, Copy, PartialEq, Eq, Structural)]
pub enum EncodeStage {
    NewBlock,
    Complete,
}

/// Encodes bytes as a DEFLATE stream of stored (uncompressed) blocks.
pub struct DeflateEncoder {
    stage: EncodeStage,
}

impl DeflateEncoder {
    /// Where the encoder stands.
    pub closed spec fn stage(&self) -> EncodeStage {
        self.stage
    }

    /// An encoder at the start of a stream.
    pub fn new() -> (r: Self)
        ensures
            r.stage() == EncodeStage::NewBlock,
    {
        DeflateEncoder { stage: EncodeStage::NewBlock }
    }

    /// Writes the header byte of a stored block: BFINAL, BTYPE 00, padding.
    fn write_header(out: &mut BitWriter, is_eof: bool)
        requires
            old(out).wf(),
            old(out).is_aligned(),
        ensures
            final(out).wf(),
            final(out).is_aligned(),
            final(out).bytes() == old(out).bytes().push(if is_eof { 1u8 } else { 0u8 }),
    {
        let ghost b0 = out.bytes();
        proof {
            out.lemma_aligned();
        }
        let header: [bool; 1] = [is_eof];
        out.write_all(header.as_slice());
        let encoding_bits = DeflateEncoding::NoCompression.to_bits();
        let btype: [bool; 2] = [encoding_bits % 2 == 1, encoding_bits / 2 == 1];
        out.write_all(btype.as_slice());
        out.flush_even_if_partial();
        proof {
            let h: u8 = if is_eof { 1u8 } else { 0u8 };
            out.lemma_aligned();
            lemma_stream_bits_push(b0, h);
            lemma_pow2_values();
            assert(8 * b0.len() + 3 == 8 * (b0.len() + 1) - 5);
            assert forall|j: int| 0 <= j < 8 implies #[trigger] byte_bits(h)[j] == (j == 0
                && is_eof) by {
                if j == 0 {
                } else {
                    assert(pow2(j as nat) >= 2) by {
                        crate::arith::lemma_pow2_monotonic(1, j as nat);
                    }
                    vstd::arithmetic::div_mod::lemma_basic_div(h as int, pow2(j as nat) as int);
                }
            }
            assert(stream_bits(out.bytes()) =~= stream_bits(b0.push(h)));
            lemma_stream_bits_injective(out.bytes(), b0.push(h));
        }
    }

    /// Writes one stored block: the header, LEN, NLEN and the bytes
    /// `in_[start..start + len]`.
    fn write_stored_block(out: &mut BitWriter, in_: &[u8], start: usize, len: usize, is_eof: bool)
        requires
            old(out).wf(),
            old(out).is_aligned(),
            start + len <= in_.len(),
            len <= 65535,
        ensures
            final(out).wf(),
            final(out).is_aligned(),
            final(out).bytes() == old(out).bytes() + stored_block_bytes(
                in_@.subrange(start as int, start + len),
                is_eof,
            ),
    {
        let ghost b0 = out.bytes();
        Self::write_header(out, is_eof);
        let len_header = len as u16;
        let nlen_header = !len_header;
        proof {
            assert(!len_header == 0xffff - len_header) by (bit_vector);
        }
        out.write_u8((len_header % 256) as u8);
        out.write_u8((len_header / 256) as u8);
        out.write_u8((nlen_header % 256) as u8);
        out.write_u8((nlen_header / 256) as u8);
        let ghost b1 = out.bytes();
        let mut i: usize = 0;
        while i < len
            invariant
                out.wf(),
                out.is_aligned(),
                start + len <= in_.len(),
                i <= len,
                out.bytes() == b1 + in_@.subrange(start as int, start + i),
            decreases len - i,
        {
            out.write_u8(in_[start + i]);
            proof {
                assert(in_@.subrange(start as int, start + i + 1) =~= in_@.subrange(
                    start as int,
                    start + i,
                ).push(in_@[start + i]));
            }
            i = i + 1;
        }
        proof {
            let chunk = in_@.subrange(start as int, start + len);
            assert(out.bytes() =~= b0 + stored_block_bytes(chunk, is_eof));
        }
    }

    /// Performs one step: writes the next stored block, final when fewer than
    /// 65 535 bytes remain.
    fn advance_stage(&mut self, in_: &[u8], consumed: &mut usize, out: &mut BitWriter)
        requires
            old(out).wf(),
            old(out).is_aligned(),
            *old(consumed) <= in_.len(),
            old(self).stage() == EncodeStage::NewBlock,
        ensures
            final(out).wf(),
            final(out).is_aligned(),
            *old(consumed) <= *final(consumed) <= in_.len(),
            final(self).stage() == EncodeStage::Complete ==> final(out).bytes() + Seq::empty()
                == old(out).bytes() + stored_encoding(
                in_@.subrange(*old(consumed) as int, in_.len() as int),
            ),
            final(self).stage() == EncodeStage::NewBlock ==> *final(consumed) > *old(consumed)
                && final(out).bytes() + stored_encoding(
                in_@.subrange(*final(consumed) as int, in_.len() as int),
            ) == old(out).bytes() + stored_encoding(
                in_@.subrange(*old(consumed) as int, in_.len() as int),
            ),
    {
        let start = *consumed;
        let remaining = in_.len() - start;
        let is_eof = remaining < MAX_BYTES_PER_BLOCK;
        let len = if is_eof {
            remaining
        } else {
            MAX_BYTES_PER_BLOCK
        };
        Self::write_stored_block(out, in_, start, len, is_eof);
        *consumed = start + len;
        proof {
            let rest = in_@.subrange(start as int, in_.len() as int);
            assert(rest.subrange(0, len as int) =~= in_@.subrange(start as int, start + len));
            assert(rest.subrange(len as int, rest.len() as int) =~= in_@.subrange(
                start + len,
                in_.len() as int,
            ));
            if is_eof {
                assert(rest =~= in_@.subrange(start as int, start + len));
            }
        }
        if is_eof {
            self.stage = EncodeStage::Complete;
        }
        proof {
            assert(out.bytes() + Seq::empty() =~= out.bytes());
        }
    }

    /// Appends to `out` the stored-block encoding of `in_`; does nothing once
    /// the stream is complete.
    pub fn encode(&mut self, in_: &[u8], out: &mut Vec<u8>)
        ensures
            final(self).stage() == EncodeStage::Complete,
            old(self).stage() == EncodeStage::NewBlock ==> final(out)@ == old(out)@
                + stored_encoding(in_@),
            old(self).stage() == EncodeStage::Complete ==> final(out)@ == old(out)@,
    {
        if self.stage == EncodeStage::Complete {
            return;
        }
        let mut writer = BitWriter::new(Vec::new());
        let mut consumed: usize = 0;
        proof {
            assert(in_@.subrange(0, in_.len() as int) =~= in_@);
            assert(writer.bytes() + stored_encoding(in_@) =~= stored_encoding(in_@));
        }
        while self.stage == EncodeStage::NewBlock
            invariant
                writer.wf(),
                writer.is_aligned(),
                consumed <= in_.len(),
                self.stage() == EncodeStage::NewBlock ==> writer.bytes() + stored_encoding(
                    in_@.subrange(consumed as int, in_.len() as int),
                ) == stored_encoding(in_@),
                self.stage() == EncodeStage::Complete ==> writer.bytes() == stored_encoding(in_@),
            decreases in_.len() - consumed, if self.stage() == EncodeStage::NewBlock {
                1int
            } else {
                0int
            },
        {
            let ghost before = writer.bytes();
            self.advance_stage(in_, &mut consumed, &mut writer);
            proof {
                if self.stage() == EncodeStage::Complete {
                    assert(writer.bytes() =~= writer.bytes() + Seq::<u8>::empty());
                }
            }
        }
        let mut bytes = writer.into_inner();
        out.append(&mut bytes);
    }
}


/// A byte-aligned little-endian 16-bit read.
proof fn lemma_read_le16(data: Seq<u8>, k: int)
    requires
        0 <= k,
        k + 2 <= data.len(),
    ensures
        bits_value(data, 8 * k, 16) == data[k] + 256 * data[k + 1],
{
    lemma_bits_value_split(data, 8 * k, 8, 8);
    lemma_byte_bits_value(data, k);
    lemma_byte_bits_value(data, k + 1);
    lemma_pow2_values();
    assert(8 * k + 8 == 8 * (k + 1));
}

/// The first three bits of a stored block's header byte `h`: BFINAL, then
/// BTYPE 00 when bits 1 and 2 of `h` are clear.
proof fn lemma_header_bits(data: Seq<u8>, k: int)
    requires
        0 <= k < data.len(),
    ensures
        stream_bit(data, 8 * k) == ((data[k] as nat) % 2 == 1),
        bits_value(data, 8 * k + 1, 2) == (data[k] as nat / 2) % 4,
{
    lemma_byte_bits_value_from(data, k, 1, 2);
    lemma_pow2_values();
    assert((8 * k) / 8 == k && (8 * k) % 8 == 0);
}

proof fn lemma_step_new_block(data: Seq<u8>, pos: int, out: Seq<u8>)
    requires
        pos + 3 <= 8 * data.len(),
    ensures
        decode_step(DecodeStage::NewBlock, data, pos, out) == match encoding_of_bits(
            bits_value(data, pos + 1, 2),
        ) {
            Some(encoding) => Ok(
                (DecodeStage::ParsedMode { is_final: stream_bit(data, pos), encoding }, pos + 3, out),
            ),
            None => Err(DecodeError::InvalidData),
        },
{
    reveal(decode_step);
}

proof fn lemma_step_stored(data: Seq<u8>, pos: int, out: Seq<u8>, is_final: bool)
    ensures
        decode_step(
            DecodeStage::ParsedMode { is_final, encoding: DeflateEncoding::NoCompression },
            data,
            pos,
            out,
        ) == match stored_block(data, pos, out) {
            Err(e) => Err(e),
            Ok((o, p)) => if is_final {
                Ok((DecodeStage::Complete, align_up(p), o))
            } else {
                Ok((DecodeStage::NewBlock, p, o))
            },
        },
{
    reveal(decode_step);
    reveal(block_body);
}

/// Decoding one stored block holding `chunk`, found at byte `k` of `data`.
proof fn lemma_stored_block_at(data: Seq<u8>, k: int, chunk: Seq<u8>, is_final: bool, out: Seq<u8>)
    requires
        0 <= k,
        chunk.len() <= 65535,
        k + 5 + chunk.len() <= data.len(),
        forall|j: int|
            0 <= j < 5 + chunk.len() ==> data[k + j] == #[trigger] stored_block_bytes(
                chunk,
                is_final,
            )[j],
    ensures
        decode_step(DecodeStage::NewBlock, data, 8 * k, out) == Ok::<
            (DecodeStage, int, Seq<u8>),
            DecodeError,
        >(
            (
                DecodeStage::ParsedMode { is_final, encoding: DeflateEncoding::NoCompression },
                8 * k + 3,
                out,
            ),
        ),
        decode_step(
            DecodeStage::ParsedMode { is_final, encoding: DeflateEncoding::NoCompression },
            data,
            8 * k + 3,
            out,
        ) == Ok::<(DecodeStage, int, Seq<u8>), DecodeError>(
            (
                if is_final {
                    DecodeStage::Complete
                } else {
                    DecodeStage::NewBlock
                },
                8 * (k + 5 + chunk.len()),
                out + chunk,
            ),
        ),
{
    let n = chunk.len();
    let block = stored_block_bytes(chunk, is_final);
    let h = data[k];
    assert(h == block[0]);
    lemma_header_bits(data, k);
    let pos1 = 8 * k + 3;
    lemma_step_new_block(data, 8 * k, out);
    lemma_step_stored(data, pos1, out, is_final);
    assert(align_up(pos1) == 8 * (k + 1));
    lemma_read_le16(data, k + 1);
    lemma_read_le16(data, k + 3);
    assert(data[k + 1] == block[1] && data[k + 2] == block[2]);
    assert(data[k + 3] == block[3] && data[k + 4] == block[4]);
    assert(bits_value(data, 8 * (k + 1), 16) == n);
    assert(8 * (k + 1) + 16 == 8 * (k + 3));
    assert(bits_value(data, 8 * (k + 1) + 16, 16) == 65535 - n);
    let p = 8 * (k + 1) + 32;
    assert(p == 8 * (k + 5));
    assert(stored_bytes(data, p, n) =~= chunk) by {
        assert forall|i: int| 0 <= i < n implies #[trigger] stored_bytes(data, p, n)[i] == chunk[i] by {
            assert(p + 8 * i == 8 * (k + 5 + i));
            lemma_byte_bits_value(data, k + 5 + i);
            assert(data[k + (5 + i)] == block[5 + i]);
            assert(block[5 + i] == chunk[i]);
        }
    }
    let after = p + 8 * n;
    assert(after == 8 * (k + 5 + n));
    assert(align_up(after) == after);
    assert(stored_block(data, pos1, out) == Ok::<(Seq<u8>, int), DecodeError>((out + chunk, after)));
}

/// Decoding the stored blocks that encode `t`, found at byte `k` of `data`,
/// after output `out`, gives `out + t` and ends at the end of `data`.
proof fn lemma_stored_blocks_decode(data: Seq<u8>, k: int, t: Seq<u8>, out: Seq<u8>)
    requires
        0 <= k <= data.len(),
        data.subrange(k, data.len() as int) == stored_encoding(t),
    ensures
        decode_run(DecodeStage::NewBlock, data, 8 * k, out) == Ok::<(Seq<u8>, int), DecodeError>(
            (out + t, 8 * data.len() as int),
        ),
    decreases t.len(),
{
    let is_final = t.len() < 65535;
    let n: nat = if is_final {
        t.len()
    } else {
        65535
    };
    let chunk = t.subrange(0, n as int);
    let block = stored_block_bytes(chunk, is_final);
    let rest = t.subrange(65535, t.len() as int);
    assert(stored_encoding(t) == if is_final {
        block
    } else {
        block + stored_encoding(rest)
    });
    assert(data.len() - k >= block.len());
    assert forall|j: int| 0 <= j < 5 + chunk.len() implies data[k + j] == #[trigger] block[j] by {
        assert(data.subrange(k, data.len() as int)[j] == data[k + j]);
    }
    lemma_stored_block_at(data, k, chunk, is_final, out);
    let st1 = DecodeStage::ParsedMode { is_final, encoding: DeflateEncoding::NoCompression };
    let after = 8 * (k + 5 + n);
    if is_final {
        assert(data.len() == k + 5 + n);
        assert(chunk =~= t);
        assert(decode_run(DecodeStage::Complete, data, after, out + chunk) == Ok::<
            (Seq<u8>, int),
            DecodeError,
        >((out + t, 8 * data.len() as int)));
        assert(decode_run(st1, data, 8 * k + 3, out) == decode_run(
            DecodeStage::Complete,
            data,
            after,
            out + chunk,
        ));
    } else {
        let k2 = k + 5 + 65535;
        assert(data.subrange(k2, data.len() as int) =~= stored_encoding(rest)) by {
            assert(block.len() == 5 + 65535);
            assert forall|j: int| 0 <= j < data.len() - k2 implies #[trigger] data.subrange(
                k2,
                data.len() as int,
            )[j] == stored_encoding(rest)[j] by {
                assert(data.subrange(k, data.len() as int)[k2 - k + j] == data[k2 + j]);
                assert((block + stored_encoding(rest))[block.len() + j] == stored_encoding(rest)[j]);
            }
        }
        lemma_stored_blocks_decode(data, k2, rest, out + chunk);
        assert(out + chunk + rest =~= out + t);
        assert(after == 8 * k2);
        assert(decode_run(st1, data, 8 * k + 3, out) == decode_run(
            DecodeStage::NewBlock,
            data,
            after,
            out + chunk,
        ));
    }
}

/// Decoding the stored-block encoding of any byte sequence gives the sequence
/// back, and the decoder stops at the end of the encoding.
pub proof fn lemma_deflate_round_trip(s: Seq<u8>)
    ensures
        inflate(stored_encoding(s)) == Ok::<(Seq<u8>, int), DecodeError>(
            (s, 8 * stored_encoding(s).len() as int),
        ),
{
    let data = stored_encoding(s);
    assert(data.subrange(0, data.len() as int) =~= data);
    lemma_stored_blocks_decode(data, 0, s, Seq::empty());
    assert(Seq::<u8>::empty() + s =~= s);
}

/// `data` with bit `j` of the stream flipped.
pub open spec fn flip_bit(data: Seq<u8>, j: int) -> Seq<u8> {
    data.update(j / 8, data[j / 8] ^ ((1u8 << ((j % 8) as u8)) as u8))
}

/// A stored block whose NLEN is not the complement of LEN is rejected: in a
/// stream that starts with a valid stored block, flipping any bit of LEN or
/// NLEN makes decoding fail with `InvalidData`.
pub proof fn lemma_stored_length_check(data: Seq<u8>, j: int)
    requires
        data.len() >= 5,
        (data[0] as nat / 2) % 4 == 0,
        data[1] + 256 * data[2] + data[3] + 256 * data[4] == 0xffff,
        8 <= j < 40,
    ensures
        inflate(flip_bit(data, j)) == Err::<(Seq<u8>, int), DecodeError>(DecodeError::InvalidData),
{
    let d = flip_bit(data, j);
    let i = j / 8;
    let m = (j % 8) as u8;
    let b = data[i];
    assert(b ^ ((1u8 << m) as u8) != b) by (bit_vector)
        requires
            m < 8,
    ;
    assert(d[0] == data[0]);
    lemma_header_bits(d, 0);
    lemma_read_le16(d, 1);
    lemma_read_le16(d, 3);
    assert(align_up(3) == 8);
    assert(bits_value(d, 8, 16) + bits_value(d, 24, 16) != 0xffff) by {
        assert(1 <= i <= 4);
        if i == 1 {
            assert(d[2] == data[2] && d[3] == data[3] && d[4] == data[4]);
        } else if i == 2 {
            assert(d[1] == data[1] && d[3] == data[3] && d[4] == data[4]);
        } else if i == 3 {
            assert(d[1] == data[1] && d[2] == data[2] && d[4] == data[4]);
        } else {
            assert(d[1] == data[1] && d[2] == data[2] && d[3] == data[3]);
        }
    }
    let st1 = DecodeStage::ParsedMode {
        is_final: stream_bit(d, 0),
        encoding: DeflateEncoding::NoCompression,
    };
    lemma_step_new_block(d, 0, Seq::empty());
    lemma_step_stored(d, 3, Seq::empty(), stream_bit(d, 0));
    assert(decode_step(DecodeStage::NewBlock, d, 0, Seq::empty()) == Ok::<
        (DecodeStage, int, Seq<u8>),
        DecodeError,
    >((st1, 3, Seq::empty())));
    assert(stored_block(d, 3, Seq::empty()) == Err::<(Seq<u8>, int), DecodeError>(
        DecodeError::InvalidData,
    ));
    assert(decode_run(st1, d, 3, Seq::empty()) == Err::<(Seq<u8>, int), DecodeError>(
        DecodeError::InvalidData,
    ));
}

} // verus!
