//! Canonical Huffman trees (RFC 1951 section 3.2.2), stored as an array heap:
//! the root is at index 1 and the children of index `i` are `2i` and `2i + 1`.
use crate::arith::{lemma_pow2_add, lemma_pow2_monotonic, lemma_pow2_pos, lemma_pow2_values, pow2};
use crate::bit_io::{bit_of, bits_value, stream_bit, BitReader};
use crate::error::DecodeError;
use vstd::arithmetic::div_mod::{
    lemma_div_denominator, lemma_div_is_ordered, lemma_fundamental_div_mod, lemma_mod_bound,
    lemma_small_mod,
};
use vstd::arithmetic::mul::{lemma_mul_inequality, lemma_mul_is_commutative};
use vstd::prelude::*;

verus! {

/// The number of symbols below `n` whose code length is `l`.
pub open spec fn count_len(v: Seq<u8>, l: nat, n: int) -> nat
    decreases n,
{
    if n <= 0 {
        0
    } else {
        count_len(v, l, n - 1) + (if v[n - 1] == l {
            1nat
        } else {
            0nat
        })
    }
}

/// The smallest code of length `l`: `next_code[l] = (next_code[l-1] + count[l-1]) << 1`,
/// where length 0 counts no symbol.
pub open spec fn next_code(v: Seq<u8>, l: nat) -> nat
    decreases l,
{
    if l == 0 {
        0
    } else {
        2 * (next_code(v, (l - 1) as nat) + (if l == 1 {
            0
        } else {
            count_len(v, (l - 1) as nat, v.len() as int)
        }))
    }
}

/// The canonical code of symbol `s`: codes of one length go in symbol order.
pub open spec fn code_of(v: Seq<u8>, s: int) -> nat {
    next_code(v, v[s] as nat) + count_len(v, v[s] as nat, s)
}

/// Where a code of length `len` sits in the heap: its bits, most significant
/// first, walked from the root.
pub open spec fn heap_index(code: nat, len: nat) -> nat {
    pow2(len) + code % pow2(len)
}

/// The largest code length among the first `n` symbols.
pub open spec fn max_len(v: Seq<u8>, n: int) -> nat
    decreases n,
{
    if n <= 0 {
        0
    } else if v[n - 1] as nat > max_len(v, n - 1) {
        v[n - 1] as nat
    } else {
        max_len(v, n - 1)
    }
}

/// The symbol at heap index `h` after placing the first `n` symbols: the last
/// one placed there.
pub open spec fn slot(v: Seq<u8>, h: nat, n: int) -> Option<u16>
    decreases n,
{
    if n <= 0 {
        None
    } else if v[n - 1] > 0 && heap_index(code_of(v, n - 1), v[n - 1] as nat) == h {
        Some((n - 1) as u16)
    } else {
        slot(v, h, n - 1)
    }
}

/// The tree built from code lengths `v`.
pub open spec fn tree_model(v: Seq<u8>) -> Seq<Option<u16>> {
    Seq::new(pow2(max_len(v, v.len() as int) + 1), |h: int| slot(v, h as nat, v.len() as int))
}

/// Code lengths that a tree can be built from: at most 15 bits each, and each
/// symbol numbered by a `u16`.
pub open spec fn buildable(v: Seq<u8>) -> bool {
    &&& v.len() <= 0x1_0000
    &&& forall|i: int| 0 <= i < v.len() ==> v[i] <= 15
}

/// Code lengths that form a prefix code: the codes of each length fit in that length.
pub open spec fn valid_lengths(v: Seq<u8>) -> bool {
    &&& buildable(v)
    &&& forall|l: nat| 1 <= l <= 15 ==> #[trigger] next_code(v, l) + count_len(v, l, v.len() as int) <= pow2(l)
}

/// Walks the tree from heap index `idx`, one bit of the stream at a time, to
/// the first symbol reached; gives the symbol and the bit position after it.
pub open spec fn huffman_walk(tree: Seq<Option<u16>>, data: Seq<u8>, pos: int, idx: nat) -> Result<
    (u16, int),
    DecodeError,
>
    decreases tree.len() - idx,
{
    if idx == 0 {
        Err(DecodeError::InvalidData)
    } else if pos + 1 > 8 * data.len() {
        Err(DecodeError::UnexpectedEof)
    } else {
        let j = 2 * idx + (if stream_bit(data, pos) {
            1nat
        } else {
            0nat
        });
        if j >= tree.len() {
            Err(DecodeError::InvalidData)
        } else {
            match tree[j as int] {
                Some(s) => Ok((s, pos + 1)),
                None => huffman_walk(tree, data, pos + 1, j),
            }
        }
    }
}

/// Decoding a symbol from the tree at bit `pos`.
pub open spec fn huffman_decode(tree: Seq<Option<u16>>, data: Seq<u8>, pos: int) -> Result<
    (u16, int),
    DecodeError,
> {
    huffman_walk(tree, data, pos, 1)
}

proof fn lemma_count_le(v: Seq<u8>, l: nat, n: int)
    requires
        n <= v.len(),
    ensures
        count_len(v, l, n) <= if n < 0 {
            0
        } else {
            n
        },
    decreases n,
{
    if n > 0 {
        lemma_count_le(v, l, n - 1);
    }
}

proof fn lemma_count_monotonic(v: Seq<u8>, l: nat, a: int, b: int)
    requires
        0 <= a <= b <= v.len(),
    ensures
        count_len(v, l, a) <= count_len(v, l, b),
        a < b && v[a] == l ==> count_len(v, l, a) + 1 <= count_len(v, l, b),
    decreases b - a,
{
    if a < b {
        lemma_count_monotonic(v, l, a, b - 1);
    }
}

/// `next_code(l) <= (2^(l+1) - 2) * n`, where `n` is the number of symbols.
proof fn lemma_next_code_bound(v: Seq<u8>, l: nat)
    ensures
        next_code(v, l) + 2 * v.len() <= pow2(l + 1) * v.len(),
    decreases l,
{
    lemma_pow2_pos(l);
    if l == 0 {
        assert(pow2(1) == 2);
    } else {
        lemma_next_code_bound(v, (l - 1) as nat);
        lemma_count_le(v, (l - 1) as nat, v.len() as int);
        assert(pow2(l + 1) == 2 * pow2(l));
        let n = v.len() as int;
        assert(pow2(l + 1) * n == 2 * (pow2(l) * n)) by (nonlinear_arith)
            requires
                pow2(l + 1) == 2 * pow2(l),
        ;
    }
}

/// Codes only grow with their length: `next_code(b) >= 2^(b-a) * (next_code(a) + count(a))`.
proof fn lemma_next_code_grows(v: Seq<u8>, a: nat, b: nat)
    requires
        1 <= a < b,
    ensures
        next_code(v, b) >= pow2((b - a) as nat) * (next_code(v, a) + count_len(
            v,
            a,
            v.len() as int,
        )),
    decreases b - a,
{
    let base = next_code(v, a) + count_len(v, a, v.len() as int);
    if b == a + 1 {
        lemma_pow2_values();
        assert(next_code(v, b) == 2 * (next_code(v, a) + count_len(v, a, v.len() as int)));
    } else {
        lemma_next_code_grows(v, a, (b - 1) as nat);
        assert(pow2((b - a) as nat) == 2 * pow2((b - 1 - a) as nat));
        assert(next_code(v, b) == 2 * (next_code(v, (b - 1) as nat) + count_len(
            v,
            (b - 1) as nat,
            v.len() as int,
        )));
        let p = pow2((b - 1 - a) as nat);
        assert(2 * (p * base) == (2 * p) * base) by (nonlinear_arith);
    }
}

/// Under valid lengths, a code fits in its length.
proof fn lemma_code_fits(v: Seq<u8>, s: int)
    requires
        valid_lengths(v),
        0 <= s < v.len(),
        v[s] > 0,
    ensures
        code_of(v, s) < pow2(v[s] as nat),
        heap_index(code_of(v, s), v[s] as nat) == pow2(v[s] as nat) + code_of(v, s),
{
    let l = v[s] as nat;
    lemma_count_monotonic(v, l, s, v.len() as int);
    assert(next_code(v, l) + count_len(v, l, v.len() as int) <= pow2(l));
    lemma_small_mod(code_of(v, s), pow2(l));
}

/// Under valid lengths, distinct symbols sit at distinct heap indices.
proof fn lemma_heap_index_injective(v: Seq<u8>, s: int, t: int)
    requires
        valid_lengths(v),
        0 <= s < t < v.len(),
        v[s] > 0,
        v[t] > 0,
    ensures
        heap_index(code_of(v, s), v[s] as nat) != heap_index(code_of(v, t), v[t] as nat),
{
    lemma_code_fits(v, s);
    lemma_code_fits(v, t);
    let ls = v[s] as nat;
    let lt = v[t] as nat;
    if ls == lt {
        lemma_count_monotonic(v, ls, s, t);
    } else if ls < lt {
        lemma_pow2_monotonic(ls + 1, lt);
        assert(pow2(ls + 1) == 2 * pow2(ls));
    } else {
        lemma_pow2_monotonic(lt + 1, ls);
        assert(pow2(lt + 1) == 2 * pow2(lt));
    }
}

/// What `slot` holds: a symbol placed at that index, and one whenever some
/// symbol was placed there.
proof fn lemma_slot(v: Seq<u8>, h: nat, n: int)
    requires
        0 <= n <= v.len(),
        v.len() <= 0x1_0000,
    ensures
        slot(v, h, n) matches Some(s) ==> s < n && v[s as int] > 0 && heap_index(
            code_of(v, s as int),
            v[s as int] as nat,
        ) == h,
        slot(v, h, n) is None ==> forall|t: int|
            0 <= t < n && v[t] > 0 ==> heap_index(#[trigger] code_of(v, t), v[t] as nat) != h,
    decreases n,
{
    if n > 0 {
        lemma_slot(v, h, n - 1);
    }
}

/// The prefix of length `l' < l` of the code of a symbol of length `l` is no code.
proof fn lemma_prefix_free(v: Seq<u8>, s: int, t: int)
    requires
        valid_lengths(v),
        0 <= s < v.len(),
        0 <= t < v.len(),
        0 < v[t] < v[s],
    ensures
        code_of(v, s) / pow2((v[s] - v[t]) as nat) != code_of(v, t),
{
    let ls = v[s] as nat;
    let lt = v[t] as nat;
    let d = (ls - lt) as nat;
    let base = next_code(v, lt) + count_len(v, lt, v.len() as int);
    lemma_next_code_grows(v, lt, ls);
    lemma_count_monotonic(v, lt, t, v.len() as int);
    lemma_pow2_pos(d);
    assert(code_of(v, s) >= pow2(d) * base);
    lemma_div_is_ordered((pow2(d) * base) as int, code_of(v, s) as int, pow2(d) as int);
    vstd::arithmetic::div_mod::lemma_div_multiples_vanish(base as int, pow2(d) as int);
    lemma_mul_is_commutative(base as int, pow2(d) as int);
}

/// `x / 2^(k+1) * 2 + bit k of x == x / 2^k`.
proof fn lemma_div_pow2_step(x: nat, k: nat)
    ensures
        2 * (x / pow2(k + 1)) + (if bit_of(x, k) {
            1nat
        } else {
            0nat
        }) == x / pow2(k),
{
    lemma_pow2_pos(k);
    lemma_div_denominator(x as int, pow2(k) as int, 2);
    assert(pow2(k + 1) == pow2(k) * 2);
    lemma_fundamental_div_mod((x / pow2(k)) as int, 2);
}

/// Decoding the canonical code of a symbol gives the symbol back: when the
/// stream holds, from bit `pos` on, the code of `s` most significant bit
/// first, the walk from the root of the tree built from valid code lengths
/// ends at `s`, just after the code.
pub proof fn lemma_canonical_code_decodes(v: Seq<u8>, s: int, data: Seq<u8>, pos: int)
    requires
        valid_lengths(v),
        0 <= s < v.len(),
        v[s] > 0,
        0 <= pos,
        pos + v[s] <= 8 * data.len(),
        forall|i: int|
            0 <= i < v[s] ==> #[trigger] stream_bit(data, pos + i) == bit_of(
                code_of(v, s),
                (v[s] - 1 - i) as nat,
            ),
    ensures
        huffman_decode(tree_model(v), data, pos) == Ok::<(u16, int), DecodeError>(
            (s as u16, pos + v[s]),
        ),
{
    let l = v[s] as nat;
    let c = code_of(v, s);
    lemma_code_fits(v, s);
    lemma_small_div_pow2(c, l);
    lemma_walk_from(v, s, data, pos, 0);
    assert(pow2(0) == 1);
    assert((l - 0) as nat == l);
}

proof fn lemma_small_div_pow2(c: nat, l: nat)
    requires
        c < pow2(l),
    ensures
        c / pow2(l) == 0,
{
    lemma_pow2_pos(l);
    vstd::arithmetic::div_mod::lemma_basic_div(c as int, pow2(l) as int);
}

/// The walk, `t` bits into the code of `s`, finishes at `s`.
proof fn lemma_walk_from(v: Seq<u8>, s: int, data: Seq<u8>, pos: int, t: nat)
    requires
        valid_lengths(v),
        0 <= s < v.len(),
        v[s] > 0,
        t < v[s],
        0 <= pos,
        pos + v[s] <= 8 * data.len(),
        forall|i: int|
            0 <= i < v[s] ==> #[trigger] stream_bit(data, pos + i) == bit_of(
                code_of(v, s),
                (v[s] - 1 - i) as nat,
            ),
    ensures
        huffman_walk(
            tree_model(v),
            data,
            pos + t,
            pow2(t) + code_of(v, s) / pow2((v[s] - t) as nat),
        ) == Ok::<(u16, int), DecodeError>((s as u16, pos + v[s])),
    decreases v[s] - t,
{
    let l = v[s] as nat;
    let c = code_of(v, s);
    let tree = tree_model(v);
    let idx = pow2(t) + c / pow2((l - t) as nat);
    lemma_pow2_pos(t);
    lemma_code_fits(v, s);
    let b = stream_bit(data, pos + t);
    assert(b == bit_of(c, (l - 1 - t) as nat));
    lemma_div_pow2_step(c, (l - 1 - t) as nat);
    assert((l - 1 - t + 1) as nat == (l - t) as nat);
    let j = 2 * idx + (if b { 1nat } else { 0nat });
    let nt = t + 1;
    assert(pow2(nt) == 2 * pow2(t));
    assert(j == pow2(nt) + c / pow2((l - nt) as nat));
    // j lies in the level of depth t + 1 of the heap
    lemma_pow2_add(nt, (l - nt) as nat);
    assert((nt + (l - nt)) as nat == l);
    lemma_pow2_pos((l - nt) as nat);
    assert(c / pow2((l - nt) as nat) < pow2(nt)) by {
        let q = pow2((l - nt) as nat);
        lemma_fundamental_div_mod(c as int, q as int);
        lemma_mod_bound(c as int, q as int);
        assert(c / q < pow2(nt)) by (nonlinear_arith)
            requires
                c == q * (c / q) + c % q,
                0 <= c % q,
                c < pow2(l),
                pow2(l) == pow2(nt) * q,
                q >= 1,
        ;
    }
    assert(max_len(v, v.len() as int) >= l) by {
        lemma_max_len(v, v.len() as int, s);
    }
    lemma_pow2_monotonic(nt + 1, max_len(v, v.len() as int) + 1);
    assert(pow2(nt + 1) == 2 * pow2(nt));
    assert(j < tree.len());
    assert(idx >= 1);
    assert(pos + t + 1 <= 8 * data.len());
    lemma_slot(v, j, v.len() as int);
    if nt == l {
        assert((l - nt) as nat == 0);
        assert(c / pow2(0) == c) by {
            assert(pow2(0) == 1);
            vstd::arithmetic::div_mod::lemma_div_basics(c as int);
        }
        assert(c / pow2((l - nt) as nat) == c);
        assert(pow2(nt) == pow2(l));
        assert(j == pow2(l) + c);
        assert(j == heap_index(c, l));
        match slot(v, j, v.len() as int) {
            Some(u) => {
                if u as int != s {
                    if (u as int) < s {
                        lemma_heap_index_injective(v, u as int, s);
                    } else {
                        lemma_heap_index_injective(v, s, u as int);
                    }
                }
            },
            None => {
                assert(heap_index(code_of(v, s), v[s] as nat) != j);
            },
        }
        assert(tree[j as int] == Some(s as u16));
    } else {
        match slot(v, j, v.len() as int) {
            Some(u) => {
                let lu = v[u as int] as nat;
                lemma_code_fits(v, u as int);
                // u would have to be a code of length t + 1, a prefix of the code of s
                if lu != nt {
                    if lu < nt {
                        lemma_pow2_monotonic(lu + 1, nt);
                        assert(pow2(lu + 1) == 2 * pow2(lu));
                    } else {
                        lemma_pow2_monotonic(nt + 1, lu);
                    }
                }
                assert(lu == nt);
                assert(code_of(v, u as int) == c / pow2((l - nt) as nat));
                lemma_prefix_free(v, s, u as int);
            },
            None => {},
        }
        assert(tree[j as int] is None);
        lemma_walk_from(v, s, data, pos, nt);
        assert(pos + t + 1 == pos + nt);
    }
}

proof fn lemma_max_len(v: Seq<u8>, n: int, s: int)
    requires
        0 <= s < n <= v.len(),
    ensures
        max_len(v, n) >= v[s],
    decreases n,
{
    if s < n - 1 {
        lemma_max_len(v, n - 1, s);
    }
}


/// The code-length alphabet's symbols, in the order their lengths are sent.
pub open spec fn code_length_order() -> Seq<u8> {
    seq![16u8, 17, 18, 0, 8, 7, 9, 6, 10, 5, 11, 4, 12, 3, 13, 2, 14, 1, 15]
}

/// The 19 code lengths of the code-length alphabet, from the first `k` lengths
/// sent in `code_length_order`; the others are 0.
pub open spec fn lengths_in_symbol_order(v: Seq<u8>, k: int) -> Seq<u8>
    decreases k,
{
    if k <= 0 {
        Seq::new(19, |i: int| 0u8)
    } else {
        lengths_in_symbol_order(v, k - 1).update(code_length_order()[k - 1] as int, v[k - 1])
    }
}

/// The code lengths of the fixed literal/length tree.
pub open spec fn fixed_literal_lengths() -> Seq<u8> {
    Seq::new(
        288,
        |i: int|
            if i < 144 {
                8u8
            } else if i < 256 {
                9u8
            } else if i < 280 {
                7u8
            } else {
                8u8
            },
    )
}

/// The `n`-bit integer read from bit `pos` on, first bit most significant.
pub open spec fn bits_value_msb(data: Seq<u8>, pos: int, n: nat) -> nat
    decreases n,
{
    if n == 0 {
        0
    } else {
        2 * bits_value_msb(data, pos, (n - 1) as nat) + (if stream_bit(data, pos + n - 1) {
            1nat
        } else {
            0nat
        })
    }
}

/// Decoding a distance code: five bits, most significant first, for the fixed
/// encoding (`None`); the given tree otherwise.
pub open spec fn distance_decode(dist: Option<Seq<Option<u16>>>, data: Seq<u8>, pos: int) -> Result<
    (u16, int),
    DecodeError,
> {
    match dist {
        None => if pos + 5 > 8 * data.len() {
            Err(DecodeError::UnexpectedEof)
        } else {
            Ok((bits_value_msb(data, pos, 5) as u16, pos + 5))
        },
        Some(tree) => huffman_decode(tree, data, pos),
    }
}

/// `n` copies of `x`.
pub open spec fn repeat(x: u8, n: nat) -> Seq<u8> {
    Seq::new(n, |i: int| x)
}

/// Expanding the run-length coded code lengths of a dynamic block, from bit
/// `pos`, until `count` lengths are known; `acc` holds those decoded so far and
/// `prev` the last length given. Gives the lengths and the bit position after them.
pub open spec fn rle_lengths(
    tree: Seq<Option<u16>>,
    data: Seq<u8>,
    pos: int,
    count: nat,
    acc: Seq<u8>,
    prev: Option<u8>,
) -> Result<(Seq<u8>, int), DecodeError>
    decreases count - acc.len(),
{
    if acc.len() >= count {
        if acc.len() > count {
            Err(DecodeError::InvalidData)
        } else {
            Ok((acc, pos))
        }
    } else {
        match huffman_decode(tree, data, pos) {
            Err(e) => Err(e),
            Ok((sym, p)) => {
                if sym <= 15 {
                    rle_lengths(tree, data, p, count, acc.push(sym as u8), Some(sym as u8))
                } else if sym <= 18 {
                    let (width, add): (nat, nat) = if sym == 16 {
                        (2, 3)
                    } else if sym == 17 {
                        (3, 3)
                    } else {
                        (7, 11)
                    };
                    if p + width > 8 * data.len() {
                        Err(DecodeError::UnexpectedEof)
                    } else {
                        let n = bits_value(data, p, width) + add;
                        if sym == 16 && prev is None {
                            Err(DecodeError::InvalidData)
                        } else {
                            let x: u8 = if sym == 16 {
                                prev->0
                            } else {
                                0
                            };
                            let next = acc + repeat(x, n);
                            if next.len() > count {
                                Err(DecodeError::InvalidData)
                            } else {
                                rle_lengths(tree, data, p + width, count, next, Some(x))
                            }
                        }
                    }
                } else {
                    Err(DecodeError::InvalidData)
                }
            },
        }
    }
}

/// `2^k` as a machine integer.
pub(crate) fn pow2_u32(k: usize) -> (r: u32)
    requires
        k <= 31,
    ensures
        r == pow2(k as nat),
{
    let mut r: u32 = 1;
    let mut i: usize = 0;
    while i < k
        invariant
            i <= k <= 31,
            r == pow2(i as nat),
        decreases k - i,
    {
        proof {
            lemma_pow2_monotonic(i as nat + 1, 31);
            lemma_pow2_add(16, 15);
            lemma_pow2_values();
        }
        r = r * 2;
        i = i + 1;
    }
    r
}

/// The heap index reached by walking the `code_len` low bits of `code`, most
/// significant first, from the root.
fn compute_heap_index(code: u32, code_len: usize) -> (r: usize)
    requires
        code_len <= 15,
    ensures
        r == heap_index(code as nat, code_len as nat),
        r < pow2(code_len as nat + 1),
{
    let p = pow2_u32(code_len);
    proof {
        lemma_pow2_pos(code_len as nat);
        lemma_mod_bound(code as int, p as int);
        lemma_pow2_values();
        lemma_pow2_monotonic(code_len as nat, 15);
    }
    p as usize + (code % p) as usize
}

/// A canonical Huffman tree as an array heap; a slot holds the symbol of the
/// code that leads to it, or nothing.
pub struct HuffmanTree {
    tree: Vec<Option<u16>>,
}

/// How distance codes are read: five bits each, or through a tree.
pub enum DistanceEncoding {
    Fixed,
    Dynamic(HuffmanTree),
}

impl HuffmanTree {
    /// The heap, slot by slot.
    pub closed spec fn view(&self) -> Seq<Option<u16>> {
        self.tree@
    }

    pub closed spec fn wf(&self) -> bool {
        2 <= self.tree.len() <= 0x1_0000
    }

    /// Builds the canonical tree of the code lengths (RFC 1951 section 3.2.2);
    /// symbols of length 0 get no code.
    pub fn from_code_lengths(code_lengths: &[u8]) -> (r: Self)
        requires
            buildable(code_lengths@),
        ensures
            r.wf(),
            r.view() == tree_model(code_lengths@),
    {
        let ghost v = code_lengths@;
        let n = code_lengths.len();
        let mut counts: Vec<u32> = Vec::new();
        let mut l: usize = 0;
        while l < 16
            invariant
                l <= 16,
                counts.len() == l,
                forall|j: int| 0 <= j < l ==> counts[j] == 0,
            decreases 16 - l,
        {
            counts.push(0);
            l = l + 1;
        }
        let mut largest: u8 = 0;
        let mut i: usize = 0;
        while i < n
            invariant
                n == v.len(),
                v == code_lengths@,
                buildable(v),
                i <= n,
                counts.len() == 16,
                forall|j: int| 0 <= j < 16 ==> counts[j] == count_len(v, j as nat, i as int),
                largest == max_len(v, i as int),
                largest <= 15,
            decreases n - i,
        {
            let len = code_lengths[i] as usize;
            proof {
                assert(v[i as int] <= 15);
                lemma_count_le(v, len as nat, i as int);
            }
            counts.set(len, counts[len] + 1);
            if code_lengths[i] > largest {
                largest = code_lengths[i];
            }
            i = i + 1;
        }
        proof {
            lemma_pow2_values();
            lemma_pow2_add(16, 16);
        }
        let mut next_codes: Vec<u32> = Vec::new();
        next_codes.push(0);
        let mut code: u32 = 0;
        let mut len: usize = 1;
        while len <= largest as usize
            invariant
                n == v.len(),
                buildable(v),
                largest == max_len(v, n as int),
                largest <= 15,
                1 <= len <= largest as usize + 1,
                counts.len() == 16,
                forall|j: int| 0 <= j < 16 ==> counts[j] == count_len(v, j as nat, n as int),
                next_codes.len() == len,
                forall|j: int| 0 <= j < len ==> next_codes[j] == next_code(v, j as nat),
                code == next_code(v, (len - 1) as nat),
                pow2(32) == 0x1_0000_0000,
            decreases largest as usize + 1 - len,
        {
            let count = if len == 1 {
                0
            } else {
                counts[len - 1]
            };
            proof {
                lemma_next_code_bound(v, len as nat);
                lemma_pow2_monotonic(len as nat + 1, 16);
                lemma_pow2_values();
                assert(pow2(len as nat + 1) * n <= 0x1_0000 * 0x1_0000) by (nonlinear_arith)
                    requires
                        pow2(len as nat + 1) <= 0x1_0000,
                        n <= 0x1_0000,
                ;
                lemma_count_le(v, (len - 1) as nat, n as int);
            }
            code = (code + count) * 2;
            next_codes.push(code);
            len = len + 1;
        }
        let size = pow2_u32(largest as usize + 1) as usize;
        proof {
            lemma_pow2_monotonic(largest as nat + 1, 16);
            lemma_pow2_values();
            lemma_pow2_pos(largest as nat + 1);
            assert(pow2(1) == 2);
            lemma_pow2_monotonic(1, largest as nat + 1);
        }
        let mut tree: Vec<Option<u16>> = Vec::new();
        let mut h: usize = 0;
        while h < size
            invariant
                h <= size,
                tree.len() == h,
                forall|j: int| 0 <= j < h ==> tree[j] is None,
            decreases size - h,
        {
            tree.push(None);
            h = h + 1;
        }
        let mut s: usize = 0;
        while s < n
            invariant
                n == v.len(),
                v == code_lengths@,
                buildable(v),
                largest == max_len(v, n as int),
                largest <= 15,
                s <= n,
                size == pow2(largest as nat + 1),
                tree.len() == size,
                forall|j: int| 0 <= j < size ==> tree[j] == slot(v, j as nat, s as int),
                next_codes.len() == largest + 1,
                forall|j: int|
                    1 <= j <= largest ==> next_codes[j] == next_code(v, j as nat) + count_len(
                        v,
                        j as nat,
                        s as int,
                    ),
                pow2(32) == 0x1_0000_0000,
            decreases n - s,
        {
            let code_len = code_lengths[s] as usize;
            proof {
                assert(v[s as int] <= 15);
            }
            if code_len > 0 {
                proof {
                    lemma_max_len(v, n as int, s as int);
                    lemma_next_code_bound(v, code_len as nat);
                    lemma_pow2_monotonic(code_len as nat + 1, 16);
                    lemma_pow2_values();
                    assert(pow2(code_len as nat + 1) * n <= 0x1_0000 * 0x1_0000) by (nonlinear_arith)
                        requires
                            pow2(code_len as nat + 1) <= 0x1_0000,
                            n <= 0x1_0000,
                    ;
                    lemma_count_le(v, code_len as nat, s as int);
                }
                let code = next_codes[code_len];
                let heap_idx = compute_heap_index(code, code_len);
                proof {
                    lemma_pow2_monotonic(code_len as nat + 1, largest as nat + 1);
                }
                tree.set(heap_idx, Some(s as u16));
                next_codes.set(code_len, code + 1);
            }
            proof {
                assert forall|j: int| 0 <= j < size implies tree[j] == slot(v, j as nat, s + 1) by {
                }
            }
            s = s + 1;
        }
        proof {
            assert(tree@ =~= tree_model(v));
        }
        HuffmanTree { tree }
    }

    /// The tree of the fixed literal/length code.
    pub fn fixed_literal() -> (r: Self)
        ensures
            r.wf(),
            r.view() == tree_model(fixed_literal_lengths()),
    {
        let mut lengths: Vec<u8> = Vec::new();
        let mut i: usize = 0;
        while i < 288
            invariant
                i <= 288,
                lengths@ == fixed_literal_lengths().subrange(0, i as int),
            decreases 288 - i,
        {
            let len: u8 = if i < 144 {
                8
            } else if i < 256 {
                9
            } else if i < 280 {
                7
            } else {
                8
            };
            lengths.push(len);
            proof {
                assert(lengths@ =~= fixed_literal_lengths().subrange(0, i + 1));
            }
            i = i + 1;
        }
        proof {
            assert(lengths@ =~= fixed_literal_lengths());
        }
        Self::from_code_lengths(lengths.as_slice())
    }

    /// The tree of the code-length alphabet, from lengths sent in
    /// `code_length_order`.
    pub fn dynamic_code_lengths(code_lengths_in_symbol_order: &[u8]) -> (r: Self)
        requires
            code_lengths_in_symbol_order.len() <= 19,
            forall|i: int|
                0 <= i < code_lengths_in_symbol_order.len() ==> code_lengths_in_symbol_order[i]
                    <= 15,
        ensures
            r.wf(),
            r.view() == tree_model(
                lengths_in_symbol_order(
                    code_lengths_in_symbol_order@,
                    code_lengths_in_symbol_order.len() as int,
                ),
            ),
    {
        let ghost v = code_lengths_in_symbol_order@;
        let order: [u8; 19] = [16, 17, 18, 0, 8, 7, 9, 6, 10, 5, 11, 4, 12, 3, 13, 2, 14, 1, 15];
        proof {
            assert(order@ == code_length_order());
        }
        let mut code_lengths: Vec<u8> = Vec::new();
        let mut i: usize = 0;
        while i < 19
            invariant
                i <= 19,
                code_lengths.len() == i,
                forall|j: int| 0 <= j < i ==> code_lengths[j] == 0,
            decreases 19 - i,
        {
            code_lengths.push(0);
            i = i + 1;
        }
        proof {
            assert(code_lengths@ =~= lengths_in_symbol_order(v, 0));
        }
        let mut k: usize = 0;
        while k < code_lengths_in_symbol_order.len()
            invariant
                v == code_lengths_in_symbol_order@,
                v.len() <= 19,
                forall|i: int| 0 <= i < v.len() ==> v[i] <= 15,
                order@ == code_length_order(),
                k <= v.len(),
                code_lengths@ == lengths_in_symbol_order(v, k as int),
                code_lengths.len() == 19,
                forall|i: int| 0 <= i < 19 ==> code_lengths[i] <= 15,
            decreases v.len() - k,
        {
            let symbol = order[k] as usize;
            code_lengths.set(symbol, code_lengths_in_symbol_order[k]);
            k = k + 1;
        }
        Self::from_code_lengths(code_lengths.as_slice())
    }

    /// Decodes one symbol: walks from the root one bit at a time to the first
    /// slot that holds a symbol. Fails with `InvalidData` when the walk leaves
    /// the tree.
    pub fn decode(&self, in_: &mut BitReader) -> (r: Result<u16, DecodeError>)
        requires
            self.wf(),
            old(in_).wf(),
        ensures
            final(in_).wf(),
            final(in_).data() == old(in_).data(),
            match huffman_decode(self.view(), old(in_).data(), old(in_).pos()) {
                Ok((s, p)) => r == Ok::<u16, DecodeError>(s) && final(in_).pos() == p,
                Err(e) => r == Err::<u16, DecodeError>(e),
            },
    {
        let mut index: usize = 1;
        let ghost data = in_.data();
        loop
            invariant
                self.wf(),
                in_.wf(),
                in_.data() == data,
                data == old(in_).data(),
                1 <= index < self.tree.len(),
                huffman_walk(self.view(), data, in_.pos(), index as nat) == huffman_decode(
                    self.view(),
                    data,
                    old(in_).pos(),
                ),
            decreases self.tree.len() - index,
        {
            let bit = in_.read_bool()?;
            index = 2 * index + if bit {
                1
            } else {
                0
            };
            if index >= self.tree.len() {
                return Err(DecodeError::InvalidData);
            }
            if let Some(symbol) = self.tree[index] {
                return Ok(symbol);
            }
        }
    }

    /// Expands the run-length coded code lengths of a dynamic block until
    /// `code_length_count` lengths are known. Fails with `InvalidData` on a
    /// repeat with no previous length, on a symbol above 18, and when the runs
    /// overshoot `code_length_count`.
    pub fn decode_code_lengths(&self, code_length_count: usize, in_: &mut BitReader) -> (r: Result<
        Vec<u8>,
        DecodeError,
    >)
        requires
            self.wf(),
            old(in_).wf(),
        ensures
            final(in_).wf(),
            final(in_).data() == old(in_).data(),
            match rle_lengths(
                self.view(),
                old(in_).data(),
                old(in_).pos(),
                code_length_count as nat,
                Seq::empty(),
                None,
            ) {
                Ok((lengths, p)) => r matches Ok(v) && v@ == lengths && final(in_).pos() == p,
                Err(e) => r == Err::<Vec<u8>, DecodeError>(e),
            },
    {
        let ghost data = in_.data();
        let ghost pos0 = in_.pos();
        let mut code_lengths: Vec<u8> = Vec::new();
        let mut prev_code_length: Option<u8> = None;
        while code_lengths.len() < code_length_count
            invariant
                self.wf(),
                in_.wf(),
                in_.data() == data,
                data == old(in_).data(),
                pos0 == old(in_).pos(),
                code_lengths.len() <= code_length_count + 138,
                rle_lengths(
                    self.view(),
                    data,
                    in_.pos(),
                    code_length_count as nat,
                    code_lengths@,
                    prev_code_length,
                ) == rle_lengths(self.view(), data, pos0, code_length_count as nat, Seq::empty(), None),
            decreases code_length_count + 256 - code_lengths.len(),
        {
            let symbol = self.decode(in_)?;
            if symbol <= 15 {
                code_lengths.push(symbol as u8);
                prev_code_length = Some(symbol as u8);
            } else if symbol <= 18 {
                let ghost p = in_.pos();
                let (width, add): (usize, u8) = if symbol == 16 {
                    (2, 3)
                } else if symbol == 17 {
                    (3, 3)
                } else {
                    (7, 11)
                };
                let extra = in_.read_u8_from_bits(width)?;
                proof {
                    crate::bit_io::lemma_bits_value_bound(data, p, width as nat);
                    lemma_pow2_values();
                }
                let repeat_count = extra + add;
                let value = if symbol == 16 {
                    match prev_code_length {
                        None => {
                            return Err(DecodeError::InvalidData);
                        },
                        Some(x) => x,
                    }
                } else {
                    0
                };
                let ghost before = code_lengths@;
                let mut k: u8 = 0;
                while k < repeat_count
                    invariant
                        k <= repeat_count,
                        code_lengths@ == before + repeat(value, k as nat),
                    decreases repeat_count - k,
                {
                    code_lengths.push(value);
                    proof {
                        assert(code_lengths@ =~= before + repeat(value, k as nat + 1));
                    }
                    k = k + 1;
                }
                if symbol != 16 {
                    prev_code_length = Some(0);
                }
            } else {
                return Err(DecodeError::InvalidData);
            }
        }
        if code_lengths.len() > code_length_count {
            return Err(DecodeError::InvalidData);
        }
        Ok(code_lengths)
    }
}

impl DistanceEncoding {
    /// The tree of a dynamic encoding, `None` for the fixed one.
    pub open spec fn model(&self) -> Option<Seq<Option<u16>>> {
        match self {
            DistanceEncoding::Fixed => None,
            DistanceEncoding::Dynamic(t) => Some(t.view()),
        }
    }

    pub open spec fn wf(&self) -> bool {
        match self {
            DistanceEncoding::Fixed => true,
            DistanceEncoding::Dynamic(t) => t.wf(),
        }
    }

    /// Decodes one distance code.
    pub fn decode(&self, in_: &mut BitReader) -> (r: Result<u16, DecodeError>)
        requires
            self.wf(),
            old(in_).wf(),
        ensures
            final(in_).wf(),
            final(in_).data() == old(in_).data(),
            match distance_decode(self.model(), old(in_).data(), old(in_).pos()) {
                Ok((s, p)) => r == Ok::<u16, DecodeError>(s) && final(in_).pos() == p,
                Err(e) => r == Err::<u16, DecodeError>(e),
            },
    {
        match self {
            DistanceEncoding::Fixed => {
                let ghost data = in_.data();
                let ghost pos0 = in_.pos();
                assert(self.model() is None);
                proof {
                    in_.lemma_pos_bounds();
                }
                let mut value: u16 = 0;
                let mut i: usize = 0;
                while i < 5
                    invariant
                        in_.wf(),
                        in_.data() == data,
                        data == old(in_).data(),
                        pos0 == old(in_).pos(),
                        i <= 5,
                        in_.pos() == pos0 + i,
                        pos0 + i <= 8 * data.len(),
                        self.model() is None,
                        value == bits_value_msb(data, pos0, i as nat),
                        value < pow2(i as nat),
                    decreases 5 - i,
                {
                    let res = in_.read_bool();
                    let bit = match res {
                        Ok(b) => b,
                        Err(e) => {
                            return Err(e);
                        },
                    };
                    proof {
                        assert(pos0 + (i + 1) - 1 == pos0 + i);
                        lemma_pow2_values();
                        assert(pow2(i as nat + 1) == 2 * pow2(i as nat));
                    }
                    value = 2 * value + if bit {
                        1
                    } else {
                        0
                    };
                    i = i + 1;
                }
                Ok(value)
            },
            DistanceEncoding::Dynamic(tree) => tree.decode(in_),
        }
    }
}

} // verus!
