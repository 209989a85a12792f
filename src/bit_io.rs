//! Bit-granular reading and writing over byte vectors. Within a byte, bits
//! go from the least significant to the most significant.
use crate::arith::{lemma_mod_pow2_split, lemma_pow2_pos, lemma_pow2_values, pow2};
use crate::error::DecodeError;
use bitvec::order::Lsb0;
use bitvec::view::BitView;
use vstd::arithmetic::div_mod::{
    lemma_breakdown, lemma_div_denominator, lemma_fundamental_div_mod,
    lemma_small_mod,
};
use vstd::arithmetic::mul::lemma_mul_is_commutative;
use vstd::prelude::*;

verus! {

/// Bit `i` of `b`, counting from the least significant.
pub open spec fn bit_of(b: nat, i: nat) -> bool {
    (b / pow2(i)) % 2 == 1
}

/// Bit `k` of a byte stream: bit `k % 8` of byte `k / 8`.
pub open spec fn stream_bit(data: Seq<u8>, k: int) -> bool {
    bit_of(data[k / 8] as nat, (k % 8) as nat)
}

/// The bits of a byte stream, in reading order.
pub open spec fn stream_bits(data: Seq<u8>) -> Seq<bool> {
    Seq::new(8 * data.len(), |k: int| stream_bit(data, k))
}

/// The `n`-bit integer read from bit `pos` on, first bit least significant.
pub open spec fn bits_value(data: Seq<u8>, pos: int, n: nat) -> nat
    decreases n,
{
    if n == 0 {
        0
    } else {
        (if stream_bit(data, pos) {
            1nat
        } else {
            0nat
        }) + 2 * bits_value(data, pos + 1, (n - 1) as nat)
    }
}

/// `pos` rounded up to a byte boundary.
pub open spec fn align_up(pos: int) -> int {
    if pos % 8 == 0 {
        pos
    } else {
        pos - pos % 8 + 8
    }
}

/// The LSB-first bits of a byte.
pub open spec fn byte_bits(b: u8) -> Seq<bool> {
    Seq::new(8, |i: int| bit_of(b as nat, i as nat))
}

/// Relies on bitvec's `BitView::view_bits::<Lsb0>` and `BitSlice` indexing:
/// bit `i` of a byte in least-significant-first order.
#[verifier::external_body]
pub(crate) fn lsb0_bit(byte: u8, i: usize) -> (r: bool)
    requires
        i < 8,
    ensures
        r == bit_of(byte as nat, i as nat),
{
    byte.view_bits::<Lsb0>()[i]
}

/// Relies on bitvec's `BitView::view_bits_mut::<Lsb0>` and `BitSlice::set`:
/// bit `i` of the byte becomes `value`, the other bits stay.
#[verifier::external_body]
fn set_lsb0_bit(byte: u8, i: usize, value: bool) -> (r: u8)
    requires
        i < 8,
    ensures
        r as nat == byte as nat - (if bit_of(byte as nat, i as nat) {
            pow2(i as nat)
        } else {
            0
        }) + (if value {
            pow2(i as nat)
        } else {
            0
        }),
{
    let mut b = byte;
    b.view_bits_mut::<Lsb0>().set(i, value);
    b
}

pub proof fn lemma_bits_value_bound(data: Seq<u8>, pos: int, n: nat)
    ensures
        bits_value(data, pos, n) < pow2(n),
    decreases n,
{
    if n > 0 {
        lemma_bits_value_bound(data, pos + 1, (n - 1) as nat);
        assert(pow2(n) == 2 * pow2((n - 1) as nat));
    }
}

/// Reading `a + b` bits is reading `a` bits, then `b` bits of higher weight.
pub proof fn lemma_bits_value_split(data: Seq<u8>, pos: int, a: nat, b: nat)
    ensures
        bits_value(data, pos, a + b) == bits_value(data, pos, a) + pow2(a) * bits_value(
            data,
            pos + a,
            b,
        ),
    decreases a,
{
    if a > 0 {
        lemma_bits_value_split(data, pos + 1, (a - 1) as nat, b);
        assert((a + b - 1) as nat == (a - 1) as nat + b);
        let x = bits_value(data, pos + a, b) as int;
        let p = pow2((a - 1) as nat) as int;
        assert(pos + 1 + (a - 1) as nat == pos + a);
        let c: int = if stream_bit(data, pos) { 1 } else { 0 };
        assert(bits_value(data, pos, a + b) == c + 2 * bits_value(data, pos + 1, (a - 1) as nat + b));
        assert(bits_value(data, pos, a) == c + 2 * bits_value(data, pos + 1, (a - 1) as nat));
        assert(pow2(a) == 2 * p);
        assert(2 * (p * x) == (2 * p) * x) by (nonlinear_arith);
    } else {
        assert(pow2(0) == 1);
        assert(a + b == b && pos + a == pos);
        assert(bits_value(data, pos, a) == 0);
    }
}

/// The last of `n + 1` bits has weight `2^n`.
pub proof fn lemma_bits_value_snoc(data: Seq<u8>, pos: int, n: nat)
    ensures
        bits_value(data, pos, n + 1) == bits_value(data, pos, n) + pow2(n) * (if stream_bit(
            data,
            pos + n,
        ) {
            1nat
        } else {
            0nat
        }),
{
    lemma_bits_value_split(data, pos, n, 1);
    assert(bits_value(data, pos + n, 1) == (if stream_bit(data, pos + n) {
        1nat
    } else {
        0nat
    }) + 2 * bits_value(data, pos + n + 1, 0));
}

/// `bits_value` sees only the bits it covers.
pub proof fn lemma_bits_value_same(a: Seq<u8>, pa: int, b: Seq<u8>, pb: int, n: nat)
    requires
        forall|i: int| 0 <= i < n ==> #[trigger] stream_bit(a, pa + i) == stream_bit(b, pb + i),
    ensures
        bits_value(a, pa, n) == bits_value(b, pb, n),
    decreases n,
{
    if n > 0 {
        assert(stream_bit(a, pa + 0) == stream_bit(b, pb + 0));
        assert forall|i: int| 0 <= i < n - 1 implies #[trigger] stream_bit(a, pa + 1 + i) == stream_bit(
            b,
            pb + 1 + i,
        ) by {
            assert(stream_bit(a, pa + (i + 1)) == stream_bit(b, pb + (i + 1)));
        }
        lemma_bits_value_same(a, pa + 1, b, pb + 1, (n - 1) as nat);
    }
}

/// Bits `j .. j + k` of byte `i`, read LSB-first, are the byte's bits `j ..`.
pub proof fn lemma_byte_bits_value_from(data: Seq<u8>, i: int, j: nat, k: nat)
    requires
        0 <= i < data.len(),
        j + k <= 8,
    ensures
        bits_value(data, 8 * i + j, k) == (data[i] as nat / pow2(j)) % pow2(k),
    decreases k,
{
    let x = data[i] as nat;
    lemma_pow2_pos(j);
    if k == 0 {
        assert(pow2(0) == 1);
    } else {
        lemma_byte_bits_value_from(data, i, j + 1, (k - 1) as nat);
        assert((8 * i + j) / 8 == i && (8 * i + j) % 8 == j);
        assert(8 * i + j + 1 == 8 * i + (j + 1));
        lemma_mod_pow2_split(x / pow2(j), (k - 1) as nat);
        lemma_div_denominator(x as int, pow2(j) as int, 2);
        assert(pow2(j + 1) == pow2(j) * 2);
        assert(((k - 1) + 1) as nat == k);
    }
}

/// A byte-aligned 8-bit read gives the byte.
pub proof fn lemma_byte_bits_value(data: Seq<u8>, i: int)
    requires
        0 <= i < data.len(),
    ensures
        bits_value(data, 8 * i, 8) == data[i],
{
    lemma_byte_bits_value_from(data, i, 0, 8);
    lemma_pow2_values();
    assert(8 * i + 0 == 8 * i);
    lemma_small_mod(data[i] as nat, 256);
}

/// The bits of a stream with one more byte.
pub proof fn lemma_stream_bits_push(a: Seq<u8>, b: u8)
    ensures
        stream_bits(a.push(b)) == stream_bits(a) + byte_bits(b),
{
    assert forall|k: int| 0 <= k < 8 * (a.len() + 1) implies #[trigger] stream_bits(a.push(b))[k]
        == (stream_bits(a) + byte_bits(b))[k] by {
        if k < 8 * a.len() {
            assert(k / 8 < a.len());
        } else {
            assert(k / 8 == a.len() && k % 8 == k - 8 * a.len());
        }
    }
    assert(stream_bits(a.push(b)) =~= stream_bits(a) + byte_bits(b));
}

/// A byte stream is determined by its bits.
pub proof fn lemma_stream_bits_injective(a: Seq<u8>, b: Seq<u8>)
    requires
        stream_bits(a) == stream_bits(b),
    ensures
        a == b,
{
    assert(stream_bits(a).len() == 8 * a.len());
    assert(stream_bits(b).len() == 8 * b.len());
    assert(a.len() == b.len());
    assert forall|i: int| 0 <= i < a.len() implies a[i] == b[i] by {
        assert forall|j: int| 0 <= j < 8 implies #[trigger] stream_bit(a, 8 * i + j) == stream_bit(
            b,
            8 * i + j,
        ) by {
            let k = 8 * i + j;
            assert(0 <= k < 8 * a.len());
            assert(stream_bits(a)[k] == stream_bit(a, k));
            assert(stream_bits(b)[k] == stream_bit(b, k));
            assert(stream_bits(a)[k] == stream_bits(b)[k]);
        }
        lemma_bits_value_same(a, 8 * i, b, 8 * i, 8);
        lemma_byte_bits_value(a, i);
        lemma_byte_bits_value(b, i);
    }
    assert(a =~= b);
}

/// Bit `i` of `x + v * 2^n`, where `x < 2^n`: below `n` the bits of `x`,
/// at `n` the bit `v`.
proof fn lemma_bit_of_add_high(x: nat, n: nat, v: bool, i: nat)
    requires
        x < pow2(n),
        i <= n,
    ensures
        i < n ==> bit_of(x + (if v { pow2(n) } else { 0 }), i) == bit_of(x, i),
        i == n ==> bit_of(x + (if v { pow2(n) } else { 0 }), i) == v,
{
    let h: nat = if v { 1 } else { 0 };
    let y = x + (if v { pow2(n) } else { 0 });
    lemma_pow2_pos(i);
    lemma_pow2_pos((n - i) as nat);
    crate::arith::lemma_pow2_add(i, (n - i) as nat);
    assert((i + (n - i)) as nat == n);
    let q = pow2((n - i) as nat);
    assert(y == x + pow2(i) * (h * q)) by (nonlinear_arith)
        requires
            y == x + (if v { pow2(n) } else { 0 }),
            pow2(n) == pow2(i) * q,
            h == (if v { 1nat } else { 0nat }),
    ;
    lemma_mul_is_commutative(pow2(i) as int, (h * q) as int);
    // y / 2^i == h * q + x / 2^i
    assert(y / pow2(i) == h * q + x / pow2(i)) by {
        lemma_fundamental_div_mod(x as int, pow2(i) as int);
        let r = x % pow2(i);
        assert(y == pow2(i) * (h * q + x / pow2(i)) + r) by (nonlinear_arith)
            requires
                y == x + pow2(i) * (h * q),
                x == pow2(i) * (x / pow2(i)) + r,
        ;
        vstd::arithmetic::div_mod::lemma_fundamental_div_mod_converse_div(
            y as int,
            pow2(i) as int,
            (h * q + x / pow2(i)) as int,
            r as int,
        );
    }
    if i < n {
        assert(q == 2 * pow2((n - i - 1) as nat));
        assert((h * q + x / pow2(i)) % 2 == (x / pow2(i)) % 2) by {
            let t = h * pow2((n - i - 1) as nat);
            assert(h * q == 2 * t) by (nonlinear_arith)
                requires
                    q == 2 * pow2((n - i - 1) as nat),
                    t == h * pow2((n - i - 1) as nat),
            ;
            vstd::arithmetic::div_mod::lemma_mod_multiples_vanish(t as int, (x / pow2(i)) as int, 2);
        }
    } else {
        assert(q == 1);
        vstd::arithmetic::div_mod::lemma_div_of0(1);
        vstd::arithmetic::div_mod::lemma_small_div_converse(x as int, pow2(i) as int);
        assert(x / pow2(i) == 0) by {
            vstd::arithmetic::div_mod::lemma_basic_div(x as int, pow2(i) as int);
        }
    }
}

/// Bits at or above `n` of a value below `2^n` are clear.
proof fn lemma_bit_of_high_clear(x: nat, n: nat, i: nat)
    requires
        x < pow2(n),
        n <= i,
    ensures
        !bit_of(x, i),
{
    crate::arith::lemma_pow2_monotonic(n, i);
    vstd::arithmetic::div_mod::lemma_basic_div(x as int, pow2(i) as int);
}

/// One byte in flight, with the index of the next bit to read or write.
struct ByteBuffer {
    byte: u8,
    idx: usize,
}

impl ByteBuffer {
    /// An exhausted read buffer: the first read loads a byte.
    fn new_read() -> (r: Self)
        ensures
            r.idx == 8,
    {
        ByteBuffer { byte: 0, idx: 8 }
    }

    /// A read buffer holding a freshly loaded byte.
    fn from_byte(byte: u8) -> (r: Self)
        ensures
            r.byte == byte,
            r.idx == 0,
    {
        ByteBuffer { byte, idx: 0 }
    }

    /// An empty write buffer.
    fn new_write() -> (r: Self)
        ensures
            r.byte == 0,
            r.idx == 0,
    {
        ByteBuffer { byte: 0, idx: 0 }
    }

    fn needs_flush(&self) -> (r: bool)
        ensures
            r == (self.idx == 8),
    {
        self.idx == 8
    }

    /// Reads the next bit of the byte.
    fn read(&mut self) -> (r: bool)
        requires
            old(self).idx < 8,
        ensures
            r == bit_of(old(self).byte as nat, old(self).idx as nat),
            final(self).byte == old(self).byte,
            final(self).idx == old(self).idx + 1,
    {
        let r = lsb0_bit(self.byte, self.idx);
        self.idx = self.idx + 1;
        r
    }

    /// Writes the next bit into the byte, whose bits from `idx` on are clear.
    fn write(&mut self, bit: bool)
        requires
            old(self).idx < 8,
            (old(self).byte as nat) < pow2(old(self).idx as nat),
        ensures
            final(self).byte as nat == old(self).byte as nat + (if bit {
                pow2(old(self).idx as nat)
            } else {
                0
            }),
            final(self).idx == old(self).idx + 1,
    {
        proof {
            lemma_bit_of_high_clear(self.byte as nat, self.idx as nat, self.idx as nat);
        }
        self.byte = set_lsb0_bit(self.byte, self.idx, bit);
        self.idx = self.idx + 1;
    }
}

/// Reads bits from a byte vector.
pub struct BitReader {
    buffer: ByteBuffer,
    inner: Vec<u8>,
    next: usize,
}

impl BitReader {
    /// The bytes being read.
    pub closed spec fn data(&self) -> Seq<u8> {
        self.inner@
    }

    /// The number of bits read so far.
    pub closed spec fn pos(&self) -> int {
        8 * self.next + self.buffer.idx - 8
    }

    pub closed spec fn wf(&self) -> bool {
        &&& self.buffer.idx <= 8
        &&& self.next <= self.inner.len()
        &&& self.buffer.idx < 8 ==> self.next >= 1 && self.buffer.byte == self.inner[self.next - 1]
    }

    /// The bits left to read.
    pub open spec fn remaining(&self) -> int {
        8 * self.data().len() - self.pos()
    }

    pub proof fn lemma_pos_bounds(&self)
        requires
            self.wf(),
        ensures
            0 <= self.pos() <= 8 * self.data().len(),
    {
    }

    /// A reader at the start of `inner`.
    pub fn new(inner: Vec<u8>) -> (r: Self)
        ensures
            r.wf(),
            r.data() == inner@,
            r.pos() == 0,
    {
        BitReader { buffer: ByteBuffer::new_read(), inner, next: 0 }
    }

    /// Loads the next byte into the exhausted buffer.
    fn read_next_byte(&mut self) -> (r: Result<(), DecodeError>)
        requires
            old(self).wf(),
            old(self).buffer.idx == 8,
        ensures
            final(self).wf(),
            final(self).data() == old(self).data(),
            final(self).pos() == old(self).pos(),
            r is Ok <==> old(self).next < old(self).inner.len(),
            r is Ok ==> final(self).buffer.idx == 0,
            r is Err ==> r == Err::<(), DecodeError>(DecodeError::UnexpectedEof),
    {
        if self.next < self.inner.len() {
            self.buffer = ByteBuffer::from_byte(self.inner[self.next]);
            self.next = self.next + 1;
            Ok(())
        } else {
            Err(DecodeError::UnexpectedEof)
        }
    }

    /// Reads one bit.
    pub fn read_bool(&mut self) -> (r: Result<bool, DecodeError>)
        requires
            old(self).wf(),
        ensures
            final(self).wf(),
            final(self).data() == old(self).data(),
            match r {
                Ok(b) => {
                    &&& old(self).pos() + 1 <= 8 * old(self).data().len()
                    &&& b == stream_bit(old(self).data(), old(self).pos())
                    &&& final(self).pos() == old(self).pos() + 1
                },
                Err(e) => e == DecodeError::UnexpectedEof && old(self).pos() + 1 > 8 * old(
                    self,
                ).data().len(),
            },
    {
        if self.buffer.needs_flush() {
            self.read_next_byte()?;
        }
        let b = self.buffer.read();
        proof {
            let p = old(self).pos();
            assert(p == 8 * (self.next - 1) + (self.buffer.idx - 1));
            assert(p / 8 == self.next - 1 && p % 8 == self.buffer.idx - 1);
        }
        Ok(b)
    }

    /// Fills `dest` with the next `dest.len()` bits, in reading order.
    pub fn read_exact(&mut self, dest: &mut Vec<bool>) -> (r: Result<(), DecodeError>)
        requires
            old(self).wf(),
        ensures
            final(self).wf(),
            final(self).data() == old(self).data(),
            final(dest).len() == old(dest).len(),
            match r {
                Ok(_) => {
                    &&& old(self).pos() + old(dest).len() <= 8 * old(self).data().len()
                    &&& final(self).pos() == old(self).pos() + old(dest).len()
                    &&& forall|i: int|
                        0 <= i < old(dest).len() ==> final(dest)[i] == stream_bit(
                            old(self).data(),
                            old(self).pos() + i,
                        )
                },
                Err(e) => e == DecodeError::UnexpectedEof && old(self).pos() + old(dest).len() > 8
                    * old(self).data().len(),
            },
    {
        let n = dest.len();
        let mut i: usize = 0;
        while i < n
            invariant
                self.wf(),
                self.data() == old(self).data(),
                dest.len() == n,
                n == old(dest).len(),
                i <= n,
                self.pos() == old(self).pos() + i,
                forall|j: int| 0 <= j < i ==> dest[j] == stream_bit(old(self).data(), old(self).pos() + j),
            decreases n - i,
        {
            let b = self.read_bool()?;
            dest.set(i, b);
            i = i + 1;
        }
        Ok(())
    }

    /// Reads a `bit_count`-bit integer, first bit least significant.
    pub fn read_u32_from_bits(&mut self, bit_count: usize) -> (r: Result<u32, DecodeError>)
        requires
            old(self).wf(),
            bit_count <= 32,
        ensures
            final(self).wf(),
            final(self).data() == old(self).data(),
            match r {
                Ok(v) => {
                    &&& old(self).pos() + bit_count <= 8 * old(self).data().len()
                    &&& v == bits_value(old(self).data(), old(self).pos(), bit_count as nat)
                    &&& final(self).pos() == old(self).pos() + bit_count
                },
                Err(e) => e == DecodeError::UnexpectedEof && old(self).pos() + bit_count > 8 * old(
                    self,
                ).data().len(),
            },
    {
        let mut value: u64 = 0;
        let mut weight: u64 = 1;
        let mut i: usize = 0;
        proof {
            lemma_pow2_values();
        }
        while i < bit_count
            invariant
                self.wf(),
                self.data() == old(self).data(),
                bit_count <= 32,
                i <= bit_count,
                self.pos() == old(self).pos() + i,
                weight == pow2(i as nat),
                value == bits_value(old(self).data(), old(self).pos(), i as nat),
                value < weight,
                weight <= 0x1_0000_0000,
            decreases bit_count - i,
        {
            let b = self.read_bool()?;
            proof {
                lemma_bits_value_snoc(old(self).data(), old(self).pos(), i as nat);
                lemma_pow2_values();
                crate::arith::lemma_pow2_add(16, 16);
                if i < 32 {
                    crate::arith::lemma_pow2_monotonic(i as nat + 1, 32);
                }
            }
            if b {
                value = value + weight;
            }
            weight = weight * 2;
            i = i + 1;
        }
        proof {
            lemma_bits_value_bound(old(self).data(), old(self).pos(), bit_count as nat);
        }
        Ok(value as u32)
    }

    /// Reads a `bit_count`-bit integer (at most 8), first bit least significant.
    pub fn read_u8_from_bits(&mut self, bit_count: usize) -> (r: Result<u8, DecodeError>)
        requires
            old(self).wf(),
            bit_count <= 8,
        ensures
            final(self).wf(),
            final(self).data() == old(self).data(),
            match r {
                Ok(v) => {
                    &&& old(self).pos() + bit_count <= 8 * old(self).data().len()
                    &&& v == bits_value(old(self).data(), old(self).pos(), bit_count as nat)
                    &&& final(self).pos() == old(self).pos() + bit_count
                },
                Err(e) => e == DecodeError::UnexpectedEof && old(self).pos() + bit_count > 8 * old(
                    self,
                ).data().len(),
            },
    {
        let v = self.read_u32_from_bits(bit_count)?;
        proof {
            lemma_bits_value_bound(old(self).data(), old(self).pos(), bit_count as nat);
            lemma_pow2_values();
            crate::arith::lemma_pow2_monotonic(bit_count as nat, 8);
        }
        Ok(v as u8)
    }

    /// Reads a `bit_count`-bit integer (at most 16), first bit least significant.
    pub fn read_u16_from_bits(&mut self, bit_count: usize) -> (r: Result<u16, DecodeError>)
        requires
            old(self).wf(),
            bit_count <= 16,
        ensures
            final(self).wf(),
            final(self).data() == old(self).data(),
            match r {
                Ok(v) => {
                    &&& old(self).pos() + bit_count <= 8 * old(self).data().len()
                    &&& v == bits_value(old(self).data(), old(self).pos(), bit_count as nat)
                    &&& final(self).pos() == old(self).pos() + bit_count
                },
                Err(e) => e == DecodeError::UnexpectedEof && old(self).pos() + bit_count > 8 * old(
                    self,
                ).data().len(),
            },
    {
        let v = self.read_u32_from_bits(bit_count)?;
        proof {
            lemma_bits_value_bound(old(self).data(), old(self).pos(), bit_count as nat);
            lemma_pow2_values();
            crate::arith::lemma_pow2_monotonic(bit_count as nat, 16);
        }
        Ok(v as u16)
    }

    /// Reads 8 bits as an integer.
    pub fn read_u8(&mut self) -> (r: Result<u8, DecodeError>)
        requires
            old(self).wf(),
        ensures
            final(self).wf(),
            final(self).data() == old(self).data(),
            match r {
                Ok(v) => {
                    &&& old(self).pos() + 8 <= 8 * old(self).data().len()
                    &&& v == bits_value(old(self).data(), old(self).pos(), 8)
                    &&& final(self).pos() == old(self).pos() + 8
                },
                Err(e) => e == DecodeError::UnexpectedEof && old(self).pos() + 8 > 8 * old(
                    self,
                ).data().len(),
            },
    {
        self.read_u8_from_bits(8)
    }

    /// Reads 16 bits as an integer (little-endian when byte-aligned).
    pub fn read_u16(&mut self) -> (r: Result<u16, DecodeError>)
        requires
            old(self).wf(),
        ensures
            final(self).wf(),
            final(self).data() == old(self).data(),
            match r {
                Ok(v) => {
                    &&& old(self).pos() + 16 <= 8 * old(self).data().len()
                    &&& v == bits_value(old(self).data(), old(self).pos(), 16)
                    &&& final(self).pos() == old(self).pos() + 16
                },
                Err(e) => e == DecodeError::UnexpectedEof && old(self).pos() + 16 > 8 * old(
                    self,
                ).data().len(),
            },
    {
        self.read_u16_from_bits(16)
    }

    /// Reads 32 bits as an integer (little-endian when byte-aligned).
    pub fn read_u32(&mut self) -> (r: Result<u32, DecodeError>)
        requires
            old(self).wf(),
        ensures
            final(self).wf(),
            final(self).data() == old(self).data(),
            match r {
                Ok(v) => {
                    &&& old(self).pos() + 32 <= 8 * old(self).data().len()
                    &&& v == bits_value(old(self).data(), old(self).pos(), 32)
                    &&& final(self).pos() == old(self).pos() + 32
                },
                Err(e) => e == DecodeError::UnexpectedEof && old(self).pos() + 32 > 8 * old(
                    self,
                ).data().len(),
            },
    {
        self.read_u32_from_bits(32)
    }

    /// Discards the rest of the current byte.
    pub fn skip_to_byte_end(&mut self)
        requires
            old(self).wf(),
        ensures
            final(self).wf(),
            final(self).data() == old(self).data(),
            final(self).pos() == align_up(old(self).pos()),
    {
        if self.buffer.idx != 0 {
            self.buffer.idx = 8;
        }
    }

    /// Whether every bit has been read; loads the next byte if there is one.
    pub fn is_eof(&mut self) -> (r: bool)
        requires
            old(self).wf(),
        ensures
            final(self).wf(),
            final(self).data() == old(self).data(),
            final(self).pos() == old(self).pos(),
            r == (old(self).pos() == 8 * old(self).data().len()),
    {
        if !self.buffer.needs_flush() {
            return false;
        }
        match self.read_next_byte() {
            Ok(()) => false,
            Err(_) => true,
        }
    }
}

/// Writes bits into a byte vector; the vector only ever receives whole bytes.
pub struct BitWriter {
    buffer: ByteBuffer,
    inner: Vec<u8>,
}

impl BitWriter {
    /// The bytes written out so far.
    pub closed spec fn bytes(&self) -> Seq<u8> {
        self.inner@
    }

    /// Every bit written so far, the pending ones included.
    pub closed spec fn bits(&self) -> Seq<bool> {
        Seq::new(
            (8 * self.inner.len() + self.buffer.idx) as nat,
            |k: int| stream_bit(self.inner@.push(self.buffer.byte), k),
        )
    }

    /// Whether no bit is pending.
    pub closed spec fn is_aligned(&self) -> bool {
        self.buffer.idx == 0
    }

    pub closed spec fn wf(&self) -> bool {
        &&& self.buffer.idx < 8
        &&& (self.buffer.byte as nat) < pow2(self.buffer.idx as nat)
    }

    /// On a byte boundary, the bits written are those of the bytes written.
    pub proof fn lemma_aligned(&self)
        requires
            self.wf(),
            self.is_aligned(),
        ensures
            self.bits() == stream_bits(self.bytes()),
    {
        assert forall|k: int| 0 <= k < 8 * self.inner.len() implies #[trigger] self.bits()[k]
            == stream_bits(self.bytes())[k] by {
            assert(k / 8 < self.inner.len());
            assert(self.inner@.push(self.buffer.byte)[k / 8] == self.inner@[k / 8]);
        }
        assert(self.bits() =~= stream_bits(self.bytes()));
    }

    /// A writer that appends to `inner`.
    pub fn new(inner: Vec<u8>) -> (r: Self)
        ensures
            r.wf(),
            r.is_aligned(),
            r.bytes() == inner@,
    {
        proof {
            lemma_pow2_values();
        }
        BitWriter { buffer: ByteBuffer::new_write(), inner }
    }

    /// The bytes written out so far.
    pub fn into_inner(self) -> (r: Vec<u8>)
        ensures
            r@ == self.bytes(),
    {
        self.inner
    }

    /// Writes out the current byte, padded with zero bits; does nothing when no
    /// bit is pending.
    pub fn flush_even_if_partial(&mut self)
        requires
            old(self).wf(),
        ensures
            final(self).wf(),
            final(self).is_aligned(),
            final(self).bits() == old(self).bits() + Seq::new(
                (align_up(old(self).bits().len() as int) - old(self).bits().len()) as nat,
                |i: int| false,
            ),
            old(self).is_aligned() ==> final(self).bytes() == old(self).bytes(),
    {
        if self.buffer.idx == 0 {
            proof {
                assert((8 * self.inner.len()) % 8 == 0);
                assert(self.bits() =~= old(self).bits() + Seq::new(0, |i: int| false));
            }
            return;
        }
        let byte = self.buffer.byte;
        self.inner.push(byte);
        self.buffer = ByteBuffer::new_write();
        proof {
            lemma_pow2_values();
            let o = old(self);
            let n = o.inner.len();
            let pad = (8 - o.buffer.idx) as nat;
            assert((8 * n + o.buffer.idx) % 8 == o.buffer.idx);
            assert forall|k: int| 0 <= k < 8 * (n + 1) implies #[trigger] stream_bit(
                self.inner@.push(0),
                k,
            ) == (o.bits() + Seq::new(pad, |i: int| false))[k] by {
                assert(k / 8 <= n);
                if k < 8 * n + o.buffer.idx {
                    assert(o.bits()[k] == stream_bit(o.inner@.push(byte), k));
                    assert(self.inner@.push(0)[k / 8] == o.inner@.push(byte)[k / 8]);
                } else {
                    assert(k / 8 == n);
                    assert(self.inner@.push(0)[k / 8] == byte);
                    lemma_bit_of_high_clear(byte as nat, o.buffer.idx as nat, (k % 8) as nat);
                }
            }
            assert(self.bits() =~= o.bits() + Seq::new(pad, |i: int| false));
        }
    }

    /// Appends one bit.
    fn write_bit(&mut self, bit: bool)
        requires
            old(self).wf(),
        ensures
            final(self).wf(),
            final(self).bits() == old(self).bits().push(bit),
            old(self).bytes().is_prefix_of(final(self).bytes()),
    {
        let ghost o = *self;
        self.buffer.write(bit);
        proof {
            let n = o.inner.len();
            let idx = o.buffer.idx as nat;
            let x = o.buffer.byte as nat;
            let y = self.buffer.byte as nat;
            assert(pow2(idx + 1) == 2 * pow2(idx));
            assert(y < pow2(idx + 1));
            assert forall|k: int| 0 <= k < 8 * n + idx + 1 implies #[trigger] stream_bit(
                self.inner@.push(self.buffer.byte),
                k,
            ) == o.bits().push(bit)[k] by {
                if k < 8 * n {
                    assert(k / 8 < n);
                    assert(self.inner@.push(self.buffer.byte)[k / 8] == o.inner@.push(
                        o.buffer.byte,
                    )[k / 8]);
                } else {
                    assert(k / 8 == n && k % 8 == k - 8 * n);
                    lemma_bit_of_add_high(x, idx, bit, (k % 8) as nat);
                }
            }
        }
        if self.buffer.needs_flush() {
            let byte = self.buffer.byte;
            self.inner.push(byte);
            self.buffer = ByteBuffer::new_write();
            proof {
                lemma_pow2_values();
                let n = o.inner.len();
                assert forall|k: int| 0 <= k < 8 * (n + 1) implies #[trigger] stream_bit(
                    self.inner@.push(0),
                    k,
                ) == stream_bit(o.inner@.push(byte), k) by {
                    assert(k / 8 <= n);
                    assert(self.inner@.push(0)[k / 8] == o.inner@.push(byte)[k / 8]);
                }
            }
        }
        proof {
            assert(self.bits() =~= o.bits().push(bit));
            assert(o.inner@.is_prefix_of(self.inner@));
        }
    }

    /// Appends the bits of `src`, in order.
    pub fn write_all(&mut self, src: &[bool])
        requires
            old(self).wf(),
        ensures
            final(self).wf(),
            final(self).bits() == old(self).bits() + src@,
    {
        let mut i: usize = 0;
        while i < src.len()
            invariant
                self.wf(),
                i <= src.len(),
                self.bits() == old(self).bits() + src@.subrange(0, i as int),
            decreases src.len() - i,
        {
            self.write_bit(src[i]);
            proof {
                assert(src@.subrange(0, i + 1) =~= src@.subrange(0, i as int).push(src@[i as int]));
            }
            i = i + 1;
        }
        proof {
            assert(src@.subrange(0, src.len() as int) =~= src@);
        }
    }

    /// Appends the 8 bits of `byte`, least significant first; on a byte
    /// boundary this appends the byte itself.
    pub fn write_u8(&mut self, byte: u8)
        requires
            old(self).wf(),
        ensures
            final(self).wf(),
            final(self).bits() == old(self).bits() + byte_bits(byte),
            old(self).is_aligned() ==> final(self).is_aligned() && final(self).bytes() == old(
                self,
            ).bytes().push(byte),
    {
        let mut i: usize = 0;
        while i < 8
            invariant
                self.wf(),
                i <= 8,
                self.bits() == old(self).bits() + byte_bits(byte).subrange(0, i as int),
                old(self).bytes().is_prefix_of(self.bytes()),
            decreases 8 - i,
        {
            let b = lsb0_bit(byte, i);
            let ghost before = *self;
            self.write_bit(b);
            proof {
                assert(byte_bits(byte)[i as int] == b);
                assert(byte_bits(byte).subrange(0, i + 1) =~= byte_bits(byte).subrange(
                    0,
                    i as int,
                ).push(b));
                assert(self.bits() =~= old(self).bits() + byte_bits(byte).subrange(0, i + 1));
            }
            i = i + 1;
        }
        proof {
            assert(byte_bits(byte).subrange(0, 8) =~= byte_bits(byte));
            if old(self).is_aligned() {
                let n = old(self).inner.len() as int;
                let m = self.inner.len() as int;
                assert(self.bits().len() == 8 * n + 8);
                assert(m == n + 1 && self.buffer.idx == 0);
                let one = seq![byte];
                assert forall|j: int| 0 <= j < 8 implies #[trigger] stream_bit(self.inner@, 8 * n + j)
                    == stream_bit(one, 0 + j) by {
                    assert((8 * n + j) / 8 == n && (8 * n + j) % 8 == j);
                    assert(j / 8 == 0 && j % 8 == j);
                    assert(self.bits()[8 * n + j] == stream_bit(
                        self.inner@.push(self.buffer.byte),
                        8 * n + j,
                    ));
                    assert(self.bits()[8 * n + j] == byte_bits(byte)[j]);
                }
                lemma_bits_value_same(self.inner@, 8 * n, one, 0, 8);
                lemma_byte_bits_value(self.inner@, n);
                lemma_byte_bits_value(one, 0);
                assert(self.inner@ =~= old(self).inner@.push(byte));
            }
        }
    }
}

} // verus!
