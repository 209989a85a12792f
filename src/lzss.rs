//! The LZSS symbol model: literals, end of block and back-references, and the
//! mapping of back-reference lengths and distances to DEFLATE codes and extra bits.
use crate::arith::{
    lemma_log2_bounds, lemma_mod_pow2_split, lemma_pow2_add, lemma_pow2_monotonic, lemma_pow2_pos,
    lemma_pow2_values, log2, pow2,
};
use vstd::arithmetic::div_mod::*;
use vstd::arithmetic::mul::*;
use vstd::prelude::*;

verus! {

/// One decoded DEFLATE symbol.
#[derive(Debug, Clone, Copy, PartialEq, Eq, Structural)]
pub enum Symbol {
    /// A literal byte
    Literal(u8),
    /// End of a block
    EndOfBlock,
    /// A back-reference: copy `length_minus_three + 3` bytes from
    /// `distance_minus_one + 1` bytes back.
    BackReference { length_minus_three: u8, distance_minus_one: u16 },
}

/// Offset from 257 of the length code for `length_minus_three`.
pub open spec fn length_code_offset(l3: nat) -> nat {
    if l3 < 8 {
        l3
    } else if l3 >= 255 {
        28
    } else {
        4 * ((log2(l3) - 1) as nat) + (l3 / pow2((log2(l3) - 2) as nat)) % 4
    }
}

/// Extra bits that follow the length code of `length_minus_three`.
pub open spec fn length_extra_bits(l3: nat) -> nat {
    if 8 <= l3 < 255 {
        (log2(l3) - 2) as nat
    } else {
        0
    }
}

/// Smallest `length_minus_three` of length code `257 + m`.
pub open spec fn length_base(m: nat) -> nat {
    if m < 8 {
        m
    } else if m >= 28 {
        255
    } else {
        pow2(m / 4 + 1) + pow2((m / 4 - 1) as nat) * (m % 4)
    }
}

/// Number of extra bits that follow length code `257 + m`.
pub open spec fn length_code_extra_bits(m: nat) -> nat {
    if 8 <= m < 28 {
        (m / 4 - 1) as nat
    } else {
        0
    }
}

/// Distance code of `distance_minus_one`.
pub open spec fn distance_code_of(d1: nat) -> nat {
    if d1 < 4 {
        d1
    } else {
        2 * log2(d1) + (d1 / pow2((log2(d1) - 1) as nat)) % 2
    }
}

/// Extra bits that follow the distance code of `distance_minus_one`.
pub open spec fn distance_extra_bits(d1: nat) -> nat {
    if d1 < 4 {
        0
    } else {
        (log2(d1) - 1) as nat
    }
}

/// Smallest `distance_minus_one` of distance code `c`.
pub open spec fn distance_base(c: nat) -> nat {
    if c < 4 {
        c
    } else {
        pow2(c / 2) + pow2((c / 2 - 1) as nat) * (c % 2)
    }
}

/// Number of extra bits that follow distance code `c`.
pub open spec fn distance_code_extra_bits(c: nat) -> nat {
    if c < 4 {
        0
    } else {
        (c / 2 - 1) as nat
    }
}

/// The literal/length code of a symbol.
pub open spec fn symbol_length_code(s: Symbol) -> nat {
    match s {
        Symbol::Literal(b) => b as nat,
        Symbol::EndOfBlock => 256,
        Symbol::BackReference { length_minus_three, .. } => 257 + length_code_offset(
            length_minus_three as nat,
        ),
    }
}

/// `floor(log2(x))` and `2^floor(log2(x))`.
fn floor_log2(x: u16) -> (r: (u8, u16))
    requires
        x >= 1,
    ensures
        r.0 == log2(x as nat),
        r.1 == pow2(r.0 as nat),
        pow2(r.0 as nat) <= x < pow2(r.0 as nat + 1),
{
    let mut k: u8 = 0;
    let mut p: u16 = 1;
    let mut v: u16 = x;
    while v > 1
        invariant
            1 <= v <= x,
            k <= 16,
            p == pow2(k as nat),
            v as nat == x as nat / pow2(k as nat),
            log2(x as nat) == k + log2(v as nat),
            p as nat * v as nat <= x,
        decreases v,
    {
        proof {
            lemma_pow2_pos(k as nat);
            lemma_div_denominator(x as int, pow2(k as nat) as int, 2);
            assert(pow2(k as nat + 1) == pow2(k as nat) * 2);
            lemma_fundamental_div_mod(v as int, 2);
            lemma_mul_is_associative(p as int, 2, (v / 2) as int);
            lemma_mul_inequality(2 * (v / 2) as int, v as int, p as int);
            lemma_mul_inequality(2, v as int, p as int);
            lemma_mul_is_commutative(p as int, v as int);
            lemma_pow2_values();
            if k >= 15 {
                lemma_pow2_monotonic(15, k as nat);
            }
        }
        v = v / 2;
        k = k + 1;
        p = p * 2;
    }
    proof {
        lemma_log2_bounds(x as nat);
    }
    (k, p)
}

/// `pow2(k) / 2^j == pow2(k - j)` for `j <= k`.
proof fn lemma_pow2_div(k: nat, j: nat)
    requires
        j <= k,
    ensures
        pow2(k) / pow2(j) == pow2((k - j) as nat),
        pow2(k) == pow2((k - j) as nat) * pow2(j),
{
    lemma_pow2_add((k - j) as nat, j);
    lemma_pow2_pos(j);
    lemma_div_multiples_vanish(pow2((k - j) as nat) as int, pow2(j) as int);
    lemma_mul_is_commutative(pow2((k - j) as nat) as int, pow2(j) as int);
}

impl Symbol {
    /// The literal/length code of this symbol: the byte of a literal, 256 for
    /// end of block, 257..=285 for a back-reference.
    pub fn length_code(&self) -> (r: u16)
        ensures
            r == symbol_length_code(*self),
    {
        match self {
            Symbol::Literal(b) => *b as u16,
            Symbol::EndOfBlock => 256,
            Symbol::BackReference { length_minus_three, distance_minus_one: _ } => {
                Self::back_reference_length_code(*length_minus_three)
            },
        }
    }

    /// The length code (257..=285) of a back-reference length.
    pub fn back_reference_length_code(length_minus_three: u8) -> (r: u16)
        ensures
            r == 257 + length_code_offset(length_minus_three as nat),
            257 <= r <= 285,
    {
        if length_minus_three <= 7 {
            257 + length_minus_three as u16
        } else if length_minus_three == 255 {
            285
        } else {
            let (log2, p) = floor_log2(length_minus_three as u16);
            proof {
                lemma_pow2_values();
                if log2 >= 8 {
                    lemma_pow2_monotonic(8, log2 as nat);
                }
                if log2 < 3 {
                    lemma_pow2_monotonic(log2 as nat + 1, 3);
                }
                lemma_pow2_div(log2 as nat, 2);
                lemma_pow2_values();
            }
            let q: u16 = (length_minus_three as u16 / (p / 4)) % 4;
            257 + 4 * (log2 as u16 - 1) + q
        }
    }

    /// The number of extra bits that follow the length code of a back-reference length.
    pub fn back_reference_length_extra_bits(length_minus_three: u8) -> (r: u8)
        ensures
            r == length_extra_bits(length_minus_three as nat),
            r <= 5,
    {
        if length_minus_three <= 7 || length_minus_three == 255 {
            0
        } else {
            let (log2, _) = floor_log2(length_minus_three as u16);
            proof {
                lemma_pow2_values();
                if log2 >= 8 {
                    lemma_pow2_monotonic(8, log2 as nat);
                }
                if log2 < 3 {
                    lemma_pow2_monotonic(log2 as nat + 1, 3);
                }
            }
            log2 - 2
        }
    }

    /// The distance code (0..=29) of a back-reference distance.
    pub fn back_reference_distance_code(distance_minus_one: u16) -> (r: u8)
        requires
            distance_minus_one <= 32767,
        ensures
            r == distance_code_of(distance_minus_one as nat),
            r <= 29,
    {
        if distance_minus_one <= 3 {
            distance_minus_one as u8
        } else {
            let (log2, p) = floor_log2(distance_minus_one);
            proof {
                lemma_pow2_values();
                if log2 >= 15 {
                    lemma_pow2_monotonic(15, log2 as nat);
                }
                if log2 < 2 {
                    lemma_pow2_monotonic(log2 as nat + 1, 2);
                }
                lemma_pow2_div(log2 as nat, 1);
                lemma_pow2_values();
            }
            let q: u16 = (distance_minus_one / (p / 2)) % 2;
            2 * log2 + q as u8
        }
    }

    /// The number of extra bits that follow the distance code of a back-reference distance.
    pub fn back_reference_distance_extra_bits(distance_minus_one: u16) -> (r: u8)
        requires
            distance_minus_one <= 32767,
        ensures
            r == distance_extra_bits(distance_minus_one as nat),
            r <= 13,
    {
        if distance_minus_one <= 3 {
            0
        } else {
            let (log2, _) = floor_log2(distance_minus_one);
            proof {
                lemma_pow2_values();
                if log2 >= 15 {
                    lemma_pow2_monotonic(15, log2 as nat);
                }
                if log2 < 2 {
                    lemma_pow2_monotonic(log2 as nat + 1, 2);
                }
            }
            log2 - 1
        }
    }
}

/// Decoding a length code reverses encoding: for every `length_minus_three`,
/// its code's base plus the value of its extra bits gives it back, and that value
/// fits in the code's extra bits.
pub proof fn lemma_length_code_round_trip(length_minus_three: u8)
    ensures
        ({
            let l3 = length_minus_three as nat;
            let m = length_code_offset(l3);
            &&& m <= 28
            &&& length_code_extra_bits(m) == length_extra_bits(l3)
            &&& length_base(m) <= l3
            &&& l3 - length_base(m) < pow2(length_extra_bits(l3))
        }),
{
    let l3 = length_minus_three as nat;
    if 8 <= l3 < 255 {
        let k = log2(l3);
        lemma_log2_bounds(l3);
        lemma_pow2_values();
        if k >= 8 {
            lemma_pow2_monotonic(8, k);
        }
        if k < 3 {
            lemma_pow2_monotonic(k + 1, 3);
        }
        let p = pow2((k - 2) as nat);
        lemma_pow2_pos((k - 2) as nat);
        lemma_pow2_add((k - 2) as nat, 2);
        lemma_pow2_add((k - 2) as nat, 3);
        assert(pow2(k) == 4 * p) by {
            assert(((k - 2) + 2) as nat == k);
            lemma_mul_is_commutative(p as int, 4);
        }
        assert(pow2(k + 1) == 8 * p) by {
            assert(((k - 2) + 3) as nat == k + 1);
            lemma_mul_is_commutative(p as int, 8);
        }
        let d = l3 / p;
        lemma_fundamental_div_mod(l3 as int, p as int);
        lemma_mod_bound(l3 as int, p as int);
        assert(4 <= d < 8) by (nonlinear_arith)
            requires
                l3 == p * d + l3 % p,
                0 <= l3 % p < p,
                4 * p <= l3 < 8 * p,
                p >= 1,
        ;
        let q = d % 4;
        assert(q == d - 4);
        let m = length_code_offset(l3);
        assert(m == 4 * ((k - 1) as nat) + q);
        assert(m / 4 == k - 1);
        assert(m % 4 == q);
        assert((m / 4 + 1) as nat == k);
        assert((m / 4 - 1) as nat == (k - 2) as nat);
        assert(length_base(m) == 4 * p + p * q);
        assert(length_base(m) == p * d) by (nonlinear_arith)
            requires
                length_base(m) == 4 * p + p * q,
                q == d - 4,
        ;
    } else {
        assert(pow2(0) == 1);
    }
}

/// Decoding a distance code reverses encoding: for every `distance_minus_one`
/// up to 32767, its code's base plus the value of its extra bits gives it back,
/// and that value fits in the code's extra bits.
pub proof fn lemma_distance_code_round_trip(distance_minus_one: u16)
    requires
        distance_minus_one <= 32767,
    ensures
        ({
            let d1 = distance_minus_one as nat;
            let c = distance_code_of(d1);
            &&& c <= 29
            &&& distance_code_extra_bits(c) == distance_extra_bits(d1)
            &&& distance_base(c) <= d1
            &&& d1 - distance_base(c) < pow2(distance_extra_bits(d1))
        }),
{
    let d1 = distance_minus_one as nat;
    if d1 >= 4 {
        let k = log2(d1);
        lemma_log2_bounds(d1);
        lemma_pow2_values();
        if k >= 15 {
            lemma_pow2_monotonic(15, k);
        }
        if k < 2 {
            lemma_pow2_monotonic(k + 1, 2);
        }
        let p = pow2((k - 1) as nat);
        lemma_pow2_pos((k - 1) as nat);
        lemma_pow2_add((k - 1) as nat, 1);
        lemma_pow2_add((k - 1) as nat, 2);
        assert(pow2(k) == 2 * p) by {
            assert(((k - 1) + 1) as nat == k);
            lemma_mul_is_commutative(p as int, 2);
        }
        assert(pow2(k + 1) == 4 * p) by {
            assert(((k - 1) + 2) as nat == k + 1);
            lemma_mul_is_commutative(p as int, 4);
        }
        let d = d1 / p;
        lemma_fundamental_div_mod(d1 as int, p as int);
        lemma_mod_bound(d1 as int, p as int);
        assert(2 <= d < 4) by (nonlinear_arith)
            requires
                d1 == p * d + d1 % p,
                0 <= d1 % p < p,
                2 * p <= d1 < 4 * p,
                p >= 1,
        ;
        let q = d % 2;
        assert(q == d - 2);
        let c = distance_code_of(d1);
        assert(c == 2 * k + q);
        assert(c / 2 == k);
        assert(c % 2 == q);
        assert(distance_base(c) == 2 * p + p * q);
        assert(distance_base(c) == p * d) by (nonlinear_arith)
            requires
                distance_base(c) == 2 * p + p * q,
                q == d - 2,
        ;
    } else {
        assert(pow2(0) == 1);
    }
}


/// The capacity of the sliding window: the largest back-reference distance.
pub const WINDOW_SIZE: usize = 32768;

/// Slot of the ring buffer that holds the byte `j + 1` places before the
/// write position `cursor`.
pub open spec fn ring_index(cursor: int, j: int) -> int {
    (cursor + 2 * 32768 - 1 - j) % 32768
}

/// The sliding window: a ring buffer of the last 32 768 bytes emitted.
pub struct OutBuffer {
    buffer: Vec<u8>,
    cursor: usize,
    filled: usize,
    history: Ghost<Seq<u8>>,
}

impl OutBuffer {
    /// Every byte pushed so far, oldest first.
    pub closed spec fn history(&self) -> Seq<u8> {
        self.history@
    }

    pub closed spec fn wf(&self) -> bool {
        &&& self.buffer.len() == 32768
        &&& self.cursor < 32768
        &&& self.cursor == self.history@.len() % 32768
        &&& self.filled == if self.history@.len() < 32768 {
            self.history@.len()
        } else {
            32768
        }
        &&& forall|j: int|
            0 <= j < self.filled ==> self.buffer@[ring_index(self.cursor as int, j)]
                == #[trigger] self.history@[self.history@.len() - 1 - j]
    }

    /// An empty window.
    pub fn new() -> (r: Self)
        ensures
            r.wf(),
            r.history() == Seq::<u8>::empty(),
    {
        let mut buffer: Vec<u8> = Vec::new();
        let mut i: usize = 0;
        while i < WINDOW_SIZE
            invariant
                i <= 32768,
                buffer.len() == i,
            decreases 32768 - i,
        {
            buffer.push(0);
            i = i + 1;
        }
        OutBuffer { buffer, cursor: 0, filled: 0, history: Ghost(Seq::empty()) }
    }

    /// Appends a byte.
    pub fn push(&mut self, byte: u8)
        requires
            old(self).wf(),
        ensures
            final(self).wf(),
            final(self).history() == old(self).history().push(byte),
    {
        let ghost old_history = self.history@;
        let ghost old_cursor = self.cursor as int;
        self.buffer.set(self.cursor, byte);
        self.cursor = if self.cursor + 1 == WINDOW_SIZE {
            0
        } else {
            self.cursor + 1
        };
        if self.filled < WINDOW_SIZE {
            self.filled = self.filled + 1;
        }
        self.history = Ghost(old_history.push(byte));
        proof {
            let h = self.history@;
            assert forall|j: int| 0 <= j < self.filled implies self.buffer@[ring_index(
                self.cursor as int,
                j,
            )] == #[trigger] h[h.len() - 1 - j] by {
                if j == 0 {
                    assert(ring_index(self.cursor as int, 0) == old_cursor);
                } else {
                    assert(ring_index(self.cursor as int, j) == ring_index(old_cursor, j - 1));
                    assert(ring_index(old_cursor, j - 1) != old_cursor);
                    assert(h[h.len() - 1 - j] == old_history[old_history.len() - 1 - (j - 1)]);
                }
            }
        }
    }

    /// The byte `distance_minus_one + 1` places before the next write
    /// position, or `None` when fewer bytes were ever pushed.
    pub fn get(&self, distance_minus_one: usize) -> (r: Option<u8>)
        requires
            self.wf(),
            distance_minus_one < 32768,
        ensures
            r == if distance_minus_one < self.history().len() {
                Some(self.history()[self.history().len() - 1 - distance_minus_one])
            } else {
                None::<u8>
            },
    {
        if distance_minus_one >= self.filled {
            None
        } else {
            let index = (self.cursor + 2 * WINDOW_SIZE - 1 - distance_minus_one) % WINDOW_SIZE;
            proof {
                assert(index == ring_index(self.cursor as int, distance_minus_one as int));
                let h = self.history@;
                assert(self.buffer@[index as int] == h[h.len() - 1 - distance_minus_one]);
            }
            Some(self.buffer[index])
        }
    }
}

} // verus!
