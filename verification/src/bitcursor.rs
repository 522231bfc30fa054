//! A big-endian bit-granular reader over a byte slice.
//!
//! The cursor reads MSB-first within each byte. Every read fails cleanly with
//! `NotEnoughData` when fewer bits remain than requested; after a successful
//! read of `n` bits the position advances by exactly `n` bits.

use vstd::prelude::*;
use vstd::arithmetic::power2::{pow2, lemma2_to64, lemma_pow2_strictly_increases};

verus! {

/// The bit at offset `i` of `data`, counting bits MSB-first within each byte.
pub open spec fn bit_of(data: Seq<u8>, i: int) -> bool {
    (data[i / 8] >> ((7 - (i % 8)) as u8)) & 1u8 == 1u8
}

/// The unsigned big-endian value of the `n` bits of `data` starting at bit
/// offset `pos`: the bit at `pos` is the most significant.
pub open spec fn bits_val(data: Seq<u8>, pos: int, n: nat) -> nat
    decreases n,
{
    if n == 0 {
        0
    } else {
        2 * bits_val(data, pos, (n - 1) as nat) + (if bit_of(data, pos + n - 1) {
            1nat
        } else {
            0nat
        })
    }
}

/// The value of `n` bits is below `2^n`.
pub proof fn lemma_bits_val_bound(data: Seq<u8>, pos: int, n: nat)
    ensures
        bits_val(data, pos, n) < pow2(n),
    decreases n,
{
    lemma2_to64();
    if n > 0 {
        lemma_bits_val_bound(data, pos, (n - 1) as nat);
        assert(pow2(n) == 2 * pow2((n - 1) as nat)) by {
            vstd::arithmetic::power2::lemma_pow2_adds((n - 1) as nat, 1);
        }
    }
}

#[derive(Debug)]
pub struct NotEnoughData;

#[derive(Debug)]
pub struct BufferTooLong;

/// A bit-granular cursor over a borrowed byte slice.
#[derive(Clone, Copy)]
pub struct BitCursor<'a> {
    buf: &'a [u8],
    /// Bit offset from the start of `buf`; at most `8 * buf.len()`.
    pos: usize,
}

impl<'a> BitCursor<'a> {
    /// The underlying bytes.
    pub closed spec fn data(&self) -> Seq<u8> {
        self.buf@
    }

    /// The current bit position from the start of the underlying bytes.
    pub closed spec fn bitpos(&self) -> nat {
        self.pos as nat
    }

    /// The cursor's position is in bounds and all bit positions fit in `usize`.
    pub open spec fn wf(&self) -> bool {
        &&& self.bitpos() <= self.data().len() * 8
        &&& self.data().len() * 8 <= usize::MAX
    }

    /// The number of bits that remain to be read.
    pub open spec fn bits_left(&self) -> int {
        self.data().len() * 8 - self.bitpos()
    }

    /// Creates a cursor positioned at the first bit of `buf`.
    pub fn new(buf: &'a [u8]) -> (r: Result<BitCursor<'a>, BufferTooLong>)
        ensures
            match r {
                Ok(c) => {
                    &&& c.data() == buf@
                    &&& c.bitpos() == 0
                    &&& c.wf()
                },
                Err(_) => buf@.len() * 8 > usize::MAX,
            },
    {
        proof {
            vstd::arithmetic::div_mod::lemma_fundamental_div_mod(usize::MAX as int, 8);
        }
        if buf.len() > usize::MAX / 8 {
            return Err(BufferTooLong);
        }
        Ok(BitCursor { buf, pos: 0 })
    }

    /// Reads one bit; requires that one is left.
    fn take_bit(&mut self) -> (b: bool)
        requires
            old(self).wf(),
            old(self).bits_left() >= 1,
        ensures
            final(self).wf(),
            final(self).data() == old(self).data(),
            final(self).bitpos() == old(self).bitpos() + 1,
            b == bit_of(old(self).data(), old(self).bitpos() as int),
    {
        let byte: u8 = self.buf[self.pos / 8];
        let off: usize = self.pos % 8;
        let b: u8 = (byte >> ((7 - off) as u8)) & 1u8;
        self.pos = self.pos + 1;
        if b == 1 {
            true
        } else {
            false
        }
    }

    /// Reads a single bit.
    pub fn read_bit(&mut self) -> (r: Result<bool, NotEnoughData>)
        requires
            old(self).wf(),
        ensures
            final(self).wf(),
            final(self).data() == old(self).data(),
            match r {
                Ok(b) => {
                    &&& old(self).bits_left() >= 1
                    &&& final(self).bitpos() == old(self).bitpos() + 1
                    &&& b == bit_of(old(self).data(), old(self).bitpos() as int)
                },
                Err(_) => {
                    &&& old(self).bits_left() < 1
                    &&& *final(self) == *old(self)
                },
            },
    {
        if self.pos >= self.buf.len() * 8 {
            return Err(NotEnoughData);
        }
        Ok(self.take_bit())
    }

    /// Reads `bits` bits (at most 32) as a big-endian unsigned integer.
    pub fn read_u32(&mut self, bits: usize) -> (r: Result<u32, NotEnoughData>)
        requires
            old(self).wf(),
            bits <= 32,
        ensures
            final(self).wf(),
            final(self).data() == old(self).data(),
            match r {
                Ok(v) => {
                    &&& old(self).bits_left() >= bits
                    &&& final(self).bitpos() == old(self).bitpos() + bits
                    &&& v == bits_val(old(self).data(), old(self).bitpos() as int, bits as nat)
                },
                Err(_) => {
                    &&& old(self).bits_left() < bits
                    &&& *final(self) == *old(self)
                },
            },
            spec_read(old(self).data(), old(self).bitpos() as int, bits as nat) == (match r {
                Ok(v) => Some((v as nat, final(self).bitpos() as int)),
                Err(_) => None::<(nat, int)>,
            }),
    {
        if bits > self.buf.len() * 8 - self.pos {
            return Err(NotEnoughData);
        }
        let ghost pos0 = self.bitpos() as int;
        let mut v: u32 = 0;
        let mut i: usize = 0;
        proof {
            lemma2_to64();
        }
        while i < bits
            invariant
                self.wf(),
                self.data() == old(self).data(),
                i <= bits <= 32,
                self.bitpos() == pos0 + i,
                pos0 + bits <= self.data().len() * 8,
                v == bits_val(self.data(), pos0, i as nat),
                v < pow2(i as nat),
            decreases bits - i,
        {
            proof {
                lemma2_to64();
                if (i as nat) < 32 {
                    lemma_pow2_strictly_increases(i as nat, 32);
                }
            }
            let b = self.take_bit();
            v = 2 * v + (if b {
                1
            } else {
                0
            });
            i = i + 1;
            proof {
                lemma_bits_val_bound(self.data(), pos0, i as nat);
            }
        }
        Ok(v)
    }

    /// Reads `bits` bits (at most 16) as a big-endian unsigned integer.
    pub fn read_u16(&mut self, bits: usize) -> (r: Result<u16, NotEnoughData>)
        requires
            old(self).wf(),
            bits <= 16,
        ensures
            final(self).wf(),
            final(self).data() == old(self).data(),
            match r {
                Ok(v) => {
                    &&& old(self).bits_left() >= bits
                    &&& final(self).bitpos() == old(self).bitpos() + bits
                    &&& v == bits_val(old(self).data(), old(self).bitpos() as int, bits as nat)
                },
                Err(_) => {
                    &&& old(self).bits_left() < bits
                    &&& *final(self) == *old(self)
                },
            },
            spec_read(old(self).data(), old(self).bitpos() as int, bits as nat) == (match r {
                Ok(v) => Some((v as nat, final(self).bitpos() as int)),
                Err(_) => None::<(nat, int)>,
            }),
    {
        let v = self.read_u32(bits)?;
        proof {
            lemma_bits_val_bound(old(self).data(), old(self).bitpos() as int, bits as nat);
            lemma2_to64();
            if (bits as nat) < 16 {
                lemma_pow2_strictly_increases(bits as nat, 16);
            }
        }
        Ok(v as u16)
    }

    /// Reads `bits` bits (at most 8) as a big-endian unsigned integer.
    pub fn read_u8(&mut self, bits: usize) -> (r: Result<u8, NotEnoughData>)
        requires
            old(self).wf(),
            bits <= 8,
        ensures
            final(self).wf(),
            final(self).data() == old(self).data(),
            match r {
                Ok(v) => {
                    &&& old(self).bits_left() >= bits
                    &&& final(self).bitpos() == old(self).bitpos() + bits
                    &&& v == bits_val(old(self).data(), old(self).bitpos() as int, bits as nat)
                },
                Err(_) => {
                    &&& old(self).bits_left() < bits
                    &&& *final(self) == *old(self)
                },
            },
            spec_read(old(self).data(), old(self).bitpos() as int, bits as nat) == (match r {
                Ok(v) => Some((v as nat, final(self).bitpos() as int)),
                Err(_) => None::<(nat, int)>,
            }),
    {
        let v = self.read_u32(bits)?;
        proof {
            lemma_bits_val_bound(old(self).data(), old(self).bitpos() as int, bits as nat);
            lemma2_to64();
            if (bits as nat) < 8 {
                lemma_pow2_strictly_increases(bits as nat, 8);
            }
        }
        Ok(v as u8)
    }

    /// Reads `bits` bits (at most 32) without advancing the cursor.
    pub fn peek_u32(&self, bits: usize) -> (r: Result<u32, NotEnoughData>)
        requires
            self.wf(),
            bits <= 32,
        ensures
            match r {
                Ok(v) => {
                    &&& self.bits_left() >= bits
                    &&& v == bits_val(self.data(), self.bitpos() as int, bits as nat)
                },
                Err(_) => self.bits_left() < bits,
            },
            spec_peek(self.data(), self.bitpos() as int, bits as nat) == (match r {
                Ok(v) => Some(v as nat),
                Err(_) => None::<nat>,
            }),
    {
        let mut fork = *self;
        fork.read_u32(bits)
    }

    /// Reads `bits` bits (at most 16) without advancing the cursor.
    pub fn peek_u16(&self, bits: usize) -> (r: Result<u16, NotEnoughData>)
        requires
            self.wf(),
            bits <= 16,
        ensures
            match r {
                Ok(v) => {
                    &&& self.bits_left() >= bits
                    &&& v == bits_val(self.data(), self.bitpos() as int, bits as nat)
                },
                Err(_) => self.bits_left() < bits,
            },
            spec_peek(self.data(), self.bitpos() as int, bits as nat) == (match r {
                Ok(v) => Some(v as nat),
                Err(_) => None::<nat>,
            }),
    {
        let mut fork = *self;
        fork.read_u16(bits)
    }

    /// Advances the cursor by `bits` bits.
    pub fn skip(&mut self, bits: usize) -> (r: Result<(), NotEnoughData>)
        requires
            old(self).wf(),
        ensures
            final(self).wf(),
            final(self).data() == old(self).data(),
            match r {
                Ok(_) => {
                    &&& old(self).bits_left() >= bits
                    &&& final(self).bitpos() == old(self).bitpos() + bits
                },
                Err(_) => {
                    &&& old(self).bits_left() < bits
                    &&& *final(self) == *old(self)
                },
            },
            spec_skip(old(self).data(), old(self).bitpos() as int, bits as nat) == (match r {
                Ok(_) => Some(final(self).bitpos() as int),
                Err(_) => None::<int>,
            }),
    {
        if bits > self.buf.len() * 8 - self.pos {
            return Err(NotEnoughData);
        }
        self.pos = self.pos + bits;
        Ok(())
    }

    /// Advances by 0 to 7 bits so that the position is byte-aligned.
    ///
    /// This never fails: a partially consumed byte always has its remaining
    /// bits available.
    pub fn skip_to_byte(&mut self) -> (r: Result<(), NotEnoughData>)
        requires
            old(self).wf(),
        ensures
            final(self).wf(),
            final(self).data() == old(self).data(),
            r.is_ok(),
            final(self).bitpos() % 8 == 0,
            final(self).bitpos() == old(self).bitpos() + ((8 - old(self).bitpos() % 8) % 8),
    {
        let into_byte: usize = self.pos % 8;
        if into_byte != 0 {
            let ghost q = self.pos as int / 8;
            proof {
                // The current byte extends to the next byte boundary.
                vstd::arithmetic::div_mod::lemma_fundamental_div_mod(self.pos as int, 8);
            }
            let r = self.skip(8 - into_byte);
            proof {
                assert(self.bitpos() == (q + 1) * 8);
                vstd::arithmetic::div_mod::lemma_mod_multiples_basic(q + 1, 8);
            }
            r
        } else {
            Ok(())
        }
    }
}

/// The value of `n` bits read at `pos`, with the position after them, or
/// `None` when fewer than `n` bits remain.
pub open spec fn spec_read(data: Seq<u8>, pos: int, n: nat) -> Option<(nat, int)> {
    if pos + n <= data.len() * 8 {
        Some((bits_val(data, pos, n), pos + n))
    } else {
        None
    }
}

/// The value of `n` bits peeked at `pos`, or `None` when fewer than `n`
/// bits remain.
pub open spec fn spec_peek(data: Seq<u8>, pos: int, n: nat) -> Option<nat> {
    if pos + n <= data.len() * 8 {
        Some(bits_val(data, pos, n))
    } else {
        None
    }
}

/// The position after skipping `n` bits at `pos`, or `None` when fewer
/// than `n` bits remain.
pub open spec fn spec_skip(data: Seq<u8>, pos: int, n: nat) -> Option<int> {
    if pos + n <= data.len() * 8 {
        Some(pos + n)
    } else {
        None
    }
}

/// Reading `n` bits is peeking `n` bits and then skipping them: the read
/// succeeds exactly when both do, yields the peeked value, and leaves the
/// cursor where the skip does.
pub proof fn lemma_read_is_peek_then_skip(data: Seq<u8>, pos: int, n: nat)
    ensures
        spec_read(data, pos, n) == (match (spec_peek(data, pos, n), spec_skip(data, pos, n)) {
            (Some(v), Some(p)) => Some((v, p)),
            _ => None::<(nat, int)>,
        }),
{
}

/// An aligned read of eight bits is exactly the underlying byte.
pub proof fn lemma_aligned_byte_read(data: Seq<u8>, q: int)
    requires
        q % 8 == 0,
        0 <= q,
        q + 8 <= data.len() * 8,
    ensures
        bits_val(data, q, 8) == data[q / 8],
{
    let b = data[q / 8];
    vstd::arithmetic::div_mod::lemma_fundamental_div_mod(q, 8);
    assert forall|i: int| 0 <= i < 8 implies #[trigger] ((q + i) / 8) == q / 8 && (q + i) % 8
        == i by {
        vstd::arithmetic::div_mod::lemma_fundamental_div_mod_converse(q + i, 8, q / 8, i);
    }
    let c7 = (b >> 7u8) & 1u8;
    let c6 = (b >> 6u8) & 1u8;
    let c5 = (b >> 5u8) & 1u8;
    let c4 = (b >> 4u8) & 1u8;
    let c3 = (b >> 3u8) & 1u8;
    let c2 = (b >> 2u8) & 1u8;
    let c1 = (b >> 1u8) & 1u8;
    let c0 = (b >> 0u8) & 1u8;
    assert(b == 128 * c7 + 64 * c6 + 32 * c5 + 16 * c4 + 8 * c3 + 4 * c2 + 2 * c1 + c0 && c7 <= 1
        && c6 <= 1 && c5 <= 1 && c4 <= 1 && c3 <= 1 && c2 <= 1 && c1 <= 1 && c0 <= 1) by (
    bit_vector)
        requires
            c7 == (b >> 7u8) & 1u8,
            c6 == (b >> 6u8) & 1u8,
            c5 == (b >> 5u8) & 1u8,
            c4 == (b >> 4u8) & 1u8,
            c3 == (b >> 3u8) & 1u8,
            c2 == (b >> 2u8) & 1u8,
            c1 == (b >> 1u8) & 1u8,
            c0 == (b >> 0u8) & 1u8,
    ;
    assert(bits_val(data, q, 0) == 0);
    assert(bits_val(data, q, 1) == c7);
    assert(bits_val(data, q, 2) == 2 * bits_val(data, q, 1) + c6);
    assert(bits_val(data, q, 3) == 2 * bits_val(data, q, 2) + c5);
    assert(bits_val(data, q, 4) == 2 * bits_val(data, q, 3) + c4);
    assert(bits_val(data, q, 5) == 2 * bits_val(data, q, 4) + c3);
    assert(bits_val(data, q, 6) == 2 * bits_val(data, q, 5) + c2);
    assert(bits_val(data, q, 7) == 2 * bits_val(data, q, 6) + c1);
    assert(bits_val(data, q, 8) == 2 * bits_val(data, q, 7) + c0);
}

/// After reading any number of bits short of a byte from a byte boundary
/// and then aligning, the next eight bits read are the next underlying
/// byte.
pub proof fn lemma_byte_alignment(data: Seq<u8>, p: nat, n: nat)
    requires
        p % 8 == 0,
        1 <= n < 8,
        p + 16 <= data.len() * 8,
    ensures
        p + n + ((8 - (p + n) % 8) % 8) == p + 8,
        bits_val(data, p as int + 8, 8) == data[p as int / 8 + 1],
{
    vstd::arithmetic::div_mod::lemma_fundamental_div_mod(p as int, 8);
    vstd::arithmetic::div_mod::lemma_fundamental_div_mod_converse(
        p as int + n,
        8,
        p as int / 8,
        n as int,
    );
    vstd::arithmetic::div_mod::lemma_fundamental_div_mod_converse(
        p as int + 8,
        8,
        p as int / 8 + 1,
        0,
    );
    lemma_aligned_byte_read(data, p as int + 8);
}

} // verus!
