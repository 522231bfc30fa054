//! The packet decoder: frame element dispatch, per-element channel
//! decoding, stereo decorrelation, extra-bits reattachment, and conversion
//! to the caller's sample type.

use vstd::prelude::*;
use vstd::arithmetic::power2::{pow2, lemma2_to64};
use vstd::arithmetic::div_mod::{lemma_mul_mod_noop_left, lemma_add_mod_noop};
use vstd::bits::{lemma_u64_shl_is_mul, lemma_u32_pow2_no_overflow};
use vstd::wrapping::i32_specs;
use crate::bitcursor::{BitCursor, bits_val};
use crate::lpc::{sign_extend, sign_extended, lemma_sign_extend_range, spec_asr32, asr};
use crate::{InvalidData, invalid_data, msg_short_packet, Outcome, StreamInfo};

verus! {

/// Reads `bits` bits, reporting an exhausted packet as the decoder's
/// `InvalidData`: the cursor's failures are mapped at this boundary.
fn rd_u8(reader: &mut BitCursor, bits: usize) -> (r: Result<u8, InvalidData>)
    requires
        old(reader).wf(),
        bits <= 8,
    ensures
        final(reader).wf(),
        final(reader).data() == old(reader).data(),
        final(reader).bitpos() >= old(reader).bitpos(),
        match r {
            Ok(v) => {
                &&& old(reader).bits_left() >= bits
                &&& final(reader).bitpos() == old(reader).bitpos() + bits
                &&& v == bits_val(old(reader).data(), old(reader).bitpos() as int, bits as nat)
            },
            Err(e) => {
                &&& old(reader).bits_left() < bits
                &&& *final(reader) == *old(reader)
                &&& e.msg() == msg_short_packet()
            },
        },
{
    match reader.read_u8(bits) {
        Ok(v) => Ok(v),
        Err(_) => Err(invalid_data("packet is not long enough")),
    }
}

/// Reads `bits` bits as a `u16`; see `rd_u8`.
fn rd_u16(reader: &mut BitCursor, bits: usize) -> (r: Result<u16, InvalidData>)
    requires
        old(reader).wf(),
        bits <= 16,
    ensures
        final(reader).wf(),
        final(reader).data() == old(reader).data(),
        final(reader).bitpos() >= old(reader).bitpos(),
        match r {
            Ok(v) => {
                &&& old(reader).bits_left() >= bits
                &&& final(reader).bitpos() == old(reader).bitpos() + bits
                &&& v == bits_val(old(reader).data(), old(reader).bitpos() as int, bits as nat)
            },
            Err(e) => {
                &&& old(reader).bits_left() < bits
                &&& *final(reader) == *old(reader)
                &&& e.msg() == msg_short_packet()
            },
        },
{
    match reader.read_u16(bits) {
        Ok(v) => Ok(v),
        Err(_) => Err(invalid_data("packet is not long enough")),
    }
}

/// Reads `bits` bits as a `u32`; see `rd_u8`.
fn rd_u32(reader: &mut BitCursor, bits: usize) -> (r: Result<u32, InvalidData>)
    requires
        old(reader).wf(),
        bits <= 32,
    ensures
        final(reader).wf(),
        final(reader).data() == old(reader).data(),
        final(reader).bitpos() >= old(reader).bitpos(),
        match r {
            Ok(v) => {
                &&& old(reader).bits_left() >= bits
                &&& final(reader).bitpos() == old(reader).bitpos() + bits
                &&& v == bits_val(old(reader).data(), old(reader).bitpos() as int, bits as nat)
            },
            Err(e) => {
                &&& old(reader).bits_left() < bits
                &&& *final(reader) == *old(reader)
                &&& e.msg() == msg_short_packet()
            },
        },
{
    match reader.read_u32(bits) {
        Ok(v) => Ok(v),
        Err(_) => Err(invalid_data("packet is not long enough")),
    }
}

/// Reads one bit; see `rd_u8`.
fn rd_bit(reader: &mut BitCursor) -> (r: Result<bool, InvalidData>)
    requires
        old(reader).wf(),
    ensures
        final(reader).wf(),
        final(reader).data() == old(reader).data(),
        final(reader).bitpos() >= old(reader).bitpos(),
        match r {
            Ok(b) => {
                &&& old(reader).bits_left() >= 1
                &&& final(reader).bitpos() == old(reader).bitpos() + 1
                &&& b == crate::bitcursor::bit_of(
                    old(reader).data(),
                    old(reader).bitpos() as int,
                )
            },
            Err(e) => {
                &&& old(reader).bits_left() < 1
                &&& *final(reader) == *old(reader)
                &&& e.msg() == msg_short_packet()
            },
        },
{
    match reader.read_bit() {
        Ok(b) => Ok(b),
        Err(_) => Err(invalid_data("packet is not long enough")),
    }
}

/// Skips `bits` bits; see `rd_u8`.
fn rd_skip(reader: &mut BitCursor, bits: usize) -> (r: Result<(), InvalidData>)
    requires
        old(reader).wf(),
    ensures
        final(reader).wf(),
        final(reader).data() == old(reader).data(),
        final(reader).bitpos() >= old(reader).bitpos(),
        match r {
            Ok(_) => {
                &&& old(reader).bits_left() >= bits
                &&& final(reader).bitpos() == old(reader).bitpos() + bits
            },
            Err(e) => {
                &&& old(reader).bits_left() < bits
                &&& *final(reader) == *old(reader)
                &&& e.msg() == msg_short_packet()
            },
        },
{
    match reader.skip(bits) {
        Ok(_) => Ok(()),
        Err(_) => Err(invalid_data("packet is not long enough")),
    }
}

/// The `i32` whose two's-complement bits are `x` reduced modulo `2^32`.
pub open spec fn wrap_i32(x: int) -> i32 {
    if x % 0x1_0000_0000 >= 0x8000_0000 {
        (x % 0x1_0000_0000 - 0x1_0000_0000) as i32
    } else {
        (x % 0x1_0000_0000) as i32
    }
}

/// The `i16` whose two's-complement bits are the low 16 bits of `v`.
pub open spec fn as_i16(v: nat) -> i16 {
    if v % 0x1_0000 >= 0x8000 {
        (v % 0x1_0000 - 0x1_0000) as i16
    } else {
        (v % 0x1_0000) as i16
    }
}

/// Sealed prevents other crates from implementing any traits that use it.
pub trait Sealed {

}

impl Sealed for i16 {

}

impl Sealed for i32 {

}

/// A type that can be used to represent audio samples.
pub trait Sample: Copy + Sealed {
    /// The native bit width of the sample type.
    spec fn spec_bits() -> u8;

    /// What `from_decoder` returns for a right-aligned decoded sample.
    spec fn spec_from_decoder(sample: i32, bits: u8) -> Self;

    /// Constructs `Self` from a right-aligned sample with bit depth `bits`.
    fn from_decoder(sample: i32, bits: u8) -> (r: Self)
        requires
            1 <= bits <= 32,
        ensures
            r == Self::spec_from_decoder(sample, bits),
    ;

    fn bits() -> (r: u8)
        ensures
            r == Self::spec_bits(),
    ;
}

impl Sample for i16 {
    open spec fn spec_bits() -> u8 {
        16
    }

    /// Truncation to the low 16 bits.
    open spec fn spec_from_decoder(sample: i32, bits: u8) -> i16 {
        (sign_extended(sample, 16) as i16)
    }

    fn from_decoder(sample: i32, bits: u8) -> (r: i16) {
        let v = sign_extend(sample, 16);
        proof {
            lemma_sign_extend_range(sample, 16);
            lemma2_to64();
        }
        v as i16
    }

    fn bits() -> (r: u8) {
        16
    }
}

impl Sample for i32 {
    open spec fn spec_bits() -> u8 {
        32
    }

    /// Left-aligned within the full 32 bits: shifted up by `32 - bits`.
    open spec fn spec_from_decoder(sample: i32, bits: u8) -> i32 {
        wrap_i32(sample * pow2((32 - bits) as nat))
    }

    fn from_decoder(sample: i32, bits: u8) -> (r: i32) {
        shl_or_wrap(sample, (32 - bits) as u32, 0)
    }

    fn bits() -> (r: u8) {
        32
    }
}

/// An `i32` reduced modulo `2^32` as an unsigned value.
fn to_wrapped_u32(x: i32) -> (r: u32)
    ensures
        r == (x as int) % 0x1_0000_0000,
{
    proof {
        if x >= 0 {
            vstd::arithmetic::div_mod::lemma_small_mod(x as nat, 0x1_0000_0000nat);
        } else {
            vstd::arithmetic::div_mod::lemma_mod_add_multiples_vanish(x as int, 0x1_0000_0000);
            vstd::arithmetic::div_mod::lemma_small_mod(
                (x + 0x1_0000_0000) as nat,
                0x1_0000_0000nat,
            );
        }
    }
    if x >= 0 {
        x as u32
    } else {
        ((x as i64) + 0x1_0000_0000i64) as u32
    }
}

/// `(x << shift) | low`, on the two's-complement bits of `x`: the wrapped
/// value of `x * 2^shift + low`, for `low` below `2^shift`.
pub(crate) fn shl_or_wrap(x: i32, shift: u32, low: u32) -> (r: i32)
    requires
        shift < 32,
    ensures
        r == wrap_i32((x as int) * pow2(shift as nat) + low),
{
    let u: u32 = to_wrapped_u32(x);
    proof {
        lemma_u32_pow2_no_overflow(shift as nat);
        lemma2_to64();
        vstd::arithmetic::power2::lemma_pow2_strictly_increases(shift as nat, 32);
        assert((u as int) * (pow2(shift as nat) as int) <= 0xFFFF_FFFF * 0x8000_0000) by (
        nonlinear_arith)
            requires
                u <= 0xFFFF_FFFFu32,
                pow2(shift as nat) <= 0x8000_0000,
        ;
        lemma_u64_shl_is_mul(u as u64, shift as u64);
        vstd::arithmetic::power2::lemma_pow2_pos(shift as nat);
        // Reducing x modulo 2^32 first does not change the wrapped result.
        lemma_mul_mod_noop_left(x as int, pow2(shift as nat) as int, 0x1_0000_0000);
        lemma_add_mod_noop(
            (u as int) * (pow2(shift as nat) as int),
            low as int,
            0x1_0000_0000,
        );
        vstd::arithmetic::div_mod::lemma_mod_twice(
            (u as int) * (pow2(shift as nat) as int),
            0x1_0000_0000,
        );
        vstd::arithmetic::div_mod::lemma_small_mod(low as nat, 0x1_0000_0000nat);
        vstd::arithmetic::div_mod::lemma_mod_bound(
            (u as int) * (pow2(shift as nat) as int) + low,
            0x1_0000_0000,
        );
    }
    let wide: u64 = ((u as u64) << shift) + (low as u64);
    let lo: u64 = wide % 0x1_0000_0000u64;
    if lo >= 0x8000_0000 {
        ((lo as i64) - 0x1_0000_0000i64) as i32
    } else {
        lo as i32
    }
}

/// The left channel after unmixing: the right channel plus the stored
/// difference.
pub open spec fn unmix_l(u: i32, v: i32, mix_bits: u8, mix_res: i8) -> i32 {
    i32_specs::wrapping_add(unmix_r(u, v, mix_bits, mix_res), v)
}

/// The right channel after unmixing.
pub open spec fn unmix_r(u: i32, v: i32, mix_bits: u8, mix_res: i8) -> i32 {
    i32_specs::wrapping_sub(
        u,
        spec_asr32(i32_specs::wrapping_mul(v, mix_res as i32), ((mix_bits & 31) as u32)),
    )
}

/// The first buffer after a stereo unmix over the first `n` samples.
pub open spec fn spec_unmix_first(
    bu: Seq<i32>,
    bv: Seq<i32>,
    n: nat,
    mix_bits: u8,
    mix_res: i8,
) -> Seq<i32> {
    Seq::new(bu.len(), |i: int| if 0 <= i < n {
        unmix_l(bu[i], bv[i], mix_bits, mix_res)
    } else {
        bu[i]
    })
}

/// The second buffer after a stereo unmix over the first `n` samples.
pub open spec fn spec_unmix_second(
    bu: Seq<i32>,
    bv: Seq<i32>,
    n: nat,
    mix_bits: u8,
    mix_res: i8,
) -> Seq<i32> {
    Seq::new(bv.len(), |i: int| if 0 <= i < n {
        unmix_r(bu[i], bv[i], mix_bits, mix_res)
    } else {
        bv[i]
    })
}

/// Reverses the mid/side-style decorrelation over `bu[0..n]` and `bv[0..n]`
/// in place.
pub(crate) fn unmix_stereo(bu: &mut Vec<i32>, bv: &mut Vec<i32>, n: usize, mix_bits: u8, mix_res: i8)
    requires
        n <= old(bu).len(),
        n <= old(bv).len(),
    ensures
        final(bu).len() == old(bu).len(),
        final(bv).len() == old(bv).len(),
        final(bu)@ == spec_unmix_first(old(bu)@, old(bv)@, n as nat, mix_bits, mix_res),
        final(bv)@ == spec_unmix_second(old(bu)@, old(bv)@, n as nat, mix_bits, mix_res),
{
    let ghost bu0 = bu@;
    let ghost bv0 = bv@;
    proof {
        assert((mix_bits & 31) < 32u8) by (bit_vector);
    }
    let shift: u32 = ((mix_bits & 31) as u32);
    let mut i: usize = 0;
    while i < n
        invariant
            n <= bu@.len() && n <= bv@.len(),
            bu@.len() == bu0.len() && bv@.len() == bv0.len(),
            i <= n,
            shift == ((mix_bits & 31) as u32),
            shift < 32,
            forall|t: int|
                0 <= t < bu@.len() ==> bu@[t] == (if 0 <= t < i {
                    unmix_l(bu0[t], bv0[t], mix_bits, mix_res)
                } else {
                    bu0[t]
                }),
            forall|t: int|
                0 <= t < bv@.len() ==> bv@[t] == (if 0 <= t < i {
                    unmix_r(bu0[t], bv0[t], mix_bits, mix_res)
                } else {
                    bv0[t]
                }),
        decreases n - i,
    {
        proof {
            assert((mix_bits & 31) < 32u8) by (bit_vector);
        }
        let u: i32 = bu[i];
        let v: i32 = bv[i];
        let r: i32 = u.wrapping_sub(asr(v.wrapping_mul(mix_res as i32), shift));
        let l: i32 = r.wrapping_add(v);
        bu[i] = l;
        bv[i] = r;
        i = i + 1;
    }
    proof {
        assert(bu@ =~= spec_unmix_first(bu0, bv0, n as nat, mix_bits, mix_res));
        assert(bv@ =~= spec_unmix_second(bu0, bv0, n as nat, mix_bits, mix_res));
    }
}

/// A sample with its shifted-off low-order bits restored.
pub open spec fn extra_sample(x: i32, shift: nat, extra: nat) -> i32 {
    wrap_i32((x as int) * pow2(shift) + extra)
}

/// The state of the two channel buffers and the extra-bits cursor after
/// restoring `shift` low-order bits to each of the first `n` samples of
/// `ec` channels; `None` when the bits run out.
pub open spec fn spec_extra_pass(
    data: Seq<u8>,
    pos: int,
    ba: Seq<i32>,
    bb: Seq<i32>,
    n: nat,
    ec: nat,
    shift: nat,
    i: nat,
) -> Option<(Seq<i32>, Seq<i32>, int)>
    decreases n - i,
{
    if i >= n {
        Some((ba, bb, pos))
    } else {
        match crate::bitcursor::spec_read(data, pos, shift) {
            None => None,
            Some((e0, p1)) => {
                let ba1 = ba.update(i as int, extra_sample(ba[i as int], shift, e0));
                if ec == 2 {
                    match crate::bitcursor::spec_read(data, p1, shift) {
                        None => None,
                        Some((e1, p2)) => {
                            let bb1 = bb.update(i as int, extra_sample(bb[i as int], shift, e1));
                            spec_extra_pass(data, p2, ba1, bb1, n, ec, shift, i + 1)
                        },
                    }
                } else {
                    spec_extra_pass(data, p1, ba1, bb, n, ec, shift, i + 1)
                }
            },
        }
    }
}

/// Reads `shift` extra bits per sample and channel from `reader` and
/// reattaches them below each decoded sample.
pub(crate) fn append_extra_bits(
    reader: &mut BitCursor,
    ba: &mut Vec<i32>,
    bb: &mut Vec<i32>,
    n: usize,
    ec: u8,
    shift: u8,
) -> (r: Result<(), InvalidData>)
    requires
        old(reader).wf(),
        n <= old(ba).len(),
        n <= old(bb).len(),
        1 <= ec <= 2,
        shift == 8 || shift == 16,
    ensures
        final(reader).wf(),
        final(reader).data() == old(reader).data(),
        final(ba).len() == old(ba).len(),
        final(bb).len() == old(bb).len(),
        match r {
            Ok(_) => spec_extra_pass(
                old(reader).data(),
                old(reader).bitpos() as int,
                old(ba)@,
                old(bb)@,
                n as nat,
                ec as nat,
                shift as nat,
                0,
            ) == Some((final(ba)@, final(bb)@, final(reader).bitpos() as int)),
            Err(e) => {
                &&& spec_extra_pass(
                    old(reader).data(),
                    old(reader).bitpos() as int,
                    old(ba)@,
                    old(bb)@,
                    n as nat,
                    ec as nat,
                    shift as nat,
                    0,
                ) is None
                &&& e.msg() == msg_short_packet()
            },
        },
{
    let ghost data = reader.data();
    let ghost pos0 = reader.bitpos() as int;
    let ghost ba0 = ba@;
    let ghost bb0 = bb@;
    let mut i: usize = 0;
    while i < n
        invariant
            data == old(reader).data(),
            pos0 == old(reader).bitpos(),
            ba0 == old(ba)@,
            bb0 == old(bb)@,
            reader.wf(),
            reader.data() == data,
            n <= ba@.len() && n <= bb@.len(),
            ba@.len() == ba0.len() && bb@.len() == bb0.len(),
            i <= n,
            1 <= ec <= 2,
            shift == 8 || shift == 16,
            spec_extra_pass(data, pos0, ba0, bb0, n as nat, ec as nat, shift as nat, 0)
                == spec_extra_pass(
                data,
                reader.bitpos() as int,
                ba@,
                bb@,
                n as nat,
                ec as nat,
                shift as nat,
                i as nat,
            ),
        decreases n - i,
    {
        let e0 = rd_u16(reader, shift as usize)?;
        let x0 = ba[i];
        proof {
            crate::bitcursor::lemma_bits_val_bound(
                data,
                (reader.bitpos() - shift) as int,
                shift as nat,
            );
            lemma2_to64();
        }
        ba[i] = shl_or_wrap(x0, shift as u32, e0 as u32);
        if ec == 2 {
            let e1 = rd_u16(reader, shift as usize)?;
            let x1 = bb[i];
            proof {
                crate::bitcursor::lemma_bits_val_bound(
                    data,
                    (reader.bitpos() - shift) as int,
                    shift as nat,
                );
                lemma2_to64();
            }
            bb[i] = shl_or_wrap(x1, shift as u32, e1 as u32);
        }
        i = i + 1;
    }
    Ok(())
}

/// The `i8` whose two's-complement bits are the low 8 bits of `v`.
pub open spec fn as_i8(v: nat) -> i8 {
    if v % 0x100 >= 0x80 {
        (v % 0x100 - 0x100) as i8
    } else {
        (v % 0x100) as i8
    }
}

/// A `u32` reinterpreted as a signed 32-bit value.
fn u32_to_i32_wrap(v: u32) -> (r: i32)
    ensures
        r == wrap_i32(v as int),
{
    proof {
        vstd::arithmetic::div_mod::lemma_small_mod(v as nat, 0x1_0000_0000nat);
    }
    if v >= 0x8000_0000 {
        ((v as i64) - 0x1_0000_0000i64) as i32
    } else {
        v as i32
    }
}

/// A `u16` reinterpreted as a signed 16-bit value.
fn u16_to_i16_wrap(v: u16) -> (r: i16)
    ensures
        r == as_i16(v as nat),
{
    proof {
        vstd::arithmetic::div_mod::lemma_small_mod(v as nat, 0x1_0000nat);
    }
    if v >= 0x8000 {
        (((v as i32) - 0x1_0000i32)) as i16
    } else {
        v as i16
    }
}

/// A `u8` reinterpreted as a signed 8-bit value.
fn u8_to_i8_wrap(v: u8) -> (r: i8)
    ensures
        r == as_i8(v as nat),
{
    proof {
        vstd::arithmetic::div_mod::lemma_small_mod(v as nat, 0x100nat);
    }
    if v >= 0x80 {
        (((v as i16) - 0x100i16)) as i8
    } else {
        v as i8
    }
}

/// Interleaved output indices stay below `ns * nc`.
proof fn lemma_interleave_bound(i: nat, ns: nat, nc: nat, ci: nat, ec: nat)
    requires
        i < ns,
        ci + ec <= nc,
        1 <= ec,
    ensures
        i * nc + ci + ec - 1 < ns * nc,
        i * nc >= 0,
    decreases 0nat,
{
    assert(i * nc + nc <= ns * nc && i * nc >= 0) by (nonlinear_arith)
        requires
            i < ns,
            nc >= 0,
    ;
}

/// The per-element header: instance tag, 12 reserved zero bits, the partial
/// frame flag, the sample shift in bytes, and the uncompressed flag; a
/// partial frame carries its own sample count, bounded by the stream's
/// frame length. Yields the shift in bits, the uncompressed flag, the
/// element's sample count and the position after the header, or the
/// message of the failure that stopped it.
pub open spec fn spec_elem_header(data: Seq<u8>, pos: int, cfg: StreamInfo) -> Outcome<
    (nat, bool, nat, int),
> {
    match crate::bitcursor::spec_read(data, pos, 4) {
        None => Outcome::Fail(msg_short_packet()),
        Some((_tag, p1)) => match crate::bitcursor::spec_read(data, p1, 12) {
            None => Outcome::Fail(msg_short_packet()),
            Some((unused, p2)) => if unused != 0 {
                Outcome::Fail("unused channel header bits must be zero"@)
            } else {
                match crate::bitcursor::spec_read(data, p2, 1) {
                    None => Outcome::Fail(msg_short_packet()),
                    Some((pf, p3)) => match crate::bitcursor::spec_read(data, p3, 2) {
                        None => Outcome::Fail(msg_short_packet()),
                        Some((sb, p4)) => if sb > 2 {
                            Outcome::Fail("channel sample shift must not be greater than 16"@)
                        } else {
                            match crate::bitcursor::spec_read(data, p4, 1) {
                                None => Outcome::Fail(msg_short_packet()),
                                Some((uc, p5)) => if pf == 1 {
                                    match crate::bitcursor::spec_read(data, p5, 32) {
                                        None => Outcome::Fail(msg_short_packet()),
                                        Some((ns, p6)) => if ns > cfg.frame_length {
                                            Outcome::Fail(
                                                "channel contains more samples than expected"@,
                                            )
                                        } else {
                                            Outcome::Good((8 * sb, uc == 1, ns, p6))
                                        },
                                    }
                                } else {
                                    Outcome::Good((8 * sb, uc == 1, cfg.frame_length as nat, p5))
                                },
                            }
                        },
                    },
                }
            },
        },
    }
}

/// The reversed coefficient table of a channel: the first coefficient read
/// lands at the highest index.
pub open spec fn spec_chan_coefs(data: Seq<u8>, pos: int, order: nat) -> Seq<i16> {
    Seq::new(order as nat, |j: int| as_i16(bits_val(data, pos + 16 * (order - 1 - j), 16)))
}

/// One channel's prediction parameters: mode, quantisation, Rice factor,
/// order, and `order` 16-bit coefficients stored in reverse.
pub open spec fn spec_chan_params(data: Seq<u8>, pos: int) -> Option<
    (nat, nat, nat, nat, Seq<i16>, int),
> {
    match crate::bitcursor::spec_read(data, pos, 4) {
        None => None,
        Some((mode, p1)) => match crate::bitcursor::spec_read(data, p1, 4) {
            None => None,
            Some((quant, p2)) => match crate::bitcursor::spec_read(data, p2, 3) {
                None => None,
                Some((pbf, p3)) => match crate::bitcursor::spec_read(data, p3, 5) {
                    None => None,
                    Some((order, p4)) => if p4 + 16 * order <= data.len() * 8 {
                        Some((mode, quant, pbf, order, spec_chan_coefs(data, p4, order), p4 + 16
                            * order))
                    } else {
                        None
                    },
                },
            },
        },
    }
}

/// Reads one channel's prediction parameters and coefficient table.
#[verifier::loop_isolation(false)]
fn read_chan_params(reader: &mut BitCursor) -> (r: Result<(u8, u32, u16, u8, Vec<i16>), InvalidData>)
    requires
        old(reader).wf(),
    ensures
        final(reader).wf(),
        final(reader).data() == old(reader).data(),
        final(reader).bitpos() >= old(reader).bitpos(),
        match r {
            Ok((mode, quant, pbf, order, coefs)) => {
                &&& spec_chan_params(old(reader).data(), old(reader).bitpos() as int) == Some(
                    (
                        mode as nat,
                        quant as nat,
                        pbf as nat,
                        order as nat,
                        coefs@,
                        final(reader).bitpos() as int,
                    ),
                )
                &&& mode <= 15
                &&& quant <= 15
                &&& pbf <= 7
                &&& order <= 31
                &&& coefs@.len() == order
            },
            Err(e) => {
                &&& spec_chan_params(old(reader).data(), old(reader).bitpos() as int) is None
                &&& e.msg() == msg_short_packet()
            },
        },
{
    let ghost data = reader.data();
    let ghost pos0 = reader.bitpos() as int;
    let mode = rd_u8(reader, 4)?;
    let quant = rd_u8(reader, 4)? as u32;
    let pbf = rd_u8(reader, 3)? as u16;
    let order = rd_u8(reader, 5)?;
    proof {
        crate::bitcursor::lemma_bits_val_bound(data, pos0, 4);
        crate::bitcursor::lemma_bits_val_bound(data, pos0 + 4, 4);
        crate::bitcursor::lemma_bits_val_bound(data, pos0 + 8, 3);
        crate::bitcursor::lemma_bits_val_bound(data, pos0 + 11, 5);
        lemma2_to64();
    }
    let ghost p4 = reader.bitpos() as int;

    // Coefficients are used in reverse order of storage for prediction.
    let mut coefs: Vec<i16> = Vec::new();
    let mut t: usize = 0;
    while t < order as usize
        invariant
            data == old(reader).data(),
            reader.wf(),
            reader.data() == data,
            t <= order,
            p4 == reader.bitpos() - 16 * t,
            reader.bitpos() >= pos0,
            coefs@.len() == t,
            forall|k: int|
                0 <= k < t ==> coefs@[k] == as_i16(bits_val(data, p4 + 16 * k, 16)),
        decreases order - t,
    {
        let v = match reader.read_u16(16) {
            Ok(v) => v,
            Err(_) => {
                return Err(invalid_data("packet is not long enough"));
            },
        };
        coefs.push(u16_to_i16_wrap(v));
        t = t + 1;
    }

    // What was read first belongs at the highest index.
    let mut rev: Vec<i16> = Vec::new();
    let mut t2: usize = 0;
    while t2 < order as usize
        invariant
            t2 <= order,
            coefs@.len() == order,
            rev@.len() == t2,
            forall|k: int| 0 <= k < t2 ==> rev@[k] == coefs@[order - 1 - k],
        decreases order - t2,
    {
        rev.push(coefs[order as usize - 1 - t2]);
        t2 = t2 + 1;
    }
    proof {
        assert(rev@ =~= spec_chan_coefs(data, p4, order as nat));
    }
    Ok((mode, quant, pbf, order, rev))
}

/// One channel through entropy decoding and prediction: Rice-decode the
/// residuals, then run either the order-31 differential mode (mode 15) or
/// nothing extra, and the linear predictor; modes other than 0 and 15 and
/// an order of 31 outside mode 15 are malformed.
pub open spec fn spec_chan_pipeline(
    data: Seq<u8>,
    pos: int,
    cfg: StreamInfo,
    buf: Seq<i32>,
    ns: nat,
    chan_bits: u8,
    mode: nat,
    quant: nat,
    pbf: nat,
    order: nat,
    coefs: Seq<i16>,
) -> Outcome<(Seq<i32>, int)> {
    match crate::rice::spec_rice_block(
        data,
        pos,
        buf,
        ns,
        0,
        cfg.mb as u32,
        0,
        crate::rice::rice_mult(cfg.pb, pbf as u16),
        cfg.kb,
        chan_bits,
    ) {
        Outcome::Fail(m) => Outcome::Fail(m),
        Outcome::Good((b1, p1)) => if mode == 15 {
            let b2 = crate::lpc::spec_diff_pass(b1, chan_bits, 1, ns);
            let (b3, _c) = crate::lpc::spec_lpc_predict(b2, coefs, ns, chan_bits, quant as u32);
            Outcome::Good((b3, p1))
        } else if mode > 0 {
            Outcome::Fail("invalid lpc mode"@)
        } else if order == 31 {
            Outcome::Fail("invalid lpc mode"@)
        } else {
            let (b3, _c) = crate::lpc::spec_lpc_predict(b1, coefs, ns, chan_bits, quant as u32);
            Outcome::Good((b3, p1))
        },
    }
}

/// Rice-decodes and predicts one channel of a compressed element in place.
fn decode_chan_pipeline(
    reader: &mut BitCursor,
    config: &StreamInfo,
    buf: &mut Vec<i32>,
    ns: usize,
    chan_bits: u8,
    mode: u8,
    quant: u32,
    pbf: u16,
    order: u8,
    coefs: &mut Vec<i16>,
) -> (r: Result<(), InvalidData>)
    requires
        old(reader).wf(),
        ns <= old(buf).len(),
        1 <= chan_bits <= 32,
        quant <= 15,
        pbf <= 7,
        config.kb >= 1,
        old(coefs).len() == order,
        order <= 31,
        mode <= 15,
    ensures
        final(reader).wf(),
        final(reader).data() == old(reader).data(),
        final(reader).bitpos() >= old(reader).bitpos(),
        final(buf).len() == old(buf).len(),
        match r {
            Ok(_) => spec_chan_pipeline(
                old(reader).data(),
                old(reader).bitpos() as int,
                *config,
                old(buf)@,
                ns as nat,
                chan_bits,
                mode as nat,
                quant as nat,
                pbf as nat,
                order as nat,
                old(coefs)@,
            ) == Outcome::<(Seq<i32>, int)>::Good(
                (final(buf)@, final(reader).bitpos() as int),
            ),
            Err(e) => spec_chan_pipeline(
                old(reader).data(),
                old(reader).bitpos() as int,
                *config,
                old(buf)@,
                ns as nat,
                chan_bits,
                mode as nat,
                quant as nat,
                pbf as nat,
                order as nat,
                old(coefs)@,
            ) == Outcome::<(Seq<i32>, int)>::Fail(e.msg()),
        },
{
    crate::rice::rice_decompress(reader, config, buf, ns, chan_bits, pbf)?;

    if mode == 15 {
        // The special "numActive == 31" mode: first-order differential
        // decoding over the whole channel, done in place.
        crate::lpc::lpc_predict_order_31(buf, ns, chan_bits);
    } else if mode > 0 {
        return Err(invalid_data("invalid lpc mode"));
    } else if order == 31 {
        // Order 31 is reserved for mode 15.
        return Err(invalid_data("invalid lpc mode"));
    }

    crate::lpc::lpc_predict(buf, ns, chan_bits, coefs, quant);
    Ok(())
}

/// Uncompressed samples: `ns` interleaved frames of `ec` channels, each
/// sample stored verbatim in `bd` bits.
pub open spec fn spec_uncomp_pass<S: Sample>(
    data: Seq<u8>,
    pos: int,
    out: Seq<S>,
    nc: nat,
    ci: nat,
    ec: nat,
    bd: u8,
    ns: nat,
    i: nat,
) -> Option<(Seq<S>, int)>
    decreases ns - i,
{
    if i >= ns {
        Some((out, pos))
    } else {
        match crate::bitcursor::spec_read(data, pos, bd as nat) {
            None => None,
            Some((v0, p1)) => {
                let out1 = out.update(
                    (i * nc + ci) as int,
                    S::spec_from_decoder(wrap_i32(v0 as int), bd),
                );
                if ec == 2 {
                    match crate::bitcursor::spec_read(data, p1, bd as nat) {
                        None => None,
                        Some((v1, p2)) => {
                            let out2 = out1.update(
                                (i * nc + ci + 1) as int,
                                S::spec_from_decoder(wrap_i32(v1 as int), bd),
                            );
                            spec_uncomp_pass(data, p2, out2, nc, ci, ec, bd, ns, i + 1)
                        },
                    }
                } else {
                    spec_uncomp_pass(data, p1, out1, nc, ci, ec, bd, ns, i + 1)
                }
            },
        }
    }
}

/// Reads an uncompressed element's samples straight into the output buffer.
fn decode_uncompressed<S: Sample>(
    reader: &mut BitCursor,
    out: &mut Vec<S>,
    nc: u8,
    ci: u8,
    ec: u8,
    bd: u8,
    ns: usize,
) -> (r: Result<(), InvalidData>)
    requires
        old(reader).wf(),
        1 <= bd <= 32,
        1 <= ec <= 2,
        ci + ec <= nc,
        ns * nc <= old(out).len(),
    ensures
        final(reader).wf(),
        final(reader).data() == old(reader).data(),
        final(reader).bitpos() >= old(reader).bitpos(),
        final(out).len() == old(out).len(),
        match r {
            Ok(_) => spec_uncomp_pass(
                old(reader).data(),
                old(reader).bitpos() as int,
                old(out)@,
                nc as nat,
                ci as nat,
                ec as nat,
                bd,
                ns as nat,
                0,
            ) == Some((final(out)@, final(reader).bitpos() as int)),
            Err(e) => {
                &&& spec_uncomp_pass(
                    old(reader).data(),
                    old(reader).bitpos() as int,
                    old(out)@,
                    nc as nat,
                    ci as nat,
                    ec as nat,
                    bd,
                    ns as nat,
                    0,
                ) is None
                &&& e.msg() == msg_short_packet()
            },
        },
{
    let ghost data = reader.data();
    let ghost pos0 = reader.bitpos() as int;
    let ghost out0 = out@;
    let olen: usize = out.len();
    let mut i: usize = 0;
    while i < ns
        invariant
            data == old(reader).data(),
            pos0 == old(reader).bitpos(),
            out0 == old(out)@,
            reader.wf(),
            reader.data() == data,
            reader.bitpos() >= pos0,
            out@.len() == out0.len(),
            out@.len() == olen,
            i <= ns,
            1 <= bd <= 32,
            1 <= ec <= 2,
            ci + ec <= nc,
            ns * nc <= out@.len(),
            spec_uncomp_pass(data, pos0, out0, nc as nat, ci as nat, ec as nat, bd, ns as nat, 0)
                == spec_uncomp_pass(
                data,
                reader.bitpos() as int,
                out@,
                nc as nat,
                ci as nat,
                ec as nat,
                bd,
                ns as nat,
                i as nat,
            ),
        decreases ns - i,
    {
        proof {
            lemma_interleave_bound(i as nat, ns as nat, nc as nat, ci as nat, ec as nat);
        }
        let v0 = rd_u32(reader, bd as usize)?;
        let s0 = u32_to_i32_wrap(v0);
        let idx0: usize = i * (nc as usize) + (ci as usize);
        out[idx0] = S::from_decoder(s0, bd);
        if ec == 2 {
            let v1 = rd_u32(reader, bd as usize)?;
            let s1 = u32_to_i32_wrap(v1);
            out[idx0 + 1] = S::from_decoder(s1, bd);
        }
        i = i + 1;
    }
    Ok(())
}

/// The output buffer after the decoded channels are stored interleaved,
/// converted to the destination sample type.
pub open spec fn spec_convert<S: Sample>(
    ba: Seq<i32>,
    bb: Seq<i32>,
    out: Seq<S>,
    nc: nat,
    ci: nat,
    ec: nat,
    bd: u8,
    ns: nat,
    i: nat,
) -> Seq<S>
    decreases ns - i,
{
    if i >= ns {
        out
    } else {
        let o1 = out.update((i * nc + ci) as int, S::spec_from_decoder(ba[i as int], bd));
        let o2 = if ec == 2 {
            o1.update((i * nc + ci + 1) as int, S::spec_from_decoder(bb[i as int], bd))
        } else {
            o1
        };
        spec_convert(ba, bb, o2, nc, ci, ec, bd, ns, i + 1)
    }
}

/// Stores the decoded channels interleaved into the output buffer.
fn convert_out<S: Sample>(
    ba: &Vec<i32>,
    bb: &Vec<i32>,
    out: &mut Vec<S>,
    nc: u8,
    ci: u8,
    ec: u8,
    bd: u8,
    ns: usize,
)
    requires
        1 <= bd <= 32,
        1 <= ec <= 2,
        ci + ec <= nc,
        ns * nc <= old(out).len(),
        ns <= ba@.len(),
        ns <= bb@.len(),
    ensures
        final(out).len() == old(out).len(),
        final(out)@ == spec_convert(
            ba@,
            bb@,
            old(out)@,
            nc as nat,
            ci as nat,
            ec as nat,
            bd,
            ns as nat,
            0,
        ),
{
    let ghost out0 = out@;
    let olen: usize = out.len();
    let mut i: usize = 0;
    while i < ns
        invariant
            out0 == old(out)@,
            out@.len() == out0.len(),
            out@.len() == olen,
            i <= ns,
            1 <= bd <= 32,
            1 <= ec <= 2,
            ci + ec <= nc,
            ns * nc <= out@.len(),
            ns <= ba@.len() && ns <= bb@.len(),
            spec_convert(ba@, bb@, out0, nc as nat, ci as nat, ec as nat, bd, ns as nat, 0)
                == spec_convert(
                ba@,
                bb@,
                out@,
                nc as nat,
                ci as nat,
                ec as nat,
                bd,
                ns as nat,
                i as nat,
            ),
        decreases ns - i,
    {
        proof {
            lemma_interleave_bound(i as nat, ns as nat, nc as nat, ci as nat, ec as nat);
        }
        let idx0: usize = i * (nc as usize) + (ci as usize);
        out[idx0] = S::from_decoder(ba[i], bd);
        if ec == 2 {
            out[idx0 + 1] = S::from_decoder(bb[i], bd);
        }
        i = i + 1;
    }
}

/// One audio element (SCE, LFE or CPE body): header, then either verbatim
/// samples or the compressed pipeline of Rice decoding, prediction, stereo
/// unmixing and extra-bits reattachment, ending with interleaved stores to
/// the output. Yields the new scratch buffers, the output, the position
/// after the element and the element's sample count, or the message of the
/// failure that stopped it.
#[verifier::opaque]
pub open spec fn spec_element<S: Sample>(
    data: Seq<u8>,
    pos: int,
    cfg: StreamInfo,
    a: Seq<i32>,
    b: Seq<i32>,
    out: Seq<S>,
    ci: nat,
    ec: nat,
) -> Outcome<(Seq<i32>, Seq<i32>, Seq<S>, int, nat)> {
    match spec_elem_header(data, pos, cfg) {
        Outcome::Fail(m) => Outcome::Fail(m),
        Outcome::Good((shift, uncomp, ns, p1)) => if uncomp {
            if shift != 0 {
                Outcome::Fail("sample shift cannot be greater than zero for uncompressed channels"@)
            } else {
                match spec_uncomp_pass::<S>(
                    data,
                    p1,
                    out,
                    cfg.num_channels as nat,
                    ci,
                    ec,
                    cfg.bit_depth,
                    ns,
                    0,
                ) {
                    None => Outcome::Fail(msg_short_packet()),
                    Some((out2, p2)) => Outcome::Good((a, b, out2, p2, ns)),
                }
            }
        } else {
            let cb = cfg.bit_depth + ec - 1 - shift;
            if cb < 0 || cb > 32 {
                Outcome::Fail("channel bit depth cannot be greater than 32"@)
            } else if cb == 0 {
                Outcome::Fail("channel bit depth must be one or greater"@)
            } else if cfg.kb == 0 {
                Outcome::Fail("rice parameter ceiling must be one or greater"@)
            } else {
                match crate::bitcursor::spec_read(data, p1, 8) {
                    None => Outcome::Fail(msg_short_packet()),
                    Some((mixb, p2)) => match crate::bitcursor::spec_read(data, p2, 8) {
                        None => Outcome::Fail(msg_short_packet()),
                        Some((mixr, p3)) => match spec_chan_params(data, p3) {
                            None => Outcome::Fail(msg_short_packet()),
                            Some((mode0, quant0, pbf0, order0, coefs0, p4)) => {
                                let second = if ec == 2 {
                                    spec_chan_params(data, p4)
                                } else {
                                    Some((0nat, 0nat, 0nat, 0nat, Seq::<i16>::empty(), p4))
                                };
                                match second {
                                    None => Outcome::Fail(msg_short_packet()),
                                    Some((mode1, quant1, pbf1, order1, coefs1, p5)) => if shift
                                        != 0 && p5 + shift * ns * ec > data.len() * 8 {
                                        Outcome::Fail(msg_short_packet())
                                    } else {
                                        let pm = if shift == 0 {
                                            p5
                                        } else {
                                            p5 + shift * ns * ec
                                        };
                                        match spec_chan_pipeline(
                                            data,
                                            pm,
                                            cfg,
                                            a,
                                            ns,
                                            cb as u8,
                                            mode0,
                                            quant0,
                                            pbf0,
                                            order0,
                                            coefs0,
                                        ) {
                                            Outcome::Fail(m) => Outcome::Fail(m),
                                            Outcome::Good((a1, p6)) => {
                                                let chan2 = if ec == 2 {
                                                    spec_chan_pipeline(
                                                        data,
                                                        p6,
                                                        cfg,
                                                        b,
                                                        ns,
                                                        cb as u8,
                                                        mode1,
                                                        quant1,
                                                        pbf1,
                                                        order1,
                                                        coefs1,
                                                    )
                                                } else {
                                                    Outcome::Good((b, p6))
                                                };
                                                match chan2 {
                                                    Outcome::Fail(m) => Outcome::Fail(m),
                                                    Outcome::Good((b1, p7)) => {
                                                        let mr = as_i8(mixr);
                                                        let a2 = if ec == 2 && mr != 0 {
                                                            spec_unmix_first(
                                                                a1,
                                                                b1,
                                                                ns,
                                                                mixb as u8,
                                                                mr,
                                                            )
                                                        } else {
                                                            a1
                                                        };
                                                        let b2 = if ec == 2 && mr != 0 {
                                                            spec_unmix_second(
                                                                a1,
                                                                b1,
                                                                ns,
                                                                mixb as u8,
                                                                mr,
                                                            )
                                                        } else {
                                                            b1
                                                        };
                                                        let withx = if shift != 0 {
                                                            spec_extra_pass(
                                                                data,
                                                                p5,
                                                                a2,
                                                                b2,
                                                                ns,
                                                                ec,
                                                                shift,
                                                                0,
                                                            )
                                                        } else {
                                                            Some((a2, b2, p5))
                                                        };
                                                        match withx {
                                                            None => Outcome::Fail(
                                                                msg_short_packet(),
                                                            ),
                                                            Some((a3, b3, _px)) => {
                                                                let out2 = spec_convert::<S>(
                                                                    a3,
                                                                    b3,
                                                                    out,
                                                                    cfg.num_channels as nat,
                                                                    ci,
                                                                    ec,
                                                                    cfg.bit_depth,
                                                                    ns,
                                                                    0,
                                                                );
                                                                Outcome::Good(
                                                                    (a3, b3, out2, p7, ns),
                                                                )
                                                            },
                                                        }
                                                    },
                                                }
                                            },
                                        }
                                    },
                                }
                            },
                        },
                    },
                }
            }
        },
    }
}

/// Decodes one audio element into the interleaved output buffer.
#[verifier::rlimit(100)]
pub(crate) fn decode_audio_element<S: Sample>(
    reader: &mut BitCursor,
    config: &StreamInfo,
    ba: &mut Vec<i32>,
    bb: &mut Vec<i32>,
    out: &mut Vec<S>,
    channel_index: u8,
    element_channels: u8,
) -> (r: Result<u32, InvalidData>)
    requires
        old(reader).wf(),
        config.wf(),
        old(ba).len() == config.frame_length,
        old(bb).len() == config.frame_length,
        config.frame_length * config.num_channels <= old(out).len(),
        channel_index + element_channels <= config.num_channels,
        1 <= element_channels <= 2,
        config.bit_depth <= S::spec_bits(),
        S::spec_bits() <= 32,
    ensures
        final(reader).wf(),
        final(reader).data() == old(reader).data(),
        final(reader).bitpos() >= old(reader).bitpos(),
        final(ba).len() == old(ba).len(),
        final(bb).len() == old(bb).len(),
        final(out).len() == old(out).len(),
        match r {
            Ok(ns) => {
                &&& ns <= config.frame_length
                &&& spec_element::<S>(
                    old(reader).data(),
                    old(reader).bitpos() as int,
                    *config,
                    old(ba)@,
                    old(bb)@,
                    old(out)@,
                    channel_index as nat,
                    element_channels as nat,
                ) == Outcome::<(Seq<i32>, Seq<i32>, Seq<S>, int, nat)>::Good(
                    (
                        final(ba)@,
                        final(bb)@,
                        final(out)@,
                        final(reader).bitpos() as int,
                        ns as nat,
                    ),
                )
            },
            Err(e) => spec_element::<S>(
                old(reader).data(),
                old(reader).bitpos() as int,
                *config,
                old(ba)@,
                old(bb)@,
                old(out)@,
                channel_index as nat,
                element_channels as nat,
            ) == Outcome::<(Seq<i32>, Seq<i32>, Seq<S>, int, nat)>::Fail(e.msg()),
        },
{
    proof {
        reveal(spec_element);
    }
    let ghost data = reader.data();
    let ghost pos0 = reader.bitpos() as int;
    let ghost cfg = *config;
    let ci = channel_index;
    let ec = element_channels;

    // The element instance tag associates data stream elements with audio
    // elements; it is read and ignored.
    let _tag = rd_u8(reader, 4)?;
    let unused = rd_u16(reader, 12)?;
    if unused != 0 {
        return Err(invalid_data("unused channel header bits must be zero"));
    }
    let ghost p_pf = reader.bitpos() as int;
    let partial = rd_bit(reader)?;
    proof {
        assert(bits_val(data, p_pf, 0) == 0);
        assert(bits_val(data, p_pf, 1) == (if crate::bitcursor::bit_of(data, p_pf) {
            1nat
        } else {
            0nat
        }));
    }
    let sb = rd_u8(reader, 2)?;
    if sb > 2 {
        return Err(invalid_data("channel sample shift must not be greater than 16"));
    }
    let shift: u8 = sb * 8;
    let ghost p_uc = reader.bitpos() as int;
    let is_uncompressed = rd_bit(reader)?;
    proof {
        assert(bits_val(data, p_uc, 0) == 0);
        assert(bits_val(data, p_uc, 1) == (if crate::bitcursor::bit_of(data, p_uc) {
            1nat
        } else {
            0nat
        }));
    }

    // A partial frame carries its own sample count.
    let ns: usize = if partial {
        let v = rd_u32(reader, 32)?;
        if v > config.frame_length {
            return Err(invalid_data("channel contains more samples than expected"));
        }
        v as usize
    } else {
        config.frame_length as usize
    };
    proof {
        assert(spec_elem_header(data, pos0, cfg) == Outcome::<(nat, bool, nat, int)>::Good(
            ((shift as nat), is_uncompressed, ns as nat, reader.bitpos() as int),
        ));
        assert(ns * config.num_channels <= config.frame_length * config.num_channels) by (
        nonlinear_arith)
            requires
                ns <= config.frame_length,
                config.num_channels >= 0,
        ;
    }

    if is_uncompressed {
        // Uncompressed samples go straight to the output buffer.
        if shift != 0 {
            return Err(
                invalid_data("sample shift cannot be greater than zero for uncompressed channels"),
            );
        }
        decode_uncompressed::<S>(reader, out, config.num_channels, ci, ec, config.bit_depth, ns)?;
        return Ok(ns as u32);
    }

    // Compressed element: the effective width of each decoded residual.
    if (shift as u32) > (config.bit_depth as u32) + (ec as u32) - 1 {
        return Err(invalid_data("channel bit depth cannot be greater than 32"));
    }
    let cb32: u32 = (config.bit_depth as u32) + (ec as u32) - 1 - (shift as u32);
    if cb32 > 32 {
        return Err(invalid_data("channel bit depth cannot be greater than 32"));
    }
    if cb32 == 0 {
        return Err(invalid_data("channel bit depth must be one or greater"));
    }
    let chan_bits: u8 = cb32 as u8;
    if config.kb == 0 {
        return Err(invalid_data("rice parameter ceiling must be one or greater"));
    }

    let mix_bits: u8 = rd_u8(reader, 8)?;
    let mix_res_raw: u8 = rd_u8(reader, 8)?;
    let mix_res: i8 = u8_to_i8_wrap(mix_res_raw);
    proof {
        crate::bitcursor::lemma_bits_val_bound(data, (reader.bitpos() - 16) as int, 8);
        lemma2_to64();
    }

    let (mode0, quant0, pbf0, order0, mut coefs0) = read_chan_params(reader)?;
    let (mode1, quant1, pbf1, order1, mut coefs1) = if ec == 2 {
        read_chan_params(reader)?
    } else {
        (0u8, 0u32, 0u16, 0u8, Vec::new())
    };
    let ghost p5 = reader.bitpos() as int;

    // Fork the cursor for the shifted-off low-order bits, then skip past
    // them on the main cursor.
    let mut extra_reader: BitCursor = *reader;
    if shift != 0 {
        proof {
            assert((shift as int) * (ns as int) * (ec as int) <= 16 * 0xFFFF_FFFF * 2) by (
            nonlinear_arith)
                requires
                    shift <= 16,
                    ns <= 0xFFFF_FFFFusize,
                    ec <= 2,
            ;
            assert((shift as int) * (ns as int) * (ec as int) >= 0) by (nonlinear_arith)
                requires
                    shift >= 0,
                    ns >= 0,
                    ec >= 0,
            ;
        }
        let total: u64 = (shift as u64) * (ns as u64) * (ec as u64);
        if total > (usize::MAX as u64) {
            return Err(invalid_data("packet is not long enough"));
        }
        rd_skip(reader, total as usize)?;
    }

    decode_chan_pipeline(reader, config, ba, ns, chan_bits, mode0, quant0, pbf0, order0,
        &mut coefs0)?;
    if ec == 2 {
        decode_chan_pipeline(reader, config, bb, ns, chan_bits, mode1, quant1, pbf1, order1,
            &mut coefs1)?;
    }

    if ec == 2 && mix_res != 0 {
        unmix_stereo(ba, bb, ns, mix_bits, mix_res);
    }

    // Restore the shifted-off low-order bits below each sample.
    if shift != 0 {
        append_extra_bits(&mut extra_reader, ba, bb, ns, ec, shift)?;
    }

    convert_out::<S>(ba, bb, out, config.num_channels, ci, ec, config.bit_depth, ns);

    Ok(ns as u32)
}

/// What one dispatch step of the packet loop does: fail, finish with the
/// decoded output and its sample count, or hand the next state on.
pub enum PacketStep<S> {
    Fail(Seq<char>),
    Done(Seq<S>, nat),
    Next(Seq<i32>, Seq<i32>, Seq<S>, int, nat, Option<nat>),
}

/// The spec view of the decoder's running frame-sample count.
pub open spec fn fs_view(o: Option<u32>) -> Option<nat> {
    match o {
        Some(v) => Some(v as nat),
        None => None,
    }
}

/// One step of the packet loop: read a 3-bit element tag and dispatch.
/// SCE and LFE carry one channel, CPE two; CCE and PCE are unsupported;
/// DSE and FIL are skipped; END closes the packet once every declared
/// channel has been seen.
pub open spec fn spec_packet_step<S: Sample>(
    data: Seq<u8>,
    pos: int,
    cfg: StreamInfo,
    a: Seq<i32>,
    b: Seq<i32>,
    out: Seq<S>,
    ci: nat,
    fs: Option<nat>,
) -> PacketStep<S> {
    match crate::bitcursor::spec_read(data, pos, 3) {
        None => PacketStep::Fail(msg_short_packet()),
        Some((tag, p1)) => if tag == 0 || tag == 1 || tag == 3 {
            let ec: nat = if tag == 1 {
                2
            } else {
                1
            };
            if ci + ec > cfg.num_channels {
                PacketStep::Fail("packet contains more channels than expected"@)
            } else {
                match spec_element::<S>(data, p1, cfg, a, b, out, ci, ec) {
                    Outcome::Fail(m) => PacketStep::Fail(m),
                    Outcome::Good((a2, b2, out2, p2, ns)) => match fs {
                        Some(f) => if f != ns {
                            PacketStep::Fail(
                                "all channels in a packet must contain the same number of samples"@,
                            )
                        } else {
                            PacketStep::Next(a2, b2, out2, p2, ci + ec, Some(ns))
                        },
                        None => PacketStep::Next(a2, b2, out2, p2, ci + ec, Some(ns)),
                    },
                }
            }
        } else if tag == 2 || tag == 5 {
            PacketStep::Fail("packet cce and pce elements are unsupported"@)
        } else if tag == 4 {
            match crate::bitcursor::spec_read(data, p1, 4) {
                None => PacketStep::Fail(msg_short_packet()),
                Some((_it, p2)) => match crate::bitcursor::spec_read(data, p2, 1) {
                    None => PacketStep::Fail(msg_short_packet()),
                    Some((alignb, p3)) => match crate::bitcursor::spec_read(data, p3, 8) {
                        None => PacketStep::Fail(msg_short_packet()),
                        Some((cnt, p4)) => {
                            let ext = if cnt == 255 {
                                crate::bitcursor::spec_read(data, p4, 8)
                            } else {
                                Some((0nat, p4))
                            };
                            match ext {
                                None => PacketStep::Fail(msg_short_packet()),
                                Some((e, p5)) => {
                                    let sb = cnt + e;
                                    let p6 = if alignb == 1 {
                                        p5 + ((8 - p5 % 8) % 8)
                                    } else {
                                        p5
                                    };
                                    if p6 + sb * 8 <= data.len() * 8 {
                                        PacketStep::Next(a, b, out, p6 + sb * 8, ci, fs)
                                    } else {
                                        PacketStep::Fail(msg_short_packet())
                                    }
                                },
                            }
                        },
                    },
                },
            }
        } else if tag == 6 {
            match crate::bitcursor::spec_read(data, p1, 4) {
                None => PacketStep::Fail(msg_short_packet()),
                Some((cnt, p2)) => if cnt == 15 {
                    match crate::bitcursor::spec_read(data, p2, 8) {
                        None => PacketStep::Fail(msg_short_packet()),
                        Some((e, p3)) => {
                            let sb = (cnt + e - 1) as nat;
                            if p3 + sb * 8 <= data.len() * 8 {
                                PacketStep::Next(a, b, out, p3 + sb * 8, ci, fs)
                            } else {
                                PacketStep::Fail(msg_short_packet())
                            }
                        },
                    }
                } else {
                    if p2 + cnt * 8 <= data.len() * 8 {
                        PacketStep::Next(a, b, out, p2 + cnt * 8, ci, fs)
                    } else {
                        PacketStep::Fail(msg_short_packet())
                    }
                },
            }
        } else {
            if ci != cfg.num_channels {
                PacketStep::Fail("packet contains fewer channels than expected"@)
            } else {
                let f = match fs {
                    Some(f) => f,
                    None => cfg.frame_length as nat,
                };
                PacketStep::Done(out, (f * cfg.num_channels) as nat)
            }
        },
    }
}

/// The packet loop: elements are dispatched until END; the result is the
/// output buffer and the number of interleaved samples it holds, or the
/// message of the failure that stopped the walk.
#[verifier::opaque]
pub open spec fn spec_packet<S: Sample>(
    data: Seq<u8>,
    pos: int,
    cfg: StreamInfo,
    a: Seq<i32>,
    b: Seq<i32>,
    out: Seq<S>,
    ci: nat,
    fs: Option<nat>,
) -> Outcome<(Seq<S>, nat)>
    decreases data.len() * 8 - pos,
{
    match spec_packet_step::<S>(data, pos, cfg, a, b, out, ci, fs) {
        PacketStep::Fail(m) => Outcome::Fail(m),
        PacketStep::Done(o, n) => Outcome::Good((o, n)),
        PacketStep::Next(a2, b2, o2, p2, ci2, fs2) => if p2 > pos && p2 <= data.len() * 8 {
            spec_packet::<S>(data, p2, cfg, a2, b2, o2, ci2, fs2)
        } else {
            Outcome::Fail(msg_short_packet())
        },
    }
}

proof fn lemma_packet_unfold<S: Sample>(
    data: Seq<u8>,
    pos: int,
    cfg: StreamInfo,
    a: Seq<i32>,
    b: Seq<i32>,
    out: Seq<S>,
    ci: nat,
    fs: Option<nat>,
)
    ensures
        spec_packet::<S>(data, pos, cfg, a, b, out, ci, fs) == (match spec_packet_step::<S>(
            data,
            pos,
            cfg,
            a,
            b,
            out,
            ci,
            fs,
        ) {
            PacketStep::Fail(m) => Outcome::Fail(m),
            PacketStep::Done(o, n) => Outcome::Good((o, n)),
            PacketStep::Next(a2, b2, o2, p2, ci2, fs2) => if p2 > pos && p2 <= data.len() * 8 {
                spec_packet::<S>(data, p2, cfg, a2, b2, o2, ci2, fs2)
            } else {
                Outcome::Fail(msg_short_packet())
            },
        }),
{
    reveal(spec_packet);
}

/// An ALAC packet decoder.
///
/// It owns the stream's parameters and a scratch buffer of two channel
/// planes of `frame_length` samples each, reused across packets.
pub struct Decoder {
    config: StreamInfo,
    buf_a: Vec<i32>,
    buf_b: Vec<i32>,
}

fn zeros(n: usize) -> (r: Vec<i32>)
    ensures
        r@.len() == n,
        forall|i: int| 0 <= i < n ==> r@[i] == 0i32,
{
    let mut v: Vec<i32> = Vec::new();
    let mut i: usize = 0;
    while i < n
        invariant
            v@.len() == i,
            i <= n,
            forall|t: int| 0 <= t < i ==> v@[t] == 0i32,
        decreases n - i,
    {
        v.push(0);
        i = i + 1;
    }
    v
}

impl Decoder {
    /// The stream parameters this decoder was created with.
    pub closed spec fn cfg(&self) -> StreamInfo {
        self.config
    }

    /// The first scratch channel plane.
    pub closed spec fn scratch_a(&self) -> Seq<i32> {
        self.buf_a@
    }

    /// The second scratch channel plane.
    pub closed spec fn scratch_b(&self) -> Seq<i32> {
        self.buf_b@
    }

    /// A decoder's parameters are validated and its scratch planes hold one
    /// frame each.
    pub open spec fn wf(&self) -> bool {
        &&& self.cfg().wf()
        &&& self.scratch_a().len() == self.cfg().frame_length
        &&& self.scratch_b().len() == self.cfg().frame_length
    }

    /// Creates a `Decoder` for a stream described by the `StreamInfo`; its
    /// scratch planes start zeroed.
    pub fn new(config: StreamInfo) -> (r: Decoder)
        requires
            config.wf(),
        ensures
            r.cfg() == config,
            r.wf(),
            forall|i: int| 0 <= i < r.scratch_a().len() ==> r.scratch_a()[i] == 0i32,
            forall|i: int| 0 <= i < r.scratch_b().len() ==> r.scratch_b()[i] == 0i32,
    {
        let n = config.frame_length as usize;
        Decoder { config, buf_a: zeros(n), buf_b: zeros(n) }
    }

    /// Returns the `StreamInfo` used to create this decoder.
    pub fn stream_info(&self) -> (r: &StreamInfo)
        ensures
            *r == self.cfg(),
    {
        &self.config
    }

    /// Decodes an ALAC packet into `out`.
    ///
    /// Channels are interleaved: for a stereo packet `out` holds samples in
    /// the order left, right, left, right and so on. Returns the number of
    /// samples written at the front of `out`.
    #[verifier::rlimit(100)]
    pub fn decode_packet<S: Sample>(&mut self, packet: &[u8], out: &mut Vec<S>) -> (r: Result<
        usize,
        InvalidData,
    >)
        requires
            old(self).wf(),
            old(self).cfg().frame_length * old(self).cfg().num_channels <= old(out).len(),
            old(self).cfg().bit_depth <= S::spec_bits(),
            S::spec_bits() <= 32,
        ensures
            final(self).wf(),
            final(self).cfg() == old(self).cfg(),
            final(out).len() == old(out).len(),
            match r {
                Ok(n) => {
                    &&& spec_packet::<S>(
                        packet@,
                        0,
                        old(self).cfg(),
                        old(self).scratch_a(),
                        old(self).scratch_b(),
                        old(out)@,
                        0,
                        None,
                    ) == Outcome::<(Seq<S>, nat)>::Good((final(out)@, n as nat))
                    &&& n <= old(self).cfg().frame_length * old(self).cfg().num_channels
                },
                Err(e) => (packet@.len() * 8 > usize::MAX && e.msg() == "packet is too long"@)
                    || spec_packet::<S>(
                    packet@,
                    0,
                    old(self).cfg(),
                    old(self).scratch_a(),
                    old(self).scratch_b(),
                    old(out)@,
                    0,
                    None,
                ) == Outcome::<(Seq<S>, nat)>::Fail(e.msg()),
            },
    {
        let config = self.config;
        let ghost data = packet@;
        let ghost a0 = self.buf_a@;
        let ghost b0 = self.buf_b@;
        let ghost out0 = out@;

        let mut reader = match BitCursor::new(packet) {
            Ok(r) => r,
            Err(_) => {
                return Err(invalid_data("packet is too long"));
            },
        };

        let mut channel_index: u8 = 0;
        let mut frame_samples: Option<u32> = None;

        loop
            invariant
                config == old(self).cfg(),
                self.config == config,
                config.wf(),
                self.buf_a@.len() == config.frame_length,
                self.buf_b@.len() == config.frame_length,
                out@.len() == old(out)@.len(),
                config.frame_length * config.num_channels <= out@.len(),
                config.bit_depth <= S::spec_bits(),
                S::spec_bits() <= 32,
                data == packet@,
                a0 == old(self).scratch_a(),
                b0 == old(self).scratch_b(),
                out0 == old(out)@,
                reader.wf(),
                reader.data() == data,
                channel_index <= config.num_channels,
                (match frame_samples {
                    Some(v) => v <= config.frame_length,
                    None => true,
                }),
                spec_packet::<S>(data, 0, config, a0, b0, out0, 0, None) == spec_packet::<S>(
                    data,
                    reader.bitpos() as int,
                    config,
                    self.buf_a@,
                    self.buf_b@,
                    out@,
                    channel_index as nat,
                    fs_view(frame_samples),
                ),
            decreases data.len() * 8 - reader.bitpos(),
        {
            let ghost it_pos = reader.bitpos() as int;
            let ghost it_a = self.buf_a@;
            let ghost it_b = self.buf_b@;
            let ghost it_out = out@;
            let ghost it_ci = channel_index as nat;
            let ghost it_fs = fs_view(frame_samples);
            proof {
                lemma_packet_unfold::<S>(data, it_pos, config, it_a, it_b, it_out, it_ci, it_fs);
            }

            let tag = rd_u8(&mut reader, 3)?;
            proof {
                crate::bitcursor::lemma_bits_val_bound(data, it_pos, 3);
                lemma2_to64();
            }

            if tag == 0 || tag == 3 || tag == 1 {
                // Single channel, LFE, or channel pair element.
                let ec: u8 = if tag == 1 {
                    2
                } else {
                    1
                };

                if (channel_index as u16) + (ec as u16) > (config.num_channels as u16) {
                    return Err(invalid_data("packet contains more channels than expected"));
                }

                let element_samples = decode_audio_element::<S>(
                    &mut reader,
                    &config,
                    &mut self.buf_a,
                    &mut self.buf_b,
                    out,
                    channel_index,
                    ec,
                )?;

                // Every element of a packet must yield the same number of
                // samples.
                match frame_samples {
                    Some(fs) => {
                        if fs != element_samples {
                            return Err(
                                invalid_data(
                                    "all channels in a packet must contain the same number of samples",
                                ),
                            );
                        }
                    },
                    None => {
                        frame_samples = Some(element_samples);
                    },
                }

                channel_index = channel_index + ec;
            } else if tag == 2 || tag == 5 {
                // Coupling channel and program config elements.
                return Err(invalid_data("packet cce and pce elements are unsupported"));
            } else if tag == 4 {
                // Data stream element: parse but ignore.
                let _instance = rd_u8(&mut reader, 4)?;
                let ghost p_al = reader.bitpos() as int;
                let align = rd_bit(&mut reader)?;
                proof {
                    assert(bits_val(data, p_al, 0) == 0);
                    assert(bits_val(data, p_al, 1) == (if crate::bitcursor::bit_of(data, p_al) {
                        1nat
                    } else {
                        0nat
                    }));
                }
                let cnt = rd_u8(&mut reader, 8)?;
                let mut skip_bytes: usize = cnt as usize;
                if cnt == 255 {
                    let ext = rd_u8(&mut reader, 8)?;
                    skip_bytes = skip_bytes + ext as usize;
                }
                // The align flag byte-aligns the cursor before the skipped
                // bytes.
                if align {
                    reader.skip_to_byte()?;
                }
                rd_skip(&mut reader, skip_bytes * 8)?;
            } else if tag == 6 {
                // Fill element: parse but ignore. An extended count carries
                // a correction of minus one.
                let cnt = rd_u8(&mut reader, 4)?;
                let mut skip_bytes: usize = cnt as usize;
                if cnt == 15 {
                    let ext = rd_u8(&mut reader, 8)?;
                    skip_bytes = skip_bytes + ext as usize - 1;
                }
                rd_skip(&mut reader, skip_bytes * 8)?;
            } else {
                // End of the packet: align to the byte boundary and check
                // that every declared channel was decoded.
                reader.skip_to_byte()?;

                if channel_index != config.num_channels {
                    return Err(invalid_data("packet contains fewer channels than expected"));
                }

                let fs: u32 = match frame_samples {
                    Some(v) => v,
                    None => config.frame_length,
                };
                proof {
                    assert((fs as int) * (config.num_channels as int) <= (
                    config.frame_length as int) * (config.num_channels as int)) by (
                    nonlinear_arith)
                        requires
                            fs <= config.frame_length,
                            config.num_channels >= 0,
                    ;
                }
                let n: usize = (fs as usize) * (config.num_channels as usize);
                return Ok(n);
            }
        }
    }
}

} // verus!
