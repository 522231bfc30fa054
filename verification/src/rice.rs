//! Adaptive Golomb-Rice entropy decoding: symbol decoding, ZigZag mapping,
//! and the adaptive block loop with its compressed-run-of-zeros special case.

use vstd::prelude::*;
use vstd::arithmetic::power2::{pow2, lemma2_to64, lemma_pow2_strictly_increases};
use vstd::std_specs::bits::u32_leading_zeros;
use vstd::wrapping::u32_specs;
use crate::bitcursor::{BitCursor, bits_val, bit_of, lemma_bits_val_bound, spec_read};
use crate::{InvalidData, invalid_data, msg_short_packet, Outcome, StreamInfo};

verus! {

/// The signed value a ZigZag-coded symbol stands for: even symbols are the
/// non-negative values in order, odd symbols the negative values in order.
pub open spec fn zigzag_decoded(v: u32) -> i32 {
    if v % 2 == 0 {
        (v / 2) as i32
    } else {
        (-1 - (v / 2)) as i32
    }
}

/// The symbol a signed value is ZigZag-coded as.
pub open spec fn zigzag_encoded(x: i32) -> u32 {
    if x >= 0 {
        (2 * x) as u32
    } else {
        (-2 * x - 1) as u32
    }
}

proof fn lemma_zigzag_xor(v: u32)
    by (bit_vector)
    ensures
        v >> 1u32 == v / 2,
        v & 1u32 == v % 2,
        v / 2 < 0x8000_0000u32,
        ((v >> 1u32) as i32) ^ 0i32 == (v >> 1u32) as i32,
        ((v >> 1u32) as i32) ^ (-1i32) == -1 - ((v >> 1u32) as i32),
{
}

/// Decodes a ZigZag-coded symbol: the low bit is the sign, the rest the
/// magnitude.
pub fn zigzag_decode(v: u32) -> (r: i32)
    ensures
        r == zigzag_decoded(v),
{
    proof {
        lemma_zigzag_xor(v);
    }
    let h: i32 = (v >> 1u32) as i32;
    if v & 1u32 == 1u32 {
        h ^ (-1i32)
    } else {
        h ^ 0i32
    }
}

/// ZigZag decoding inverts ZigZag encoding: the mapping is a bijection
/// between `u32` and `i32`.
pub proof fn lemma_zigzag_decode_encode(x: i32)
    ensures
        zigzag_decoded(zigzag_encoded(x)) == x,
{
    if x >= 0 {
        let v = (2 * x) as u32;
        assert(v % 2 == 0 && v / 2 == x) by (nonlinear_arith)
            requires
                x >= 0 && v == 2 * x,
        ;
    } else {
        let v = (-2 * x - 1) as u32;
        assert(v % 2 == 1 && v / 2 == -1 - x) by (nonlinear_arith)
            requires
                x < 0 && v == -2 * x - 1,
        ;
    }
}

/// ZigZag encoding inverts ZigZag decoding.
pub proof fn lemma_zigzag_encode_decode(v: u32)
    ensures
        zigzag_encoded(zigzag_decoded(v)) == v,
{
    let x = zigzag_decoded(v);
    if v % 2 == 0 {
        assert(x >= 0 && 2 * x == v) by (nonlinear_arith)
            requires
                v % 2 == 0 && x == v / 2,
        ;
    } else {
        assert(x < 0 && -2 * x - 1 == v) by (nonlinear_arith)
            requires
                v % 2 == 1 && x == -1 - (v / 2),
        ;
    }
}

/// The unary prefix starting at bit `pos`: the number of consecutive one
/// bits, capped at `cap`, and the position after the prefix (the terminating
/// zero bit is consumed unless the cap was reached). `None` when the bits run
/// out before a zero bit or the cap.
pub open spec fn spec_unary(data: Seq<u8>, pos: int, cap: nat) -> Option<(nat, int)>
    decreases cap,
{
    if cap == 0 {
        Some((0nat, pos))
    } else if pos >= data.len() * 8 {
        None
    } else if bit_of(data, pos) {
        match spec_unary(data, pos + 1, (cap - 1) as nat) {
            Some((q, p)) => Some(((q + 1) as nat, p)),
            None => None,
        }
    } else {
        Some((0nat, pos + 1))
    }
}

/// One Rice symbol read at `pos`: a unary quotient of up to 9, then either
/// the whole symbol in binary (`bps` bits, quotient 9), the quotient alone
/// (`k == 1`), or a remainder of `k - 1` bits with one extra bit only when
/// the remainder is nonzero.
pub open spec fn spec_rice_symbol(data: Seq<u8>, pos: int, m: u32, k: u8, bps: u8) -> Option<
    (nat, int),
>
    recommends
        k >= 1,
{
    match spec_unary(data, pos, 9) {
        None => None,
        Some((q, p1)) => if q == 9 {
            spec_read(data, p1, bps as nat)
        } else if k == 1 {
            Some((q, p1))
        } else {
            match spec_read(data, p1, (k - 1) as nat) {
                None => None,
                Some((r0, p2)) => if r0 > 0 {
                    match spec_read(data, p2, 1) {
                        None => None,
                        Some((e, p3)) => Some(((q * m + 2 * r0 + e - 1) as nat, p3)),
                    }
                } else {
                    Some(((q * m) as nat, p2))
                },
            }
        },
    }
}

/// Decodes one Rice symbol.
///
/// The modulus `m` is passed in rather than computed from `k` because the
/// run-of-zeros branch of the block loop uses a masked modulus that differs
/// from the usual `2^k - 1`.
pub(crate) fn decode_rice_symbol(reader: &mut BitCursor, m: u32, k: u8, bps: u8) -> (r: Result<
    u32,
    InvalidData,
>)
    requires
        old(reader).wf(),
        1 <= k <= 25,
        m <= 0xFF_FFFF,
        bps <= 32,
    ensures
        final(reader).wf(),
        final(reader).data() == old(reader).data(),
        final(reader).bitpos() >= old(reader).bitpos(),
        match r {
            Ok(v) => spec_rice_symbol(
                old(reader).data(),
                old(reader).bitpos() as int,
                m,
                k,
                bps,
            ) == Some((v as nat, final(reader).bitpos() as int)),
            Err(e) => {
                &&& spec_rice_symbol(
                    old(reader).data(),
                    old(reader).bitpos() as int,
                    m,
                    k,
                    bps,
                ) is None
                &&& e.msg() == msg_short_packet()
            },
        },
{
    let ghost data = reader.data();
    let ghost pos0 = reader.bitpos() as int;

    // Read the unary quotient, at most 9.
    let mut q: u32 = 0;
    loop
        invariant_except_break
            match spec_unary(data, reader.bitpos() as int, (9 - q) as nat) {
                Some((q2, p)) => spec_unary(data, pos0, 9) == Some(((q + q2) as nat, p)),
                None => spec_unary(data, pos0, 9) is None,
            },
        invariant
            data == old(reader).data(),
            pos0 == old(reader).bitpos(),
            reader.wf(),
            reader.data() == data,
            reader.bitpos() >= pos0,
            q <= 9,
        ensures
            reader.wf(),
            reader.data() == data,
            reader.bitpos() >= pos0,
            q <= 9,
            spec_unary(data, pos0, 9) == Some((q as nat, reader.bitpos() as int)),
        decreases 9 - q,
    {
        if q == 9 {
            break ;
        }
        let b = match reader.read_bit() {
            Ok(b) => b,
            Err(_) => {
                return Err(invalid_data("packet is not long enough"));
            },
        };
        if !b {
            break ;
        }
        q = q + 1;
    }

    if q == 9 {
        // The quotient overran: the symbol is stored in binary in `bps` bits.
        let v = match reader.read_u32(bps as usize) {
            Ok(v) => v,
            Err(_) => {
                return Err(invalid_data("packet is not long enough"));
            },
        };
        return Ok(v);
    }

    // With a modulus of 2^1 - 1 = 1 there is no remainder to read.
    if k == 1 {
        return Ok(q);
    }

    // A zero remainder is stored in k - 1 bits; a nonzero remainder r is
    // stored in k bits as r + 1. This saves one bit when the remainder is 0.
    let r0 = match reader.read_u32((k - 1) as usize) {
        Ok(v) => v,
        Err(_) => {
            return Err(invalid_data("packet is not long enough"));
        },
    };
    let ghost p2 = reader.bitpos() as int;
    proof {
        lemma_bits_val_bound(data, (p2 - (k - 1)) as int, (k - 1) as nat);
        lemma2_to64();
        if ((k - 1) as nat) < 24 {
            lemma_pow2_strictly_increases((k - 1) as nat, 24);
        }
    }
    proof {
        assert((q as int) * (m as int) <= 8 * 0xFF_FFFF) by (nonlinear_arith)
            requires
                q <= 8,
                m <= 0xFF_FFFF,
        ;
    }
    if r0 > 0 {
        let e = match reader.read_bit() {
            Ok(b) => b,
            Err(_) => {
                return Err(invalid_data("packet is not long enough"));
            },
        };
        proof {
            assert(bits_val(data, p2, 0) == 0);
            assert(bits_val(data, p2, 1) == (if bit_of(data, p2) {
                1nat
            } else {
                0nat
            }));
        }
        let eu: u32 = if e {
            1
        } else {
            0
        };
        Ok(q * m + 2 * r0 + eu - 1)
    } else {
        Ok(q * m)
    }
}

/// `31 - leading_zeros(x | 1)`: the index of the highest set bit, taking a
/// zero argument as one.
pub open spec fn log2u(x: u32) -> u32 {
    (31 - u32_leading_zeros(x | 1u32)) as u32
}

/// The Rice parameter the block loop derives from the history value,
/// capped at the stream's ceiling.
pub open spec fn rice_k(h: u32, kmax: u8) -> u32 {
    let k0 = log2u(((h >> 9u32) + 3) as u32);
    if k0 <= kmax as u32 {
        k0
    } else {
        kmax as u32
    }
}

/// The history multiplier derived from the stream's `pb` and the element's
/// three-bit factor.
pub open spec fn rice_mult(pb: u8, pb_factor: u16) -> u32 {
    ((pb * pb_factor) / 4) as u32
}

/// The history value after decoding a symbol `val`: saturated to `0xffff`
/// for large symbols, otherwise moved towards `val * mult` with `u32`
/// wrapping exactly as the decoder computes it.
pub open spec fn hist_update(h: u32, val: u32, mult: u32) -> u32
    recommends
        mult <= 446,
{
    if val > 0xffff {
        0xffff
    } else {
        let a = u32_specs::wrapping_add(h, (val * mult) as u32);
        let b = u32_specs::wrapping_mul(h, mult) >> 9u32;
        u32_specs::wrapping_sub(a, b)
    }
}

/// The Rice parameter for a compressed run of zeros; defined for history
/// values below 128.
pub open spec fn run_k(h: u32) -> u32 {
    ((u32_leading_zeros(h) - 24) + ((h + 16) as u32 >> 6u32)) as u32
}

/// `buf` with `count` zeros written at `start`.
pub open spec fn fill_zeros(buf: Seq<i32>, start: int, count: nat) -> Seq<i32> {
    Seq::new(buf.len(), |j: int| if start <= j < start + count {
        0i32
    } else {
        buf[j]
    })
}


/// The wrapped sum of a decoded symbol and the pending sign modifier.
pub open spec fn sym_val(raw: nat, sm: u32) -> u32 {
    u32_specs::wrapping_add(raw as u32, sm)
}

/// The modulus the block loop uses for an ordinary symbol.
pub open spec fn rice_m(h: u32, kmax: u8) -> u32 {
    ((1u32 << rice_k(h, kmax)) - 1) as u32
}

/// The masked modulus the block loop uses for a run of zeros.
pub open spec fn run_m(h1: u32, kmax: u8) -> u32 {
    ((((1u32 << run_k(h1)) - 1) as u32) & (((1u32 << ((kmax as u32) % 32)) - 1) as u32)) as u32
}

/// The state of `buf` and the cursor after Rice-decoding symbols into
/// `buf[i..n]`, starting from history `h` and sign modifier `sm`; a failure
/// message when the bits run out or a run of zeros overruns the channel.
#[verifier::opaque]
pub open spec fn spec_rice_block(
    data: Seq<u8>,
    pos: int,
    buf: Seq<i32>,
    n: nat,
    i: nat,
    h: u32,
    sm: u32,
    mult: u32,
    kmax: u8,
    bps: u8,
) -> Outcome<(Seq<i32>, int)>
    recommends
        n <= buf.len(),
        kmax >= 1,
        mult <= 446,
    decreases n - i,
{
    if i >= n {
        Outcome::Good((buf, pos))
    } else {
        match spec_rice_symbol(data, pos, rice_m(h, kmax), rice_k(h, kmax) as u8, bps) {
            None => Outcome::Fail(msg_short_packet()),
            Some((raw, p1)) => {
                let val = sym_val(raw, sm);
                let buf1 = buf.update(i as int, zigzag_decoded(val));
                let h1 = hist_update(h, val, mult);
                if h1 < 128 && i + 1 < n {
                    match spec_rice_symbol(data, p1, run_m(h1, kmax), run_k(h1) as u8, 16) {
                        None => Outcome::Fail(msg_short_packet()),
                        Some((run, p2)) => if run > 0 && run >= n - i {
                            Outcome::Fail("zero block contains too many samples for channel"@)
                        } else {
                            let buf2 = if run > 0 {
                                fill_zeros(buf1, i as int + 1, run)
                            } else {
                                buf1
                            };
                            let sm2: u32 = if run <= 0xffff {
                                1
                            } else {
                                0
                            };
                            spec_rice_block(
                                data,
                                p2,
                                buf2,
                                n,
                                (i + 1 + run) as nat,
                                0,
                                sm2,
                                mult,
                                kmax,
                                bps,
                            )
                        },
                    }
                } else {
                    spec_rice_block(data, p1, buf1, n, i + 1, h1, 0, mult, kmax, bps)
                }
            },
        }
    }
}

proof fn lemma_rice_step_sym_err(
    data: Seq<u8>,
    pos: int,
    buf: Seq<i32>,
    n: nat,
    i: nat,
    h: u32,
    sm: u32,
    mult: u32,
    kmax: u8,
    bps: u8,
)
    requires
        i < n,
        spec_rice_symbol(data, pos, rice_m(h, kmax), rice_k(h, kmax) as u8, bps) is None,
    ensures
        spec_rice_block(data, pos, buf, n, i, h, sm, mult, kmax, bps) == Outcome::<
            (Seq<i32>, int),
        >::Fail(msg_short_packet()),
{
    reveal(spec_rice_block);
}

proof fn lemma_rice_step_norun(
    data: Seq<u8>,
    pos: int,
    buf: Seq<i32>,
    n: nat,
    i: nat,
    h: u32,
    sm: u32,
    mult: u32,
    kmax: u8,
    bps: u8,
    raw: nat,
    p1: int,
)
    requires
        i < n,
        spec_rice_symbol(data, pos, rice_m(h, kmax), rice_k(h, kmax) as u8, bps) == Some(
            (raw, p1),
        ),
        !(hist_update(h, sym_val(raw, sm), mult) < 128 && i + 1 < n),
    ensures
        spec_rice_block(data, pos, buf, n, i, h, sm, mult, kmax, bps) == spec_rice_block(
            data,
            p1,
            buf.update(i as int, zigzag_decoded(sym_val(raw, sm))),
            n,
            i + 1,
            hist_update(h, sym_val(raw, sm), mult),
            0,
            mult,
            kmax,
            bps,
        ),
{
    reveal(spec_rice_block);
}

proof fn lemma_rice_step_run_err(
    data: Seq<u8>,
    pos: int,
    buf: Seq<i32>,
    n: nat,
    i: nat,
    h: u32,
    sm: u32,
    mult: u32,
    kmax: u8,
    bps: u8,
    raw: nat,
    p1: int,
)
    requires
        i < n,
        spec_rice_symbol(data, pos, rice_m(h, kmax), rice_k(h, kmax) as u8, bps) == Some(
            (raw, p1),
        ),
        hist_update(h, sym_val(raw, sm), mult) < 128 && i + 1 < n,
        spec_rice_symbol(
            data,
            p1,
            run_m(hist_update(h, sym_val(raw, sm), mult), kmax),
            run_k(hist_update(h, sym_val(raw, sm), mult)) as u8,
            16,
        ) is None,
    ensures
        spec_rice_block(data, pos, buf, n, i, h, sm, mult, kmax, bps) == Outcome::<
            (Seq<i32>, int),
        >::Fail(msg_short_packet()),
{
    reveal(spec_rice_block);
}

proof fn lemma_rice_step_overrun(
    data: Seq<u8>,
    pos: int,
    buf: Seq<i32>,
    n: nat,
    i: nat,
    h: u32,
    sm: u32,
    mult: u32,
    kmax: u8,
    bps: u8,
    raw: nat,
    p1: int,
    run: nat,
    p2: int,
)
    requires
        i < n,
        spec_rice_symbol(data, pos, rice_m(h, kmax), rice_k(h, kmax) as u8, bps) == Some(
            (raw, p1),
        ),
        hist_update(h, sym_val(raw, sm), mult) < 128 && i + 1 < n,
        spec_rice_symbol(
            data,
            p1,
            run_m(hist_update(h, sym_val(raw, sm), mult), kmax),
            run_k(hist_update(h, sym_val(raw, sm), mult)) as u8,
            16,
        ) == Some((run, p2)),
        run > 0 && run >= n - i,
    ensures
        spec_rice_block(data, pos, buf, n, i, h, sm, mult, kmax, bps) == Outcome::<
            (Seq<i32>, int),
        >::Fail("zero block contains too many samples for channel"@),
{
    reveal(spec_rice_block);
}

proof fn lemma_rice_step_run(
    data: Seq<u8>,
    pos: int,
    buf: Seq<i32>,
    n: nat,
    i: nat,
    h: u32,
    sm: u32,
    mult: u32,
    kmax: u8,
    bps: u8,
    raw: nat,
    p1: int,
    run: nat,
    p2: int,
)
    requires
        i < n,
        spec_rice_symbol(data, pos, rice_m(h, kmax), rice_k(h, kmax) as u8, bps) == Some(
            (raw, p1),
        ),
        hist_update(h, sym_val(raw, sm), mult) < 128 && i + 1 < n,
        spec_rice_symbol(
            data,
            p1,
            run_m(hist_update(h, sym_val(raw, sm), mult), kmax),
            run_k(hist_update(h, sym_val(raw, sm), mult)) as u8,
            16,
        ) == Some((run, p2)),
        !(run > 0 && run >= n - i),
    ensures
        spec_rice_block(data, pos, buf, n, i, h, sm, mult, kmax, bps) == spec_rice_block(
            data,
            p2,
            if run > 0 {
                fill_zeros(buf.update(i as int, zigzag_decoded(sym_val(raw, sm))), i as int + 1, run)
            } else {
                buf.update(i as int, zigzag_decoded(sym_val(raw, sm)))
            },
            n,
            (i + 1 + run) as nat,
            0,
            if run <= 0xffff {
                1u32
            } else {
                0u32
            },
            mult,
            kmax,
            bps,
        ),
{
    reveal(spec_rice_block);
}

/// A `u32` below `2^b` has at least `32 - b` leading zeros.
proof fn lemma_lz_lower(i: u32, b: u32)
    requires
        b <= 32,
        b == 32 || i < (1u32 << b),
    ensures
        u32_leading_zeros(i) >= 32 - b,
{
    vstd::std_specs::bits::axiom_u32_leading_zeros(i);
    let lz = u32_leading_zeros(i);
    if b < 32 && lz < 32 {
        assert(lz >= 32 - b) by (bit_vector)
            requires
                b < 32u32,
                lz < 32,
                i < (1u32 << b),
                (i >> ((31u32 - lz) as u32)) & 1u32 != 0u32,
        ;
    }
}

/// A `u32` of at least `2^b` has at most `31 - b` leading zeros.
proof fn lemma_lz_upper(i: u32, b: u32)
    requires
        b < 32,
        i >= (1u32 << b),
    ensures
        u32_leading_zeros(i) <= 31 - b,
{
    vstd::std_specs::bits::axiom_u32_leading_zeros(i);
    let lz = u32_leading_zeros(i);
    assert(lz <= 31 - b) by (bit_vector)
        requires
            b < 32u32,
            lz <= 32,
            i >= (1u32 << b),
            i >> ((32u32 - lz) as u32) == 0,
    ;
}

/// For history values below 128 the run parameter lies in `1 ..= 8`.
proof fn lemma_run_k_range(h: u32)
    requires
        h < 128,
    ensures
        1 <= run_k(h) <= 8,
        u32_leading_zeros(h) >= 25,
{
    vstd::std_specs::bits::axiom_u32_leading_zeros(h);
    let lz = u32_leading_zeros(h);
    assert(128u32 == (1u32 << 7u32)) by (bit_vector);
    lemma_lz_lower(h, 7);
    assert((h + 16) as u32 >> 6u32 == (h + 16) as u32 / 64) by {
        vstd::bits::lemma_u32_shr_is_div((h + 16) as u32, 6);
        lemma2_to64();
    }
    if h >= 16 {
        assert(16u32 == (1u32 << 4u32)) by (bit_vector);
        lemma_lz_upper(h, 4);
    }
}

/// Rice-decodes `n` symbols into `buf[0..n]`, adapting the parameter to the
/// history of decoded magnitudes and expanding compressed runs of zeros.
#[verifier::rlimit(60)]
pub(crate) fn rice_decompress(
    reader: &mut BitCursor,
    config: &StreamInfo,
    buf: &mut Vec<i32>,
    n: usize,
    bps: u8,
    pb_factor: u16,
) -> (r: Result<(), InvalidData>)
    requires
        old(reader).wf(),
        n <= old(buf).len(),
        bps <= 32,
        pb_factor <= 7,
        config.kb >= 1,
    ensures
        final(reader).wf(),
        final(reader).data() == old(reader).data(),
        final(reader).bitpos() >= old(reader).bitpos(),
        final(buf).len() == old(buf).len(),
        match r {
            Ok(_) => spec_rice_block(
                old(reader).data(),
                old(reader).bitpos() as int,
                old(buf)@,
                n as nat,
                0,
                config.mb as u32,
                0,
                rice_mult(config.pb, pb_factor),
                config.kb,
                bps,
            ) == Outcome::<(Seq<i32>, int)>::Good((final(buf)@, final(reader).bitpos() as int)),
            Err(e) => spec_rice_block(
                old(reader).data(),
                old(reader).bitpos() as int,
                old(buf)@,
                n as nat,
                0,
                config.mb as u32,
                0,
                rice_mult(config.pb, pb_factor),
                config.kb,
                bps,
            ) == Outcome::<(Seq<i32>, int)>::Fail(e.msg()),
        },
{
    let ghost data = reader.data();
    let ghost pos0 = reader.bitpos() as int;
    let ghost buf0 = buf@;

    proof {
        assert((config.pb as int) * (pb_factor as int) <= 1785) by (nonlinear_arith)
            requires
                config.pb <= 255,
                pb_factor <= 7,
        ;
    }
    let mut h: u32 = config.mb as u32;
    let mult: u32 = (config.pb as u32) * (pb_factor as u32) / 4;
    let kmax: u8 = config.kb;
    let mut sm: u32 = 0;
    let mut i: usize = 0;

    while i < n
        invariant
            data == old(reader).data(),
            pos0 == old(reader).bitpos(),
            buf0 == old(buf)@,
            reader.wf(),
            reader.data() == data,
            reader.bitpos() >= pos0,
            buf@.len() == buf0.len(),
            n <= buf@.len(),
            i <= n,
            mult == rice_mult(config.pb, pb_factor),
            mult <= 446,
            kmax == config.kb,
            1 <= kmax,
            bps <= 32,
            spec_rice_block(data, pos0, buf0, n as nat, 0, config.mb as u32, 0, mult, kmax, bps)
                == spec_rice_block(
                data,
                reader.bitpos() as int,
                buf@,
                n as nat,
                i as nat,
                h,
                sm,
                mult,
                kmax,
                bps,
            ),
        decreases n - i,
    {
        let ghost it_pos = reader.bitpos() as int;
        let ghost it_buf = buf@;
        let ghost it_h = h;
        let ghost it_sm = sm;

        // Derive the Rice parameter from the history value.
        proof {
            assert((h >> 9u32) <= 0x7F_FFFFu32) by (bit_vector);
        }
        let x: u32 = (h >> 9u32) + 3;
        let lz: u32 = (x | 1u32).leading_zeros();
        proof {
            vstd::std_specs::bits::axiom_u32_leading_zeros(x | 1u32);
            assert((x | 1u32) >= 1u32 && (x | 1u32) >= x) by (bit_vector);
            assert(x < 0x100_0000u32 ==> (x | 1u32) < 0x100_0000u32) by (bit_vector);
            assert((x | 1u32) >= 2u32) by (bit_vector)
                requires
                    x >= 3u32,
            ;
            assert(0x100_0000u32 == (1u32 << 24u32) && 2u32 == (1u32 << 1u32)) by (bit_vector);
            lemma_lz_lower(x | 1u32, 24);
            lemma_lz_upper(x | 1u32, 1);
        }
        let k0: u32 = 31 - lz;
        let k: u32 = if k0 <= kmax as u32 {
            k0
        } else {
            kmax as u32
        };
        proof {
            assert(1u32 <= k <= 23 ==> (1u32 << k) >= 1u32 && ((1u32 << k) - 1) as u32
                <= 0x7F_FFFFu32) by (bit_vector);
            assert(k == rice_k(h, kmax));
        }
        let m: u32 = (1u32 << k) - 1;

        let raw = match decode_rice_symbol(reader, m, k as u8, bps) {
            Ok(v) => v,
            Err(e) => {
                proof {
                    lemma_rice_step_sym_err(
                        data, it_pos, it_buf, n as nat, i as nat, h, sm, mult, kmax, bps,
                    );
                }
                return Err(e);
            },
        };
        let val: u32 = raw.wrapping_add(sm);
        sm = 0;
        buf[i] = zigzag_decode(val);
        let ghost p1 = reader.bitpos() as int;
        proof {
            assert(val == sym_val(raw as nat, it_sm));
        }

        // Update the history value; saturate for large symbols. The
        // subtrahend is computed from the old history so the expression
        // cannot underflow for the values real streams produce.
        if val > 0xffff {
            h = 0xffff;
        } else {
            proof {
                assert((val as int) * (mult as int) <= 0xffff * 446) by (nonlinear_arith)
                    requires
                        val <= 0xffffu32,
                        mult <= 446u32,
                ;
            }
            let a: u32 = h.wrapping_add(val * mult);
            let b: u32 = h.wrapping_mul(mult) >> 9u32;
            h = a.wrapping_sub(b);
        }
        proof {
            assert(h == hist_update(it_h, val, mult));
        }

        // A low history value signals a possible compressed run of zeros.
        if h < 128 && i + 1 < n {
            proof {
                lemma_run_k_range(h);
            }
            let lzr: u32 = h.leading_zeros();
            proof {
                vstd::std_specs::bits::axiom_u32_leading_zeros(h);
                assert((((h + 16) as u32) >> 6u32) <= 2u32) by (bit_vector)
                    requires
                        h < 128u32,
                ;
            }
            let kr: u32 = (lzr - 24) + ((h + 16) >> 6u32);
            proof {
                assert((1u32 << ((kmax as u32) % 32u32)) >= 1u32) by (bit_vector);
            }
            let wb: u32 = (1u32 << ((kmax as u32) % 32u32)) - 1;
            proof {
                assert(1u32 <= kr <= 8 ==> (1u32 << kr) >= 1u32 && ((((1u32 << kr) - 1) as u32)
                    & wb) <= 0xFFu32) by (bit_vector);
                assert(kr == run_k(h));
            }
            let mr: u32 = ((1u32 << kr) - 1) & wb;
            proof {
                assert(mr == run_m(h, kmax));
            }

            let run32 = match decode_rice_symbol(reader, mr, kr as u8, 16) {
                Ok(v) => v,
                Err(e) => {
                    proof {
                        lemma_rice_step_run_err(
                            data,
                            it_pos,
                            it_buf,
                            n as nat,
                            i as nat,
                            it_h,
                            it_sm,
                            mult,
                            kmax,
                            bps,
                            raw as nat,
                            p1,
                        );
                    }
                    return Err(e);
                },
            };
            let ghost p2 = reader.bitpos() as int;
            let run: usize = run32 as usize;
            if run > 0 {
                if run >= n - i {
                    proof {
                        lemma_rice_step_overrun(
                            data,
                            it_pos,
                            it_buf,
                            n as nat,
                            i as nat,
                            it_h,
                            it_sm,
                            mult,
                            kmax,
                            bps,
                            raw as nat,
                            p1,
                            run as nat,
                            p2,
                        );
                    }
                    return Err(invalid_data("zero block contains too many samples for channel"));
                }
                let ghost buf_a = buf@;
                let mut j: usize = 0;
                while j < run
                    invariant
                        i + 1 + run <= n <= buf@.len(),
                        j <= run,
                        buf@.len() == buf_a.len(),
                        forall|t: int|
                            0 <= t < buf@.len() ==> buf@[t] == (if i + 1 <= t < i + 1 + j {
                                0i32
                            } else {
                                buf_a[t]
                            }),
                    decreases run - j,
                {
                    buf[i + 1 + j] = 0;
                    j = j + 1;
                }
                proof {
                    assert(buf@ =~= fill_zeros(buf_a, i as int + 1, run as nat));
                }
                i = i + run;
            }
            if run32 <= 0xffff {
                sm = 1;
            }
            h = 0;
            proof {
                lemma_rice_step_run(
                    data,
                    it_pos,
                    it_buf,
                    n as nat,
                    (i - run) as nat,
                    it_h,
                    it_sm,
                    mult,
                    kmax,
                    bps,
                    raw as nat,
                    p1,
                    run as nat,
                    p2,
                );
            }
        } else {
            proof {
                lemma_rice_step_norun(
                    data,
                    it_pos,
                    it_buf,
                    n as nat,
                    i as nat,
                    it_h,
                    it_sm,
                    mult,
                    kmax,
                    bps,
                    raw as nat,
                    p1,
                );
            }
        }
        i = i + 1;
    }
    proof {
        reveal(spec_rice_block);
    }
    Ok(())
}

} // verus!
