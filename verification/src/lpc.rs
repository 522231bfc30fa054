//! Linear predictive coding: warm-up, prediction, and on-line coefficient
//! adaptation, together with the `sign_extend` primitive the predictor and
//! the order-31 differential mode are built on.

use vstd::prelude::*;
use vstd::arithmetic::power2::{pow2, lemma2_to64, lemma_pow2_adds};
use vstd::arithmetic::div_mod::{lemma_small_mod, lemma_mod_add_multiples_vanish, lemma_mod_mod};
use vstd::bits::{lemma_u32_shl_is_mul, lemma_u32_shr_is_div, lemma_u32_pow2_no_overflow};
use vstd::wrapping::i32_specs;

verus! {

/// The value whose two's-complement representation in `bits` bits equals the
/// low `bits` bits of `v`: the low bits of `v`, reinterpreted with the bit at
/// weight `2^(bits-1)` as the sign.
pub open spec fn sign_extended(v: i32, bits: nat) -> int
    recommends
        1 <= bits <= 32,
{
    let low = (v as int) % (pow2(bits) as int);
    if low >= pow2((bits - 1) as nat) {
        low - pow2(bits)
    } else {
        low
    }
}

/// An `i32` reduced modulo `2^32` equals itself shifted into `[0, 2^32)`.
proof fn lemma_i32_mod_2_32(v: i32)
    ensures
        (v as int) % 0x1_0000_0000 == if v >= 0 {
            v as int
        } else {
            v + 0x1_0000_0000
        },
{
    if v >= 0 {
        lemma_small_mod(v as nat, 0x1_0000_0000nat);
    } else {
        lemma_mod_add_multiples_vanish(v as int, 0x1_0000_0000);
        lemma_small_mod((v + 0x1_0000_0000) as nat, 0x1_0000_0000nat);
    }
}

/// Sign-extends the low `bits` bits of `val` to a full `i32`.
pub fn sign_extend(val: i32, bits: u8) -> (r: i32)
    requires
        1 <= bits <= 32,
    ensures
        r == sign_extended(val, bits as nat),
{
    proof {
        lemma2_to64();
    }
    if bits == 32 {
        proof {
            lemma_i32_mod_2_32(val);
        }
        return val;
    }
    proof {
        lemma_u32_pow2_no_overflow(bits as nat);
        lemma_u32_shl_is_mul(1u32, bits as u32);
        lemma_u32_pow2_no_overflow((bits - 1) as nat);
        lemma_u32_shl_is_mul(1u32, (bits - 1) as u32);
    }
    let m: u32 = 1u32 << (bits as u32);
    let half: u32 = 1u32 << ((bits - 1) as u32);
    let u: u32 = if val >= 0 {
        val as u32
    } else {
        ((val as i64) + 0x1_0000_0000i64) as u32
    };
    proof {
        lemma_i32_mod_2_32(val);
        assert(u == (val as int) % 0x1_0000_0000);
        // Reducing modulo 2^32 and then modulo 2^bits is reducing modulo 2^bits.
        lemma_pow2_adds(bits as nat, (32 - bits) as nat);
        lemma_mod_mod(val as int, pow2(bits as nat) as int, pow2((32 - bits) as nat) as int);
    }
    let low: u32 = u % m;
    if low >= half {
        proof {
            assert(pow2(bits as nat) == 2 * pow2((bits - 1) as nat)) by {
                lemma_pow2_adds((bits - 1) as nat, 1);
            }
        }
        ((low as i64) - (m as i64)) as i32
    } else {
        low as i32
    }
}

/// `sign_extend` leaves a value alone when it already fits in signed `bits`
/// bits, and acts as the identity on all of `i32` when `bits` is 32.
pub proof fn lemma_sign_extend_fits(v: i32, bits: nat)
    requires
        1 <= bits <= 32,
        -(pow2((bits - 1) as nat) as int) <= v < pow2((bits - 1) as nat),
    ensures
        sign_extended(v, bits) == v,
{
    lemma2_to64();
    lemma_pow2_adds((bits - 1) as nat, 1);
    vstd::arithmetic::power2::lemma_pow2_pos(bits);
    vstd::arithmetic::power2::lemma_pow2_pos((bits - 1) as nat);
    if v >= 0 {
        lemma_small_mod(v as nat, pow2(bits));
    } else {
        lemma_mod_add_multiples_vanish(v as int, pow2(bits) as int);
        lemma_small_mod((v + pow2(bits)) as nat, pow2(bits));
    }
}

/// `sign_extend` with 32 bits is the identity.
pub proof fn lemma_sign_extend_identity(v: i32)
    ensures
        sign_extended(v, 32) == v,
{
    lemma2_to64();
    lemma_sign_extend_fits(v, 32);
}

/// The result of `sign_extend` lies in the signed `bits`-bit range and is
/// congruent to the argument modulo `2^bits`: when the value does not fit,
/// the top retained bit is extended.
pub proof fn lemma_sign_extend_range(v: i32, bits: nat)
    requires
        1 <= bits <= 32,
    ensures
        -(pow2((bits - 1) as nat) as int) <= sign_extended(v, bits) < pow2((bits - 1) as nat),
        (v - sign_extended(v, bits)) % (pow2(bits) as int) == 0,
{
    lemma2_to64();
    lemma_pow2_adds((bits - 1) as nat, 1);
    vstd::arithmetic::power2::lemma_pow2_pos(bits);
    vstd::arithmetic::power2::lemma_pow2_pos((bits - 1) as nat);
    let m = pow2(bits) as int;
    let low = (v as int) % m;
    vstd::arithmetic::div_mod::lemma_mod_bound(v as int, m);
    let r = sign_extended(v, bits);
    // The result and the argument leave the same remainder modulo 2^bits.
    if low >= pow2((bits - 1) as nat) {
        vstd::arithmetic::div_mod::lemma_mod_sub_multiples_vanish(low, m);
    }
    lemma_small_mod(low as nat, pow2(bits));
    vstd::arithmetic::div_mod::lemma_mod_twice(v as int, m);
    vstd::arithmetic::div_mod::lemma_mod_equivalence(v as int, r, m);
}

/// `sign_extended`, brought back into `i32`; the value always fits.
pub open spec fn sext32(v: i32, bits: u8) -> i32 {
    sign_extended(v, bits as nat) as i32
}

/// Floor division by `2^k`: what an arithmetic shift right by `k` computes.
pub open spec fn spec_asr32(x: i32, k: u32) -> i32 {
    ((x as int) / (pow2(k as nat) as int)) as i32
}

/// Euclidean division of `-y` rounds like the negated ceiling of `y`.
proof fn lemma_neg_div(y: int, m: int)
    requires
        y > 0,
        m > 0,
    ensures
        (-y) / m == -((y + m - 1) / m),
        (y + m - 1) / m <= y,
{
    let qq = (y + m - 1) / m;
    let s = (y + m - 1) % m;
    vstd::arithmetic::div_mod::lemma_fundamental_div_mod(y + m - 1, m);
    vstd::arithmetic::div_mod::lemma_mod_bound(y + m - 1, m);
    let rr = m * qq - y;
    assert(rr == m - 1 - s);
    assert(-y == (-qq) * m + rr) by (nonlinear_arith)
        requires
            rr == m * qq - y,
    ;
    vstd::arithmetic::div_mod::lemma_fundamental_div_mod_converse(-y, m, -qq, rr);
    assert(qq <= y) by (nonlinear_arith)
        requires
            m >= 1,
            y >= 1,
            m * qq <= y + m - 1,
    ;
}

/// Arithmetic shift right: floor division by `2^k`, for negative values too.
pub(crate) fn asr(x: i32, k: u32) -> (r: i32)
    requires
        k < 32,
    ensures
        r == spec_asr32(x, k),
        r as int == (x as int) / (pow2(k as nat) as int),
{
    proof {
        lemma_u32_pow2_no_overflow(k as nat);
        lemma_u32_shl_is_mul(1u32, k);
        vstd::arithmetic::power2::lemma_pow2_pos(k as nat);
    }
    let m32: u32 = 1u32 << k;
    if x >= 0 {
        proof {
            lemma_u32_shr_is_div(x as u32, k);
        }
        ((x as u32) >> k) as i32
    } else {
        let y: u64 = (-(x as i64)) as u64;
        let md: u64 = m32 as u64;
        let q: u64 = (y + md - 1) / md;
        proof {
            lemma_neg_div(y as int, md as int);
        }
        (-(q as i64)) as i32
    }
}

/// The sign of `x` as `-1`, `0` or `1`.
pub open spec fn sgn_spec(x: i32) -> i32 {
    if x > 0 {
        1
    } else if x < 0 {
        -1i32
    } else {
        0
    }
}

fn sgn(x: i32) -> (r: i32)
    ensures
        r == sgn_spec(x),
{
    if x > 0 {
        1
    } else if x < 0 {
        -1
    } else {
        0
    }
}

/// A coefficient nudged by a sign, saturating at the `i16` range ends.
pub open spec fn sat_add_i16_spec(c: i16, s: i32) -> i16 {
    if s > 0 {
        if c == i16::MAX {
            c
        } else {
            (c + 1) as i16
        }
    } else if s < 0 {
        if c == i16::MIN {
            c
        } else {
            (c - 1) as i16
        }
    } else {
        c
    }
}

fn sat_add_i16(c: i16, s: i32) -> (r: i16)
    ensures
        r == sat_add_i16_spec(c, s),
{
    if s > 0 {
        if c == i16::MAX {
            c
        } else {
            c + 1
        }
    } else if s < 0 {
        if c == i16::MIN {
            c
        } else {
            c - 1
        }
    } else {
        c
    }
}

/// First-order differential decoding of `buf[i..end]`: each sample becomes
/// the sign-extended sum of itself and its predecessor.
pub open spec fn spec_diff_pass(buf: Seq<i32>, bps: u8, i: nat, end: nat) -> Seq<i32>
    decreases end - i,
{
    if i >= end || i >= buf.len() || i < 1 {
        buf
    } else {
        let s = i32_specs::wrapping_add(buf[i as int], buf[i as int - 1]);
        spec_diff_pass(buf.update(i as int, sext32(s, bps)), bps, i + 1, end)
    }
}

/// The rounding constant `2^(quant-1)` added before the quantisation shift.
/// A `quant` of zero leaves the masked shift value an unchecked build
/// computes, `i32::MIN`.
pub open spec fn lpc_round(quant: u32) -> i32 {
    if quant == 0 {
        i32::MIN
    } else {
        pow2((quant - 1) as nat) as i32
    }
}

/// The wrapped sum of `(buf[i - order + j] - mean) * coefs[j]` over the
/// coefficients from `j` up, starting from `acc`.
pub open spec fn spec_predict_sum(
    buf: Seq<i32>,
    coefs: Seq<i16>,
    i: nat,
    mean: i32,
    j: nat,
    acc: i32,
) -> i32
    decreases coefs.len() - j,
{
    if j >= coefs.len() {
        acc
    } else {
        let d = i32_specs::wrapping_sub(buf[i - coefs.len() + j], mean);
        let t = i32_specs::wrapping_mul(d, coefs[j as int] as i32);
        spec_predict_sum(buf, coefs, i, mean, j + 1, i32_specs::wrapping_add(acc, t))
    }
}

/// On-line coefficient adaptation after a nonzero prediction error: each
/// coefficient from `j` up is nudged towards reducing the error until the
/// remaining error changes sign.
pub open spec fn spec_adapt(
    buf: Seq<i32>,
    coefs: Seq<i16>,
    i: nat,
    mean: i32,
    quant: u32,
    es: i32,
    rem: i32,
    j: nat,
) -> Seq<i16>
    decreases coefs.len() - j,
{
    if j >= coefs.len() {
        coefs
    } else {
        let d = i32_specs::wrapping_sub(buf[i - coefs.len() + j], mean);
        let sg: i32 = if d > 0 {
            es
        } else if d < 0 {
            (-es) as i32
        } else {
            0
        };
        let coefs2 = coefs.update(j as int, sat_add_i16_spec(coefs[j as int], sg));
        let shifted = spec_asr32(i32_specs::wrapping_mul(d, sg), quant);
        let rem2 = i32_specs::wrapping_sub(
            rem,
            i32_specs::wrapping_mul(
                i32_specs::wrapping_mul(es, shifted),
                (j + 1) as i32,
            ),
        );
        if rem2 <= 0 {
            coefs2
        } else {
            spec_adapt(buf, coefs2, i, mean, quant, es, rem2, j + 1)
        }
    }
}

/// One step of the predictor at index `i`: predict from the previous
/// `order` samples around the mean, round, add the residual, sign-extend,
/// and adapt the coefficients when the residual was nonzero.
pub open spec fn lpc_step(buf: Seq<i32>, coefs: Seq<i16>, bps: u8, quant: u32, i: nat) -> (
    Seq<i32>,
    Seq<i16>,
)
    recommends
        coefs.len() + 1 <= i < buf.len(),
{
    let order = coefs.len();
    let mean = buf[i - order - 1];
    let sum = spec_predict_sum(buf, coefs, i, mean, 0, 0);
    let predicted = spec_asr32(i32_specs::wrapping_add(sum, lpc_round(quant)), quant);
    let err = buf[i as int];
    let sample = i32_specs::wrapping_add(i32_specs::wrapping_add(predicted, mean), err);
    let buf2 = buf.update(i as int, sext32(sample, bps));
    let coefs2 = if err != 0 {
        spec_adapt(
            buf2,
            coefs,
            i,
            mean,
            quant,
            sgn_spec(err),
            i32_specs::wrapping_mul(sgn_spec(err), err),
            0,
        )
    } else {
        coefs
    };
    (buf2, coefs2)
}

/// The predictor's main loop over `buf[i..n]`.
pub open spec fn spec_lpc(
    buf: Seq<i32>,
    coefs: Seq<i16>,
    n: nat,
    bps: u8,
    quant: u32,
    i: nat,
) -> (Seq<i32>, Seq<i16>)
    decreases n - i,
{
    if i >= n {
        (buf, coefs)
    } else {
        let (b2, c2) = lpc_step(buf, coefs, bps, quant, i);
        spec_lpc(b2, c2, n, bps, quant, i + 1)
    }
}

/// The warm-up bound: prediction needs `order + 1` previously decoded
/// samples.
pub open spec fn warm_end(order: nat, n: nat) -> nat {
    if order + 1 < n {
        order + 1
    } else {
        n
    }
}

/// The whole predictor: first-order warm-up over the first `order` samples,
/// then prediction with adaptation over the rest.
pub open spec fn spec_lpc_predict(buf: Seq<i32>, coefs: Seq<i16>, n: nat, bps: u8, quant: u32) -> (
    Seq<i32>,
    Seq<i16>,
) {
    let b1 = spec_diff_pass(buf, bps, 1, warm_end(coefs.len(), n));
    spec_lpc(b1, coefs, n, bps, quant, coefs.len() + 1)
}

/// Order-31 mode: plain first-order differential decoding of the whole
/// channel.
pub(crate) fn lpc_predict_order_31(buf: &mut Vec<i32>, n: usize, bps: u8)
    requires
        n <= old(buf).len(),
        1 <= bps <= 32,
    ensures
        final(buf).len() == old(buf).len(),
        final(buf)@ == spec_diff_pass(old(buf)@, bps, 1, n as nat),
{
    let ghost buf0 = buf@;
    let mut i: usize = 1;
    while i < n
        invariant
            buf0 == old(buf)@,
            1 <= i,
            n <= buf@.len(),
            buf@.len() == buf0.len(),
            i <= n || i == 1,
            spec_diff_pass(buf0, bps, 1, n as nat) == spec_diff_pass(buf@, bps, i as nat, n as nat),
            1 <= bps <= 32,
        decreases n - i,
    {
        let s = buf[i].wrapping_add(buf[i - 1]);
        let v = sign_extend(s, bps);
        buf[i] = v;
        i = i + 1;
    }
}

/// Runs the linear predictor over `buf[0..n]` with on-line adaptation of
/// `coefs`.
pub(crate) fn lpc_predict(buf: &mut Vec<i32>, n: usize, bps: u8, coefs: &mut Vec<i16>, quant: u32)
    requires
        n <= old(buf).len(),
        1 <= bps <= 32,
        quant <= 15,
        old(coefs).len() <= 31,
    ensures
        final(buf).len() == old(buf).len(),
        final(coefs).len() == old(coefs).len(),
        (final(buf)@, final(coefs)@) == spec_lpc_predict(old(buf)@, old(coefs)@, n as nat, bps, quant),
{
    let order: usize = coefs.len();
    let ghost buf0 = buf@;
    let ghost coefs0 = coefs@;

    // Warm-up: prediction needs order + 1 previously decoded samples.
    let end: usize = if order + 1 < n {
        order + 1
    } else {
        n
    };
    let mut i: usize = 1;
    while i < end
        invariant
            buf0 == old(buf)@,
            1 <= i,
            end <= n <= buf@.len(),
            end == warm_end(order as nat, n as nat),
            buf@.len() == buf0.len(),
            i <= end || i == 1,
            spec_diff_pass(buf0, bps, 1, end as nat) == spec_diff_pass(
                buf@,
                bps,
                i as nat,
                end as nat,
            ),
            1 <= bps <= 32,
        decreases end - i,
    {
        let s = buf[i].wrapping_add(buf[i - 1]);
        let v = sign_extend(s, bps);
        buf[i] = v;
        i = i + 1;
    }
    let ghost buf1 = buf@;
    assert(buf1 == spec_diff_pass(buf0, bps, 1, warm_end(order as nat, n as nat)));

    let mut i: usize = order + 1;
    while i < n
        invariant
            buf1 == spec_diff_pass(old(buf)@, bps, 1, warm_end(order as nat, n as nat)),
            coefs0 == old(coefs)@,
            order == coefs@.len() <= 31,
            order + 1 <= i || i == order + 1,
            i <= n || i == order + 1,
            n <= buf@.len(),
            buf@.len() == old(buf).len(),
            quant <= 15,
            1 <= bps <= 32,
            spec_lpc(buf1, coefs0, n as nat, bps, quant, (order + 1) as nat) == spec_lpc(
                buf@,
                coefs@,
                n as nat,
                bps,
                quant,
                i as nat,
            ),
        decreases n - i,
    {
        let ghost it_buf = buf@;
        let ghost it_coefs = coefs@;

        let mean: i32 = buf[i - order - 1];

        // Predict the next sample from the previous `order` samples.
        let mut acc: i32 = 0;
        let mut j: usize = 0;
        while j < order
            invariant
                j <= order,
                order == coefs@.len(),
                order + 1 <= i < n <= buf@.len(),
                spec_predict_sum(buf@, coefs@, i as nat, mean, 0, 0) == spec_predict_sum(
                    buf@,
                    coefs@,
                    i as nat,
                    mean,
                    j as nat,
                    acc,
                ),
            decreases order - j,
        {
            let d = buf[i - order + j].wrapping_sub(mean);
            let t = d.wrapping_mul(coefs[j] as i32);
            acc = acc.wrapping_add(t);
            j = j + 1;
        }

        // Round up to and then truncate by `quant` bits.
        let rc: i32 = if quant == 0 {
            i32::MIN
        } else {
            proof {
                lemma_u32_pow2_no_overflow((quant - 1) as nat);
                lemma_u32_shl_is_mul(1u32, (quant - 1) as u32);
                lemma2_to64();
            }
            (1u32 << ((quant - 1) as u32)) as i32
        };
        let predicted = asr(acc.wrapping_add(rc), quant);

        let err: i32 = buf[i];
        let sample = predicted.wrapping_add(mean).wrapping_add(err);
        let v = sign_extend(sample, bps);
        buf[i] = v;

        if err != 0 {
            // The prediction was not exact: nudge the coefficients until
            // the sign of the remaining error changes or they run out.
            let es = sgn(err);
            let mut rem: i32 = es.wrapping_mul(err);
            let ghost adapt_buf = buf@;
            let ghost adapt_c0 = coefs@;
            let ghost rem0 = rem;
            let mut j2: usize = 0;
            loop
                invariant_except_break
                    spec_adapt(adapt_buf, adapt_c0, i as nat, mean, quant, es, rem0, 0)
                        == spec_adapt(
                        adapt_buf,
                        coefs@,
                        i as nat,
                        mean,
                        quant,
                        es,
                        rem,
                        j2 as nat,
                    ),
                invariant
                    j2 <= order,
                    order == coefs@.len(),
                    order + 1 <= i < n <= buf@.len(),
                    adapt_buf == buf@,
                    quant <= 15,
                    es == sgn_spec(err),
                ensures
                    coefs@.len() == order,
                    buf@ == adapt_buf,
                    coefs@ == spec_adapt(adapt_buf, adapt_c0, i as nat, mean, quant, es, rem0, 0),
                decreases order - j2,
            {
                if j2 >= order {
                    break ;
                }
                let d = buf[i - order + j2].wrapping_sub(mean);
                let sg: i32 = if d > 0 {
                    es
                } else if d < 0 {
                    -es
                } else {
                    0
                };
                let c2 = sat_add_i16(coefs[j2], sg);
                coefs[j2] = c2;
                let shifted = asr(d.wrapping_mul(sg), quant);
                rem = rem.wrapping_sub(es.wrapping_mul(shifted).wrapping_mul((j2 + 1) as i32));
                j2 = j2 + 1;
                if rem <= 0 {
                    break ;
                }
            }
        }
        proof {
            assert((buf@, coefs@) == lpc_step(it_buf, it_coefs, bps, quant, i as nat));
        }
        i = i + 1;
    }
}

} // verus!
