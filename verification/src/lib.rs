//! An Apple Lossless Audio Codec (ALAC) packet decoder.
//!
//! The decoder is a pure, buffer-in/buffer-out transformation: it accepts one
//! compressed ALAC packet as a byte slice and produces a block of interleaved
//! PCM samples for the channels declared by the stream.

use vstd::prelude::*;
use vstd::string::StringSliceAdditionalSpecFns;

pub mod bitcursor;
pub mod dec;
pub mod lpc;
pub mod rice;
pub mod sample_table;

pub use dec::{Decoder, Sample};

use crate::bitcursor::{BufferTooLong, NotEnoughData};

verus! {

/// An error indicating user-provided data is invalid.
///
/// When decoding a packet this error can occur if the packet is invalid or
/// corrupted, or if it has been truncated.
#[derive(Debug, Clone, Copy)]
pub struct InvalidData {
    message: &'static str,
}

impl InvalidData {
    /// The static message describing what was wrong with the data.
    pub closed spec fn msg(&self) -> Seq<char> {
        self.message@
    }

    /// Returns the static message describing what was wrong with the data.
    pub fn message(&self) -> (r: &'static str)
        ensures
            r@ == self.msg(),
    {
        self.message
    }
}

/// Creates an `InvalidData` carrying a static message; containers around
/// the decoder use it to describe their own malformed data.
pub fn invalid_data(message: &'static str) -> (r: InvalidData)
    ensures
        r.msg() == message@,
{
    InvalidData { message }
}

/// The outcome of a decoding stage: either a good value or the static
/// message of the failure it reports.
pub enum Outcome<T> {
    Good(T),
    Fail(Seq<char>),
}

/// The message every exhausted-bitstream failure carries.
pub open spec fn msg_short_packet() -> Seq<char> {
    "packet is not long enough"@
}

impl From<NotEnoughData> for InvalidData {
    fn from(_err: NotEnoughData) -> (r: InvalidData) {
        invalid_data("packet is not long enough")
    }
}

impl vstd::std_specs::convert::FromSpecImpl<NotEnoughData> for InvalidData {
    closed spec fn obeys_from_spec() -> bool {
        false
    }

    closed spec fn from_spec(v: NotEnoughData) -> InvalidData {
        InvalidData { message: "packet is not long enough" }
    }
}

impl From<BufferTooLong> for InvalidData {
    fn from(_err: BufferTooLong) -> (r: InvalidData) {
        invalid_data("packet is too long")
    }
}

impl vstd::std_specs::convert::FromSpecImpl<BufferTooLong> for InvalidData {
    closed spec fn obeys_from_spec() -> bool {
        false
    }

    closed spec fn from_spec(v: BufferTooLong) -> InvalidData {
        InvalidData { message: "packet is too long" }
    }
}

/// Codec initialisation parameters for an ALAC stream.
#[derive(Clone, Copy, Debug, PartialEq, Eq, Structural)]
pub struct StreamInfo {
    pub frame_length: u32,
    pub compatible_version: u8,
    pub bit_depth: u8,
    /// Rice history multiplier base.
    pub pb: u8,
    /// Rice initial history.
    pub mb: u8,
    /// Rice parameter ceiling.
    pub kb: u8,
    pub num_channels: u8,
    pub max_run: u16,
    pub max_frame_bytes: u32,
    pub avg_bit_rate: u32,
    pub sample_rate: u32,
}

/// The big-endian 16-bit value at offset `i` of `s`.
pub open spec fn be16(s: Seq<u8>, i: int) -> int {
    s[i] * 0x100 + s[i + 1]
}

/// The big-endian 32-bit value at offset `i` of `s`.
pub open spec fn be32(s: Seq<u8>, i: int) -> int {
    s[i] * 0x1000000 + s[i + 1] * 0x10000 + s[i + 2] * 0x100 + s[i + 3]
}

/// Whether bytes 4..8 of `s` spell the legacy `frma` atom tag.
pub open spec fn has_frma_tag(s: Seq<u8>) -> bool {
    s[4] == 0x66u8 && s[5] == 0x72u8 && s[6] == 0x6du8 && s[7] == 0x61u8
}

/// Whether bytes 4..8 of `s` spell the legacy `alac` atom tag.
pub open spec fn has_alac_tag(s: Seq<u8>) -> bool {
    s[4] == 0x61u8 && s[5] == 0x6cu8 && s[6] == 0x61u8 && s[7] == 0x63u8
}

/// The cookie with any legacy `frma` and `alac` atom prefixes removed.
pub open spec fn stripped_cookie(s: Seq<u8>) -> Seq<u8> {
    let s1 = if has_frma_tag(s) {
        s.skip(12)
    } else {
        s
    };
    if has_alac_tag(s1) {
        s1.skip(12)
    } else {
        s1
    }
}

/// The stream parameters packed big-endian in the first 24 bytes of `c`.
pub open spec fn cookie_fields(c: Seq<u8>) -> StreamInfo {
    StreamInfo {
        frame_length: be32(c, 0) as u32,
        compatible_version: c[4],
        bit_depth: c[5],
        pb: c[6],
        mb: c[7],
        kb: c[8],
        num_channels: c[9],
        max_run: be16(c, 10) as u16,
        max_frame_bytes: be32(c, 12) as u32,
        avg_bit_rate: be32(c, 16) as u32,
        sample_rate: be32(c, 20) as u32,
    }
}

impl StreamInfo {
    /// The validation every constructed `StreamInfo` satisfies: at least one
    /// channel, a nonzero bit depth, and a per-packet sample count that fits
    /// in `u32`.
    pub open spec fn wf(&self) -> bool {
        &&& self.num_channels >= 1
        &&& self.bit_depth >= 1
        &&& self.frame_length * self.num_channels <= u32::MAX
    }

    /// Creates a `StreamInfo` from a magic cookie. This is often stored in the
    /// header of a container format.
    ///
    /// The 24-byte configuration block may be preceded by legacy `frma` and
    /// `alac` atoms, which are skipped.
    pub fn from_cookie(cookie: &[u8]) -> (r: Result<StreamInfo, InvalidData>)
        ensures
            match r {
                Ok(info) => {
                    &&& cookie@.len() >= 24
                    &&& stripped_cookie(cookie@).len() >= 24
                    &&& info == cookie_fields(stripped_cookie(cookie@))
                    &&& info.wf()
                },
                Err(e) => {
                    &&& cookie@.len() < 24 || stripped_cookie(cookie@).len() < 24
                        || !cookie_fields(stripped_cookie(cookie@)).wf()
                    &&& e.msg() == (if cookie@.len() < 24 || stripped_cookie(cookie@).len() < 24 {
                        "magic cookie is not the correct length"@
                    } else {
                        cookie_fields(stripped_cookie(cookie@)).validate_err_msg()
                    })
                },
            },
    {
        // Make sure the atom checks below stay in bounds.
        if cookie.len() < 24 {
            return Err(invalid_data("magic cookie is not the correct length"));
        }
        let mut c: &[u8] = cookie;

        // Skip the legacy format (`frma`) atom if present.
        if c[4] == 0x66 && c[5] == 0x72 && c[6] == 0x6d && c[7] == 0x61 {
            c = &c[12..c.len()];
        }

        // Skip the legacy `alac` atom header if present.
        if c[4] == 0x61 && c[5] == 0x6c && c[6] == 0x61 && c[7] == 0x63 {
            c = &c[12..c.len()];
        }
        assert(c@ == stripped_cookie(cookie@));

        // Make sure what remains still holds the whole configuration block.
        if c.len() < 24 {
            return Err(invalid_data("magic cookie is not the correct length"));
        }

        let info = StreamInfo {
            frame_length: read_be_u32(&c[0..4]),
            compatible_version: c[4],
            bit_depth: c[5],
            pb: c[6],
            mb: c[7],
            kb: c[8],
            num_channels: c[9],
            max_run: read_be_u16(&c[10..12]),
            max_frame_bytes: read_be_u32(&c[12..16]),
            avg_bit_rate: read_be_u32(&c[16..20]),
            sample_rate: read_be_u32(&c[20..24]),
        };
        info.validate()
    }

    pub fn sample_rate(&self) -> (r: u32)
        ensures
            r == self.sample_rate,
    {
        self.sample_rate
    }

    pub fn bit_depth(&self) -> (r: u8)
        ensures
            r == self.bit_depth,
    {
        self.bit_depth
    }

    pub fn channels(&self) -> (r: u8)
        ensures
            r == self.num_channels,
    {
        self.num_channels
    }

    pub fn max_frames_per_packet(&self) -> (r: u32)
        ensures
            r == self.frame_length,
    {
        self.frame_length
    }

    pub fn max_samples_per_packet(&self) -> (r: u32)
        requires
            self.wf(),
        ensures
            r == self.frame_length * self.num_channels,
    {
        self.frame_length * self.num_channels as u32
    }

    /// The message `validate` reports for parameters that fail it.
    pub open spec fn validate_err_msg(&self) -> Seq<char>
        recommends
            !self.wf(),
    {
        if self.num_channels == 0 {
            "stream must contain one or more channels"@
        } else if self.frame_length * self.num_channels > u32::MAX {
            "overflow calculating max_samples_per_packet"@
        } else {
            "bit depth must be one or greater"@
        }
    }

    fn validate(self) -> (r: Result<StreamInfo, InvalidData>)
        ensures
            match r {
                Ok(info) => info == self && self.wf(),
                Err(e) => {
                    &&& !self.wf()
                    &&& e.msg() == self.validate_err_msg()
                },
            },
    {
        if self.num_channels == 0 {
            return Err(invalid_data("stream must contain one or more channels"));
        }

        if self.frame_length.checked_mul(self.num_channels as u32).is_none() {
            return Err(invalid_data("overflow calculating max_samples_per_packet"));
        }

        if self.bit_depth == 0 {
            return Err(invalid_data("bit depth must be one or greater"));
        }

        Ok(self)
    }
}

fn read_be_u16(buf: &[u8]) -> (r: u16)
    requires
        buf@.len() == 2,
    ensures
        r == be16(buf@, 0),
{
    (buf[0] as u16) * 0x100 + (buf[1] as u16)
}

fn read_be_u32(buf: &[u8]) -> (r: u32)
    requires
        buf@.len() == 4,
    ensures
        r == be32(buf@, 0),
{
    (buf[0] as u32) * 0x1000000 + (buf[1] as u32) * 0x10000 + (buf[2] as u32) * 0x100 + (
    buf[3] as u32)
}

/// ASCII whitespace, the separators of the SDP textual form. The parser
/// deliberately recognises only these byte values: a parameter string that
/// separates its fields with other Unicode whitespace is rejected as
/// invalid rather than split.
pub open spec fn is_space(c: u8) -> bool {
    c == 32 || c == 9 || c == 10 || c == 11 || c == 12 || c == 13
}

/// An ASCII decimal digit.
pub open spec fn is_digit(c: u8) -> bool {
    48 <= c <= 57
}

/// The first position at or after `i` that does not hold whitespace.
pub open spec fn skip_ws(s: Seq<u8>, i: int) -> int
    decreases s.len() - i,
{
    if 0 <= i < s.len() && is_space(s[i]) {
        skip_ws(s, i + 1)
    } else {
        i
    }
}

/// The first position at or after `i` that ends the token starting there.
pub open spec fn token_end(s: Seq<u8>, i: int) -> int
    decreases s.len() - i,
{
    if 0 <= i < s.len() && !is_space(s[i]) {
        token_end(s, i + 1)
    } else {
        i
    }
}

/// The value of the `n` decimal digits of `s` starting at `start`.
pub open spec fn digits_val(s: Seq<u8>, start: int, n: nat) -> int
    decreases n,
{
    if n == 0 {
        0
    } else {
        digits_val(s, start, (n - 1) as nat) * 10 + (s[start + n - 1] - 48)
    }
}

/// The first digit position of the token `s[j..e)`: a single leading plus
/// sign is accepted.
pub open spec fn tok_digits_start(s: Seq<u8>, j: int) -> int {
    if s[j] == 43 {
        j + 1
    } else {
        j
    }
}

/// Whether the token `s[j..e)` is a decimal number no greater than `max`.
pub open spec fn tok_ok(s: Seq<u8>, j: int, e: int, max: int) -> bool {
    let d0 = tok_digits_start(s, j);
    &&& d0 < e
    &&& (forall|k: int| d0 <= k < e ==> is_digit(#[trigger] s[k]))
    &&& digits_val(s, d0, (e - d0) as nat) <= max
}

/// The value of the token `s[j..e)`.
pub open spec fn tok_val(s: Seq<u8>, j: int, e: int) -> int {
    digits_val(s, tok_digits_start(s, j), (e - tok_digits_start(s, j)) as nat)
}

/// The outcome of taking one decimal field from the parameter text.
pub enum FieldOutcome {
    Val(int, int),
    Missing,
    Bad,
}

/// One whitespace-separated decimal field read at `i`, bounded by `max`.
pub open spec fn sdp_field(s: Seq<u8>, i: int, max: int) -> FieldOutcome {
    let j = skip_ws(s, i);
    if j >= s.len() {
        FieldOutcome::Missing
    } else {
        let e = token_end(s, j);
        if tok_ok(s, j, e, max) {
            FieldOutcome::Val(tok_val(s, j, e), e)
        } else {
            FieldOutcome::Bad
        }
    }
}

/// The outcome of parsing the eleven SDP fields, before validation.
pub enum SdpOutcome {
    Parsed(StreamInfo, int),
    TooFew,
    Bad,
}

/// The eleven whitespace-separated decimal fields of the SDP textual form,
/// in magic-cookie order, each bounded by its field width.
pub open spec fn sdp_outcome(s: Seq<u8>) -> SdpOutcome {
    match sdp_field(s, 0, 0xFFFF_FFFF) {
        FieldOutcome::Missing => SdpOutcome::TooFew,
        FieldOutcome::Bad => SdpOutcome::Bad,
        FieldOutcome::Val(frame_length, i1) => match sdp_field(s, i1, 0xFF) {
            FieldOutcome::Missing => SdpOutcome::TooFew,
            FieldOutcome::Bad => SdpOutcome::Bad,
            FieldOutcome::Val(compatible_version, i2) => match sdp_field(s, i2, 0xFF) {
                FieldOutcome::Missing => SdpOutcome::TooFew,
                FieldOutcome::Bad => SdpOutcome::Bad,
                FieldOutcome::Val(bit_depth, i3) => match sdp_field(s, i3, 0xFF) {
                    FieldOutcome::Missing => SdpOutcome::TooFew,
                    FieldOutcome::Bad => SdpOutcome::Bad,
                    FieldOutcome::Val(pb, i4) => match sdp_field(s, i4, 0xFF) {
                        FieldOutcome::Missing => SdpOutcome::TooFew,
                        FieldOutcome::Bad => SdpOutcome::Bad,
                        FieldOutcome::Val(mb, i5) => match sdp_field(s, i5, 0xFF) {
                            FieldOutcome::Missing => SdpOutcome::TooFew,
                            FieldOutcome::Bad => SdpOutcome::Bad,
                            FieldOutcome::Val(kb, i6) => match sdp_field(s, i6, 0xFF) {
                                FieldOutcome::Missing => SdpOutcome::TooFew,
                                FieldOutcome::Bad => SdpOutcome::Bad,
                                FieldOutcome::Val(num_channels, i7) => match sdp_field(
                                    s,
                                    i7,
                                    0xFFFF,
                                ) {
                                    FieldOutcome::Missing => SdpOutcome::TooFew,
                                    FieldOutcome::Bad => SdpOutcome::Bad,
                                    FieldOutcome::Val(max_run, i8) => match sdp_field(
                                        s,
                                        i8,
                                        0xFFFF_FFFF,
                                    ) {
                                        FieldOutcome::Missing => SdpOutcome::TooFew,
                                        FieldOutcome::Bad => SdpOutcome::Bad,
                                        FieldOutcome::Val(max_frame_bytes, i9) => match sdp_field(
                                            s,
                                            i9,
                                            0xFFFF_FFFF,
                                        ) {
                                            FieldOutcome::Missing => SdpOutcome::TooFew,
                                            FieldOutcome::Bad => SdpOutcome::Bad,
                                            FieldOutcome::Val(avg_bit_rate, i10) => match sdp_field(
                                                s,
                                                i10,
                                                0xFFFF_FFFF,
                                            ) {
                                                FieldOutcome::Missing => SdpOutcome::TooFew,
                                                FieldOutcome::Bad => SdpOutcome::Bad,
                                                FieldOutcome::Val(sample_rate, i11) => {
                                                    let info = StreamInfo {
                                                        frame_length: frame_length as u32,
                                                        compatible_version: compatible_version as u8,
                                                        bit_depth: bit_depth as u8,
                                                        pb: pb as u8,
                                                        mb: mb as u8,
                                                        kb: kb as u8,
                                                        num_channels: num_channels as u8,
                                                        max_run: max_run as u16,
                                                        max_frame_bytes: max_frame_bytes as u32,
                                                        avg_bit_rate: avg_bit_rate as u32,
                                                        sample_rate: sample_rate as u32,
                                                    };
                                                    SdpOutcome::Parsed(info, i11)
                                                },
                                            },
                                        },
                                    },
                                },
                            },
                        },
                    },
                },
            },
        },
    }
}

fn is_space_b(c: u8) -> (r: bool)
    ensures
        r == is_space(c),
{
    c == 32 || c == 9 || c == 10 || c == 11 || c == 12 || c == 13
}

/// Appending digits can only grow a decimal value.
proof fn lemma_digits_val_grows(s: Seq<u8>, start: int, n1: nat, n2: nat)
    requires
        n1 <= n2,
        forall|k: int| start <= k < start + n2 ==> is_digit(#[trigger] s[k]),
        digits_val(s, start, n1) >= 0,
    ensures
        digits_val(s, start, n2) >= digits_val(s, start, n1),
        digits_val(s, start, n2) >= 0,
    decreases n2,
{
    if n2 > n1 {
        lemma_digits_val_grows(s, start, n1, (n2 - 1) as nat);
    }
}

/// Takes one whitespace-separated decimal field at or after `i`, bounded by
/// `max`.
fn parse_field(s: &[u8], i: usize, max: u32) -> (r: Result<(u32, usize), InvalidData>)
    requires
        i <= s@.len(),
    ensures
        match r {
            Ok((v, ni)) => {
                &&& sdp_field(s@, i as int, max as int) == FieldOutcome::Val(
                    v as int,
                    ni as int,
                )
                &&& v <= max
                &&& i <= ni <= s@.len()
            },
            Err(e) => {
                &&& (sdp_field(s@, i as int, max as int) is Missing && e.msg()
                    == "too few sdp format parameters"@)
                    || (sdp_field(s@, i as int, max as int) is Bad && e.msg()
                    == "invalid sdp format parameter"@)
            },
        },
{
    // Find the start of the token.
    let mut j: usize = i;
    loop
        invariant
            i <= j <= s@.len(),
            skip_ws(s@, i as int) == skip_ws(s@, j as int),
        ensures
            i <= j <= s@.len(),
            j as int == skip_ws(s@, i as int),
            j == s@.len() || !is_space(s@[j as int]),
        decreases s@.len() - j,
    {
        if j >= s.len() {
            break ;
        }
        if !is_space_b(s[j]) {
            break ;
        }
        j = j + 1;
    }
    if j >= s.len() {
        return Err(invalid_data("too few sdp format parameters"));
    }

    // Find the end of the token.
    let mut e: usize = j;
    loop
        invariant
            j <= e <= s@.len(),
            token_end(s@, j as int) == token_end(s@, e as int),
            forall|k: int| j <= k < e ==> !is_space(#[trigger] s@[k]),
        ensures
            j <= e <= s@.len(),
            e as int == token_end(s@, j as int),
            e == s@.len() || is_space(s@[e as int]),
            forall|k: int| j <= k < e ==> !is_space(#[trigger] s@[k]),
        decreases s@.len() - e,
    {
        if e >= s.len() {
            break ;
        }
        if is_space_b(s[e]) {
            break ;
        }
        e = e + 1;
    }

    // An optional single leading plus sign.
    let d0: usize = if s[j] == 43 {
        j + 1
    } else {
        j
    };
    if d0 >= e {
        return Err(invalid_data("invalid sdp format parameter"));
    }

    // Accumulate the decimal value, rejecting non-digits and overflow.
    let mut v: u64 = 0;
    let mut k: usize = d0;
    while k < e
        invariant
            d0 <= k <= e <= s@.len(),
            j as int == skip_ws(s@, i as int),
            j < s@.len(),
            e as int == token_end(s@, j as int),
            d0 == tok_digits_start(s@, j as int),
            d0 < e,
            v <= max,
            v == digits_val(s@, d0 as int, (k - d0) as nat),
            forall|t: int| d0 <= t < k ==> is_digit(#[trigger] s@[t]),
        decreases e - k,
    {
        let c = s[k];
        if c < 48 || c > 57 {
            proof {
                assert(!tok_ok(s@, j as int, e as int, max as int));
            }
            return Err(invalid_data("invalid sdp format parameter"));
        }
        v = v * 10 + ((c - 48) as u64);
        k = k + 1;
        if v > max as u64 {
            proof {
                if forall|t: int|
                    tok_digits_start(s@, j as int) <= t < e ==> is_digit(#[trigger] s@[t]) {
                    lemma_digits_val_grows(s@, d0 as int, (k - d0) as nat, (e - d0) as nat);
                }
                assert(!tok_ok(s@, j as int, e as int, max as int));
            }
            return Err(invalid_data("invalid sdp format parameter"));
        }
    }
    proof {
        assert(tok_ok(s@, j as int, e as int, max as int));
    }
    Ok((v as u32, e))
}

impl StreamInfo {
    /// Creates a `StreamInfo` from SDP format specific parameters, i.e. the
    /// `fmtp` attribute: eleven decimal integers in magic-cookie field
    /// order, separated by ASCII whitespace (other Unicode whitespace is
    /// not accepted as a separator).
    pub fn from_sdp_format_parameters(params: &str) -> (r: Result<StreamInfo, InvalidData>)
        ensures
            match r {
                Ok(info) => {
                    &&& sdp_outcome(params.spec_bytes()) matches SdpOutcome::Parsed(inf, end)
                        && inf == info && skip_ws(params.spec_bytes(), end)
                        == params.spec_bytes().len()
                    &&& info.wf()
                },
                Err(e) => match sdp_outcome(params.spec_bytes()) {
                    SdpOutcome::Parsed(inf, end) => if skip_ws(params.spec_bytes(), end)
                        != params.spec_bytes().len() {
                        e.msg() == "too many sdp format parameters"@
                    } else {
                        &&& !inf.wf()
                        &&& e.msg() == inf.validate_err_msg()
                    },
                    SdpOutcome::TooFew => e.msg() == "too few sdp format parameters"@,
                    SdpOutcome::Bad => e.msg() == "invalid sdp format parameter"@,
                },
            },
    {
        let s: &[u8] = params.as_bytes();

        let (frame_length, i1) = parse_field(s, 0, 0xFFFF_FFFF)?;
        let (compatible_version, i2) = parse_field(s, i1, 0xFF)?;
        let (bit_depth, i3) = parse_field(s, i2, 0xFF)?;
        let (pb, i4) = parse_field(s, i3, 0xFF)?;
        let (mb, i5) = parse_field(s, i4, 0xFF)?;
        let (kb, i6) = parse_field(s, i5, 0xFF)?;
        let (num_channels, i7) = parse_field(s, i6, 0xFF)?;
        let (max_run, i8) = parse_field(s, i7, 0xFFFF)?;
        let (max_frame_bytes, i9) = parse_field(s, i8, 0xFFFF_FFFF)?;
        let (avg_bit_rate, i10) = parse_field(s, i9, 0xFFFF_FFFF)?;
        let (sample_rate, i11) = parse_field(s, i10, 0xFFFF_FFFF)?;

        let info = StreamInfo {
            frame_length,
            compatible_version: compatible_version as u8,
            bit_depth: bit_depth as u8,
            pb: pb as u8,
            mb: mb as u8,
            kb: kb as u8,
            num_channels: num_channels as u8,
            max_run: max_run as u16,
            max_frame_bytes,
            avg_bit_rate,
            sample_rate,
        };

        // Check we have not been passed too many values.
        let mut t: usize = i11;
        loop
            invariant
                i11 <= t <= s@.len(),
                skip_ws(s@, i11 as int) == skip_ws(s@, t as int),
            ensures
                t as int == skip_ws(s@, i11 as int),
                t <= s@.len(),
                t == s@.len() || !is_space(s@[t as int]),
            decreases s@.len() - t,
        {
            if t >= s.len() {
                break ;
            }
            if !is_space_b(s[t]) {
                break ;
            }
            t = t + 1;
        }
        if t < s.len() {
            return Err(invalid_data("too many sdp format parameters"));
        }

        info.validate()
    }
}

/// The four big-endian bytes of a 32-bit value.
pub open spec fn be32_bytes(v: u32) -> Seq<u8> {
    seq![
        (v / 0x100_0000) as u8,
        ((v / 0x1_0000) % 0x100) as u8,
        ((v / 0x100) % 0x100) as u8,
        (v % 0x100) as u8,
    ]
}

/// The two big-endian bytes of a 16-bit value.
pub open spec fn be16_bytes(v: u16) -> Seq<u8> {
    seq![(v / 0x100) as u8, (v % 0x100) as u8]
}

/// The 24-byte magic-cookie encoding of a stream's parameters.
pub open spec fn cookie_bytes(info: StreamInfo) -> Seq<u8> {
    be32_bytes(info.frame_length) + seq![
        info.compatible_version,
        info.bit_depth,
        info.pb,
        info.mb,
        info.kb,
        info.num_channels,
    ] + be16_bytes(info.max_run) + be32_bytes(info.max_frame_bytes) + be32_bytes(info.avg_bit_rate)
        + be32_bytes(info.sample_rate)
}

/// Four big-endian bytes encode exactly the 32-bit value they were read as.
proof fn lemma_be32_round_trip(c: Seq<u8>, i: int)
    requires
        0 <= i,
        i + 4 <= c.len(),
    ensures
        be32_bytes(be32(c, i) as u32) =~= c.subrange(i, i + 4),
{
    let v = be32(c, i);
    assert(0 <= v <= 0xFFFF_FFFF);
    vstd::arithmetic::div_mod::lemma_fundamental_div_mod_converse(
        v,
        0x100_0000,
        c[i] as int,
        c[i + 1] * 0x1_0000 + c[i + 2] * 0x100 + c[i + 3],
    );
    vstd::arithmetic::div_mod::lemma_fundamental_div_mod_converse(
        v,
        0x1_0000,
        c[i] * 0x100 + c[i + 1],
        c[i + 2] * 0x100 + c[i + 3],
    );
    vstd::arithmetic::div_mod::lemma_fundamental_div_mod_converse(
        v,
        0x100,
        c[i] * 0x1_0000 + c[i + 1] * 0x100 + c[i + 2],
        c[i + 3] as int,
    );
    vstd::arithmetic::div_mod::lemma_fundamental_div_mod_converse(
        c[i] * 0x100 + c[i + 1],
        0x100,
        c[i] as int,
        c[i + 1] as int,
    );
    vstd::arithmetic::div_mod::lemma_fundamental_div_mod_converse(
        c[i] * 0x1_0000 + c[i + 1] * 0x100 + c[i + 2],
        0x100,
        c[i] * 0x100 + c[i + 1],
        c[i + 2] as int,
    );
}

/// Two big-endian bytes encode exactly the 16-bit value they were read as.
proof fn lemma_be16_round_trip(c: Seq<u8>, i: int)
    requires
        0 <= i,
        i + 2 <= c.len(),
    ensures
        be16_bytes(be16(c, i) as u16) =~= c.subrange(i, i + 2),
{
    vstd::arithmetic::div_mod::lemma_fundamental_div_mod_converse(
        be16(c, i),
        0x100,
        c[i] as int,
        c[i + 1] as int,
    );
}

/// Parsing a 24-byte configuration block and re-encoding the parsed fields
/// reproduces the block, byte for byte. Together with `from_cookie`'s
/// contract — which rejects any input shorter than 24 bytes — this makes
/// cookie parsing and encoding a round trip.
pub proof fn lemma_cookie_round_trip(c: Seq<u8>)
    requires
        c.len() >= 24,
    ensures
        cookie_bytes(cookie_fields(c)) =~= c.subrange(0, 24),
{
    lemma_be32_round_trip(c, 0);
    lemma_be16_round_trip(c, 10);
    lemma_be32_round_trip(c, 12);
    lemma_be32_round_trip(c, 16);
    lemma_be32_round_trip(c, 20);
    assert forall|k: int| 0 <= k < 24 implies cookie_bytes(cookie_fields(c))[k] == c.subrange(
        0,
        24,
    )[k] by {
        if k < 4 {
            assert(cookie_bytes(cookie_fields(c))[k] == be32_bytes(be32(c, 0) as u32)[k]);
        } else if 10 <= k < 12 {
            assert(cookie_bytes(cookie_fields(c))[k] == be16_bytes(be16(c, 10) as u16)[k - 10]);
        } else if 12 <= k < 16 {
            assert(cookie_bytes(cookie_fields(c))[k] == be32_bytes(be32(c, 12) as u32)[k - 12]);
        } else if 16 <= k < 20 {
            assert(cookie_bytes(cookie_fields(c))[k] == be32_bytes(be32(c, 16) as u32)[k - 16]);
        } else if 20 <= k < 24 {
            assert(cookie_bytes(cookie_fields(c))[k] == be32_bytes(be32(c, 20) as u32)[k - 20]);
        }
    }
}

impl StreamInfo {
    /// Encodes the stream parameters as the 24-byte magic cookie they are
    /// parsed from.
    pub fn to_cookie(&self) -> (r: Vec<u8>)
        ensures
            r@ == cookie_bytes(*self),
    {
        let mut v: Vec<u8> = Vec::new();
        push_be32(&mut v, self.frame_length);
        v.push(self.compatible_version);
        v.push(self.bit_depth);
        v.push(self.pb);
        v.push(self.mb);
        v.push(self.kb);
        v.push(self.num_channels);
        v.push((self.max_run / 0x100) as u8);
        v.push((self.max_run % 0x100) as u8);
        push_be32(&mut v, self.max_frame_bytes);
        push_be32(&mut v, self.avg_bit_rate);
        push_be32(&mut v, self.sample_rate);
        proof {
            assert(v@ =~= cookie_bytes(*self));
        }
        v
    }
}

fn push_be32(v: &mut Vec<u8>, x: u32)
    ensures
        final(v)@ == old(v)@ + be32_bytes(x),
{
    v.push((x / 0x100_0000) as u8);
    v.push(((x / 0x1_0000) % 0x100) as u8);
    v.push(((x / 0x100) % 0x100) as u8);
    v.push((x % 0x100) as u8);
    proof {
        assert(final(v)@ =~= old(v)@ + be32_bytes(x));
    }
}

} // verus!
