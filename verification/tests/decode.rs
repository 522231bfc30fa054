use alac::{Decoder, StreamInfo};

fn push_bits(bits: &mut Vec<bool>, val: u64, n: usize) {
    for k in (0..n).rev() {
        bits.push((val >> k) & 1 == 1);
    }
}

fn to_bytes(bits: &[bool]) -> Vec<u8> {
    let mut bytes = vec![0u8; (bits.len() + 7) / 8];
    for (i, &b) in bits.iter().enumerate() {
        if b {
            bytes[i / 8] |= 1 << (7 - i % 8);
        }
    }
    bytes
}

fn stereo_info() -> StreamInfo {
    StreamInfo::from_sdp_format_parameters("4096 0 16 40 10 14 2 255 0 0 44100").unwrap()
}

fn mono_info() -> StreamInfo {
    StreamInfo::from_sdp_format_parameters("4096 0 16 40 10 14 1 255 0 0 44100").unwrap()
}

/// An uncompressed stereo element: the samples are read verbatim, in
/// interleaved order.
fn uncompressed_stereo_packet(samples: &[(u16, u16)]) -> Vec<u8> {
    let mut bits = Vec::new();
    push_bits(&mut bits, 1, 3); // CPE tag
    push_bits(&mut bits, 0, 4); // element instance tag
    push_bits(&mut bits, 0, 12); // reserved, must be zero
    push_bits(&mut bits, 1, 1); // partial frame
    push_bits(&mut bits, 0, 2); // sample shift bytes
    push_bits(&mut bits, 1, 1); // is_uncompressed
    push_bits(&mut bits, samples.len() as u64, 32); // num_samples
    for &(l, r) in samples {
        push_bits(&mut bits, l as u64, 16);
        push_bits(&mut bits, r as u64, 16);
    }
    push_bits(&mut bits, 7, 3); // END tag
    to_bytes(&bits)
}

#[test]
fn uncompressed_stereo_packet_reads_samples_verbatim() {
    let packet = uncompressed_stereo_packet(&[(0x1234, 0xFFFF), (0x8000, 0x0001)]);
    let mut dec = Decoder::new(stereo_info());
    let mut out = vec![0i16; 8192];
    let n = dec.decode_packet(&packet, &mut out).unwrap();
    assert_eq!(n, 4);
    assert_eq!(&out[..4], &[0x1234, -1, -32768, 1]);
}

#[test]
fn uncompressed_packet_left_aligns_32_bit_output() {
    let packet = uncompressed_stereo_packet(&[(0x1234, 0xFFFF)]);
    let mut dec = Decoder::new(stereo_info());
    let mut out = vec![0i32; 8192];
    let n = dec.decode_packet(&packet, &mut out).unwrap();
    assert_eq!(n, 2);
    // 16-bit samples are left-aligned within the 32-bit output type.
    assert_eq!(&out[..2], &[0x1234 << 16, -1 << 16]);
}

#[test]
fn uncompressed_packet_with_sample_shift_is_rejected() {
    let mut bits = Vec::new();
    push_bits(&mut bits, 1, 3); // CPE tag
    push_bits(&mut bits, 0, 4);
    push_bits(&mut bits, 0, 12);
    push_bits(&mut bits, 1, 1); // partial frame
    push_bits(&mut bits, 1, 2); // sample shift bytes = 1
    push_bits(&mut bits, 1, 1); // is_uncompressed
    push_bits(&mut bits, 1, 32);
    push_bits(&mut bits, 0, 32); // would-be sample data
    let packet = to_bytes(&bits);
    let mut dec = Decoder::new(stereo_info());
    let mut out = vec![0i16; 8192];
    let err = dec.decode_packet(&packet, &mut out).unwrap_err();
    assert_eq!(
        err.message(),
        "sample shift cannot be greater than zero for uncompressed channels"
    );
}

/// A compressed mono element holding a single Rice symbol. With the
/// canonical parameters the first Rice parameter is k = 1, so a symbol
/// below 9 is just its value in unary.
#[test]
fn compressed_mono_packet_with_one_sample() {
    let mut bits = Vec::new();
    push_bits(&mut bits, 0, 3); // SCE tag
    push_bits(&mut bits, 0, 4); // element instance tag
    push_bits(&mut bits, 0, 12); // reserved
    push_bits(&mut bits, 1, 1); // partial frame
    push_bits(&mut bits, 0, 2); // sample shift bytes
    push_bits(&mut bits, 0, 1); // compressed
    push_bits(&mut bits, 1, 32); // num_samples = 1
    push_bits(&mut bits, 0, 8); // mix_bits
    push_bits(&mut bits, 0, 8); // mix_res
    push_bits(&mut bits, 0, 4); // lpc mode
    push_bits(&mut bits, 4, 4); // lpc quant
    push_bits(&mut bits, 4, 3); // pb factor
    push_bits(&mut bits, 0, 5); // lpc order: no coefficients follow
    push_bits(&mut bits, 0b110, 3); // one Rice symbol: unary 2 = ZigZag of +1
    push_bits(&mut bits, 7, 3); // END tag
    let packet = to_bytes(&bits);

    let mut dec = Decoder::new(mono_info());
    let mut out = vec![0i16; 4096];
    let n = dec.decode_packet(&packet, &mut out).unwrap();
    assert_eq!(n, 1);
    assert_eq!(out[0], 1);
}

/// Two samples: the first symbol leaves a low Rice history, so the decoder
/// looks for a compressed run of zeros (here of length zero) and arms the
/// sign modifier for the second symbol. The zero-order predictor then adds
/// each residual to the previous sample.
#[test]
fn compressed_mono_packet_with_zero_run_and_sign_modifier() {
    let mut bits = Vec::new();
    push_bits(&mut bits, 0, 3); // SCE tag
    push_bits(&mut bits, 0, 4);
    push_bits(&mut bits, 0, 12);
    push_bits(&mut bits, 1, 1); // partial frame
    push_bits(&mut bits, 0, 2);
    push_bits(&mut bits, 0, 1); // compressed
    push_bits(&mut bits, 2, 32); // num_samples = 2
    push_bits(&mut bits, 0, 8); // mix_bits
    push_bits(&mut bits, 0, 8); // mix_res
    push_bits(&mut bits, 0, 4); // lpc mode
    push_bits(&mut bits, 4, 4); // lpc quant
    push_bits(&mut bits, 4, 3); // pb factor
    push_bits(&mut bits, 0, 5); // lpc order
    // Symbol 0, k = 1: unary 2, the ZigZag coding of +1. The history drops
    // below 128, so a run length follows with k = 2: a zero quotient and a
    // zero remainder, meaning no zeros, and the sign modifier is armed.
    push_bits(&mut bits, 0b110, 3); // symbol 0
    push_bits(&mut bits, 0b00, 2); // run of zeros: none
    // Symbol 1, k = 1 again: unary 0 plus the armed sign modifier gives the
    // value 1, the ZigZag coding of -1; the predictor adds the previous
    // sample.
    push_bits(&mut bits, 0b0, 1); // symbol 1
    push_bits(&mut bits, 7, 3); // END tag
    let packet = to_bytes(&bits);

    let mut dec = Decoder::new(mono_info());
    let mut out = vec![0i16; 4096];
    let n = dec.decode_packet(&packet, &mut out).unwrap();
    assert_eq!(n, 2);
    assert_eq!(&out[..2], &[1, 0]);
}

#[test]
fn cce_and_pce_elements_are_rejected() {
    for tag in [2u64, 5] {
        let mut bits = Vec::new();
        push_bits(&mut bits, tag, 3);
        push_bits(&mut bits, 0, 32);
        let packet = to_bytes(&bits);
        let mut dec = Decoder::new(stereo_info());
        let mut out = vec![0i16; 8192];
        let err = dec.decode_packet(&packet, &mut out).unwrap_err();
        assert_eq!(err.message(), "packet cce and pce elements are unsupported");
    }
}

#[test]
fn end_before_all_channels_is_rejected() {
    let mut bits = Vec::new();
    push_bits(&mut bits, 7, 3); // END with no channels decoded
    let packet = to_bytes(&bits);
    let mut dec = Decoder::new(stereo_info());
    let mut out = vec![0i16; 8192];
    let err = dec.decode_packet(&packet, &mut out).unwrap_err();
    assert_eq!(err.message(), "packet contains fewer channels than expected");
}

#[test]
fn too_many_channels_is_rejected() {
    let packet = uncompressed_stereo_packet(&[(1, 2)]);
    let mut dec = Decoder::new(mono_info());
    let mut out = vec![0i16; 4096];
    let err = dec.decode_packet(&packet, &mut out).unwrap_err();
    assert_eq!(err.message(), "packet contains more channels than expected");
}

#[test]
fn empty_packet_is_rejected() {
    let mut dec = Decoder::new(stereo_info());
    let mut out = vec![0i16; 8192];
    let err = dec.decode_packet(&[], &mut out).unwrap_err();
    assert_eq!(err.message(), "packet is not long enough");
}

/// The body of a one-sample compressed SCE element, without the 3-bit tag.
fn sce_one_sample_body(bits: &mut Vec<bool>, num_samples: u64) {
    push_bits(bits, 0, 4); // element instance tag
    push_bits(bits, 0, 12); // reserved
    push_bits(bits, 1, 1); // partial frame
    push_bits(bits, 0, 2); // sample shift bytes
    push_bits(bits, 0, 1); // compressed
    push_bits(bits, num_samples, 32);
    push_bits(bits, 0, 8); // mix_bits
    push_bits(bits, 0, 8); // mix_res
    push_bits(bits, 0, 4); // lpc mode
    push_bits(bits, 4, 4); // lpc quant
    push_bits(bits, 4, 3); // pb factor
    push_bits(bits, 0, 5); // lpc order
}

#[test]
fn elements_with_different_sample_counts_are_rejected() {
    let mut bits = Vec::new();
    // First channel: one sample.
    push_bits(&mut bits, 0, 3); // SCE tag
    sce_one_sample_body(&mut bits, 1);
    push_bits(&mut bits, 0b110, 3); // one symbol
    // Second channel: two samples.
    push_bits(&mut bits, 0, 3); // SCE tag
    sce_one_sample_body(&mut bits, 2);
    push_bits(&mut bits, 0b110, 3); // symbol 0
    push_bits(&mut bits, 0b00, 2); // run of zeros: none
    push_bits(&mut bits, 0b0, 1); // symbol 1
    push_bits(&mut bits, 7, 3); // END tag
    let packet = to_bytes(&bits);

    let mut dec = Decoder::new(stereo_info());
    let mut out = vec![0i16; 8192];
    let err = dec.decode_packet(&packet, &mut out).unwrap_err();
    assert_eq!(
        err.message(),
        "all channels in a packet must contain the same number of samples"
    );
}

#[test]
fn channel_bits_over_32_are_rejected() {
    // A 32-bit stereo stream: a pair element needs 33 residual bits.
    let info = StreamInfo::from_sdp_format_parameters("4096 0 32 40 10 14 2 255 0 0 44100")
        .unwrap();
    let mut bits = Vec::new();
    push_bits(&mut bits, 1, 3); // CPE tag
    push_bits(&mut bits, 0, 4);
    push_bits(&mut bits, 0, 12);
    push_bits(&mut bits, 1, 1); // partial frame
    push_bits(&mut bits, 0, 2);
    push_bits(&mut bits, 0, 1); // compressed
    push_bits(&mut bits, 1, 32);
    push_bits(&mut bits, 0, 32); // would-be mix parameters
    let packet = to_bytes(&bits);

    let mut dec = Decoder::new(info);
    let mut out = vec![0i32; 8192];
    let err = dec.decode_packet(&packet, &mut out).unwrap_err();
    assert_eq!(err.message(), "channel bit depth cannot be greater than 32");
}

#[test]
fn zero_run_overrunning_the_channel_is_rejected() {
    let mut bits = Vec::new();
    push_bits(&mut bits, 0, 3); // SCE tag
    sce_one_sample_body(&mut bits, 2);
    // Symbol 0 leaves a low history, so a run length follows with k = 2.
    push_bits(&mut bits, 0b110, 3); // symbol 0: +1
    push_bits(&mut bits, 0b011, 3); // run of two zeros: more than remain
    push_bits(&mut bits, 7, 3);
    let packet = to_bytes(&bits);

    let mut dec = Decoder::new(mono_info());
    let mut out = vec![0i16; 4096];
    let err = dec.decode_packet(&packet, &mut out).unwrap_err();
    assert_eq!(err.message(), "zero block contains too many samples for channel");
}

#[test]
fn fill_and_data_stream_elements_are_skipped() {
    let mut bits = Vec::new();
    // A fill element of 2 bytes.
    push_bits(&mut bits, 6, 3);
    push_bits(&mut bits, 2, 4);
    push_bits(&mut bits, 0, 16);
    // A data stream element of 1 byte, with byte alignment requested.
    push_bits(&mut bits, 4, 3);
    push_bits(&mut bits, 0, 4); // instance tag
    push_bits(&mut bits, 1, 1); // align flag
    push_bits(&mut bits, 1, 8); // count
    while bits.len() % 8 != 0 {
        push_bits(&mut bits, 0, 1);
    }
    push_bits(&mut bits, 0, 8); // the skipped byte
    // The audio element.
    push_bits(&mut bits, 1, 3); // CPE tag
    push_bits(&mut bits, 0, 4);
    push_bits(&mut bits, 0, 12);
    push_bits(&mut bits, 1, 1);
    push_bits(&mut bits, 0, 2);
    push_bits(&mut bits, 1, 1); // uncompressed
    push_bits(&mut bits, 1, 32); // one frame
    push_bits(&mut bits, 5, 16);
    push_bits(&mut bits, 6, 16);
    push_bits(&mut bits, 7, 3); // END tag
    let packet = to_bytes(&bits);

    let mut dec = Decoder::new(stereo_info());
    let mut out = vec![0i16; 8192];
    let n = dec.decode_packet(&packet, &mut out).unwrap();
    assert_eq!(n, 2);
    assert_eq!(&out[..2], &[5, 6]);
}

#[test]
fn arbitrary_bytes_never_panic_the_decoder() {
    let mut dec = Decoder::new(stereo_info());
    let mut out = vec![0i16; 8192];
    let patterns: Vec<Vec<u8>> = vec![
        vec![0xFF; 64],
        vec![0x00; 64],
        vec![0xAA; 33],
        vec![0x55; 7],
        (0..=255u8).collect(),
        vec![0x20, 0x01, 0x00, 0x10, 0xFE, 0xDC, 0xBA, 0x98],
    ];
    for p in patterns {
        // Any outcome is fine as long as nothing panics.
        let _ = dec.decode_packet(&p, &mut out);
    }
}

/// A compressed mono element with a sample shift of one byte: the shifted
/// low-order bits are stored before the residuals and reattached below the
/// decoded sample.
#[test]
fn compressed_packet_reattaches_shifted_bits() {
    let mut bits = Vec::new();
    push_bits(&mut bits, 0, 3); // SCE tag
    push_bits(&mut bits, 0, 4);
    push_bits(&mut bits, 0, 12);
    push_bits(&mut bits, 1, 1); // partial frame
    push_bits(&mut bits, 1, 2); // sample shift bytes = 1
    push_bits(&mut bits, 0, 1); // compressed
    push_bits(&mut bits, 1, 32); // num_samples = 1
    push_bits(&mut bits, 0, 8); // mix_bits
    push_bits(&mut bits, 0, 8); // mix_res
    push_bits(&mut bits, 0, 4); // lpc mode
    push_bits(&mut bits, 4, 4); // lpc quant
    push_bits(&mut bits, 4, 3); // pb factor
    push_bits(&mut bits, 0, 5); // lpc order
    push_bits(&mut bits, 0xAB, 8); // the shifted-off low byte
    push_bits(&mut bits, 0b110, 3); // one Rice symbol: ZigZag of +1
    push_bits(&mut bits, 7, 3); // END tag
    let packet = to_bytes(&bits);

    let mut dec = Decoder::new(mono_info());
    let mut out = vec![0i16; 4096];
    let n = dec.decode_packet(&packet, &mut out).unwrap();
    assert_eq!(n, 1);
    assert_eq!(out[0], (1 << 8) | 0xAB);
}

/// A compressed stereo element with a nonzero mix residual: the two decoded
/// channels go through the stereo unmix before being interleaved.
#[test]
fn compressed_stereo_packet_unmixes_channels() {
    let mut bits = Vec::new();
    push_bits(&mut bits, 1, 3); // CPE tag
    push_bits(&mut bits, 0, 4);
    push_bits(&mut bits, 0, 12);
    push_bits(&mut bits, 1, 1); // partial frame
    push_bits(&mut bits, 0, 2); // sample shift bytes
    push_bits(&mut bits, 0, 1); // compressed
    push_bits(&mut bits, 1, 32); // num_samples = 1
    push_bits(&mut bits, 0, 8); // mix_bits = 0
    push_bits(&mut bits, 1, 8); // mix_res = 1
    // First channel parameters.
    push_bits(&mut bits, 0, 4);
    push_bits(&mut bits, 4, 4);
    push_bits(&mut bits, 4, 3);
    push_bits(&mut bits, 0, 5);
    // Second channel parameters.
    push_bits(&mut bits, 0, 4);
    push_bits(&mut bits, 4, 4);
    push_bits(&mut bits, 4, 3);
    push_bits(&mut bits, 0, 5);
    push_bits(&mut bits, 0b110, 3); // first channel symbol: ZigZag of +1
    push_bits(&mut bits, 0b11110, 5); // second channel symbol: ZigZag of +2
    push_bits(&mut bits, 7, 3); // END tag
    let packet = to_bytes(&bits);

    let mut dec = Decoder::new(stereo_info());
    let mut out = vec![0i16; 8192];
    let n = dec.decode_packet(&packet, &mut out).unwrap();
    assert_eq!(n, 2);
    // With mix_bits 0 and mix_res 1: right = u - v, left = right + v = u.
    assert_eq!(&out[..2], &[1, -1]);
}

#[test]
fn nonzero_reserved_header_bits_are_rejected() {
    let mut bits = Vec::new();
    push_bits(&mut bits, 0, 3); // SCE tag
    push_bits(&mut bits, 0, 4);
    push_bits(&mut bits, 1, 12); // reserved bits must be zero
    push_bits(&mut bits, 0, 32);
    let packet = to_bytes(&bits);
    let mut dec = Decoder::new(mono_info());
    let mut out = vec![0i16; 4096];
    let err = dec.decode_packet(&packet, &mut out).unwrap_err();
    assert_eq!(err.message(), "unused channel header bits must be zero");
}

#[test]
fn sample_shift_of_three_bytes_is_rejected() {
    let mut bits = Vec::new();
    push_bits(&mut bits, 0, 3); // SCE tag
    push_bits(&mut bits, 0, 4);
    push_bits(&mut bits, 0, 12);
    push_bits(&mut bits, 0, 1);
    push_bits(&mut bits, 3, 2); // sample shift bytes = 3
    push_bits(&mut bits, 0, 1);
    push_bits(&mut bits, 0, 32);
    let packet = to_bytes(&bits);
    let mut dec = Decoder::new(mono_info());
    let mut out = vec![0i16; 4096];
    let err = dec.decode_packet(&packet, &mut out).unwrap_err();
    assert_eq!(err.message(), "channel sample shift must not be greater than 16");
}

#[test]
fn partial_frame_longer_than_the_stream_frame_is_rejected() {
    let mut bits = Vec::new();
    push_bits(&mut bits, 0, 3); // SCE tag
    push_bits(&mut bits, 0, 4);
    push_bits(&mut bits, 0, 12);
    push_bits(&mut bits, 1, 1); // partial frame
    push_bits(&mut bits, 0, 2);
    push_bits(&mut bits, 0, 1);
    push_bits(&mut bits, 4097, 32); // more than the stream's frame length
    let packet = to_bytes(&bits);
    let mut dec = Decoder::new(mono_info());
    let mut out = vec![0i16; 4096];
    let err = dec.decode_packet(&packet, &mut out).unwrap_err();
    assert_eq!(err.message(), "channel contains more samples than expected");
}

#[test]
fn reserved_lpc_modes_are_rejected() {
    let mut bits = Vec::new();
    push_bits(&mut bits, 0, 3); // SCE tag
    push_bits(&mut bits, 0, 4);
    push_bits(&mut bits, 0, 12);
    push_bits(&mut bits, 1, 1);
    push_bits(&mut bits, 0, 2);
    push_bits(&mut bits, 0, 1); // compressed
    push_bits(&mut bits, 1, 32); // num_samples = 1
    push_bits(&mut bits, 0, 8);
    push_bits(&mut bits, 0, 8);
    push_bits(&mut bits, 5, 4); // lpc mode 5 is reserved
    push_bits(&mut bits, 4, 4);
    push_bits(&mut bits, 4, 3);
    push_bits(&mut bits, 0, 5);
    push_bits(&mut bits, 0b110, 3); // the residuals still precede the check
    push_bits(&mut bits, 7, 3);
    let packet = to_bytes(&bits);
    let mut dec = Decoder::new(mono_info());
    let mut out = vec![0i16; 4096];
    let err = dec.decode_packet(&packet, &mut out).unwrap_err();
    assert_eq!(err.message(), "invalid lpc mode");
}

/// Mode 15 runs first-order differential decoding before the predictor, so
/// with a zero-order predictor each residual is added to the previous
/// sample twice.
#[test]
fn lpc_mode_15_applies_differential_decoding() {
    let mut bits = Vec::new();
    push_bits(&mut bits, 0, 3); // SCE tag
    push_bits(&mut bits, 0, 4);
    push_bits(&mut bits, 0, 12);
    push_bits(&mut bits, 1, 1);
    push_bits(&mut bits, 0, 2);
    push_bits(&mut bits, 0, 1); // compressed
    push_bits(&mut bits, 2, 32); // num_samples = 2
    push_bits(&mut bits, 0, 8);
    push_bits(&mut bits, 0, 8);
    push_bits(&mut bits, 15, 4); // lpc mode 15
    push_bits(&mut bits, 4, 4);
    push_bits(&mut bits, 4, 3);
    push_bits(&mut bits, 0, 5);
    push_bits(&mut bits, 0b110, 3); // symbol 0: +1
    push_bits(&mut bits, 0b00, 2); // run of zeros: none, arms the modifier
    push_bits(&mut bits, 0b0, 1); // symbol 1: -1 after the modifier
    push_bits(&mut bits, 7, 3);
    let packet = to_bytes(&bits);
    let mut dec = Decoder::new(mono_info());
    let mut out = vec![0i16; 4096];
    let n = dec.decode_packet(&packet, &mut out).unwrap();
    assert_eq!(n, 2);
    // Residuals [1, -1]; the differential pass gives [1, 0]; the zero-order
    // predictor then adds the previous sample again: [1, 1].
    assert_eq!(&out[..2], &[1, 1]);
}

#[test]
fn lpc_coefficients_are_read_for_higher_orders() {
    let mut bits = Vec::new();
    push_bits(&mut bits, 0, 3); // SCE tag
    push_bits(&mut bits, 0, 4);
    push_bits(&mut bits, 0, 12);
    push_bits(&mut bits, 1, 1);
    push_bits(&mut bits, 0, 2);
    push_bits(&mut bits, 0, 1); // compressed
    push_bits(&mut bits, 2, 32); // num_samples = 2
    push_bits(&mut bits, 0, 8);
    push_bits(&mut bits, 0, 8);
    push_bits(&mut bits, 0, 4); // lpc mode
    push_bits(&mut bits, 4, 4); // lpc quant
    push_bits(&mut bits, 4, 3); // pb factor
    push_bits(&mut bits, 1, 5); // lpc order = 1
    push_bits(&mut bits, 0x0123, 16); // one coefficient
    push_bits(&mut bits, 0b110, 3); // symbol 0: +1
    push_bits(&mut bits, 0b00, 2); // run of zeros: none, arms the modifier
    push_bits(&mut bits, 0b0, 1); // symbol 1: -1 after the modifier
    push_bits(&mut bits, 7, 3);
    let packet = to_bytes(&bits);
    let mut dec = Decoder::new(mono_info());
    let mut out = vec![0i16; 4096];
    let n = dec.decode_packet(&packet, &mut out).unwrap();
    assert_eq!(n, 2);
    // With order 1 both samples are warm-up: the second is the sum of the
    // residuals.
    assert_eq!(&out[..2], &[1, 0]);
}
