use alac::StreamInfo;

fn canonical_cookie() -> Vec<u8> {
    vec![
        0x00, 0x00, 0x10, 0x00, // frame_length = 4096
        0x00, // compatible_version
        0x10, // bit_depth = 16
        0x28, // pb = 40
        0x0A, // mb = 10
        0x0E, // kb = 14
        0x02, // num_channels = 2
        0x00, 0xFF, // max_run = 255
        0x00, 0x00, 0x00, 0x00, // max_frame_bytes
        0x00, 0x00, 0x00, 0x00, // avg_bit_rate
        0x00, 0x00, 0xAC, 0x44, // sample_rate = 44100
    ]
}

#[test]
fn test_from_cookie() {
    let cookie_bytes = canonical_cookie();
    let cookie = StreamInfo::from_cookie(&cookie_bytes).unwrap();

    let comparison = StreamInfo {
        frame_length: 4096,
        compatible_version: 0,
        bit_depth: 16,
        pb: 40,
        mb: 10,
        kb: 14,
        num_channels: 2,
        max_run: 255,
        max_frame_bytes: 0,
        avg_bit_rate: 0,
        sample_rate: 44100,
    };

    assert_eq!(cookie, comparison);
}

#[test]
fn magic_cookie_main() {
    let cookie_bytes = canonical_cookie();
    let cookie = StreamInfo::from_cookie(&cookie_bytes).unwrap();

    let comparison = StreamInfo {
        frame_length: 4096,
        compatible_version: 0,
        bit_depth: 16,
        pb: 40,
        mb: 10,
        kb: 14,
        num_channels: 2,
        max_run: 255,
        max_frame_bytes: 0,
        avg_bit_rate: 0,
        sample_rate: 44100,
    };

    assert_eq!(cookie, comparison);
}

#[test]
fn cookie_must_have_one_or_more_channels() {
    let params = "4096  0   16  40  10  14  0   255 0   0   44100";
    assert!(StreamInfo::from_sdp_format_parameters(params).is_err());
}

#[test]
fn cookie_must_have_nonzero_bit_depth() {
    let params = "4096  0   0  40  10  14  2   255 0   0   44100";
    assert!(StreamInfo::from_sdp_format_parameters(params).is_err());
}

#[test]
fn test_from_sdp_format_parameters() {
    let params = "4096  0   16  40  10  14  2   255 0   0   44100";
    let cookie = StreamInfo::from_sdp_format_parameters(params).unwrap();

    let comparison = StreamInfo {
        frame_length: 4096,
        compatible_version: 0,
        bit_depth: 16,
        pb: 40,
        mb: 10,
        kb: 14,
        num_channels: 2,
        max_run: 255,
        max_frame_bytes: 0,
        avg_bit_rate: 0,
        sample_rate: 44100,
    };

    assert_eq!(cookie, comparison);
}

#[test]
fn sdp_with_too_few_fields_fails() {
    let params = "4096 0 16 40 10 14 2 255 0 0";
    let err = StreamInfo::from_sdp_format_parameters(params).unwrap_err();
    assert_eq!(err.message(), "too few sdp format parameters");
}

#[test]
fn sdp_with_too_many_fields_fails() {
    let params = "4096 0 16 40 10 14 2 255 0 0 44100 7";
    let err = StreamInfo::from_sdp_format_parameters(params).unwrap_err();
    assert_eq!(err.message(), "too many sdp format parameters");
}

#[test]
fn sdp_with_a_non_decimal_field_fails() {
    let params = "4096 0 16 40 10 14 2 255 0 0 hz";
    let err = StreamInfo::from_sdp_format_parameters(params).unwrap_err();
    assert_eq!(err.message(), "invalid sdp format parameter");
}

#[test]
fn sdp_with_an_overflowing_field_fails() {
    let params = "4096 0 16 40 10 14 2 70000 0 0 44100";
    let err = StreamInfo::from_sdp_format_parameters(params).unwrap_err();
    assert_eq!(err.message(), "invalid sdp format parameter");
}

#[test]
fn cookie_shorter_than_24_bytes_is_rejected() {
    let cookie_bytes = canonical_cookie();
    for n in 0..24 {
        let err = StreamInfo::from_cookie(&cookie_bytes[..n]).unwrap_err();
        assert_eq!(err.message(), "magic cookie is not the correct length");
    }
}

#[test]
fn cookie_with_legacy_atoms_is_stripped() {
    let mut bytes = Vec::new();
    // A 12-byte format atom carrying the tag `frma` at offset 4.
    bytes.extend_from_slice(&[0, 0, 0, 12]);
    bytes.extend_from_slice(b"frma");
    bytes.extend_from_slice(&[0, 0, 0, 0]);
    // A 12-byte `alac` atom header.
    bytes.extend_from_slice(&[0, 0, 0, 36]);
    bytes.extend_from_slice(b"alac");
    bytes.extend_from_slice(&[0, 0, 0, 0]);
    bytes.extend_from_slice(&canonical_cookie());

    let cookie = StreamInfo::from_cookie(&bytes).unwrap();
    assert_eq!(cookie.sample_rate(), 44100);
    assert_eq!(cookie.bit_depth(), 16);
    assert_eq!(cookie.channels(), 2);
    assert_eq!(cookie.max_frames_per_packet(), 4096);
    assert_eq!(cookie.max_samples_per_packet(), 8192);
}

#[test]
fn cookie_round_trip() {
    let cookie_bytes = canonical_cookie();
    let cookie = StreamInfo::from_cookie(&cookie_bytes).unwrap();
    assert_eq!(cookie.to_cookie(), cookie_bytes);
}

#[test]
fn cookie_overflow_of_samples_per_packet_is_rejected() {
    let params = "4294967295 0 16 40 10 14 2 255 0 0 44100";
    let err = StreamInfo::from_sdp_format_parameters(params).unwrap_err();
    assert_eq!(err.message(), "overflow calculating max_samples_per_packet");
}

#[test]
fn sdp_with_zero_channels_names_the_channel_rule() {
    let params = "4096 0 16 40 10 14 0 255 0 0 44100";
    let err = StreamInfo::from_sdp_format_parameters(params).unwrap_err();
    assert_eq!(err.message(), "stream must contain one or more channels");
}

#[test]
fn sdp_with_zero_bit_depth_names_the_depth_rule() {
    let params = "4096 0 0 40 10 14 2 255 0 0 44100";
    let err = StreamInfo::from_sdp_format_parameters(params).unwrap_err();
    assert_eq!(err.message(), "bit depth must be one or greater");
}
