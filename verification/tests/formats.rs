//! Format-level tests: exact header bytes, maxval rescaling, 16-bit
//! handling, PFM scale handling, error classification, cancellation, and
//! the builder-style request APIs.

use zenpnm::bmp;
use zenpnm::bmp::{BmpDecoder, BmpEncoder};
use zenpnm::pnm::decode::PnmDecoder;
use zenpnm::pnm::encode::PnmEncoder;
use zenpnm::pnm::PnmFormat;
use zenpnm::{
    decode, decode_with_limits, encode_bmp, encode_pam, encode_pfm, encode_pgm, encode_ppm,
    BitmapFormat, DecodeRequest, EncodeRequest, Limits, PixelLayout, PnmError, Stopped,
    Unstoppable,
};

// ── Exact encodings ──────────────────────────────────────────────────

#[test]
fn ppm_exact_bytes_and_example_roundtrip() {
    // The canonical example: four RGB pixels, 2 by 2.
    let pixels = vec![255, 0, 0, 0, 255, 0, 0, 0, 255, 128, 128, 128];
    let encoded = encode_ppm(&pixels, 2, 2, PixelLayout::Rgb8, &Unstoppable).unwrap();
    let mut expected = b"P6\n2 2\n255\n".to_vec();
    expected.extend_from_slice(&pixels);
    assert_eq!(encoded, expected);
    let decoded = decode(&encoded, &Unstoppable).unwrap();
    assert_eq!(decoded.pixels(), &pixels[..]);
    assert_eq!((decoded.width, decoded.height), (2, 2));
    assert_eq!(decoded.format, BitmapFormat::Ppm);
}

#[test]
fn pam_exact_header() {
    let pixels = vec![7u8, 8];
    let encoded = encode_pam(&pixels, 2, 1, PixelLayout::Gray8, &Unstoppable).unwrap();
    let mut expected =
        b"P7\nWIDTH 2\nHEIGHT 1\nDEPTH 1\nMAXVAL 255\nTUPLTYPE GRAYSCALE\nENDHDR\n".to_vec();
    expected.extend_from_slice(&pixels);
    assert_eq!(encoded, expected);
}

#[test]
fn pfm_exact_header_negative_unit_scale() {
    let pixels = 1.5f32.to_le_bytes().to_vec();
    let encoded = encode_pfm(&pixels, 1, 1, PixelLayout::GrayF32, &Unstoppable).unwrap();
    let mut expected = b"Pf\n1 1\n-1.0\n".to_vec();
    expected.extend_from_slice(&pixels);
    assert_eq!(encoded, expected);
}

// ── Maxval rescaling and 16-bit samples ──────────────────────────────

#[test]
fn pgm_maxval_rescale() {
    // round(50 * 255 / 100) = 128, round(100 * 255 / 100) = 255
    let data = b"P5\n2 1\n100\n\x32\x64";
    let decoded = decode(data, &Unstoppable).unwrap();
    assert_eq!(decoded.layout, PixelLayout::Gray8);
    assert_eq!(decoded.pixels(), &[128, 255]);
    assert!(!decoded.is_borrowed(), "rescaling must allocate");
}

#[test]
fn pgm_sample_above_maxval_saturates() {
    // A sample above the declared maxval clamps to 255.
    let data = b"P5\n1 1\n10\n\xff";
    let decoded = decode(data, &Unstoppable).unwrap();
    assert_eq!(decoded.pixels(), &[255]);
}

#[test]
fn pgm_16bit_keeps_precision() {
    // maxval over 255 selects Gray16; the stored big-endian pairs are kept.
    let data = b"P5\n2 1\n65535\n\x12\x34\xab\xcd";
    let decoded = decode(data, &Unstoppable).unwrap();
    assert_eq!(decoded.layout, PixelLayout::Gray16);
    assert_eq!(decoded.pixels(), &[0x12, 0x34, 0xab, 0xcd]);
    assert!(!decoded.is_borrowed());
}

#[test]
fn ppm_16bit_downscales() {
    // 65535 -> 255, 0 -> 0, 32768 -> 128
    let data = b"P6\n1 1\n65535\n\xff\xff\x00\x00\x80\x00";
    let decoded = decode(data, &Unstoppable).unwrap();
    assert_eq!(decoded.layout, PixelLayout::Rgb8);
    assert_eq!(decoded.pixels(), &[255, 0, 128]);
}

#[test]
fn pam_gray16_roundtrip() {
    let pixels = vec![0x01, 0x02, 0xfe, 0xff];
    let encoded = encode_pam(&pixels, 2, 1, PixelLayout::Gray16, &Unstoppable).unwrap();
    let decoded = decode(&encoded, &Unstoppable).unwrap();
    assert_eq!(decoded.layout, PixelLayout::Gray16);
    assert_eq!(decoded.pixels(), &pixels[..]);
    assert!(!decoded.is_borrowed(), "16-bit samples are copied, not borrowed");
}

// ── Header grammar details ───────────────────────────────────────────

#[test]
fn pgm_comments_in_header() {
    let data = b"P5 # a comment\n#another\n2 1\n255\n\x05\x06";
    let decoded = decode(data, &Unstoppable).unwrap();
    assert_eq!((decoded.width, decoded.height), (2, 1));
    assert_eq!(decoded.pixels(), &[5, 6]);
}

#[test]
fn pam_ignores_unknown_lines_and_comments() {
    let data = b"P7\n#comment\nWIDTH 2\nSOMETHING else\nHEIGHT 1\nDEPTH 1\nMAXVAL 255\nTUPLTYPE GRAYSCALE\nENDHDR\n\x09\x0a";
    let decoded = decode(data, &Unstoppable).unwrap();
    assert_eq!((decoded.width, decoded.height), (2, 1));
    assert_eq!(decoded.pixels(), &[9, 10]);
}

#[test]
fn pfm_positive_scale_is_big_endian() {
    // scale 1.0 (positive): samples are stored big-endian and normalized
    // to little-endian on decode.
    let mut data = b"PF\n1 1\n1.0\n".to_vec();
    for f in [1.0f32, 0.5, -2.0] {
        data.extend_from_slice(&f.to_be_bytes());
    }
    let decoded = decode(&data, &Unstoppable).unwrap();
    assert_eq!(decoded.layout, PixelLayout::RgbF32);
    let out: Vec<f32> = decoded
        .pixels()
        .chunks_exact(4)
        .map(|c| f32::from_le_bytes([c[0], c[1], c[2], c[3]]))
        .collect();
    assert_eq!(out, vec![1.0, 0.5, -2.0]);
}

#[test]
fn pfm_unit_scale_spellings() {
    for scale in ["-1.0", "-1", "-1.000", "-1e0", "-0.1e1", "-10e-1"] {
        let mut data = format!("Pf\n1 1\n{scale}\n").into_bytes();
        data.extend_from_slice(&3.25f32.to_le_bytes());
        let decoded = decode(&data, &Unstoppable).unwrap();
        let v = f32::from_le_bytes(decoded.pixels()[0..4].try_into().unwrap());
        assert_eq!(v, 3.25, "scale spelling {scale}");
    }
}

#[test]
fn pfm_non_unit_scale_is_unsupported() {
    let mut data = b"Pf\n1 1\n2.0\n".to_vec();
    data.extend_from_slice(&1.0f32.to_le_bytes());
    match decode(&data, &Unstoppable) {
        Err(PnmError::UnsupportedVariant(_)) => {}
        other => panic!("expected UnsupportedVariant, got {other:?}"),
    }
}

#[test]
fn pfm_bad_scale_is_invalid_header() {
    let data = b"Pf\n1 1\nabc\n\x00\x00\x00\x00";
    match decode(data, &Unstoppable) {
        Err(PnmError::InvalidHeader(_)) => {}
        other => panic!("expected InvalidHeader, got {other:?}"),
    }
}

// ── Layout conversions on encode ─────────────────────────────────────

#[test]
fn pgm_from_rgb_uses_luma() {
    // luma(255, 0, 0) = round(299 * 255 / 1000) = 76
    let pixels = vec![255, 0, 0];
    let encoded = encode_pgm(&pixels, 1, 1, PixelLayout::Rgb8, &Unstoppable).unwrap();
    let decoded = decode(&encoded, &Unstoppable).unwrap();
    assert_eq!(decoded.pixels(), &[76]);
}

#[test]
fn ppm_from_bgr_swizzles() {
    let pixels = vec![10, 20, 30]; // B G R
    let encoded = encode_ppm(&pixels, 1, 1, PixelLayout::Bgr8, &Unstoppable).unwrap();
    let decoded = decode(&encoded, &Unstoppable).unwrap();
    assert_eq!(decoded.pixels(), &[30, 20, 10]);
}

#[test]
fn ppm_from_rgba_drops_alpha() {
    let pixels = vec![1, 2, 3, 200, 4, 5, 6, 100];
    let encoded = encode_ppm(&pixels, 2, 1, PixelLayout::Rgba8, &Unstoppable).unwrap();
    let decoded = decode(&encoded, &Unstoppable).unwrap();
    assert_eq!(decoded.pixels(), &[1, 2, 3, 4, 5, 6]);
}

#[test]
fn ppm_from_gray_broadcasts() {
    let pixels = vec![9, 200];
    let encoded = encode_ppm(&pixels, 2, 1, PixelLayout::Gray8, &Unstoppable).unwrap();
    let decoded = decode(&encoded, &Unstoppable).unwrap();
    assert_eq!(decoded.pixels(), &[9, 9, 9, 200, 200, 200]);
}

#[test]
fn bmp_from_gray_broadcasts() {
    let pixels = vec![50, 60];
    let encoded = encode_bmp(&pixels, 2, 1, PixelLayout::Gray8, &Unstoppable).unwrap();
    let decoded = bmp::decode_bmp(&encoded, &Unstoppable).unwrap();
    assert_eq!(decoded.pixels(), &[50, 50, 50, 60, 60, 60]);
}

#[test]
fn bmp_top_down_rows() {
    // A hand-built top-down BMP (negative height) decodes without a flip.
    let pixels = vec![1, 2, 3, 4, 5, 6];
    let encoded = encode_bmp(&pixels, 1, 2, PixelLayout::Rgb8, &Unstoppable).unwrap();
    let mut data = encoded.clone();
    // height -2 at offset 22, and swap the stored rows to compensate
    data[22..26].copy_from_slice(&(-2i32).to_le_bytes());
    let row0 = encoded[54..58].to_vec();
    let row1 = encoded[58..62].to_vec();
    data[54..58].copy_from_slice(&row1);
    data[58..62].copy_from_slice(&row0);
    let decoded = bmp::decode_bmp(&data, &Unstoppable).unwrap();
    assert_eq!(decoded.pixels(), &pixels[..]);
    assert_eq!(decoded.height, 2);
}

// ── Error classification ─────────────────────────────────────────────

#[test]
fn unrecognized_magic() {
    match decode(b"XY junk", &Unstoppable) {
        Err(PnmError::UnrecognizedFormat) => {}
        other => panic!("expected UnrecognizedFormat, got {other:?}"),
    }
    match bmp::decode_bmp(&[0u8; 60], &Unstoppable) {
        Err(PnmError::UnrecognizedFormat) => {}
        other => panic!("expected UnrecognizedFormat, got {other:?}"),
    }
}

#[test]
fn truncated_inputs() {
    match decode(b"P6", &Unstoppable) {
        Err(PnmError::UnexpectedEof) => {}
        other => panic!("expected UnexpectedEof, got {other:?}"),
    }
    match decode(b"P6\n2 2\n255\n\x01\x02", &Unstoppable) {
        Err(PnmError::UnexpectedEof) => {}
        other => panic!("expected UnexpectedEof, got {other:?}"),
    }
    match bmp::decode_bmp(b"BM", &Unstoppable) {
        Err(PnmError::UnexpectedEof) => {}
        other => panic!("expected UnexpectedEof, got {other:?}"),
    }
}

#[test]
fn invalid_headers() {
    // maxval zero
    match decode(b"P5\n1 1\n0\n\x00", &Unstoppable) {
        Err(PnmError::InvalidHeader(_)) => {}
        other => panic!("expected InvalidHeader, got {other:?}"),
    }
    // maxval too large
    match decode(b"P5\n1 1\n65536\n\x00", &Unstoppable) {
        Err(PnmError::InvalidHeader(_)) => {}
        other => panic!("expected InvalidHeader, got {other:?}"),
    }
    // zero width
    match decode(b"P5\n0 1\n255\n\x00", &Unstoppable) {
        Err(PnmError::InvalidHeader(_)) => {}
        other => panic!("expected InvalidHeader, got {other:?}"),
    }
    // PAM missing a mandatory key
    match decode(b"P7\nWIDTH 1\nHEIGHT 1\nMAXVAL 255\nENDHDR\n\x00", &Unstoppable) {
        Err(PnmError::InvalidHeader(_)) => {}
        other => panic!("expected InvalidHeader, got {other:?}"),
    }
    // PAM without ENDHDR
    match decode(b"P7\nWIDTH 1\nHEIGHT 1\nDEPTH 1\nMAXVAL 255\n", &Unstoppable) {
        Err(PnmError::InvalidHeader(_)) => {}
        other => panic!("expected InvalidHeader, got {other:?}"),
    }
}

#[test]
fn unsupported_variants() {
    // PAM depth outside 1/3/4
    match decode(b"P7\nWIDTH 1\nHEIGHT 1\nDEPTH 2\nMAXVAL 255\nENDHDR\n\x00\x00", &Unstoppable) {
        Err(PnmError::UnsupportedVariant(_)) => {}
        other => panic!("expected UnsupportedVariant, got {other:?}"),
    }
    // 8-bit BMP
    let mut data = encode_bmp(&[0u8; 3], 1, 1, PixelLayout::Rgb8, &Unstoppable).unwrap();
    data[28] = 8;
    match bmp::decode_bmp(&data, &Unstoppable) {
        Err(PnmError::UnsupportedVariant(_)) => {}
        other => panic!("expected UnsupportedVariant, got {other:?}"),
    }
    // compressed BMP
    let mut data = encode_bmp(&[0u8; 3], 1, 1, PixelLayout::Rgb8, &Unstoppable).unwrap();
    data[30] = 1;
    match bmp::decode_bmp(&data, &Unstoppable) {
        Err(PnmError::UnsupportedVariant(_)) => {}
        other => panic!("expected UnsupportedVariant, got {other:?}"),
    }
    // PGM cannot encode float layouts
    match encode_pgm(&[0u8; 4], 1, 1, PixelLayout::GrayF32, &Unstoppable) {
        Err(PnmError::UnsupportedVariant(_)) => {}
        other => panic!("expected UnsupportedVariant, got {other:?}"),
    }
}

#[test]
fn dimensions_too_large() {
    match decode(b"P6\n4294967295 4294967295\n255\n ", &Unstoppable) {
        Err(PnmError::DimensionsTooLarge { width, height }) => {
            assert_eq!(width, 4294967295);
            assert_eq!(height, 4294967295);
        }
        other => panic!("expected DimensionsTooLarge, got {other:?}"),
    }
}

#[test]
fn buffer_too_small_on_encode() {
    match encode_ppm(&[0u8; 5], 2, 1, PixelLayout::Rgb8, &Unstoppable) {
        Err(PnmError::BufferTooSmall { needed, actual }) => {
            assert_eq!(needed, 6);
            assert_eq!(actual, 5);
        }
        other => panic!("expected BufferTooSmall, got {other:?}"),
    }
}

#[test]
fn cancellation_is_observed() {
    let ppm = encode_ppm(&[0u8; 3], 1, 1, PixelLayout::Rgb8, &Unstoppable).unwrap();
    match decode(&ppm, &Stopped) {
        Err(PnmError::Cancelled) => {}
        other => panic!("expected Cancelled, got {other:?}"),
    }
    match encode_ppm(&[0u8; 3], 1, 1, PixelLayout::Rgb8, &Stopped) {
        Err(PnmError::Cancelled) => {}
        other => panic!("expected Cancelled, got {other:?}"),
    }
    match bmp::decode_bmp(
        &encode_bmp(&[0u8; 3], 1, 1, PixelLayout::Rgb8, &Unstoppable).unwrap(),
        &Stopped,
    ) {
        Err(PnmError::Cancelled) => {}
        other => panic!("expected Cancelled, got {other:?}"),
    }
}

// ── Limits per format ────────────────────────────────────────────────

#[test]
fn limits_reject_every_format() {
    let width_cap = Limits { max_width: Some(1), ..Default::default() };
    let mem_cap = Limits { max_memory_bytes: Some(1), ..Default::default() };

    let ppm = encode_ppm(&[0u8; 12], 2, 2, PixelLayout::Rgb8, &Unstoppable).unwrap();
    let pgm = encode_pgm(&[0u8; 4], 2, 2, PixelLayout::Gray8, &Unstoppable).unwrap();
    let pam = encode_pam(&[0u8; 16], 2, 2, PixelLayout::Rgba8, &Unstoppable).unwrap();
    let pfm = encode_pfm(&[0u8; 16], 2, 2, PixelLayout::GrayF32, &Unstoppable).unwrap();
    let bmp_data = encode_bmp(&[0u8; 12], 2, 2, PixelLayout::Rgb8, &Unstoppable).unwrap();

    for data in [&ppm, &pgm, &pam, &pfm] {
        match decode_with_limits(data, &width_cap, &Unstoppable) {
            Err(PnmError::LimitExceeded(_)) => {}
            other => panic!("expected LimitExceeded, got {other:?}"),
        }
        match decode_with_limits(data, &mem_cap, &Unstoppable) {
            Err(PnmError::LimitExceeded(_)) => {}
            other => panic!("expected LimitExceeded, got {other:?}"),
        }
    }
    match zenpnm::decode_bmp_with_limits(&bmp_data, &width_cap, &Unstoppable) {
        Err(PnmError::LimitExceeded(_)) => {}
        other => panic!("expected LimitExceeded, got {other:?}"),
    }
    match zenpnm::decode_bmp_with_limits(&bmp_data, &mem_cap, &Unstoppable) {
        Err(PnmError::LimitExceeded(_)) => {}
        other => panic!("expected LimitExceeded, got {other:?}"),
    }
}

// ── Builder-style APIs ───────────────────────────────────────────────

#[test]
fn decode_request_api() {
    let ppm = encode_ppm(&[1u8, 2, 3], 1, 1, PixelLayout::Rgb8, &Unstoppable).unwrap();
    let out = DecodeRequest::new(&ppm).decode(&Unstoppable).unwrap();
    assert_eq!(out.pixels(), &[1, 2, 3]);

    let limits = Limits { max_width: Some(0), ..Default::default() };
    let res = DecodeRequest::new(&ppm).with_limits(&limits).decode(&Unstoppable);
    assert!(matches!(res, Err(PnmError::LimitExceeded(_))));

    // the request API does not auto-detect BMP either
    let bmp_data = encode_bmp(&[0u8; 3], 1, 1, PixelLayout::Rgb8, &Unstoppable).unwrap();
    assert!(matches!(
        DecodeRequest::new(&bmp_data).decode(&Unstoppable),
        Err(PnmError::UnrecognizedFormat)
    ));
}

#[test]
fn encode_request_api() {
    let pixels = vec![9u8, 8, 7];
    let via_request = EncodeRequest::pnm(PnmFormat::Ppm)
        .encode(&pixels, 1, 1, PixelLayout::Rgb8, &Unstoppable)
        .unwrap();
    let direct = encode_ppm(&pixels, 1, 1, PixelLayout::Rgb8, &Unstoppable).unwrap();
    assert_eq!(via_request, direct);

    let via_bmp = EncodeRequest::bmp()
        .encode(&pixels, 1, 1, PixelLayout::Rgb8, &Unstoppable)
        .unwrap();
    let direct_bmp = encode_bmp(&pixels, 1, 1, PixelLayout::Rgb8, &Unstoppable).unwrap();
    assert_eq!(via_bmp, direct_bmp);

    let rgba = vec![9u8, 8, 7, 6];
    let via_bmp_alpha = EncodeRequest::bmp_with_alpha()
        .encode(&rgba, 1, 1, PixelLayout::Rgba8, &Unstoppable)
        .unwrap();
    let decoded = bmp::decode_bmp(&via_bmp_alpha, &Unstoppable).unwrap();
    assert_eq!(decoded.pixels(), &rgba[..]);
}

#[test]
fn decoder_encoder_structs() {
    let pixels = vec![11u8, 22, 33];
    let encoded = PnmEncoder::new(PnmFormat::Ppm)
        .encode(&pixels, 1, 1, PixelLayout::Rgb8)
        .unwrap();
    let dec = PnmDecoder::new(&encoded);
    let (w, h, fmt, layout) = dec.info().unwrap();
    assert_eq!((w, h), (1, 1));
    assert_eq!(fmt, PnmFormat::Ppm);
    assert_eq!(layout, PixelLayout::Rgb8);
    let out = dec.decode().unwrap();
    assert_eq!(out.pixels(), &pixels[..]);

    let bmp_bytes = BmpEncoder::new()
        .encode(&pixels, 1, 1, PixelLayout::Rgb8)
        .unwrap();
    let bdec = BmpDecoder::new(&bmp_bytes);
    let (bw, bh, blayout) = bdec.info().unwrap();
    assert_eq!((bw, bh), (1, 1));
    assert_eq!(blayout, PixelLayout::Rgb8);
    let bout = bdec.decode().unwrap();
    assert_eq!(bout.pixels(), &pixels[..]);

    let rgba = vec![1u8, 2, 3, 4];
    let bmp32 = BmpEncoder::new()
        .with_alpha(true)
        .encode(&rgba, 1, 1, PixelLayout::Rgba8)
        .unwrap();
    let out32 = BmpDecoder::new(&bmp32).decode().unwrap();
    assert_eq!(out32.layout, PixelLayout::Rgba8);
    assert_eq!(out32.pixels(), &rgba[..]);
}

#[test]
fn pixel_layout_metadata() {
    assert_eq!(PixelLayout::Gray8.bytes_per_pixel(), 1);
    assert_eq!(PixelLayout::Gray16.bytes_per_pixel(), 2);
    assert_eq!(PixelLayout::Rgb8.bytes_per_pixel(), 3);
    assert_eq!(PixelLayout::Rgba8.bytes_per_pixel(), 4);
    assert_eq!(PixelLayout::Bgr8.bytes_per_pixel(), 3);
    assert_eq!(PixelLayout::Bgra8.bytes_per_pixel(), 4);
    assert_eq!(PixelLayout::GrayF32.bytes_per_pixel(), 4);
    assert_eq!(PixelLayout::RgbF32.bytes_per_pixel(), 12);
    assert_eq!(PixelLayout::Gray8.channels(), 1);
    assert_eq!(PixelLayout::RgbF32.channels(), 3);
    assert_eq!(PixelLayout::Bgra8.channels(), 4);
}
