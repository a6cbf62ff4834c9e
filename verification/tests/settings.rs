use scal::settings::{
    codec_type_from_name, default_animation_binary, default_buffer_count, parse_codec_type,
    pixel_buffer_size, row_bytes_aligned, str_eq, uses_nv12, CodecType,
};

#[test]
fn codec_names_in_any_case() {
    assert_eq!(parse_codec_type("h264"), Some(CodecType::H264));
    assert_eq!(parse_codec_type("H264Nvenc"), Some(CodecType::H264Nvenc));
    assert_eq!(parse_codec_type("h264amf"), Some(CodecType::H264Amf));
    assert_eq!(parse_codec_type("H264QSV"), Some(CodecType::H264Qsv));
    assert_eq!(parse_codec_type("h264VideoToolbox"), Some(CodecType::H264Videotoolbox));
    assert_eq!(parse_codec_type("ProRes"), Some(CodecType::PRORES));
    assert_eq!(parse_codec_type("vp9"), None);
    assert_eq!(parse_codec_type(""), None);
}

#[test]
fn upper_case_names_only() {
    assert_eq!(codec_type_from_name("PRORES"), Some(CodecType::PRORES));
    assert_eq!(codec_type_from_name("prores"), None);
}

#[test]
fn string_equality() {
    assert!(str_eq("abc", "abc"));
    assert!(!str_eq("abc", "abd"));
    assert!(!str_eq("abc", "ab"));
    assert!(str_eq("", ""));
}

#[test]
fn defaults() {
    assert_eq!(default_animation_binary(), "cargo run --bin animation");
    assert_eq!(default_buffer_count(), 3);
}

#[test]
fn frame_buffer_sizes() {
    assert!(uses_nv12(CodecType::H264));
    assert!(!uses_nv12(CodecType::PRORES));
    assert_eq!(pixel_buffer_size(1920, 1080, CodecType::H264), 3_110_400);
    assert_eq!(pixel_buffer_size(1920, 1080, CodecType::PRORES), 8_294_400);
    assert_eq!(pixel_buffer_size(3, 1, CodecType::H264Qsv), 4);
}

#[test]
fn row_alignment() {
    assert!(row_bytes_aligned(1920));
    assert!(row_bytes_aligned(64));
    assert!(!row_bytes_aligned(1000));
    assert!(row_bytes_aligned(0));
}
