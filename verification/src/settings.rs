//! Render and encoding settings: the video codec named in the configuration,
//! defaults of the configuration file, and the size of the frame buffers.
use vstd::prelude::*;
use crate::text::chars_of;

verus! {

broadcast use vstd::string::group_string_axioms;

/// Video codec of the rendered file.
#[derive(Debug, Clone, Copy, PartialEq, Eq, Structural)]
pub enum CodecType {
    H264,
    H264Nvenc,
    H264Amf,
    H264Qsv,
    H264Videotoolbox,
    PRORES,
}

/// Where the rendered video goes and how it is encoded.
#[derive(Debug)]
pub struct EncodingSettings {
    pub output_path: String,
    pub codec_type: CodecType,
}

/// Names what `str::to_uppercase` returns for a string: its characters mapped
/// to upper case by Unicode's case tables.
pub uninterp spec fn upper_case(s: Seq<char>) -> Seq<char>;

/// Calls `str::to_uppercase`; the result is named by [`upper_case`] of the
/// argument's characters, and nothing more is claimed of it.
#[verifier::external_body]
fn to_uppercase(s: &str) -> (r: String)
    ensures
        r@ == upper_case(s@),
{
    s.to_uppercase()
}

/// Whether two strings hold the same characters.
pub fn str_eq(a: &str, b: &str) -> (r: bool)
    ensures
        r == (a@ == b@),
{
    let av = chars_of(a);
    let bv = chars_of(b);
    if av.len() != bv.len() {
        return false;
    }
    let mut i: usize = 0;
    while i < av.len()
        invariant
            av@.len() == bv@.len(),
            av@ == a@,
            bv@ == b@,
            i <= av@.len(),
            forall|j: int| 0 <= j < i ==> av@[j] == bv@[j],
        decreases av@.len() - i,
    {
        if av[i] != bv[i] {
            assert(a@[i as int] != b@[i as int]);
            return false;
        }
        i = i + 1;
    }
    assert(av@ =~= bv@);
    true
}

/// The codec that an upper-case codec name stands for.
pub open spec fn codec_from_name(name: Seq<char>) -> Option<CodecType> {
    if name == "H264"@ {
        Some(CodecType::H264)
    } else if name == "H264NVENC"@ {
        Some(CodecType::H264Nvenc)
    } else if name == "H264AMF"@ {
        Some(CodecType::H264Amf)
    } else if name == "H264QSV"@ {
        Some(CodecType::H264Qsv)
    } else if name == "H264VIDEOTOOLBOX"@ {
        Some(CodecType::H264Videotoolbox)
    } else if name == "PRORES"@ {
        Some(CodecType::PRORES)
    } else {
        None
    }
}

/// The codec that an upper-case codec name stands for.
pub fn codec_type_from_name(name: &str) -> (c: Option<CodecType>)
    ensures
        c == codec_from_name(name@),
{
    if str_eq(name, "H264") {
        Some(CodecType::H264)
    } else if str_eq(name, "H264NVENC") {
        Some(CodecType::H264Nvenc)
    } else if str_eq(name, "H264AMF") {
        Some(CodecType::H264Amf)
    } else if str_eq(name, "H264QSV") {
        Some(CodecType::H264Qsv)
    } else if str_eq(name, "H264VIDEOTOOLBOX") {
        Some(CodecType::H264Videotoolbox)
    } else if str_eq(name, "PRORES") {
        Some(CodecType::PRORES)
    } else {
        None
    }
}

/// The codec that the configuration names, in any letter case.
pub fn parse_codec_type(value: &str) -> (c: Option<CodecType>)
    ensures
        c == codec_from_name(upper_case(value@)),
{
    let upper = to_uppercase(value);
    codec_type_from_name(upper.as_str())
}

/// The animation program that the runtime starts when the configuration
/// names none.
pub fn default_animation_binary() -> (s: String)
    ensures
        s@ == "cargo run --bin animation"@,
{
    "cargo run --bin animation".to_string()
}

/// How many frame buffers the renderer cycles through when the configuration
/// names no number.
pub fn default_buffer_count() -> (n: u32)
    ensures
        n == 3,
{
    3
}

/// Codecs that take frames in the NV12 (4:2:0) layout.
pub open spec fn is_nv12_codec(c: CodecType) -> bool {
    c != CodecType::PRORES
}

/// Whether frames for the codec are converted to NV12 before encoding.
pub fn uses_nv12(codec: CodecType) -> (b: bool)
    ensures
        b == is_nv12_codec(codec),
        b == (codec != CodecType::PRORES),
{
    match codec {
        CodecType::PRORES => false,
        _ => true,
    }
}

/// GPU readback needs rows whose byte length (4 bytes per RGBA pixel) is a
/// multiple of 256.
pub fn row_bytes_aligned(width: u32) -> (ok: bool)
    requires
        width * 4 <= u32::MAX,
    ensures
        ok == ((width * 4) % 256 == 0),
{
    (width * 4) % 256 == 0
}

/// Size in bytes of one frame buffer: 1.5 bytes per pixel for NV12, else 4.
pub open spec fn pixel_buffer_len(width: u32, height: u32, codec: CodecType) -> int {
    if is_nv12_codec(codec) {
        width * height * 3 / 2
    } else {
        width * height * 4
    }
}

/// Size in bytes of one frame buffer.
pub fn pixel_buffer_size(width: u32, height: u32, codec: CodecType) -> (n: usize)
    requires
        width * height * (if is_nv12_codec(codec) { 3int } else { 4int }) <= u32::MAX,
    ensures
        n == pixel_buffer_len(width, height, codec),
        codec != CodecType::PRORES ==> n == width * height * 3 / 2,
        codec == CodecType::PRORES ==> n == width * height * 4,
{
    let wh: u64 = width as u64 * height as u64;
    assert(wh == width * height) by (nonlinear_arith)
        requires
            wh == (width as u64) * (height as u64),
    ;
    if uses_nv12(codec) {
        let v = (width * height * 3 / 2) as usize;
        v
    } else {
        (width * height * 4) as usize
    }
}

/// Every H.264 codec, hardware-accelerated or not, takes NV12 frames of
/// 1.5 bytes per pixel; ProRes alone takes RGBA frames of 4 bytes per pixel.
pub proof fn lemma_h264_codecs_use_nv12(width: u32, height: u32)
    ensures
        forall|c: CodecType|
            #![trigger is_nv12_codec(c)]
            is_nv12_codec(c) <==> c != CodecType::PRORES,
        is_nv12_codec(CodecType::H264),
        is_nv12_codec(CodecType::H264Nvenc),
        is_nv12_codec(CodecType::H264Amf),
        is_nv12_codec(CodecType::H264Qsv),
        is_nv12_codec(CodecType::H264Videotoolbox),
        !is_nv12_codec(CodecType::PRORES),
        forall|c: CodecType|
            c != CodecType::PRORES ==> #[trigger] pixel_buffer_len(width, height, c) == width
                * height * 3 / 2,
        pixel_buffer_len(width, height, CodecType::PRORES) == width * height * 4,
{
}

} // verus!
