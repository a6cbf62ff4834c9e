//! Colors as the animation description writes them: hexadecimal strings and
//! packed `0xAARRGGBB` integers, decoded to 8-bit RGBA components.
use vstd::prelude::*;
use vstd::string::StringSliceAdditionalSpecFns;

verus! {

/// An RGBA color with 8-bit channels. A channel value `v` stands for the
/// intensity `v / 255`.
#[derive(Clone, Copy, Debug, PartialEq, Eq, Structural)]
pub struct Rgba8 {
    pub r: u8,
    pub g: u8,
    pub b: u8,
    pub a: u8,
}

/// Whether the byte is an ASCII hexadecimal digit (`0-9`, `a-f`, `A-F`).
pub open spec fn is_hex_digit(c: u8) -> bool {
    (48 <= c <= 57) || (97 <= c <= 102) || (65 <= c <= 70)
}

/// Numeric value of an ASCII hexadecimal digit.
pub open spec fn hex_digit_value(c: u8) -> int {
    if 48 <= c <= 57 {
        c - 48
    } else if 97 <= c <= 102 {
        c - 97 + 10
    } else {
        c - 65 + 10
    }
}

/// All bytes of the sequence are hexadecimal digits.
pub open spec fn all_hex_digits(d: Seq<u8>) -> bool {
    forall|i: int| 0 <= i < d.len() ==> #[trigger] is_hex_digit(d[i])
}

/// The number that a sequence of hexadecimal digits denotes (most significant first).
pub open spec fn hex_value(d: Seq<u8>) -> nat
    decreases d.len(),
{
    if d.len() == 0 {
        0
    } else {
        (hex_value(d.drop_last()) * 16 + hex_digit_value(d.last())) as nat
    }
}

/// The bytes form an unsigned 8-bit number in radix 16: at least one
/// hexadecimal digit, and nothing else, with a value of at most 255.
pub open spec fn hex_byte_valid(b: Seq<u8>) -> bool {
    &&& b.len() > 0
    &&& all_hex_digits(b)
    &&& hex_value(b) <= 255
}

/// The value of bytes that satisfy [`hex_byte_valid`].
pub open spec fn hex_byte_value(b: Seq<u8>) -> nat {
    hex_value(b)
}

/// The bytes are a color in one of the forms `#RGB`, `#RGBA`, `#RRGGBB`, `#RRGGBBAA`.
pub open spec fn hex_color_valid(b: Seq<u8>) -> bool {
    &&& (b.len() == 4 || b.len() == 5 || b.len() == 7 || b.len() == 9)
    &&& b[0] == 35
    &&& (b.len() == 4 || b.len() == 5) ==> (forall|i: int|
        1 <= i < b.len() ==> #[trigger] is_hex_digit(b[i]))
    &&& (b.len() == 7 || b.len() == 9) ==> {
        &&& hex_byte_valid(b.subrange(1, 3))
        &&& hex_byte_valid(b.subrange(3, 5))
        &&& hex_byte_valid(b.subrange(5, 7))
        &&& b.len() == 9 ==> hex_byte_valid(b.subrange(7, 9))
    }
}

/// The color that a string accepted by [`hex_color_valid`] denotes. In the
/// short forms each digit `d` stands for the channel value `17 * d`; a missing
/// alpha channel is opaque (255).
pub open spec fn hex_color_value(b: Seq<u8>) -> Rgba8 {
    if b.len() == 4 {
        Rgba8 {
            r: (hex_digit_value(b[1]) * 17) as u8,
            g: (hex_digit_value(b[2]) * 17) as u8,
            b: (hex_digit_value(b[3]) * 17) as u8,
            a: 255,
        }
    } else if b.len() == 5 {
        Rgba8 {
            r: (hex_digit_value(b[1]) * 17) as u8,
            g: (hex_digit_value(b[2]) * 17) as u8,
            b: (hex_digit_value(b[3]) * 17) as u8,
            a: (hex_digit_value(b[4]) * 17) as u8,
        }
    } else if b.len() == 7 {
        Rgba8 {
            r: hex_byte_value(b.subrange(1, 3)) as u8,
            g: hex_byte_value(b.subrange(3, 5)) as u8,
            b: hex_byte_value(b.subrange(5, 7)) as u8,
            a: 255,
        }
    } else {
        Rgba8 {
            r: hex_byte_value(b.subrange(1, 3)) as u8,
            g: hex_byte_value(b.subrange(3, 5)) as u8,
            b: hex_byte_value(b.subrange(5, 7)) as u8,
            a: hex_byte_value(b.subrange(7, 9)) as u8,
        }
    }
}

/// A prefix of a digit sequence never denotes more than the whole sequence.
proof fn lemma_hex_value_prefix_le(d: Seq<u8>, k: int)
    requires
        0 <= k <= d.len(),
        all_hex_digits(d),
    ensures
        hex_value(d.take(k)) <= hex_value(d),
    decreases d.len() - k,
{
    if k == d.len() {
        assert(d.take(k) =~= d);
    } else {
        assert(is_hex_digit(d[d.len() - 1]));
        lemma_hex_value_prefix_le(d.drop_last(), k);
        assert(d.drop_last().take(k) =~= d.take(k));
    }
}

/// Value of one hexadecimal digit.
pub fn hex_digit(c: u8) -> (d: u8)
    requires
        is_hex_digit(c),
    ensures
        d == hex_digit_value(c),
        d < 16,
{
    if 48u8 <= c && c <= 57u8 {
        c - 48u8
    } else if 97u8 <= c && c <= 102u8 {
        c - 97u8 + 10
    } else {
        c - 65u8 + 10
    }
}

/// Whether `b[lo..hi]` holds an unsigned 8-bit radix-16 number.
fn hex_byte_range_valid(b: &[u8], lo: usize, hi: usize) -> (ok: bool)
    requires
        lo <= hi <= b@.len(),
    ensures
        ok == hex_byte_valid(b@.subrange(lo as int, hi as int)),
{
    let start: usize = lo;
    let ghost d = b@.subrange(start as int, hi as int);
    if start == hi {
        return false;
    }
    let mut acc: u32 = 0;
    let mut i: usize = start;
    while i < hi
        invariant
            lo <= start <= i <= hi <= b@.len(),
            d == b@.subrange(start as int, hi as int),
            start == lo,
            forall|j: int| 0 <= j < i - start ==> #[trigger] is_hex_digit(d[j]),
            acc == hex_value(d.take(i - start)),
            acc <= 255,
        decreases hi - i,
    {
        let c = b[i];
        if !(48u8 <= c && c <= 57u8) && !(97u8 <= c && c <= 102u8) && !(65u8 <= c && c <= 70u8) {
            assert(d[i - start] == c);
            assert(!is_hex_digit(d[i - start]));
            return false;
        }
        let v = hex_digit(c);
        assert(d.take(i - start + 1).drop_last() =~= d.take(i - start));
        assert(d.take(i - start + 1).last() == c);
        let next = acc * 16 + v as u32;
        if next > 255 {
            proof {
                if all_hex_digits(d) {
                    lemma_hex_value_prefix_le(d, i - start + 1);
                }
            }
            return false;
        }
        acc = next;
        i = i + 1;
    }
    assert(d.take(hi - start) =~= d);
    true
}

/// Value of the radix-16 number in `b[lo..hi]`.
fn hex_byte_range(b: &[u8], lo: usize, hi: usize) -> (v: u8)
    requires
        lo <= hi <= b@.len(),
        hex_byte_valid(b@.subrange(lo as int, hi as int)),
    ensures
        v == hex_byte_value(b@.subrange(lo as int, hi as int)),
{
    let start: usize = lo;
    let ghost d = b@.subrange(start as int, hi as int);
    let mut acc: u32 = 0;
    let mut i: usize = start;
    while i < hi
        invariant
            lo <= start <= i <= hi <= b@.len(),
            d == b@.subrange(start as int, hi as int),
            all_hex_digits(d),
            hex_value(d) <= 255,
            acc == hex_value(d.take(i - start)),
        decreases hi - i,
    {
        assert(is_hex_digit(d[i - start]));
        let v = hex_digit(b[i]);
        assert(d.take(i - start + 1).drop_last() =~= d.take(i - start));
        assert(d.take(i - start + 1).last() == b[i as int]);
        proof {
            lemma_hex_value_prefix_le(d, i - start + 1);
        }
        acc = acc * 16 + v as u32;
        i = i + 1;
    }
    assert(d.take(hi - start) =~= d);
    acc as u8
}

/// Parse an unsigned 8-bit number written in hexadecimal digits.
pub fn hex_byte(s: &str) -> (v: u8)
    requires
        hex_byte_valid(s.spec_bytes()),
    ensures
        v == hex_byte_value(s.spec_bytes()),
{
    let b = s.as_bytes();
    assert(b@.subrange(0, b@.len() as int) =~= b@);
    hex_byte_range(b, 0, b.len())
}

/// Whether [`hex`] accepts the string.
pub fn is_valid_hex_color(value: &str) -> (ok: bool)
    ensures
        ok == hex_color_valid(value.spec_bytes()),
{
    let b = value.as_bytes();
    let n = b.len();
    if !(n == 4 || n == 5 || n == 7 || n == 9) || b[0] != 35u8 {
        return false;
    }
    if n == 4 || n == 5 {
        let mut i: usize = 1;
        while i < n
            invariant
                n == b@.len(),
                b@ == value.spec_bytes(),
                n == 4 || n == 5,
                1 <= i <= n,
                forall|j: int| 1 <= j < i ==> #[trigger] is_hex_digit(b@[j]),
            decreases n - i,
        {
            let c = b[i];
            if !(48u8 <= c && c <= 57u8) && !(97u8 <= c && c <= 102u8) && !(65u8 <= c && c
                <= 70u8) {
                assert(!is_hex_digit(b@[i as int]));
                return false;
            }
            i = i + 1;
        }
        true
    } else {
        hex_byte_range_valid(b, 1, 3) && hex_byte_range_valid(b, 3, 5) && hex_byte_range_valid(
            b,
            5,
            7,
        ) && (n == 7 || hex_byte_range_valid(b, 7, 9))
    }
}

/// Parse a hex color string (`#RGB`, `#RGBA`, `#RRGGBB`, `#RRGGBBAA`).
pub fn hex(value: &str) -> (c: Rgba8)
    requires
        hex_color_valid(value.spec_bytes()),
    ensures
        c == hex_color_value(value.spec_bytes()),
{
    let bytes = value.as_bytes();
    let n = bytes.len();
    if n == 4 {
        assert(is_hex_digit(bytes@[1]) && is_hex_digit(bytes@[2]) && is_hex_digit(bytes@[3]));
        let r = hex_digit(bytes[1]) * 17;
        let g = hex_digit(bytes[2]) * 17;
        let b = hex_digit(bytes[3]) * 17;
        Rgba8 { r, g, b, a: 255 }
    } else if n == 5 {
        assert(is_hex_digit(bytes@[1]) && is_hex_digit(bytes@[2]) && is_hex_digit(bytes@[3])
            && is_hex_digit(bytes@[4]));
        let r = hex_digit(bytes[1]) * 17;
        let g = hex_digit(bytes[2]) * 17;
        let b = hex_digit(bytes[3]) * 17;
        let a = hex_digit(bytes[4]) * 17;
        Rgba8 { r, g, b, a }
    } else if n == 7 {
        let r = hex_byte_range(bytes, 1, 3);
        let g = hex_byte_range(bytes, 3, 5);
        let b = hex_byte_range(bytes, 5, 7);
        Rgba8 { r, g, b, a: 255 }
    } else {
        let r = hex_byte_range(bytes, 1, 3);
        let g = hex_byte_range(bytes, 3, 5);
        let b = hex_byte_range(bytes, 5, 7);
        let a = hex_byte_range(bytes, 7, 9);
        Rgba8 { r, g, b, a }
    }
}

/// The color that a packed `0xAARRGGBB` value denotes; an alpha byte of zero
/// means opaque.
pub open spec fn packed_color(value: u32) -> Rgba8 {
    Rgba8 {
        r: ((value / 0x10000) % 0x100) as u8,
        g: ((value / 0x100) % 0x100) as u8,
        b: (value % 0x100) as u8,
        a: if value / 0x1000000 == 0 {
            255
        } else {
            (value / 0x1000000) as u8
        },
    }
}

/// Decode a packed `0xAARRGGBB` color (as written in Base16 palettes, where
/// the alpha byte is usually left out and then means opaque).
pub fn rgba8_from_u32(value: u32) -> (c: Rgba8)
    ensures
        c == packed_color(value),
{
    let r = ((value >> 16) & 0xFF) as u8;
    let g = ((value >> 8) & 0xFF) as u8;
    let b = (value & 0xFF) as u8;
    let a: u8 = if (value >> 24) == 0 {
        255
    } else {
        ((value >> 24) & 0xFF) as u8
    };
    assert(((value >> 16) & 0xFF) == (value / 0x10000) % 0x100) by (bit_vector);
    assert(((value >> 8) & 0xFF) == (value / 0x100) % 0x100) by (bit_vector);
    assert((value & 0xFF) == value % 0x100) by (bit_vector);
    assert((value >> 24) == value / 0x1000000) by (bit_vector);
    assert(((value >> 24) & 0xFF) == value / 0x1000000) by (bit_vector);
    Rgba8 { r, g, b, a }
}


/// A Base16 palette given as packed `0xRRGGBB` values (as in Base16 scheme
/// files, with `#` replaced by `0x`).
pub fn palette_from_hex(hex: &[u32; 16]) -> (colors: [Rgba8; 16])
    ensures
        forall|i: int| 0 <= i < 16 ==> #[trigger] colors@[i] == packed_color(hex@[i]),
{
    let mut colors = [Rgba8 { r: 0, g: 0, b: 0, a: 255 }; 16];
    let mut i: usize = 0;
    while i < 16
        invariant
            i <= 16,
            forall|j: int| 0 <= j < i ==> #[trigger] colors@[j] == packed_color(hex@[j]),
        decreases 16 - i,
    {
        let c = rgba8_from_u32(hex[i]);
        colors[i] = c;
        i = i + 1;
    }
    colors
}

/// Value of two hexadecimal digits.
proof fn lemma_hex_value_two(d: Seq<u8>)
    requires
        d.len() == 2,
        all_hex_digits(d),
    ensures
        hex_value(d) == hex_digit_value(d[0]) * 16 + hex_digit_value(d[1]),
        hex_value(d) <= 255,
        hex_byte_valid(d),
{
    assert(is_hex_digit(d[0]) && is_hex_digit(d[1]));
    assert(d.drop_last().drop_last() =~= Seq::<u8>::empty());
    assert(d.drop_last().last() == d[0]);
    assert(d.last() == d[1]);
    assert(hex_value(d.drop_last().drop_last()) == 0);
    assert(hex_value(d.drop_last()) == hex_digit_value(d[0]));
    assert(hex_value(d) == hex_value(d.drop_last()) * 16 + hex_digit_value(d[1]));
}

/// A color written as `#RRGGBB` is the color that the packed integer
/// `0xRRGGBB` (the form Base16 palettes are written in) denotes.
pub proof fn lemma_hex_string_matches_packed(b: Seq<u8>)
    requires
        b.len() == 7,
        b[0] == 35,
        forall|i: int| 1 <= i < 7 ==> #[trigger] is_hex_digit(b[i]),
    ensures
        hex_color_valid(b),
        hex_value(b.subrange(1, 7)) < 0x1000000,
        hex_color_value(b) == packed_color(hex_value(b.subrange(1, 7)) as u32),
{
    let r = b.subrange(1, 3);
    let g = b.subrange(3, 5);
    let bl = b.subrange(5, 7);
    let d = b.subrange(1, 7);
    assert forall|i: int| 0 <= i < 2 implies #[trigger] is_hex_digit(r[i]) by {
        assert(r[i] == b[i + 1]);
    }
    assert forall|i: int| 0 <= i < 2 implies #[trigger] is_hex_digit(g[i]) by {
        assert(g[i] == b[i + 3]);
    }
    assert forall|i: int| 0 <= i < 2 implies #[trigger] is_hex_digit(bl[i]) by {
        assert(bl[i] == b[i + 5]);
    }
    lemma_hex_value_two(r);
    lemma_hex_value_two(g);
    lemma_hex_value_two(bl);
    let vr = hex_value(r) as int;
    let vg = hex_value(g) as int;
    let vb = hex_value(bl) as int;
    // Peel the six digits off the end.
    assert(d.drop_last() =~= b.subrange(1, 6));
    assert(b.subrange(1, 6).drop_last() =~= b.subrange(1, 5));
    assert(b.subrange(1, 5).drop_last() =~= b.subrange(1, 4));
    assert(b.subrange(1, 4).drop_last() =~= b.subrange(1, 3));
    assert(b.subrange(1, 3) =~= r);
    assert(d.last() == b[6] && b.subrange(1, 6).last() == b[5] && b.subrange(1, 5).last() == b[4]
        && b.subrange(1, 4).last() == b[3]);
    assert(g[0] == b[3] && g[1] == b[4] && bl[0] == b[5] && bl[1] == b[6]);
    assert(is_hex_digit(b[3]) && is_hex_digit(b[4]) && is_hex_digit(b[5]) && is_hex_digit(b[6]));
    assert(hex_value(b.subrange(1, 4)) == vr * 16 + hex_digit_value(b[3]));
    assert(hex_value(b.subrange(1, 5)) == hex_value(b.subrange(1, 4)) * 16 + hex_digit_value(b[4]));
    assert(hex_value(b.subrange(1, 6)) == hex_value(b.subrange(1, 5)) * 16 + hex_digit_value(b[5]));
    assert(hex_value(d) == hex_value(b.subrange(1, 6)) * 16 + hex_digit_value(b[6]));
    let v = hex_value(d) as int;
    assert(v == vr * 65536 + vg * 256 + vb);
    assert(0 <= vr < 256 && 0 <= vg < 256 && 0 <= vb < 256);
    assert(v < 0x1000000);
    let u = v as u32;
    assert(u / 0x10000 == vr && (u / 0x10000) % 0x100 == vr) by (nonlinear_arith)
        requires
            u == vr * 65536 + vg * 256 + vb,
            0 <= vr < 256,
            0 <= vg < 256,
            0 <= vb < 256,
    ;
    assert((u / 0x100) % 0x100 == vg) by (nonlinear_arith)
        requires
            u == vr * 65536 + vg * 256 + vb,
            0 <= vr < 256,
            0 <= vg < 256,
            0 <= vb < 256,
    ;
    assert(u % 0x100 == vb) by (nonlinear_arith)
        requires
            u == vr * 65536 + vg * 256 + vb,
            0 <= vr < 256,
            0 <= vg < 256,
            0 <= vb < 256,
    ;
    assert(u / 0x1000000 == 0);
}

} // verus!
