//! Characters, their UTF-8 widths, and conversions between strings and
//! character vectors.
use vstd::prelude::*;
use vstd::string::StringSliceAdditionalSpecFns;
use vstd::utf8::*;

verus! {

broadcast use vstd::string::group_string_axioms;

/// Number of bytes in the UTF-8 encoding of a character.
pub open spec fn char_width(c: char) -> nat {
    encode_scalar(c as u32).len()
}

/// Number of bytes in the UTF-8 encoding of a character sequence.
pub open spec fn utf8_len(s: Seq<char>) -> nat {
    encode_utf8(s).len()
}

/// The characters of a string, in order.
pub fn chars_of(s: &str) -> (v: Vec<char>)
    ensures
        v@ == s@,
{
    let mut v: Vec<char> = Vec::new();
    for c in it: s.chars()
        invariant
            v@ == it.seq().take(it.index()),
    {
        v.push(c);
    }
    v
}


/// Appending a character adds its width to the encoded length.
pub proof fn lemma_utf8_len_push(s: Seq<char>, c: char)
    ensures
        utf8_len(s.push(c)) == utf8_len(s) + char_width(c),
    decreases s.len(),
{
    if s.len() == 0 {
        assert(s.push(c).drop_first() =~= Seq::<char>::empty());
        assert(encode_utf8(Seq::<char>::empty()) =~= Seq::<u8>::empty());
    } else {
        lemma_utf8_len_push(s.drop_first(), c);
        assert(s.push(c).drop_first() =~= s.drop_first().push(c));
    }
}

/// The encoded length of a concatenation is the sum of the encoded lengths.
pub proof fn lemma_utf8_len_concat(a: Seq<char>, b: Seq<char>)
    ensures
        utf8_len(a + b) == utf8_len(a) + utf8_len(b),
    decreases b.len(),
{
    if b.len() == 0 {
        assert(a + b =~= a);
        assert(encode_utf8(b) =~= Seq::<u8>::empty());
    } else {
        lemma_utf8_len_concat(a, b.drop_last());
        assert(a + b =~= (a + b.drop_last()).push(b.last()));
        assert(b =~= b.drop_last().push(b.last()));
        lemma_utf8_len_push(a + b.drop_last(), b.last());
        lemma_utf8_len_push(b.drop_last(), b.last());
    }
}

/// Every character takes between one and four bytes.
pub proof fn lemma_char_width_bounds(c: char)
    ensures
        1 <= char_width(c) <= 4,
        char_width(c) == 1 <==> (c as u32) < 0x80,
{
    char_is_scalar(c);
}

/// A longer prefix has a longer encoding.
pub proof fn lemma_utf8_len_prefix_monotone(s: Seq<char>, i: int, j: int)
    requires
        0 <= i <= j <= s.len(),
    ensures
        utf8_len(s.take(i)) + (j - i) <= utf8_len(s.take(j)),
    decreases j - i,
{
    if i < j {
        lemma_utf8_len_prefix_monotone(s, i, j - 1);
        assert(s.take(j) =~= s.take(j - 1).push(s[j - 1]));
        lemma_utf8_len_push(s.take(j - 1), s[j - 1]);
        lemma_char_width_bounds(s[j - 1]);
    }
}

/// Number of bytes in the UTF-8 encoding of a character.
pub fn len_utf8(c: char) -> (n: usize)
    ensures
        n == char_width(c),
        1 <= n <= 4,
{
    proof {
        char_is_scalar(c);
    }
    let u = c as u32;
    if u < 0x80 {
        1
    } else if u < 0x800 {
        2
    } else if u < 0x10000 {
        3
    } else {
        4
    }
}

/// Append a character to a string.
#[verifier::external_body]
pub(crate) fn push_char(s: &mut String, c: char)
    ensures
        final(s)@ == old(s)@.push(c),
{
    s.push(c);
}

/// A string holding the given characters.
pub fn string_from_chars(cs: &[char]) -> (s: String)
    ensures
        s@ == cs@,
{
    let mut s = String::new();
    let mut i: usize = 0;
    while i < cs.len()
        invariant
            i <= cs@.len(),
            s@ == cs@.take(i as int),
        decreases cs@.len() - i,
    {
        push_char(&mut s, cs[i]);
        assert(cs@.take(i + 1) =~= cs@.take(i as int).push(cs@[i as int]));
        i = i + 1;
    }
    assert(cs@.take(cs@.len() as int) =~= cs@);
    s
}

/// Number of bytes in the UTF-8 encoding of a string.
pub fn byte_len(s: &str) -> (n: usize)
    ensures
        n == utf8_len(s@),
{
    s.as_bytes().len()
}

/// Whether the character is an ASCII decimal digit.
pub open spec fn is_digit(c: char) -> bool {
    '0' <= c <= '9'
}

/// The number that a sequence of decimal digits denotes (most significant first).
pub open spec fn decimal_value(d: Seq<char>) -> nat
    decreases d.len(),
{
    if d.len() == 0 {
        0
    } else {
        (decimal_value(d.drop_last()) * 10 + ((d.last() as u32) - 48)) as nat
    }
}

/// The digits of a decimal number after an optional leading `+` sign (a lone
/// `+` is kept, and so rejected as a digit).
pub open spec fn decimal_digits(s: Seq<char>) -> Seq<char> {
    if s.len() > 1 && s[0] == '+' {
        s.skip(1)
    } else {
        s
    }
}

/// What parsing the characters as a `u8` gives: an optional `+`, then at
/// least one decimal digit, with a value of at most 255.
pub open spec fn parse_u8_spec(s: Seq<char>) -> Option<u8> {
    let d = decimal_digits(s);
    if d.len() > 0 && (forall|i: int| 0 <= i < d.len() ==> #[trigger] is_digit(d[i]))
        && decimal_value(d) <= 255 {
        Some(decimal_value(d) as u8)
    } else {
        None
    }
}

proof fn lemma_decimal_value_prefix_le(d: Seq<char>, k: int)
    requires
        0 <= k <= d.len(),
        forall|i: int| 0 <= i < d.len() ==> #[trigger] is_digit(d[i]),
    ensures
        decimal_value(d.take(k)) <= decimal_value(d),
    decreases d.len() - k,
{
    if k == d.len() {
        assert(d.take(k) =~= d);
    } else {
        assert(is_digit(d[d.len() - 1]));
        lemma_decimal_value_prefix_le(d.drop_last(), k);
        assert(d.drop_last().take(k) =~= d.take(k));
    }
}

/// Parse the characters `cs[lo..hi]` as a `u8`.
pub fn parse_u8_range(cs: &[char], lo: usize, hi: usize) -> (r: Option<u8>)
    requires
        lo <= hi <= cs@.len(),
    ensures
        r == parse_u8_spec(cs@.subrange(lo as int, hi as int)),
{
    let ghost s = cs@.subrange(lo as int, hi as int);
    let start: usize = if hi - lo > 1 && cs[lo] == '+' {
        lo + 1
    } else {
        lo
    };
    let ghost d = cs@.subrange(start as int, hi as int);
    assert(decimal_digits(s) =~= d);
    if start == hi {
        return None;
    }
    let mut acc: u32 = 0;
    let mut i: usize = start;
    while i < hi
        invariant
            lo <= start <= i <= hi <= cs@.len(),
            d == cs@.subrange(start as int, hi as int),
            decimal_digits(cs@.subrange(lo as int, hi as int)) == d,
            d.len() > 0,
            forall|j: int| 0 <= j < i - start ==> #[trigger] is_digit(d[j]),
            acc == decimal_value(d.take(i - start)),
            acc <= 255,
        decreases hi - i,
    {
        let c = cs[i];
        assert(d[i - start] == c);
        if !('0' <= c && c <= '9') {
            assert(!is_digit(d[i - start]));
            return None;
        }
        assert(d.take(i - start + 1).drop_last() =~= d.take(i - start));
        assert(d.take(i - start + 1).last() == c);
        let next = acc * 10 + ((c as u32) - 48);
        if next > 255 {
            proof {
                if forall|j: int| 0 <= j < d.len() ==> #[trigger] is_digit(d[j]) {
                    lemma_decimal_value_prefix_le(d, i - start + 1);
                }
            }
            return None;
        }
        acc = next;
        i = i + 1;
    }
    assert(d.take(hi - start) =~= d);
    Some(acc as u8)
}


/// `b` is a byte offset in the UTF-8 encoding of `s` at which a character
/// starts (or the end of the encoding).
pub open spec fn is_boundary(s: Seq<char>, b: int) -> bool {
    exists|k: int| 0 <= k <= s.len() && #[trigger] utf8_len(s.take(k)) == b
}

/// The number of characters that the first `b` bytes of the encoding of `s`
/// hold, when `b` is a boundary.
pub open spec fn char_index(s: Seq<char>, b: int) -> int {
    choose|k: int| 0 <= k <= s.len() && #[trigger] utf8_len(s.take(k)) == b
}

/// The characters whose encoding lies between byte offsets `lo` and `hi`.
pub open spec fn byte_slice(s: Seq<char>, lo: int, hi: int) -> Seq<char> {
    s.subrange(char_index(s, lo), char_index(s, hi))
}

/// Distinct prefixes have distinct encoded lengths.
pub proof fn lemma_char_index_unique(s: Seq<char>, k: int)
    requires
        0 <= k <= s.len(),
    ensures
        is_boundary(s, utf8_len(s.take(k)) as int),
        char_index(s, utf8_len(s.take(k)) as int) == k,
{
    let b = utf8_len(s.take(k)) as int;
    assert(0 <= k <= s.len() && utf8_len(s.take(k)) == b);
    let j = char_index(s, b);
    if j < k {
        lemma_utf8_len_prefix_monotone(s, j, k);
    } else if j > k {
        lemma_utf8_len_prefix_monotone(s, k, j);
    }
}

/// The characters between byte offsets `lo` and `hi` of the encoding of `s`.
pub fn slice_by_bytes(s: &[char], lo: usize, hi: usize) -> (r: Vec<char>)
    requires
        lo <= hi,
        is_boundary(s@, lo as int),
        is_boundary(s@, hi as int),
    ensures
        r@ == byte_slice(s@, lo as int, hi as int),
{
    let ghost klo = char_index(s@, lo as int);
    let ghost khi = char_index(s@, hi as int);
    proof {
        lemma_char_index_unique(s@, klo);
        lemma_char_index_unique(s@, khi);
        if khi < klo {
            lemma_utf8_len_prefix_monotone(s@, khi, klo);
        }
    }
    let mut r: Vec<char> = Vec::new();
    let mut k: usize = 0;
    let mut pos: usize = 0;
    assert(utf8_len(s@.take(0)) == 0) by {
        assert(s@.take(0) =~= Seq::<char>::empty());
    }
    while pos < hi
        invariant
            0 <= klo <= khi <= s@.len(),
            utf8_len(s@.take(klo)) == lo,
            utf8_len(s@.take(khi)) == hi,
            k <= khi,
            pos == utf8_len(s@.take(k as int)),
            pos <= hi,
            k <= klo ==> r@ == Seq::<char>::empty(),
            k >= klo ==> r@ == s@.subrange(klo, k as int),
        decreases khi - k,
    {
        proof {
            if k == khi {
                assert(false);
            }
            lemma_utf8_len_prefix_monotone(s@, k as int + 1, khi);
            assert(s@.take(k + 1) =~= s@.take(k as int).push(s@[k as int]));
            lemma_utf8_len_push(s@.take(k as int), s@[k as int]);
            if k < klo {
                lemma_utf8_len_prefix_monotone(s@, k as int, klo);
            }
        }
        let c = s[k];
        if pos >= lo {
            proof {
                if k < klo {
                    lemma_utf8_len_prefix_monotone(s@, k as int, klo);
                }
            }
            r.push(c);
            assert(s@.subrange(klo, k + 1) =~= s@.subrange(klo, k as int).push(c));
        } else {
            proof {
                if k >= klo {
                    lemma_utf8_len_prefix_monotone(s@, klo, k as int);
                }
                assert(s@.subrange(klo, klo) =~= Seq::<char>::empty());
            }
        }
        pos = pos + len_utf8(c);
        k = k + 1;
    }
    proof {
        if k < khi {
            lemma_utf8_len_prefix_monotone(s@, k as int, khi);
        }
        if k == klo {
            assert(s@.subrange(klo, klo) =~= Seq::<char>::empty());
        }
    }
    r
}

} // verus!
