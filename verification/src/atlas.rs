//! The glyph atlas: one RGBA texture into which rasterized glyphs are packed
//! in shelves, left to right, a new shelf starting below the tallest glyph of
//! the last one.
use vstd::prelude::*;
use vstd::arithmetic::div_mod::{
    lemma_fundamental_div_mod, lemma_fundamental_div_mod_converse, lemma_mod_pos_bound,
};

verus! {

/// What the renderer uploads when the atlas texture has changed.
pub struct GlyphUpdateData<'a> {
    pub width: u32,
    pub height: u32,
    pub pixels: &'a [u8],
}

/// The texture and the packing cursor of the glyph atlas.
pub struct GlyphAtlas {
    /// Whether the texture changed since it was last handed out.
    pub dirty: bool,
    pub width: u32,
    pub height: u32,
    /// RGBA bytes, row by row.
    pub pixels: Vec<u8>,
    /// Where the next glyph of the current shelf goes.
    pub cursor_x: u32,
    /// The top of the current shelf.
    pub cursor_y: u32,
    /// The height of the tallest glyph on the current shelf.
    pub row_height: u32,
}

impl GlyphAtlas {
    /// The texture holds four bytes for each of its pixels.
    pub open spec fn wf(self) -> bool {
        self.pixels@.len() == self.width * self.height * 4
    }

    /// Whether a glyph `gw` pixels wide starts a new shelf.
    pub open spec fn wraps(self, gw: u32) -> bool {
        self.cursor_x + gw >= self.width
    }

    /// The column at which a glyph `gw` pixels wide is placed.
    pub open spec fn place_x(self, gw: u32) -> int {
        if self.wraps(gw) { 0 } else { self.cursor_x as int }
    }

    /// The row at which a glyph `gw` pixels wide is placed.
    pub open spec fn place_y(self, gw: u32) -> int {
        if self.wraps(gw) {
            self.cursor_y + self.row_height + 1
        } else {
            self.cursor_y as int
        }
    }

    /// The height of the current shelf once the glyph's shelf is chosen.
    pub open spec fn shelf_height(self, gw: u32) -> int {
        if self.wraps(gw) { 0 } else { self.row_height as int }
    }

    /// The cursor (`cursor_x`, `cursor_y`, `row_height`) once a glyph of
    /// `gw` by `gh` pixels is placed.
    pub open spec fn cursor_after(self, gw: u32, gh: u32) -> (int, int, int) {
        let shelf = self.shelf_height(gw);
        (self.place_x(gw) + gw + 1, self.place_y(gw), if gh > shelf { gh as int } else { shelf })
    }

    /// Whether a glyph of `gw` by `gh` pixels, given as `data_len` bytes,
    /// can be placed: every index into the texture and into the glyph's
    /// bytes is in bounds, and no 32-bit coordinate overflows.
    pub open spec fn can_place(self, gw: u32, gh: u32, data_len: int, is_color: bool) -> bool {
        let x = self.place_x(gw);
        let y = self.place_y(gw);
        let bpp: int = if is_color { 4 } else { 1 };
        &&& self.cursor_x + gw <= u32::MAX
        &&& y <= u32::MAX
        &&& x + gw + 1 <= u32::MAX
        &&& (gw > 0 && gh > 0) ==> {
            &&& (y + gh - 1) * self.width + x + gw <= self.width * self.height
            &&& (y + gh - 1) * self.width + x + gw - 1 <= u32::MAX
            &&& (gw * gh - 1) * bpp <= u32::MAX
            &&& data_len >= gw * gh * bpp
        }
    }
}

/// The last row of a glyph `rows` rows high that is drawn on pixel offset
/// `q` from the glyph's corner, in a texture `aw` pixels wide (rows wider
/// than the texture run on into the next texture row).
pub open spec fn source_row(q: int, aw: int, rows: int) -> int {
    if q / aw < rows - 1 { q / aw } else { rows - 1 }
}

/// Whether some pixel of the first `rows` rows of a glyph `gw` pixels wide
/// lands on pixel offset `q` from the glyph's corner.
pub open spec fn covered(q: int, aw: int, gw: int, rows: int) -> bool {
    &&& 0 <= q
    &&& 0 < rows
    &&& 0 < aw
    &&& q - source_row(q, aw, rows) * aw < gw
}

/// Byte `ch` of the RGBA value that pixel (`row`, `col`) of a glyph gives:
/// colour glyphs carry RGBA, masks carry coverage drawn in white.
pub open spec fn glyph_byte(data: Seq<u8>, is_color: bool, gw: int, row: int, col: int, ch: int) -> u8 {
    if is_color {
        data[(row * gw + col) * 4 + ch]
    } else if ch < 3 {
        255
    } else {
        data[row * gw + col]
    }
}

/// Byte `i` of the texture after a glyph is drawn with its corner at pixel
/// `base`: where glyph pixels land, the last one drawn (rows top to bottom,
/// each left to right) gives the byte; elsewhere the texture is unchanged.
pub open spec fn blit_byte(
    px: Seq<u8>,
    i: int,
    aw: int,
    base: int,
    gw: int,
    gh: int,
    data: Seq<u8>,
    is_color: bool,
) -> u8 {
    let q = i / 4 - base;
    if covered(q, aw, gw, gh) {
        let r = source_row(q, aw, gh);
        glyph_byte(data, is_color, gw, r, q - r * aw, i % 4)
    } else {
        px[i]
    }
}

/// The texture while a glyph is drawn: rows before `rows` are done, and
/// `cols` pixels of row `rows`.
spec fn blit_partial(
    px: Seq<u8>,
    i: int,
    aw: int,
    base: int,
    gw: int,
    rows: int,
    cols: int,
    data: Seq<u8>,
    is_color: bool,
) -> u8 {
    let q = i / 4 - base;
    if 0 <= q - rows * aw < cols {
        glyph_byte(data, is_color, gw, rows, q - rows * aw, i % 4)
    } else if covered(q, aw, gw, rows) {
        let r = source_row(q, aw, rows);
        glyph_byte(data, is_color, gw, r, q - r * aw, i % 4)
    } else {
        px[i]
    }
}

proof fn lemma_mul_le(a: int, b: int, c: int)
    requires
        a <= b,
        0 <= c,
    ensures
        a * c <= b * c,
{
    assert(a * c <= b * c) by (nonlinear_arith)
        requires
            a <= b,
            0 <= c,
    ;
}

proof fn lemma_le_mul(a: int, b: int)
    requires
        0 <= a,
        1 <= b,
    ensures
        a <= a * b,
{
    assert(a <= a * b) by (nonlinear_arith)
        requires
            0 <= a,
            1 <= b,
    ;
}

proof fn lemma_div_bounds(q: int, aw: int)
    requires
        0 <= q,
        0 < aw,
    ensures
        0 <= q / aw,
        (q / aw) * aw <= q,
        q < (q / aw) * aw + aw,
{
    lemma_fundamental_div_mod(q, aw);
    lemma_mod_pos_bound(q, aw);
    assert(aw * (q / aw) == (q / aw) * aw) by (nonlinear_arith);
    if q / aw < 0 {
        lemma_mul_le(q / aw, -1, aw);
        assert((-1) * aw == -aw);
    }
}

/// `q / aw` is at least `r` exactly where `q` is at least `r * aw`.
proof fn lemma_div_ge(q: int, aw: int, r: int)
    requires
        0 <= q,
        0 < aw,
    ensures
        (q / aw >= r) <==> (q >= r * aw),
{
    lemma_div_bounds(q, aw);
    if q / aw >= r {
        lemma_mul_le(r, q / aw, aw);
    } else {
        lemma_mul_le(q / aw + 1, r, aw);
        assert((q / aw + 1) * aw == (q / aw) * aw + aw) by (nonlinear_arith);
    }
}

/// Finishing row `rows` of a glyph is starting row `rows + 1`.
proof fn lemma_row_done(
    px: Seq<u8>,
    i: int,
    aw: int,
    base: int,
    gw: int,
    rows: int,
    data: Seq<u8>,
    is_color: bool,
)
    requires
        0 < aw,
        0 <= rows,
    ensures
        blit_partial(px, i, aw, base, gw, rows, gw, data, is_color) == blit_partial(
            px,
            i,
            aw,
            base,
            gw,
            rows + 1,
            0,
            data,
            is_color,
        ),
{
    let q = i / 4 - base;
    if 0 <= q {
        lemma_div_bounds(q, aw);
        lemma_div_ge(q, aw, rows);
        lemma_div_ge(q, aw, rows + 1);
        if q >= rows * aw {
            assert(source_row(q, aw, rows + 1) == rows);
            if rows > 0 {
                assert(source_row(q, aw, rows) == rows - 1);
                assert((rows - 1) * aw == rows * aw - aw) by (nonlinear_arith);
            }
        } else {
            assert(q / aw < rows);
            assert(source_row(q, aw, rows + 1) == q / aw);
            assert(source_row(q, aw, rows) == q / aw);
        }
    }
}

/// Without rows drawn, or with rows of no pixels, nothing is covered.
proof fn lemma_nothing_covered(q: int, aw: int, gw: int, rows: int)
    requires
        rows == 0 || gw == 0,
    ensures
        !covered(q, aw, gw, rows),
{
    if 0 <= q && 0 < aw && rows > 0 {
        lemma_div_bounds(q, aw);
        let r = source_row(q, aw, rows);
        lemma_mul_le(r, q / aw, aw);
    }
}

proof fn lemma_quad(p: int, ch: int)
    requires
        0 <= ch < 4,
    ensures
        (p * 4 + ch) / 4 == p,
        (p * 4 + ch) % 4 == ch,
{
    assert((p * 4 + ch) / 4 == p) by (nonlinear_arith)
        requires
            0 <= ch < 4,
    ;
    assert((p * 4 + ch) % 4 == ch) by (nonlinear_arith)
        requires
            0 <= ch < 4,
    ;
}

impl GlyphAtlas {
    /// An empty square atlas of `size` by `size` pixels, all bytes zero,
    /// marked as changed.
    pub fn with_size(size: u32) -> (a: Self)
        requires
            size * size * 4 <= usize::MAX,
        ensures
            a.wf(),
            a.dirty,
            a.width == size,
            a.height == size,
            a.cursor_x == 0,
            a.cursor_y == 0,
            a.row_height == 0,
            forall|i: int| 0 <= i < a.pixels@.len() ==> a.pixels@[i] == 0,
    {
        let s = size as usize;
        assert(s * s * 4 == size * size * 4);
        let n = s * s * 4;
        let pixels: Vec<u8> = vec![0u8; n];
        GlyphAtlas {
            dirty: true,
            width: size,
            height: size,
            pixels,
            cursor_x: 0,
            cursor_y: 0,
            row_height: 0,
        }
    }

    /// Place a glyph of `width` by `height` pixels on the current shelf, or
    /// on a new shelf below it where it would reach the right edge, and draw
    /// it there: `data` holds RGBA bytes for a colour glyph and one coverage
    /// byte per pixel for a mask. Returns the top-left corner of the glyph.
    pub fn place_glyph(&mut self, width: u32, height: u32, data: &[u8], is_color: bool) -> (pos: (
        u32,
        u32,
    ))
        requires
            old(self).wf(),
            old(self).can_place(width, height, data@.len() as int, is_color),
        ensures
            final(self).wf(),
            pos.0 == old(self).place_x(width),
            pos.1 == old(self).place_y(width),
            (final(self).cursor_x as int, final(self).cursor_y as int, final(self).row_height as int)
                == old(self).cursor_after(width, height),
            final(self).width == old(self).width,
            final(self).height == old(self).height,
            final(self).dirty == old(self).dirty,
            final(self).pixels@.len() == old(self).pixels@.len(),
            forall|i: int|
                0 <= i < old(self).pixels@.len() ==> final(self).pixels@[i] == blit_byte(
                    old(self).pixels@,
                    i,
                    old(self).width as int,
                    pos.1 * old(self).width + pos.0,
                    width as int,
                    height as int,
                    data@,
                    is_color,
                ),
    {
        if self.cursor_x + width >= self.width {
            self.cursor_x = 0;
            self.cursor_y = self.cursor_y + self.row_height + 1;
            self.row_height = 0;
        }
        let x = self.cursor_x;
        let y = self.cursor_y;
        let aw = self.width;
        let ghost px = self.pixels@;
        let ghost base: int = y * aw + x;
        let texture_len = self.pixels.len();
        let ghost len = px.len();
        let ghost bpp: int = if is_color { 4 } else { 1 };
        let ghost ah = self.height;
        let ghost dirty = self.dirty;
        if width > 0 && height > 0 {
            proof {
                lemma_le_mul(width as int, height as int);
                lemma_le_mul((y + height - 1) as int, aw as int);
                lemma_mul_le(0, (width * height - 1) as int, bpp);
            }
            let mut row: u32 = 0;
            while row < height
                invariant
                    self.wf(),
                    self.width == aw,
                    self.height == ah,
                    self.cursor_x == x,
                    self.cursor_y == y,
                    self.dirty == dirty,
                    self.row_height == old(self).shelf_height(width),
                    self.pixels@.len() == len,
                    texture_len == len,
                    0 < width,
                    y + height - 1 <= (y + height - 1) * aw,
                    0 < aw,
                    row <= height,
                    bpp == (if is_color { 4int } else { 1int }),
                    base == y * aw + x,
                    (y + height - 1) * aw + x + width <= aw * self.height,
                    (y + height - 1) * aw + x + width - 1 <= u32::MAX,
                    (width * height - 1) * bpp <= u32::MAX,
                    data@.len() >= width * height * bpp,
                    forall|i: int|
                        0 <= i < len ==> self.pixels@[i] == blit_partial(
                            px,
                            i,
                            aw as int,
                            base,
                            width as int,
                            row as int,
                            0,
                            data@,
                            is_color,
                        ),
                decreases height - row,
            {
                proof {
                    lemma_mul_le((y + row) as int, (y + height - 1) as int, aw as int);
                    lemma_mul_le(row as int, (height - 1) as int, width as int);
                }
                let mut col: u32 = 0;
                while col < width
                    invariant
                        self.wf(),
                        self.width == aw,
                        self.height == ah,
                        self.cursor_x == x,
                        self.cursor_y == y,
                        self.dirty == dirty,
                        self.row_height == old(self).shelf_height(width),
                        self.pixels@.len() == len,
                        texture_len == len,
                        0 < aw,
                        y + height - 1 <= (y + height - 1) * aw,
                        row < height,
                        col <= width,
                        bpp == (if is_color { 4int } else { 1int }),
                        base == y * aw + x,
                        (y + row) * aw <= (y + height - 1) * aw,
                        row * width <= (height - 1) * width,
                        (y + height - 1) * aw + x + width <= aw * self.height,
                        (y + height - 1) * aw + x + width - 1 <= u32::MAX,
                        (width * height - 1) * bpp <= u32::MAX,
                        data@.len() >= width * height * bpp,
                        forall|i: int|
                            0 <= i < len ==> self.pixels@[i] == blit_partial(
                                px,
                                i,
                                aw as int,
                                base,
                                width as int,
                                row as int,
                                col as int,
                                data@,
                                is_color,
                            ),
                    decreases width - col,
                {
                    let p = (y + row) * aw + x + col;
                    proof {
                        assert((y + row) * aw == y * aw + row * aw) by (nonlinear_arith);
                        assert((height - 1) * width == width * height - width) by (nonlinear_arith);
                        assert(aw * self.height == self.width * self.height);
                        assert(p + 1 <= aw * self.height);
                        assert(p * 4 + 4 <= len);
                    }
                    let dst = p as usize * 4;
                    let ghost before = self.pixels@;
                    let ghost cell: int = row * width + col;
                    if is_color {
                        let src = ((row * width + col) * 4) as usize;
                        self.pixels.set(dst, data[src]);
                        self.pixels.set(dst + 1, data[src + 1]);
                        self.pixels.set(dst + 2, data[src + 2]);
                        self.pixels.set(dst + 3, data[src + 3]);
                    } else {
                        let src = (row * width + col) as usize;
                        self.pixels.set(dst, 255);
                        self.pixels.set(dst + 1, 255);
                        self.pixels.set(dst + 2, 255);
                        self.pixels.set(dst + 3, data[src]);
                    }
                    proof {
                        assert forall|i: int| 0 <= i < len implies self.pixels@[i] == blit_partial(
                            px,
                            i,
                            aw as int,
                            base,
                            width as int,
                            row as int,
                            col + 1,
                            data@,
                            is_color,
                        ) by {
                            let q = i / 4 - base;
                            if dst <= i < dst + 4 {
                                lemma_quad(p as int, i - dst);
                                assert(q - row * aw == col);
                            } else {
                                lemma_fundamental_div_mod(i, 4);
                                lemma_mod_pos_bound(i, 4);
                                assert(i / 4 != p);
                                assert(self.pixels@[i] == before[i]);
                            }
                        }
                    }
                    col = col + 1;
                }
                proof {
                    assert forall|i: int| 0 <= i < len implies self.pixels@[i] == blit_partial(
                        px,
                        i,
                        aw as int,
                        base,
                        width as int,
                        row + 1,
                        0,
                        data@,
                        is_color,
                    ) by {
                        lemma_row_done(px, i, aw as int, base, width as int, row as int, data@, is_color);
                    }
                }
                row = row + 1;
            }
        } else {
            proof {
                assert forall|i: int| 0 <= i < len implies self.pixels@[i] == blit_byte(
                    px,
                    i,
                    aw as int,
                    base,
                    width as int,
                    height as int,
                    data@,
                    is_color,
                ) by {
                    lemma_nothing_covered(i / 4 - base, aw as int, width as int, height as int);
                }
            }
        }
        self.cursor_x = x + width + 1;
        if height > self.row_height {
            self.row_height = height;
        }
        (x, y)
    }

    /// The texture to upload, once after each change: the first call after
    /// a change hands it out and clears the mark, later calls give `None`.
    pub fn get_glyph_update_data(&mut self) -> (r: Option<GlyphUpdateData<'_>>)
        ensures
            final(self).dirty == false,
            final(self).width == old(self).width,
            final(self).height == old(self).height,
            final(self).pixels@ == old(self).pixels@,
            final(self).cursor_x == old(self).cursor_x,
            final(self).cursor_y == old(self).cursor_y,
            final(self).row_height == old(self).row_height,
            old(self).dirty ==> (r matches Some(d) && d.width == old(self).width && d.height
                == old(self).height && d.pixels@ == old(self).pixels@),
            !old(self).dirty ==> r is None,
    {
        if self.dirty {
            self.dirty = false;
            Some(GlyphUpdateData { width: self.width, height: self.height, pixels: self.pixels.as_slice() })
        } else {
            None
        }
    }
}

/// Space in pixels left of, between and right of the labels of a label
/// strip, and above and below them.
pub const LABEL_PADDING: u32 = 4;

/// A rasterized text label: one coverage byte per pixel, row by row.
pub struct LabelImage {
    pub canvas: Vec<u8>,
    pub width: u32,
    pub height: u32,
}

/// A one-channel texture that holds text labels side by side.
pub struct LabelStrip {
    pub width: u32,
    pub height: u32,
    /// One coverage byte per pixel, row by row.
    pub pixels: Vec<u8>,
    /// The top-left corner of each label, in order.
    pub positions: Vec<(u32, u32)>,
}

/// A label dimension, counting an empty one as one pixel.
pub open spec fn at_least_one(n: u32) -> int {
    if n == 0 { 1 } else { n as int }
}

/// The column where label `i` of a strip starts.
pub open spec fn label_x(ls: Seq<LabelImage>, i: int) -> int
    decreases i,
{
    if i <= 0 {
        LABEL_PADDING as int
    } else {
        label_x(ls, i - 1) + at_least_one(ls[i - 1].width) + LABEL_PADDING
    }
}

/// The width of a strip of labels.
pub open spec fn strip_width(ls: Seq<LabelImage>) -> int {
    label_x(ls, ls.len() as int)
}

/// The height of a strip for text `text_height` pixels high.
pub open spec fn strip_height(text_height: u32) -> int {
    text_height + 2 * LABEL_PADDING
}

/// The row where label `i` starts: the label is centred vertically, but
/// not above the top.
pub open spec fn label_y(ls: Seq<LabelImage>, text_height: u32, i: int) -> int {
    let center = strip_height(text_height) / 2;
    let half = at_least_one(ls[i].height) / 2;
    if center > half {
        center - half
    } else {
        0
    }
}

/// Whether pixel (`r`, `c`) of the strip lies in the box of label `i`.
pub open spec fn in_label(ls: Seq<LabelImage>, text_height: u32, i: int, r: int, c: int) -> bool {
    &&& label_x(ls, i) <= c < label_x(ls, i) + at_least_one(ls[i].width)
    &&& label_y(ls, text_height, i) <= r < label_y(ls, text_height, i) + at_least_one(ls[i].height)
}

/// The coverage that label `i` gives pixel (`r`, `c`) of its box: its canvas
/// byte, or nothing where the canvas is short.
pub open spec fn label_byte(ls: Seq<LabelImage>, text_height: u32, i: int, r: int, c: int) -> u8 {
    let k = (r - label_y(ls, text_height, i)) * at_least_one(ls[i].width) + (c - label_x(ls, i));
    if k < ls[i].canvas@.len() {
        ls[i].canvas@[k]
    } else {
        0
    }
}

/// Pixel (`r`, `c`) of a strip of the first `n` labels: what the label whose
/// box holds it gives, else nothing.
pub open spec fn strip_value(ls: Seq<LabelImage>, text_height: u32, n: int, r: int, c: int) -> u8
    decreases n,
{
    if n <= 0 {
        0
    } else if in_label(ls, text_height, n - 1, r, c) {
        label_byte(ls, text_height, n - 1, r, c)
    } else {
        strip_value(ls, text_height, n - 1, r, c)
    }
}

/// Whether labels can be packed without a 32-bit size or coordinate
/// overflowing.
pub open spec fn can_pack(ls: Seq<LabelImage>, text_height: u32) -> bool {
    ls.len() > 0 ==> {
        &&& strip_height(text_height) <= u32::MAX
        &&& strip_width(ls) * strip_height(text_height) <= u32::MAX
        &&& forall|i: int|
            0 <= i < ls.len() ==> #[trigger] at_least_one(ls[i].width) * at_least_one(ls[i].height)
                - 1 <= u32::MAX
        &&& forall|i: int, k: int|
            0 <= i < ls.len() && 0 <= k < at_least_one(ls[i].width) * at_least_one(ls[i].height) && k
                < ls[i].canvas@.len() && #[trigger] ls[i].canvas@[k] > 0 ==> label_y(ls, text_height, i)
                + k / at_least_one(ls[i].width) <= u32::MAX
    }
}

proof fn lemma_label_x_grows(ls: Seq<LabelImage>, i: int, j: int)
    requires
        0 <= i <= j,
    ensures
        label_x(ls, i) <= label_x(ls, j),
        i < j ==> label_x(ls, i) + at_least_one(ls[i].width) + LABEL_PADDING <= label_x(ls, j),
    decreases j - i,
{
    if i < j {
        lemma_label_x_grows(ls, i, j - 1);
    }
}

/// Labels packed into a strip do not overlap.
pub proof fn lemma_labels_disjoint(
    ls: Seq<LabelImage>,
    text_height: u32,
    i: int,
    j: int,
    r: int,
    c: int,
)
    requires
        0 <= i < j,
        in_label(ls, text_height, i, r, c),
    ensures
        !in_label(ls, text_height, j, r, c),
{
    lemma_label_x_grows(ls, i, j);
}

/// Before label `n` is drawn, its box is empty.
proof fn lemma_box_empty_before(ls: Seq<LabelImage>, text_height: u32, n: int, m: int, r: int, c: int)
    requires
        0 <= m <= n,
        in_label(ls, text_height, n, r, c),
    ensures
        strip_value(ls, text_height, m, r, c) == 0,
    decreases m,
{
    if m > 0 {
        if in_label(ls, text_height, m - 1, r, c) {
            lemma_labels_disjoint(ls, text_height, m - 1, n, r, c);
        }
        lemma_box_empty_before(ls, text_height, n, m - 1, r, c);
    }
}

/// Distinct pixels of a texture `w` pixels wide have distinct indices.
proof fn lemma_index_unique(r1: int, c1: int, r2: int, c2: int, w: int)
    requires
        0 <= c1 < w,
        0 <= c2 < w,
        r1 * w + c1 == r2 * w + c2,
    ensures
        r1 == r2,
        c1 == c2,
{
    lemma_fundamental_div_mod_converse(r1 * w + c1, w, r1, c1);
    lemma_fundamental_div_mod_converse(r2 * w + c2, w, r2, c2);
}

/// Pixel (`r`, `c`) while label `k` is drawn with its corner at (`x0`,
/// `y0`): its rows before `row` are done, and `col` pixels of row `row`.
spec fn drawing(
    ls: Seq<LabelImage>,
    th: u32,
    k: int,
    x0: int,
    y0: int,
    row: int,
    col: int,
    r: int,
    c: int,
) -> u8 {
    if in_label(ls, th, k, r, c) && (r - y0 < row || (r - y0 == row && c - x0 < col)) {
        label_byte(ls, th, k, r, c)
    } else {
        strip_value(ls, th, k, r, c)
    }
}

/// Draw label `k` into the strip, where the labels before it are drawn.
fn draw_label(
    pixels: &mut Vec<u8>,
    labels: &[LabelImage],
    k: usize,
    text_height: u32,
    atlas_w: u32,
    atlas_h: u32,
    x0: u32,
    y0: u32,
)
    requires
        k < labels@.len(),
        can_pack(labels@, text_height),
        x0 == label_x(labels@, k as int),
        y0 == label_y(labels@, text_height, k as int),
        x0 + at_least_one(labels@[k as int].width) < atlas_w,
        atlas_h == strip_height(text_height),
        atlas_w * atlas_h <= u32::MAX,
        old(pixels)@.len() == atlas_w * atlas_h,
        forall|r: int, c: int|
            0 <= r < atlas_h && 0 <= c < atlas_w ==> old(pixels)@[r * atlas_w + c]
                == #[trigger] strip_value(labels@, text_height, k as int, r, c),
    ensures
        final(pixels)@.len() == atlas_w * atlas_h,
        forall|r: int, c: int|
            0 <= r < atlas_h && 0 <= c < atlas_w ==> final(pixels)@[r * atlas_w + c]
                == #[trigger] strip_value(labels@, text_height, k + 1, r, c),
{
    let ghost ls = labels@;
    let ghost th = text_height;
    let ghost big_w = atlas_w as int;
    let ghost big_h = atlas_h as int;
    let ghost (ki, xi, yi) = (k as int, x0 as int, y0 as int);
    let label = &labels[k];
    let lw = if label.width == 0 { 1 } else { label.width };
    let lh = if label.height == 0 { 1 } else { label.height };
    assert(lw * lh - 1 <= u32::MAX) by {
        assert(at_least_one(ls[k as int].width) * at_least_one(ls[k as int].height) - 1 <= u32::MAX);
    }
    let mut row: u32 = 0;
    while row < lh
        invariant
            ls == labels@,
            can_pack(ls, th),
            k < ls.len(),
            ki == k,
            xi == x0,
            yi == y0,
            label == &ls[k as int],
            lw == at_least_one(ls[k as int].width),
            lh == at_least_one(ls[k as int].height),
            lw * lh - 1 <= u32::MAX,
            x0 == label_x(ls, k as int),
            y0 == label_y(ls, th, k as int),
            x0 + lw < big_w,
            row <= lh,
            big_w == atlas_w,
            big_h == atlas_h,
            atlas_w * atlas_h <= u32::MAX,
            pixels@.len() == big_w * big_h,
            forall|r: int, c: int|
                0 <= r < big_h && 0 <= c < big_w ==> pixels@[r * big_w + c] == #[trigger] drawing(
                    ls,
                    th,
                    k as int,
                    x0 as int,
                    y0 as int,
                    row as int,
                    0,
                    r,
                    c,
                ),
        decreases lh - row,
    {
        proof {
            lemma_mul_le(row as int, (lh - 1) as int, lw as int);
            assert((lh - 1) * lw == lw * lh - lw) by (nonlinear_arith);
        }
        let mut col: u32 = 0;
        while col < lw
            invariant
                ls == labels@,
                can_pack(ls, th),
                k < ls.len(),
                ki == k,
                xi == x0,
                yi == y0,
                label == &ls[k as int],
                lw == at_least_one(ls[k as int].width),
                lh == at_least_one(ls[k as int].height),
                row < lh,
                row * lw <= lw * lh - lw,
                lw * lh - 1 <= u32::MAX,
                x0 == label_x(ls, k as int),
                y0 == label_y(ls, th, k as int),
                x0 + lw < big_w,
                col <= lw,
                big_w == atlas_w,
                big_h == atlas_h,
                atlas_w * atlas_h <= u32::MAX,
                pixels@.len() == big_w * big_h,
                forall|r: int, c: int|
                    0 <= r < big_h && 0 <= c < big_w ==> pixels@[r * big_w + c] == #[trigger] drawing(
                        ls,
                        th,
                        k as int,
                        x0 as int,
                        y0 as int,
                        row as int,
                        col as int,
                        r,
                        c,
                    ),
            decreases lw - col,
        {
            let src = row * lw + col;
            let src_idx = src as usize;
            let ghost before = pixels@;
            if src_idx < label.canvas.len() && label.canvas[src_idx] > 0 {
                proof {
                    lemma_fundamental_div_mod_converse(src as int, lw as int, row as int, col as int);
                    assert(label.canvas@[src as int] > 0);
                    assert(label_y(ls, th, k as int) + src / lw <= u32::MAX);
                }
                let dst_row = y0 + row;
                let dst_col = x0 + col;
                if dst_row < atlas_h && dst_col < atlas_w {
                    proof {
                        lemma_mul_le(dst_row as int, (atlas_h - 1) as int, atlas_w as int);
                        assert((atlas_h - 1) * atlas_w == atlas_w * atlas_h - atlas_w)
                            by (nonlinear_arith);
                        let (r, c) = (dst_row as int, dst_col as int);
                        lemma_box_empty_before(ls, th, ki, ki, r, c);
                        assert(drawing(ls, th, ki, xi, yi, row as int, col as int, r, c) == 0);
                    }
                    let dst_idx = (dst_row * atlas_w + dst_col) as usize;
                    let cur = pixels[dst_idx];
                    let v = label.canvas[src_idx];
                    pixels.set(dst_idx, if cur > v { cur } else { v });
                    proof {
                        lemma_step_drawn(
                            ls,
                            th,
                            ki,
                            xi,
                            yi,
                            row as int,
                            col as int,
                            big_w,
                            big_h,
                            before,
                            pixels@,
                            dst_idx as int,
                        );
                    }
                } else {
                    proof {
                        lemma_step_drawn(
                            ls,
                            th,
                            ki,
                            xi,
                            yi,
                            row as int,
                            col as int,
                            big_w,
                            big_h,
                            before,
                            pixels@,
                            -1,
                        );
                    }
                }
            } else {
                proof {
                    lemma_box_empty_before(ls, th, ki, ki, y0 + row, x0 + col);
                    lemma_step_drawn(
                        ls,
                        th,
                        ki,
                        xi,
                        yi,
                        row as int,
                        col as int,
                        big_w,
                        big_h,
                        before,
                        pixels@,
                        -1,
                    );
                }
            }
            col = col + 1;
        }
        proof {
            assert forall|r: int, c: int|
                0 <= r < big_h && 0 <= c < big_w implies pixels@[r * big_w + c] == #[trigger] drawing(
                ls,
                th,
                k as int,
                x0 as int,
                y0 as int,
                row + 1,
                0,
                r,
                c,
            ) by {
                assert(pixels@[r * big_w + c] == drawing(ls, th, ki, xi, yi, row as int, lw as int, r, c));
            }
        }
        row = row + 1;
    }
    proof {
        assert forall|r: int, c: int|
            0 <= r < big_h && 0 <= c < big_w implies pixels@[r * big_w + c]
            == #[trigger] strip_value(ls, th, k + 1, r, c) by {
            assert(pixels@[r * big_w + c] == drawing(ls, th, ki, xi, yi, lh as int, 0, r, c));
        }
    }
}

/// One step of drawing a label: pixel (`y0 + row`, `x0 + col`) now holds what
/// the label gives it, at index `dst` when it is written there (else `dst` is
/// negative and the texture is unchanged), and every other pixel is as it was.
proof fn lemma_step_drawn(
    ls: Seq<LabelImage>,
    th: u32,
    k: int,
    x0: int,
    y0: int,
    row: int,
    col: int,
    big_w: int,
    big_h: int,
    before: Seq<u8>,
    after: Seq<u8>,
    dst: int,
)
    requires
        0 <= row < at_least_one(ls[k].height),
        0 <= col < at_least_one(ls[k].width),
        x0 == label_x(ls, k),
        y0 == label_y(ls, th, k),
        0 <= x0,
        0 <= y0,
        0 < big_w,
        before.len() == big_w * big_h,
        before.len() == after.len(),
        forall|r: int, c: int|
            0 <= r < big_h && 0 <= c < big_w ==> before[r * big_w + c] == #[trigger] drawing(
                ls,
                th,
                k,
                x0,
                y0,
                row,
                col,
                r,
                c,
            ),
        dst >= 0 ==> {
            &&& dst == (y0 + row) * big_w + (x0 + col)
            &&& y0 + row < big_h
            &&& x0 + col < big_w
            &&& after == before.update(dst, label_byte(ls, th, k, y0 + row, x0 + col))
        },
        dst < 0 ==> {
            &&& after == before
            &&& (y0 + row < big_h && x0 + col < big_w && in_label(ls, th, k, y0 + row, x0 + col))
                ==> label_byte(ls, th, k, y0 + row, x0 + col) == drawing(
                ls,
                th,
                k,
                x0,
                y0,
                row,
                col,
                y0 + row,
                x0 + col,
            )
        },
    ensures
        forall|r: int, c: int|
            0 <= r < big_h && 0 <= c < big_w ==> after[r * big_w + c] == #[trigger] drawing(
                ls,
                th,
                k,
                x0,
                y0,
                row,
                col + 1,
                r,
                c,
            ),
{
    assert forall|r: int, c: int| 0 <= r < big_h && 0 <= c < big_w implies after[r * big_w + c]
        == #[trigger] drawing(ls, th, k, x0, y0, row, col + 1, r, c) by {
        lemma_index_in_range(r, c, big_w, big_h);
        if dst >= 0 {
            lemma_index_in_range(y0 + row, x0 + col, big_w, big_h);
        }
        if dst >= 0 && r * big_w + c == dst {
            lemma_index_unique(r, c, y0 + row, x0 + col, big_w);
        } else {
            if dst >= 0 {
                assert(after[r * big_w + c] == before[r * big_w + c]);
            }
            assert(before[r * big_w + c] == drawing(ls, th, k, x0, y0, row, col, r, c));
        }
    }
}

/// Pixel (`r`, `c`) of a texture `w` by `h` pixels lies within it.
proof fn lemma_index_in_range(r: int, c: int, w: int, h: int)
    requires
        0 <= r < h,
        0 <= c < w,
    ensures
        0 <= r * w + c < w * h,
{
    lemma_mul_le(r, h - 1, w);
    lemma_mul_le(0, r, w);
    assert((h - 1) * w == w * h - w) by (nonlinear_arith);
}

/// Lay text labels out left to right in a strip for text `text_height`
/// pixels high, each one centred vertically, with [`LABEL_PADDING`] pixels
/// around them (empty labels take one pixel), and draw their coverage.
/// Without labels there is no strip.
pub fn pack_label_strip(labels: &[LabelImage], text_height: u32) -> (strip: Option<LabelStrip>)
    requires
        can_pack(labels@, text_height),
    ensures
        labels@.len() == 0 <==> strip is None,
        strip matches Some(s) ==> {
            &&& s.width == strip_width(labels@)
            &&& s.height == strip_height(text_height)
            &&& s.pixels@.len() == s.width * s.height
            &&& s.positions@.len() == labels@.len()
            &&& forall|i: int|
                0 <= i < labels@.len() ==> #[trigger] s.positions@[i].0 == label_x(labels@, i)
                    && s.positions@[i].1 == label_y(labels@, text_height, i)
            &&& forall|r: int, c: int|
                0 <= r < s.height && 0 <= c < s.width ==> s.pixels@[r * s.width + c]
                    == #[trigger] strip_value(labels@, text_height, labels@.len() as int, r, c)
        },
{
    if labels.len() == 0 {
        return None;
    }
    let ghost ls = labels@;
    let ghost th = text_height;
    let ghost n = ls.len() as int;
    proof {
        lemma_label_x_grows(ls, 0, n);
        lemma_le_mul(strip_width(ls), strip_height(th));
    }
    let mut total_w: u32 = LABEL_PADDING;
    let max_h: u32 = text_height + LABEL_PADDING * 2;
    let mut i: usize = 0;
    while i < labels.len()
        invariant
            ls == labels@,
            n == ls.len(),
            i <= n,
            total_w == label_x(ls, i as int),
            strip_width(ls) <= u32::MAX,
        decreases n - i,
    {
        proof {
            lemma_label_x_grows(ls, i + 1, n);
        }
        let w = if labels[i].width == 0 { 1 } else { labels[i].width };
        total_w = total_w + w + LABEL_PADDING;
        i = i + 1;
    }
    let atlas_w = total_w;
    let atlas_h = max_h;
    if atlas_w == 0 || atlas_h == 0 {
        return None;
    }
    let mut pixels: Vec<u8> = vec![0u8; (atlas_w * atlas_h) as usize];
    assert forall|r: int, c: int| 0 <= r < atlas_h && 0 <= c < atlas_w implies pixels@[r * atlas_w + c]
        == #[trigger] strip_value(ls, th, 0, r, c) by {
        lemma_index_in_range(r, c, atlas_w as int, atlas_h as int);
    }
    let mut positions: Vec<(u32, u32)> = Vec::new();
    let mut cursor_x = LABEL_PADDING;
    let center = atlas_h / 2;
    let mut k: usize = 0;
    while k < labels.len()
        invariant
            ls == labels@,
            th == text_height,
            n == ls.len(),
            can_pack(ls, th),
            k <= n,
            atlas_w == strip_width(ls),
            atlas_h == strip_height(th),
            center == atlas_h / 2,
            atlas_w * atlas_h <= u32::MAX,
            cursor_x == label_x(ls, k as int),
            pixels@.len() == atlas_w * atlas_h,
            positions@.len() == k,
            forall|j: int|
                0 <= j < k ==> #[trigger] positions@[j].0 == label_x(ls, j) && positions@[j].1
                    == label_y(ls, th, j),
            forall|r: int, c: int|
                0 <= r < atlas_h && 0 <= c < atlas_w ==> pixels@[r * atlas_w + c]
                    == #[trigger] strip_value(ls, th, k as int, r, c),
        decreases n - k,
    {
        proof {
            lemma_label_x_grows(ls, k + 1, n);
        }
        let lw = if labels[k].width == 0 { 1 } else { labels[k].width };
        let lh = if labels[k].height == 0 { 1 } else { labels[k].height };
        let y_offset: u32 = if center > lh / 2 { center - lh / 2 } else { 0 };
        draw_label(&mut pixels, labels, k, text_height, atlas_w, atlas_h, cursor_x, y_offset);
        positions.push((cursor_x, y_offset));
        cursor_x = cursor_x + lw + LABEL_PADDING;
        k = k + 1;
    }
    Some(LabelStrip { width: atlas_w, height: atlas_h, pixels, positions })
}

/// Glyphs placed one after the other do not overlap: the second one lies to
/// the right of the first on the same shelf, or on a shelf below it.
pub proof fn lemma_successive_glyphs_disjoint(
    a: GlyphAtlas,
    b: GlyphAtlas,
    w1: u32,
    h1: u32,
    w2: u32,
)
    requires
        b.width == a.width,
        (b.cursor_x as int, b.cursor_y as int, b.row_height as int) == a.cursor_after(w1, h1),
    ensures
        b.place_y(w2) >= a.place_y(w1),
        a.place_x(w1) + w1 < b.place_x(w2) || a.place_y(w1) + h1 < b.place_y(w2),
{
}

} // verus!
