//! RGBA bitmaps: tiles, canvases and finished frames share one layout,
//! four bytes per pixel, rows from the top, pixels from the left.

use vstd::prelude::*;

verus! {

/// One pixel: red, green, blue and opacity.
#[derive(Clone, Copy, Debug, PartialEq, Eq, Structural)]
pub struct Rgba {
    pub r: u8,
    pub g: u8,
    pub b: u8,
    pub a: u8,
}

/// What a bitmap is: its size and its bytes.
pub struct BitmapView {
    pub width: int,
    pub height: int,
    pub data: Seq<u8>,
}

impl BitmapView {
    /// The byte count that the size calls for.
    pub open spec fn byte_len(self) -> int {
        4 * self.width * self.height
    }

    /// Where the pixel in column `x` of row `y` starts among the bytes.
    pub open spec fn offset(self, x: int, y: int) -> int {
        4 * (y * self.width + x)
    }

    /// The pixel in column `x` of row `y`.
    pub open spec fn pixel(self, x: int, y: int) -> Rgba {
        let at = self.offset(x, y);
        Rgba { r: self.data[at], g: self.data[at + 1], b: self.data[at + 2], a: self.data[at + 3] }
    }

    /// Whether column `x` of row `y` lies on the bitmap.
    pub open spec fn holds(self, x: int, y: int) -> bool {
        0 <= x < self.width && 0 <= y < self.height
    }

    /// The bytes are exactly those of `width * height` pixels.
    pub open spec fn wf(self) -> bool {
        &&& 0 <= self.width <= u32::MAX
        &&& 0 <= self.height <= u32::MAX
        &&& self.data.len() == self.byte_len()
    }
}

/// The pixels on a bitmap start at distinct places inside its bytes.
pub proof fn lemma_offset_bounds(view: BitmapView, x: int, y: int)
    requires
        view.wf(),
        view.holds(x, y),
    ensures
        0 <= view.offset(x, y),
        view.offset(x, y) + 4 <= view.data.len(),
        view.offset(x, y) == 4 * (y * view.width) + 4 * x,
        0 <= y * view.width,
        4 * ((y + 1) * view.width) <= view.data.len(),
        4 * (y * view.width) + 4 * view.width <= view.data.len(),
{
    let w = view.width;
    let h = view.height;
    assert(0 <= y * w && y * w + w <= h * w && (y + 1) * w == y * w + w) by (nonlinear_arith)
        requires
            0 <= y < h,
            0 <= w,
    ;
    assert(4 * w * h == 4 * (h * w)) by (nonlinear_arith);
}

/// The fully transparent bitmap of a size: every byte zero.
pub open spec fn blank_view(width: int, height: int) -> BitmapView {
    BitmapView { width, height, data: Seq::new((4 * width * height) as nat, |k: int| 0u8) }
}

/// Every pixel of a blank bitmap is transparent black.
pub proof fn lemma_blank_pixel(width: int, height: int, x: int, y: int)
    requires
        0 <= width <= u32::MAX,
        0 <= height <= u32::MAX,
        blank_view(width, height).holds(x, y),
    ensures
        blank_view(width, height).wf(),
        blank_view(width, height).pixel(x, y) == (Rgba { r: 0, g: 0, b: 0, a: 0 }),
{
    let view = blank_view(width, height);
    assert(4 * width * height >= 0) by (nonlinear_arith)
        requires
            0 <= width,
            0 <= height,
    ;
    lemma_offset_bounds(view, x, y);
}

/// An RGBA image held in memory.
#[derive(Debug)]
pub struct Bitmap {
    width: u32,
    height: u32,
    pixels: Vec<u8>,
}

impl View for Bitmap {
    type V = BitmapView;

/// The size and the bytes.
    closed spec fn view(&self) -> BitmapView {
        BitmapView { width: self.width as int, height: self.height as int, data: self.pixels@ }
    }
}

impl Bitmap {
    /// The byte buffer matches the size. This holds of every bitmap.
    #[verifier::type_invariant]
    pub open spec fn wf(&self) -> bool {
        self@.wf()
    }

    /// A bitmap over `pixels`, which must hold four bytes for each pixel
    /// of a `width` by `height` image, neither fewer nor more.
    pub fn from_raw(width: u32, height: u32, pixels: Vec<u8>) -> (bitmap: Option<Bitmap>)
        ensures
            bitmap.is_some() <==> pixels@.len() == 4 * width * height,
            bitmap.is_some() ==> bitmap.unwrap()@ == (BitmapView {
                width: width as int,
                height: height as int,
                data: pixels@,
            }),
    {
        assert(4 * width * height == 4 * (width * height)) by (nonlinear_arith);
        assert(0 <= width * height <= 0xffff_ffff * 0xffff_ffff) by (nonlinear_arith)
            requires
                0 <= width <= 0xffff_ffff,
                0 <= height <= 0xffff_ffff,
        ;
        let area: u64 = (width as u64) * (height as u64);
        let needed: u128 = 4 * (area as u128);
        if pixels.len() as u128 == needed {
            Some(Bitmap { width, height, pixels })
        } else {
            None
        }
    }

    /// A fully transparent bitmap, every byte zero. `None` where the byte
    /// count does not fit the address space.
    pub fn blank(width: u32, height: u32) -> (bitmap: Option<Bitmap>)
        ensures
            bitmap.is_some() <==> 4 * width * height <= usize::MAX,
            bitmap.is_some() ==> bitmap.unwrap()@ == blank_view(width as int, height as int),
    {
        assert(4 * width * height == 4 * (width * height)) by (nonlinear_arith);
        assert(0 <= width * height <= 0xffff_ffff * 0xffff_ffff) by (nonlinear_arith)
            requires
                0 <= width <= 0xffff_ffff,
                0 <= height <= 0xffff_ffff,
        ;
        let area: u64 = (width as u64) * (height as u64);
        let needed: u128 = 4 * (area as u128);
        if needed > usize::MAX as u128 {
            return None;
        }
        let len: usize = needed as usize;
        let mut pixels: Vec<u8> = Vec::new();
        let mut filled: usize = 0;
        while filled < len
            invariant
                filled <= len,
                pixels@.len() == filled,
                forall|i: int| 0 <= i < pixels@.len() ==> #[trigger] pixels@[i] == 0,
            decreases len - filled,
        {
            pixels.push(0);
            filled = filled + 1;
        }
        assert(pixels@ =~= blank_view(width as int, height as int).data);
        Some(Bitmap { width, height, pixels })
    }

    /// Width in pixels.
    pub fn width(&self) -> (w: u32)
        ensures
            w == self@.width,
    {
        self.width
    }

    /// Height in pixels.
    pub fn height(&self) -> (h: u32)
        ensures
            h == self@.height,
    {
        self.height
    }

    /// The bytes, four per pixel, rows from the top.
    pub fn as_raw(&self) -> (bytes: &Vec<u8>)
        ensures
            bytes@ == self@.data,
    {
        &self.pixels
    }

    /// Gives up the bitmap for its bytes.
    pub fn into_raw(self) -> (bytes: Vec<u8>)
        ensures
            bytes@ == self@.data,
    {
        self.pixels
    }

/// Where the pixel in column `x` of row `y` starts among the bytes.
    fn index(&self, x: u32, y: u32) -> (at: usize)
        requires
            self@.holds(x as int, y as int),
        ensures
            at == self@.offset(x as int, y as int),
            at + 4 <= self@.data.len(),
    {
        let len = self.pixels.len();
        proof {
            use_type_invariant(self);
            lemma_offset_bounds(self@, x as int, y as int);
        }
        let row: usize = (y as usize) * (self.width as usize);
        4 * (row + x as usize)
    }

    /// Reads the pixel in column `x` of row `y`; `None` off the bitmap.
    pub fn get_pixel(&self, x: u32, y: u32) -> (pixel: Option<Rgba>)
        ensures
            pixel == if self@.holds(x as int, y as int) {
                Some(self@.pixel(x as int, y as int))
            } else {
                None
            },
    {
        if x >= self.width || y >= self.height {
            return None;
        }
        let at = self.index(x, y);
        Some(
            Rgba {
                r: self.pixels[at],
                g: self.pixels[at + 1],
                b: self.pixels[at + 2],
                a: self.pixels[at + 3],
            },
        )
    }

    /// Overwrites the pixel in column `x` of row `y`. Off the bitmap
    /// nothing is written.
    pub fn put_pixel(&mut self, x: u32, y: u32, color: Rgba)
        ensures
            final(self).wf(),
            final(self)@ == put(old(self)@, x as int, y as int, color),
    {
        proof {
            use_type_invariant(&*self);
        }
        if x >= self.width || y >= self.height {
            return ;
        }
        let at = self.index(x, y);
        self.pixels[at] = color.r;
        self.pixels[at + 1] = color.g;
        self.pixels[at + 2] = color.b;
        self.pixels[at + 3] = color.a;
        assert(self@.data =~= put(old(self)@, x as int, y as int, color).data);
    }
}

/// `view` with the pixel in column `x` of row `y` replaced by `color`;
/// `view` itself where that place is off the bitmap.
pub open spec fn put(view: BitmapView, x: int, y: int, color: Rgba) -> BitmapView {
    if view.holds(x, y) {
        let at = view.offset(x, y);
        BitmapView {
            data: view.data.update(at, color.r).update(at + 1, color.g).update(
                at + 2,
                color.b,
            ).update(at + 3, color.a),
            ..view
        }
    } else {
        view
    }
}

/// The smaller of two integers.
pub open spec fn least(a: int, b: int) -> int {
    if a <= b {
        a
    } else {
        b
    }
}

/// The part of `view` inside the rectangle that starts in column `x` of
/// row `y` and is `width` by `height` pixels large. A rectangle that
/// reaches past the right or lower edge is cut off there.
pub open spec fn cropped(view: BitmapView, x: int, y: int, width: int, height: int) -> BitmapView {
    let x0 = least(x, view.width);
    let y0 = least(y, view.height);
    let w = least(width, view.width - x0);
    let h = least(height, view.height - y0);
    let stride = 4 * w;
    BitmapView {
        width: w,
        height: h,
        data: Seq::new(
            (stride * h) as nat,
            |k: int| view.data[4 * ((y0 + k / stride) * view.width + x0) + k % stride],
        ),
    }
}

/// A byte's row and its place within the row, from its place among all bytes.
proof fn lemma_row_split(k: int, stride: int, row: int, within: int)
    requires
        0 <= within < stride,
        0 <= row,
        k == row * stride + within,
    ensures
        k / stride == row,
        k % stride == within,
{
    vstd::arithmetic::div_mod::lemma_fundamental_div_mod_converse(k, stride, row, within);
}

/// A crop is a bitmap in its own right.
pub proof fn lemma_cropped_wf(view: BitmapView, x: int, y: int, width: int, height: int)
    requires
        view.wf(),
        0 <= x,
        0 <= y,
        0 <= width <= u32::MAX,
        0 <= height <= u32::MAX,
    ensures
        cropped(view, x, y, width, height).wf(),
{
    let out = cropped(view, x, y, width, height);
    let w = out.width;
    let h = out.height;
    assert(4 * w * h == (4 * w) * h && (4 * w) * h >= 0) by (nonlinear_arith)
        requires
            w >= 0,
            h >= 0,
    ;
}

/// A crop is a bitmap in its own right, and each of its pixels is the
/// pixel of the source that lies under it.
pub proof fn lemma_cropped_pixel(
    view: BitmapView,
    x: int,
    y: int,
    width: int,
    height: int,
    i: int,
    j: int,
)
    requires
        view.wf(),
        0 <= x,
        0 <= y,
        0 <= width <= u32::MAX,
        0 <= height <= u32::MAX,
        cropped(view, x, y, width, height).holds(i, j),
    ensures
        cropped(view, x, y, width, height).wf(),
        view.holds(x + i, y + j),
        cropped(view, x, y, width, height).pixel(i, j) == view.pixel(x + i, y + j),
{
    let out = cropped(view, x, y, width, height);
    let w = out.width;
    let h = out.height;
    let stride = 4 * w;
    assert(4 * w * h == stride * h) by (nonlinear_arith)
        requires
            stride == 4 * w,
    ;
    assert(stride * h >= 0) by (nonlinear_arith)
        requires
            stride >= 0,
            h >= 0,
    ;
    lemma_offset_bounds(out, i, j);
    lemma_offset_bounds(view, x + i, y + j);
    assert(j * stride == 4 * (j * w)) by (nonlinear_arith)
        requires
            stride == 4 * w,
    ;
    assert forall|t: int| 0 <= t < 4 implies #[trigger] out.data[out.offset(i, j) + t]
        == view.data[view.offset(x + i, y + j) + t] by {
        lemma_row_split(out.offset(i, j) + t, stride, j, 4 * i + t);
    }
    assert(out.data[out.offset(i, j) + 0] == view.data[view.offset(x + i, y + j) + 0]);
    assert(out.data[out.offset(i, j) + 1] == view.data[view.offset(x + i, y + j) + 1]);
    assert(out.data[out.offset(i, j) + 2] == view.data[view.offset(x + i, y + j) + 2]);
    assert(out.data[out.offset(i, j) + 3] == view.data[view.offset(x + i, y + j) + 3]);
}

impl Bitmap {
    /// Copies out the rectangle that starts in column `x` of row `y` and is
    /// `width` by `height` pixels large, cut off at the bitmap's edges.
    pub fn crop(&self, x: u32, y: u32, width: u32, height: u32) -> (out: Bitmap)
        ensures
            out.wf(),
            out@ == cropped(self@, x as int, y as int, width as int, height as int),
    {
        proof {
            use_type_invariant(self);
        }
        let x0: u32 = if x <= self.width {
            x
        } else {
            self.width
        };
        let y0: u32 = if y <= self.height {
            y
        } else {
            self.height
        };
        let w: u32 = if width <= self.width - x0 {
            width
        } else {
            self.width - x0
        };
        let h: u32 = if height <= self.height - y0 {
            height
        } else {
            self.height - y0
        };
        let len = self.pixels.len();
        let ghost target = cropped(self@, x as int, y as int, width as int, height as int);
        let ghost src = self@;
        proof {
            assert(0 <= w * h <= src.width * src.height) by (nonlinear_arith)
                requires
                    0 <= w <= src.width,
                    0 <= h <= src.height,
            ;
            assert(4 * src.width * src.height == 4 * (src.width * src.height))
                by (nonlinear_arith);
            assert((4 * w) * h == 4 * (w * h)) by (nonlinear_arith);
        }
        let mut pixels: Vec<u8> = Vec::new();
        if w == 0 || h == 0 {
            assert(4 * w * h == 0 && (4 * w) * h == 0) by (nonlinear_arith)
                requires
                    w == 0 || h == 0,
            ;
            assert(target.data =~= pixels@);
            return Bitmap { width: w, height: h, pixels };
        }
        proof {
            assert(w <= w * h) by (nonlinear_arith)
                requires
                    0 <= w,
                    1 <= h,
            ;
        }
        let stride: usize = 4 * (w as usize);
        let mut row: u32 = 0;
        while row < h
            invariant
                self.wf(),
                src == self@,
                len == src.data.len(),
                x0 == least(x as int, src.width),
                y0 == least(y as int, src.height),
                w == least(width as int, src.width - x0),
                h == least(height as int, src.height - y0),
                w > 0,
                stride == 4 * w,
                row <= h,
                pixels@.len() == row * stride,
                forall|k: int|
                    0 <= k < pixels@.len() ==> #[trigger] pixels@[k] == src.data[4 * ((y0 + k
                        / (stride as int)) * src.width + x0) + k % (stride as int)],
            decreases h - row,
        {
            proof {
                lemma_offset_bounds(src, x0 as int, y0 + row);
            }
            let start: usize = 4 * ((y0 as usize + row as usize) * (self.width as usize)
                + x0 as usize);
            let mut within: usize = 0;
            while within < stride
                invariant
                    self.wf(),
                    src == self@,
                    len == src.data.len(),
                    w > 0,
                    x0 + w <= src.width,
                    y0 + row < src.height,
                    stride == 4 * w,
                    row < h,
                    within <= stride,
                    start == 4 * ((y0 + row) * src.width + x0),
                    start + stride <= len,
                    pixels@.len() == row * stride + within,
                    forall|k: int|
                        0 <= k < pixels@.len() ==> #[trigger] pixels@[k] == src.data[4 * ((y0 + k
                            / (stride as int)) * src.width + x0) + k % (stride as int)],
                decreases stride - within,
            {
                proof {
                    lemma_row_split(row * stride + within, stride as int, row as int, within as int);
                }
                pixels.push(self.pixels[start + within]);
                within = within + 1;
            }
            proof {
                assert(row * stride + stride == (row + 1) * stride) by (nonlinear_arith);
            }
            row = row + 1;
        }
        proof {
            assert((4 * w) * h == h * (4 * w)) by (nonlinear_arith);
            assert(pixels@ =~= target.data);
        }
        Bitmap { width: w, height: h, pixels }
    }
}

/// Whether the offset `(dx, dy)` from a disc's middle lies on the disc.
pub open spec fn in_disc(dx: int, dy: int, radius: int) -> bool {
    dx * dx + dy * dy <= radius * radius
}

/// One of the four bytes of a colour, in the order they are stored.
pub open spec fn channel(color: Rgba, c: int) -> u8 {
    if c == 0 {
        color.r
    } else if c == 1 {
        color.g
    } else if c == 2 {
        color.b
    } else {
        color.a
    }
}

/// The column of the pixel that byte `k` belongs to.
pub open spec fn column_of(view: BitmapView, k: int) -> int {
    (k / 4) % view.width
}

/// The row of the pixel that byte `k` belongs to.
pub open spec fn row_of(view: BitmapView, k: int) -> int {
    (k / 4) / view.width
}

/// `view` with a filled disc of `color` around column `cx` of row `cy`:
/// every pixel of the bitmap within `radius` of the middle takes the
/// colour, every other pixel stays.
pub open spec fn marked(view: BitmapView, cx: int, cy: int, radius: int, color: Rgba) -> BitmapView {
    BitmapView {
        data: Seq::new(
            view.data.len(),
            |k: int|
                if in_disc(column_of(view, k) - cx, row_of(view, k) - cy, radius) {
                    channel(color, k % 4)
                } else {
                    view.data[k]
                },
        ),
        ..view
    }
}

/// The disc as far as it has been painted when the scan stands before
/// column `x` of row `y`.
spec fn painted_before(view: BitmapView, k: int, x: int, y: int, cx: int, cy: int, radius: int) -> bool {
    let px = column_of(view, k);
    let py = row_of(view, k);
    (py < y || (py == y && px < x)) && in_disc(px - cx, py - cy, radius)
}

/// Every byte belongs to a pixel on the bitmap, as the channel `k % 4` of it.
proof fn lemma_byte_place(view: BitmapView, k: int)
    requires
        view.wf(),
        0 <= k < view.data.len(),
    ensures
        view.holds(column_of(view, k), row_of(view, k)),
        view.offset(column_of(view, k), row_of(view, k)) + k % 4 == k,
        0 <= k % 4 < 4,
{
    let w = view.width;
    let h = view.height;
    let p = k / 4;
    assert(4 * w * h == 4 * (w * h)) by (nonlinear_arith);
    assert(0 <= p < w * h);
    assert(w > 0) by (nonlinear_arith)
        requires
            0 <= w,
            0 < w * h,
    ;
    vstd::arithmetic::div_mod::lemma_fundamental_div_mod(p, w);
    vstd::arithmetic::div_mod::lemma_mod_bound(p, w);
    let row = p / w;
    let col = p % w;
    assert(w * row == row * w) by (nonlinear_arith);
    assert(0 <= row < h) by (nonlinear_arith)
        requires
            0 <= p < w * h,
            p == w * row + col,
            0 <= col < w,
            0 <= h,
    ;
}

/// The bytes of a pixel are the four from its offset on, and no others.
proof fn lemma_pixel_bytes(view: BitmapView, x: int, y: int, k: int)
    requires
        view.wf(),
        view.holds(x, y),
        0 <= k < view.data.len(),
    ensures
        (column_of(view, k) == x && row_of(view, k) == y) <==> (view.offset(x, y) <= k
            < view.offset(x, y) + 4),
{
    lemma_byte_place(view, k);
    let at = view.offset(x, y);
    if at <= k < at + 4 {
        assert(k / 4 == y * view.width + x);
        vstd::arithmetic::div_mod::lemma_fundamental_div_mod_converse(
            k / 4,
            view.width,
            y,
            x,
        );
    }
}

/// Outside the square around a disc nothing lies on the disc.
proof fn lemma_off_disc(dx: int, dy: int, radius: int)
    requires
        0 <= radius,
        dx < -radius || dx > radius || dy < -radius || dy > radius,
    ensures
        !in_disc(dx, dy, radius),
{
    assert(dx * dx >= 0 && dy * dy >= 0) by (nonlinear_arith);
    if dx < -radius || dx > radius {
        assert(dx * dx > radius * radius) by (nonlinear_arith)
            requires
                0 <= radius,
                dx < -radius || dx > radius,
        ;
    } else {
        assert(dy * dy > radius * radius) by (nonlinear_arith)
            requires
                0 <= radius,
                dy < -radius || dy > radius,
        ;
    }
}

/// After marking, each pixel on the disc has the marker's colour and each
/// pixel off it is what it was.
pub proof fn lemma_marked_pixel(
    view: BitmapView,
    cx: int,
    cy: int,
    radius: int,
    color: Rgba,
    x: int,
    y: int,
)
    requires
        view.wf(),
        view.holds(x, y),
    ensures
        marked(view, cx, cy, radius, color).wf(),
        marked(view, cx, cy, radius, color).pixel(x, y) == if in_disc(x - cx, y - cy, radius) {
            color
        } else {
            view.pixel(x, y)
        },
{
    let out = marked(view, cx, cy, radius, color);
    lemma_offset_bounds(view, x, y);
    let at = view.offset(x, y);
    lemma_pixel_bytes(view, x, y, at);
    lemma_pixel_bytes(view, x, y, at + 1);
    lemma_pixel_bytes(view, x, y, at + 2);
    lemma_pixel_bytes(view, x, y, at + 3);
    assert(column_of(view, at + 0) == x && row_of(view, at + 0) == y && (at + 0) % 4 == 0);
    assert(column_of(view, at + 1) == x && row_of(view, at + 1) == y && (at + 1) % 4 == 1);
    assert(column_of(view, at + 2) == x && row_of(view, at + 2) == y && (at + 2) % 4 == 2);
    assert(column_of(view, at + 3) == x && row_of(view, at + 3) == y && (at + 3) % 4 == 3);
}

/// Absolute difference of two coordinates.
fn span(a: u32, b: u32) -> (d: u64)
    ensures
        d == if a >= b {
            a - b
        } else {
            b - a
        },
{
    if a >= b {
        (a - b) as u64
    } else {
        (b - a) as u64
    }
}

/// Whether the pixel in column `x` of row `y` lies within `radius` of the
/// pixel in column `cx` of row `cy`.
pub fn within_disc(x: u32, y: u32, cx: u32, cy: u32, radius: u32) -> (inside: bool)
    ensures
        inside == in_disc(x - cx, y - cy, radius as int),
{
    let dx = span(x, cx);
    let dy = span(y, cy);
    proof {
        assert(dx * dx == (x - cx) * (x - cx)) by (nonlinear_arith)
            requires
                dx == x - cx || dx == cx - x,
        ;
        assert(dy * dy == (y - cy) * (y - cy)) by (nonlinear_arith)
            requires
                dy == y - cy || dy == cy - y,
        ;
        assert(0 <= dx * dx <= 0xffff_ffff * 0xffff_ffff) by (nonlinear_arith)
            requires
                0 <= dx <= 0xffff_ffff,
        ;
        assert(0 <= dy * dy <= 0xffff_ffff * 0xffff_ffff) by (nonlinear_arith)
            requires
                0 <= dy <= 0xffff_ffff,
        ;
        assert(0 <= radius * radius <= 0xffff_ffff * 0xffff_ffff) by (nonlinear_arith)
            requires
                0 <= radius <= 0xffff_ffff,
        ;
    }
    let reach: u128 = (radius as u128) * (radius as u128);
    let distance: u128 = (dx as u128) * (dx as u128) + (dy as u128) * (dy as u128);
    distance <= reach
}

impl Bitmap {
    /// Paints a filled disc of `color` with its middle in column `cx` of
    /// row `cy`. The part of the disc that lies off the bitmap is dropped.
    pub fn draw_marker(&mut self, cx: u32, cy: u32, radius: u32, color: Rgba)
        ensures
            final(self).wf(),
            final(self)@ == marked(old(self)@, cx as int, cy as int, radius as int, color),
    {
        let ghost before = self@;
        proof {
            use_type_invariant(&*self);
        }
        let x_lo: u32 = if cx >= radius {
            cx - radius
        } else {
            0
        };
        let y_lo: u32 = if cy >= radius {
            cy - radius
        } else {
            0
        };
        let x_reach: u64 = cx as u64 + radius as u64 + 1;
        let y_reach: u64 = cy as u64 + radius as u64 + 1;
        let x_hi: u32 = if x_reach < self.width as u64 {
            x_reach as u32
        } else {
            self.width
        };
        let y_hi: u32 = if y_reach < self.height as u64 {
            y_reach as u32
        } else {
            self.height
        };
        let mut y: u32 = y_lo;
        proof {
            assert forall|k: int| 0 <= k < before.data.len() implies !painted_before(
                before,
                k,
                0,
                y_lo as int,
                cx as int,
                cy as int,
                radius as int,
            ) by {
                lemma_byte_place(before, k);
                if row_of(before, k) < y_lo {
                    lemma_off_disc(
                        column_of(before, k) - cx,
                        row_of(before, k) - cy,
                        radius as int,
                    );
                }
            }
        }
        while y < y_hi
            invariant
                self.wf(),
                before.wf(),
                self@.width == before.width,
                self@.height == before.height,
                self@.data.len() == before.data.len(),
                x_lo == if cx >= radius {
                    cx - radius
                } else {
                    0
                },
                x_hi == least(cx + radius + 1, before.width),
                y_hi == least(cy + radius + 1, before.height),
                y_lo <= y,
                y <= y_hi || y_hi < y_lo,
                forall|k: int|
                    0 <= k < before.data.len() ==> #[trigger] self@.data[k] == if painted_before(
                        before,
                        k,
                        0,
                        y as int,
                        cx as int,
                        cy as int,
                        radius as int,
                    ) {
                        channel(color, k % 4)
                    } else {
                        before.data[k]
                    },
            decreases y_hi - y,
        {
            let mut x: u32 = x_lo;
            proof {
                assert forall|k: int| 0 <= k < before.data.len() implies (painted_before(
                    before,
                    k,
                    x_lo as int,
                    y as int,
                    cx as int,
                    cy as int,
                    radius as int,
                ) <==> painted_before(
                    before,
                    k,
                    0,
                    y as int,
                    cx as int,
                    cy as int,
                    radius as int,
                )) by {
                    lemma_byte_place(before, k);
                    if column_of(before, k) < x_lo {
                        lemma_off_disc(
                            column_of(before, k) - cx,
                            row_of(before, k) - cy,
                            radius as int,
                        );
                    }
                }
            }
            while x < x_hi
                invariant
                    self.wf(),
                    before.wf(),
                    self@.width == before.width,
                    self@.height == before.height,
                    self@.data.len() == before.data.len(),
                    x_hi == least(cx + radius + 1, before.width),
                    y < y_hi,
                    y_hi <= before.height,
                    x_lo <= x,
                    x <= x_hi || x_hi < x_lo,
                    forall|k: int|
                        0 <= k < before.data.len() ==> #[trigger] self@.data[k]
                            == if painted_before(
                            before,
                            k,
                            x as int,
                            y as int,
                            cx as int,
                            cy as int,
                            radius as int,
                        ) {
                            channel(color, k % 4)
                        } else {
                            before.data[k]
                        },
                decreases x_hi - x,
            {
                let ghost current = self@;
                let inside = within_disc(x, y, cx, cy, radius);
                if inside {
                    self.put_pixel(x, y, color);
                }
                proof {
                    let at = before.offset(x as int, y as int);
                    lemma_offset_bounds(before, x as int, y as int);
                    assert forall|k: int| 0 <= k < before.data.len() implies #[trigger] self@.data[k]
                        == if painted_before(
                        before,
                        k,
                        x + 1,
                        y as int,
                        cx as int,
                        cy as int,
                        radius as int,
                    ) {
                        channel(color, k % 4)
                    } else {
                        before.data[k]
                    } by {
                        lemma_pixel_bytes(before, x as int, y as int, k);
                        lemma_byte_place(before, k);
                        assert(current.data[k] == if painted_before(
                            before,
                            k,
                            x as int,
                            y as int,
                            cx as int,
                            cy as int,
                            radius as int,
                        ) {
                            channel(color, k % 4)
                        } else {
                            before.data[k]
                        });
                        assert(current.offset(x as int, y as int) == at);
                    }
                }
                x = x + 1;
            }
            proof {
                assert forall|k: int| 0 <= k < before.data.len() implies (painted_before(
                    before,
                    k,
                    x as int,
                    y as int,
                    cx as int,
                    cy as int,
                    radius as int,
                ) <==> painted_before(
                    before,
                    k,
                    0,
                    y + 1,
                    cx as int,
                    cy as int,
                    radius as int,
                )) by {
                    lemma_byte_place(before, k);
                    if column_of(before, k) >= x {
                        lemma_off_disc(
                            column_of(before, k) - cx,
                            row_of(before, k) - cy,
                            radius as int,
                        );
                    }
                }
            }
            y = y + 1;
        }
        proof {
            let target = marked(before, cx as int, cy as int, radius as int, color);
            assert forall|k: int| 0 <= k < before.data.len() implies self@.data[k]
                == target.data[k] by {
                lemma_byte_place(before, k);
                if row_of(before, k) >= y {
                    lemma_off_disc(
                        column_of(before, k) - cx,
                        row_of(before, k) - cy,
                        radius as int,
                    );
                }
            }
            assert(self@.data =~= target.data);
        }
    }
}

/// What `image::imageops::overlay` leaves in the buffer of the bottom
/// image: `bottom` with `top` blended onto it, the top-left corner of `top`
/// in column `x` of row `y` of `bottom`.
pub uninterp spec fn overlaid(
    bottom: Seq<u8>,
    bottom_width: u32,
    bottom_height: u32,
    top: Seq<u8>,
    top_width: u32,
    top_height: u32,
    x: i64,
    y: i64,
) -> Seq<u8>;

/// Whether a bitmap has any pixel.
pub open spec fn has_pixels(view: BitmapView) -> bool {
    view.width > 0 && view.height > 0
}

/// `bottom` with `top` blended onto it at column `x` of row `y`. Where
/// either has no pixel there is nothing to blend, and `bottom` stays.
pub open spec fn overlay_spec(bottom: BitmapView, top: BitmapView, x: i64, y: i64) -> BitmapView {
    if has_pixels(bottom) && has_pixels(top) {
        BitmapView {
            data: overlaid(
                bottom.data,
                bottom.width as u32,
                bottom.height as u32,
                top.data,
                top.width as u32,
                top.height as u32,
                x,
                y,
            ),
            ..bottom
        }
    } else {
        bottom
    }
}

/// The bitmap of a size over a buffer.
pub open spec fn raw_bitmap(width: u32, height: u32, data: Seq<u8>) -> BitmapView {
    BitmapView { width: width as int, height: height as int, data }
}

/// Whether `top`, laid with its corner in column `x` of row `y`, leaves
/// the pixel in column `px` of row `py` alone: it does not reach that far,
/// or its pixel there is fully transparent.
pub open spec fn spares(top: BitmapView, x: i64, y: i64, px: int, py: int) -> bool {
    !top.holds(px - x, py - y) || top.pixel(px - x, py - y).a == 0
}

/// Whether `top`, laid with its corner in column `x` of row `y`, has a
/// fully opaque pixel over column `px` of row `py`.
pub open spec fn hides(top: BitmapView, x: i64, y: i64, px: int, py: int) -> bool {
    top.holds(px - x, py - y) && top.pixel(px - x, py - y).a == 255
}

/// What is known of the pixels of `out`, the overlay of `top` on `bottom`
/// at column `x` of row `y`, without going into the blend: a pixel that
/// `top` spares is the pixel of `bottom`, and a pixel that `top` hides is
/// the pixel of `top`. Of a pixel under a half-transparent one nothing is
/// said here.
pub open spec fn overlay_known(
    bottom: BitmapView,
    top: BitmapView,
    x: i64,
    y: i64,
    out: BitmapView,
) -> bool {
    &&& forall|px: int, py: int|
        bottom.holds(px, py) && spares(top, x, y, px, py) ==> #[trigger] out.pixel(px, py)
            == bottom.pixel(px, py)
    &&& forall|px: int, py: int|
        bottom.holds(px, py) && hides(top, x, y, px, py) ==> #[trigger] out.pixel(px, py)
            == top.pixel(px - x, py - y)
}

/// Wraps both buffers as RGBA images of the given sizes and calls
/// `image::imageops::overlay` on them. Trusted: the buffer that comes back
/// depends on the arguments alone, so it is `overlaid` of them, and it has
/// the length that went in, since the call writes pixels in place. The call
/// visits the pixels of the bottom image that the top image reaches and
/// blends each with the pixel above it; the blend keeps the lower pixel
/// under alpha 0 and takes the upper one under alpha 255, which is
/// `overlay_known`. Both images must have a row: `ImageBuffer::from_raw`
/// multiplies four by the width before it looks at the height, so for an
/// image without rows that product could leave the address space, while
/// with a row it is bounded by the buffer's length.
#[verifier::external_body]
fn overlay_rgba(
    bottom: Vec<u8>,
    bottom_width: u32,
    bottom_height: u32,
    top: &[u8],
    top_width: u32,
    top_height: u32,
    x: i64,
    y: i64,
) -> (out: Vec<u8>)
    requires
        bottom@.len() == 4 * bottom_width * bottom_height,
        top@.len() == 4 * top_width * top_height,
        bottom_height > 0,
        top_height > 0,
    ensures
        out@ == overlaid(
            bottom@,
            bottom_width,
            bottom_height,
            top@,
            top_width,
            top_height,
            x,
            y,
        ),
        out@.len() == bottom@.len(),
        overlay_known(
            raw_bitmap(bottom_width, bottom_height, bottom@),
            raw_bitmap(top_width, top_height, top@),
            x,
            y,
            raw_bitmap(bottom_width, bottom_height, out@),
        ),
{
    let mut canvas = image::RgbaImage::from_raw(bottom_width, bottom_height, bottom).unwrap();
    let tile = image::ImageBuffer::<image::Rgba<u8>, &[u8]>::from_raw(top_width, top_height, top)
        .unwrap();
    image::imageops::overlay(&mut canvas, &tile, x, y);
    canvas.into_raw()
}

impl Bitmap {
    /// Blends `top` onto this bitmap, the top-left corner of `top` in column
    /// `x` of row `y`; what falls off the bitmap is dropped. The size stays,
    /// a pixel that `top` does not reach or holds transparent stays, and a
    /// pixel under an opaque one becomes that one. Where either bitmap has
    /// no pixel, this bitmap comes back as it is.
    pub fn overlay(self, top: &Bitmap, x: i64, y: i64) -> (out: Bitmap)
        ensures
            out@ == overlay_spec(self@, top@, x, y),
            out@.width == self@.width,
            out@.height == self@.height,
            overlay_known(self@, top@, x, y, out@),
    {
        proof {
            use_type_invariant(&self);
            use_type_invariant(top);
        }
        let width = self.width;
        let height = self.height;
        if width == 0 || height == 0 || top.width == 0 || top.height == 0 {
            return self;
        }
        let pixels = overlay_rgba(
            self.pixels,
            width,
            height,
            top.pixels.as_slice(),
            top.width,
            top.height,
            x,
            y,
        );
        let out = Bitmap { width, height, pixels };
        proof {
            assert(out@ == raw_bitmap(width, height, pixels@));
            assert(self@ == raw_bitmap(width, height, self.pixels@));
            assert(top@ == raw_bitmap(top.width, top.height, top.pixels@));
        }
        out
    }
}

} // verus!
