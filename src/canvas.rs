use vstd::prelude::*;
use vstd::arithmetic::div_mod::{lemma_div_pos_is_pos, lemma_fundamental_div_mod, lemma_mod_pos_bound};

verus! {

/// An RGBA colour, one byte per channel.
#[derive(Clone, Copy, Debug, PartialEq, Eq, Structural)]
pub struct Rgba {
    pub r: u8,
    pub g: u8,
    pub b: u8,
    pub a: u8,
}

impl Rgba {
    /// The colour whose four channels are all zero: what a fresh canvas holds.
    pub open spec fn zero() -> Rgba {
        Rgba { r: 0, g: 0, b: 0, a: 0 }
    }

    /// Channel `c` (0 = red, 1 = green, 2 = blue, 3 = alpha).
    pub open spec fn channel(self, c: int) -> u8 {
        if c == 0 {
            self.r
        } else if c == 1 {
            self.g
        } else if c == 2 {
            self.b
        } else {
            self.a
        }
    }
}

} // verus!

verus! {

/// Offset of channel `c` of the pixel at (`col`, `row`) in a row-major RGBA
/// buffer whose rows are `width` pixels long.
pub open spec fn byte_index(width: int, col: int, row: int, c: int) -> int {
    (row * width + col) * 4 + c
}

/// Whether the square dot of side `size` whose top-left corner is (`x`, `y`)
/// covers the pixel at (`col`, `row`).
pub open spec fn covers(x: int, y: int, size: int, col: int, row: int) -> bool {
    x <= col < x + size && y <= row < y + size
}

/// Whether the whole dot lies on a `width` by `height` canvas.
pub open spec fn dot_inside(width: int, height: int, x: int, y: int, size: int) -> bool {
    0 <= x && 0 <= y && x + size <= width && y + size <= height
}

/// The pixel at (`col`, `row`) lies on a `width` by `height` canvas.
pub open spec fn on_canvas(width: int, height: int, col: int, row: int) -> bool {
    0 <= col < width && 0 <= row < height
}

/// A rectangular RGBA pixel buffer: `width * height` pixels, row-major,
/// four bytes per pixel in the order red, green, blue, alpha.
pub struct Canvas {
    width: u32,
    height: u32,
    data: Vec<u8>,
}

/// Error raised when a canvas cannot be allocated: its byte length does not
/// fit in the address space.
#[derive(Clone, Copy, Debug, PartialEq, Eq, Structural)]
pub struct AllocationError;

impl Canvas {
    /// Width in pixels.
    pub closed spec fn cols(&self) -> nat {
        self.width as nat
    }

    /// Height in pixels.
    pub closed spec fn rows(&self) -> nat {
        self.height as nat
    }

    /// The buffer's bytes.
    pub closed spec fn bytes(&self) -> Seq<u8> {
        self.data@
    }

    /// The buffer holds exactly four bytes for each pixel.
    pub open spec fn wf(&self) -> bool {
        self.bytes().len() == self.cols() * self.rows() * 4
    }

    /// The colour of the pixel at (`col`, `row`).
    pub open spec fn pixel(&self, col: int, row: int) -> Rgba {
        let w = self.cols() as int;
        Rgba {
            r: self.bytes()[byte_index(w, col, row, 0)],
            g: self.bytes()[byte_index(w, col, row, 1)],
            b: self.bytes()[byte_index(w, col, row, 2)],
            a: self.bytes()[byte_index(w, col, row, 3)],
        }
    }

    /// Every pixel of the canvas holds the all-zero colour.
    pub open spec fn is_blank(&self) -> bool {
        forall|col: int, row: int|
            on_canvas(self.cols() as int, self.rows() as int, col, row) ==> #[trigger] self.pixel(
                col,
                row,
            ) == Rgba::zero()
    }

    /// `after` is `before` with the dot of side `size` at (`x`, `y`) painted in
    /// `color`: covered pixels hold `color`, every other pixel is unchanged.
    pub open spec fn dot_written(
        before: Canvas,
        after: Canvas,
        x: int,
        y: int,
        color: Rgba,
        size: int,
    ) -> bool {
        &&& after.wf()
        &&& after.cols() == before.cols()
        &&& after.rows() == before.rows()
        &&& forall|col: int, row: int|
            on_canvas(before.cols() as int, before.rows() as int, col, row) ==> #[trigger] after.pixel(
                col,
                row,
            ) == if covers(x, y, size, col, row) {
                color
            } else {
                before.pixel(col, row)
            }
    }

    /// A blank canvas of `width` by `height` pixels; fails when its byte
    /// length `width * height * 4` exceeds `usize::MAX`.
    pub fn new(width: u32, height: u32) -> (r: Result<Canvas, AllocationError>)
        ensures
            r is Ok <==> width as int * height as int * 4 <= usize::MAX,
            r matches Ok(c) ==> c.wf() && c.cols() == width && c.rows() == height && c.is_blank(),
    {
        let len = (width as u64).checked_mul(height as u64);
        let len = match len {
            Some(l) => l.checked_mul(4),
            None => None,
        };
        match len {
            Some(l) => {
                if l > usize::MAX as u64 {
                    return Err(AllocationError);
                }
                let data: Vec<u8> = vec![0u8; l as usize];
                let c = Canvas { width, height, data };
                assert forall|col: int, row: int|
                    on_canvas(width as int, height as int, col, row) implies #[trigger] c.pixel(
                        col,
                        row,
                    ) == Rgba::zero() by {
                    lemma_pixel_in_buffer(width as int, height as int, col, row);
                }
                Ok(c)
            },
            None => {
                proof {
                    assert(width as int * height as int * 4 > usize::MAX) by (nonlinear_arith)
                        requires
                            (width as int * height as int > u64::MAX || width as int * height as int * 4 > u64::MAX),
                            usize::MAX <= u64::MAX,
                    ;
                }
                Err(AllocationError)
            },
        }
    }

    /// Sets the pixel at (`col`, `row`), which lies on the canvas, to `color`.
    fn put_pixel(&mut self, col: u32, row: u32, color: Rgba)
        requires
            old(self).wf(),
            on_canvas(old(self).cols() as int, old(self).rows() as int, col as int, row as int),
        ensures
            Canvas::dot_written(*old(self), *final(self), col as int, row as int, color, 1),
    {
        let ghost before = *self;
        let ghost w = self.width as int;
        proof {
            lemma_pixel_in_buffer(w, self.height as int, col as int, row as int);
        }
        let len = self.data.len();
        assert(len == w * before.rows() * 4);
        let base: usize = (row as usize * self.width as usize + col as usize) * 4;
        self.data.set(base, color.r);
        self.data.set(base + 1, color.g);
        self.data.set(base + 2, color.b);
        self.data.set(base + 3, color.a);
        assert forall|c: int, r: int|
            on_canvas(before.cols() as int, before.rows() as int, c, r) implies #[trigger] self.pixel(
                c,
                r,
            ) == if covers(col as int, row as int, 1, c, r) {
                color
            } else {
                before.pixel(c, r)
            } by {
            lemma_pixel_in_buffer(w, before.rows() as int, c, r);
            if c != col || r != row {
                lemma_pixels_disjoint(w, before.rows() as int, c, r, col as int, row as int);
            }
        }
    }

    /// Paints the square dot of side `size` whose top-left corner is the
    /// pixel (`x`, `y`) in `color`. The part of the dot that falls off the
    /// canvas is skipped: no byte outside the buffer is read or written, and
    /// coordinates before the origin never wrap round to other pixels.
    /// Returns whether the whole dot lay on the canvas.
    pub fn write_dot(&mut self, x: i64, y: i64, color: Rgba, size: u32) -> (inside: bool)
        requires
            old(self).wf(),
        ensures
            Canvas::dot_written(*old(self), *final(self), x as int, y as int, color, size as int),
            final(self).bytes().len() == old(self).bytes().len(),
            inside == dot_inside(
                old(self).cols() as int,
                old(self).rows() as int,
                x as int,
                y as int,
                size as int,
            ),
    {
        let ghost before = *self;
        let w = self.width as i64;
        let h = self.height as i64;
        let s = size as i64;
        let inside = x >= 0 && y >= 0 && x as i128 + s as i128 <= w as i128 && y as i128 + s as i128
            <= h as i128;
        if x >= w || y >= h {
            assert forall|c: int, r: int|
                on_canvas(w as int, h as int, c, r) implies #[trigger] self.pixel(c, r) == if covers(
                    x as int,
                    y as int,
                    size as int,
                    c,
                    r,
                ) {
                    color
                } else {
                    before.pixel(c, r)
                } by {}
            return inside;
        }
        let col_lo: i64 = if x < 0 { 0 } else { x };
        let row_lo: i64 = if y < 0 { 0 } else { y };
        let col_hi: i64 = if x + s < w { x + s } else { w };
        let row_hi: i64 = if y + s < h { y + s } else { h };
        let mut row: i64 = row_lo;
        while row < row_hi
            invariant
                self.wf(),
                self.cols() == before.cols(),
                self.rows() == before.rows(),
                w == self.cols(),
                h == self.rows(),
                s == size,
                0 <= row_lo,
                row_hi <= h,
                0 <= col_lo,
                col_hi <= w,
                row_lo <= row,
                row_lo < row_hi ==> row <= row_hi,
                col_lo == if x < 0 { 0 } else { x },
                row_lo == if y < 0 { 0 } else { y },
                col_hi == if x + s < w { x + s } else { w as int },
                row_hi == if y + s < h { y + s } else { h as int },
                forall|c: int, r: int|
                    on_canvas(w as int, h as int, c, r) ==> #[trigger] self.pixel(c, r) == if covers(
                        x as int,
                        y as int,
                        size as int,
                        c,
                        r,
                    ) && r < row {
                        color
                    } else {
                        before.pixel(c, r)
                    },
            decreases row_hi - row,
        {
            let mut col: i64 = col_lo;
            let ghost row_start = *self;
            while col < col_hi
                invariant
                    self.wf(),
                    self.cols() == before.cols(),
                    self.rows() == before.rows(),
                    w == self.cols(),
                    h == self.rows(),
                    s == size,
                    0 <= row_lo <= row < row_hi <= h,
                    0 <= col_lo,
                    col_hi <= w,
                    col_lo <= col,
                    col_lo < col_hi ==> col <= col_hi,
                    col_lo == if x < 0 { 0 } else { x },
                    col_hi == if x + s < w { x + s } else { w as int },
                    row_lo == if y < 0 { 0 } else { y },
                    row_hi == if y + s < h { y + s } else { h as int },
                    forall|c: int, r: int|
                        on_canvas(w as int, h as int, c, r) ==> #[trigger] self.pixel(c, r) == if covers(
                            x as int,
                            y as int,
                            size as int,
                            c,
                            r,
                        ) && (r < row || (r == row && c < col)) {
                            color
                        } else {
                            before.pixel(c, r)
                        },
                decreases col_hi - col,
            {
                let ghost prev = *self;
                self.put_pixel(col as u32, row as u32, color);
                assert forall|c: int, r: int|
                    on_canvas(w as int, h as int, c, r) implies #[trigger] self.pixel(c, r) == if covers(
                        x as int,
                        y as int,
                        size as int,
                        c,
                        r,
                    ) && (r < row || (r == row && c < col + 1)) {
                        color
                    } else {
                        before.pixel(c, r)
                    } by {
                    assert(self.pixel(c, r) == if covers(col as int, row as int, 1, c, r) {
                        color
                    } else {
                        prev.pixel(c, r)
                    });
                    assert(prev.pixel(c, r) == if covers(x as int, y as int, size as int, c, r) && (
                    r < row || (r == row && c < col)) {
                        color
                    } else {
                        before.pixel(c, r)
                    });
                    if c == col && r == row {
                        assert(covers(x as int, y as int, size as int, c, r));
                    }
                }
                col = col + 1;
            }
            assert forall|c: int, r: int|
                on_canvas(w as int, h as int, c, r) implies #[trigger] self.pixel(c, r) == if covers(
                    x as int,
                    y as int,
                    size as int,
                    c,
                    r,
                ) && r < row + 1 {
                    color
                } else {
                    before.pixel(c, r)
                } by {
                assert(self.pixel(c, r) == if covers(x as int, y as int, size as int, c, r) && (r
                    < row || (r == row && c < col)) {
                    color
                } else {
                    before.pixel(c, r)
                });
            }
            row = row + 1;
        }
        inside
    }

    /// Width in pixels.
    pub fn width(&self) -> (r: u32)
        ensures
            r == self.cols(),
    {
        self.width
    }

    /// Height in pixels.
    pub fn height(&self) -> (r: u32)
        ensures
            r == self.rows(),
    {
        self.height
    }

    /// The colour of the pixel at (`col`, `row`), or `None` when that pixel
    /// is off the canvas.
    pub fn pixel_at(&self, col: u32, row: u32) -> (r: Option<Rgba>)
        requires
            self.wf(),
        ensures
            r matches Some(p) ==> p == self.pixel(col as int, row as int),
            r is Some <==> on_canvas(self.cols() as int, self.rows() as int, col as int, row as int),
    {
        if col >= self.width || row >= self.height {
            return None;
        }
        proof {
            lemma_pixel_in_buffer(self.width as int, self.height as int, col as int, row as int);
        }
        let len = self.data.len();
        assert(len == self.width as int * self.height as int * 4);
        let base: usize = (row as usize * self.width as usize + col as usize) * 4;
        Some(
            Rgba {
                r: self.data[base],
                g: self.data[base + 1],
                b: self.data[base + 2],
                a: self.data[base + 3],
            },
        )
    }

    /// The buffer's bytes, row-major RGBA.
    pub fn as_bytes(&self) -> (r: &[u8])
        ensures
            r@ == self.bytes(),
    {
        self.data.as_slice()
    }
}

/// Every pixel of a `width` by `height` canvas owns four bytes inside the
/// buffer of `width * height * 4` bytes.
pub proof fn lemma_pixel_in_buffer(width: int, height: int, col: int, row: int)
    requires
        on_canvas(width, height, col, row),
    ensures
        0 <= row * width + col < width * height,
        0 <= byte_index(width, col, row, 0),
        byte_index(width, col, row, 3) < width * height * 4,
{
    assert(0 <= row * width + col < width * height) by (nonlinear_arith)
        requires
            0 <= col < width,
            0 <= row < height,
    ;
}

/// Two distinct pixels of a canvas own disjoint groups of four bytes.
pub proof fn lemma_pixels_disjoint(width: int, height: int, c1: int, r1: int, c2: int, r2: int)
    requires
        on_canvas(width, height, c1, r1),
        on_canvas(width, height, c2, r2),
        c1 != c2 || r1 != r2,
    ensures
        r1 * width + c1 != r2 * width + c2,
{
    if r1 < r2 {
        assert(r1 * width + c1 < r2 * width + c2) by (nonlinear_arith)
            requires
                0 <= c1 < width,
                0 <= c2,
                r1 < r2,
        ;
    } else if r2 < r1 {
        assert(r2 * width + c2 < r1 * width + c1) by (nonlinear_arith)
            requires
                0 <= c2 < width,
                0 <= c1,
                r2 < r1,
        ;
    }
}

/// Every byte `k` of a `width` by `height` buffer is channel `k % 4` of the
/// pixel at column `(k / 4) % width`, row `(k / 4) / width`.
pub proof fn lemma_byte_owner(width: int, height: int, k: int)
    requires
        0 <= width,
        0 <= height,
        0 <= k < width * height * 4,
    ensures
        on_canvas(width, height, (k / 4) % width, (k / 4) / width),
        0 <= k % 4 < 4,
        byte_index(width, (k / 4) % width, (k / 4) / width, k % 4) == k,
{
    let p = k / 4;
    lemma_fundamental_div_mod(k, 4);
    lemma_mod_pos_bound(k, 4);
    lemma_div_pos_is_pos(k, 4);
    assert(p < width * height);
    assert(width > 0) by (nonlinear_arith)
        requires
            0 <= p < width * height,
            0 <= width,
    ;
    let row = p / width;
    let col = p % width;
    lemma_fundamental_div_mod(p, width);
    lemma_mod_pos_bound(p, width);
    lemma_div_pos_is_pos(p, width);
    assert(row < height) by (nonlinear_arith)
        requires
            p == width * row + col,
            0 <= col,
            p < width * height,
            width > 0,
    ;
}

/// Two well-formed canvases of the same size whose pixels all agree hold the
/// same bytes.
pub proof fn lemma_same_pixels_same_bytes(a: Canvas, b: Canvas)
    requires
        a.wf(),
        b.wf(),
        a.cols() == b.cols(),
        a.rows() == b.rows(),
        forall|col: int, row: int|
            on_canvas(a.cols() as int, a.rows() as int, col, row) ==> #[trigger] a.pixel(col, row)
                == b.pixel(col, row),
    ensures
        a.bytes() == b.bytes(),
{
    let w = a.cols() as int;
    let h = a.rows() as int;
    assert forall|k: int| 0 <= k < a.bytes().len() implies a.bytes()[k] == b.bytes()[k] by {
        lemma_byte_owner(w, h, k);
        let col = (k / 4) % w;
        let row = (k / 4) / w;
        assert(a.pixel(col, row) == b.pixel(col, row));
    }
    assert(a.bytes() =~= b.bytes());
}

/// Writing two dots of the same size at the same place leaves exactly what
/// writing the second one alone would: its colour wherever it covers, with
/// nothing left of the first colour, and the original pixels elsewhere.
pub proof fn lemma_overwrite(
    c0: Canvas,
    c1: Canvas,
    c2: Canvas,
    x: int,
    y: int,
    first: Rgba,
    second: Rgba,
    size: int,
)
    requires
        c0.wf(),
        Canvas::dot_written(c0, c1, x, y, first, size),
        Canvas::dot_written(c1, c2, x, y, second, size),
    ensures
        Canvas::dot_written(c0, c2, x, y, second, size),
{
    assert forall|col: int, row: int|
        on_canvas(c0.cols() as int, c0.rows() as int, col, row) implies #[trigger] c2.pixel(col, row)
            == if covers(x, y, size, col, row) {
            second
        } else {
            c0.pixel(col, row)
        } by {
        assert(c1.pixel(col, row) == if covers(x, y, size, col, row) {
            first
        } else {
            c0.pixel(col, row)
        });
    }
}

} // verus!
