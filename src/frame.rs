use vstd::prelude::*;
use crate::canvas::{covers, lemma_same_pixels_same_bytes, on_canvas, Canvas, Rgba};
use vstd::arithmetic::div_mod::lemma_fundamental_div_mod_converse;

verus! {

/// How each dot's colour follows from the indices `(i, j)` of the generator
/// step that produced it.
#[derive(Clone, Copy, Debug, PartialEq, Eq, Structural)]
pub enum ColorScheme {
    /// Red is `i` and green is `j`, both taken modulo 256; blue is fixed and
    /// the dot is opaque.
    Indexed { blue: u8 },
    /// Every dot has the same colour.
    Solid { color: Rgba },
}

impl ColorScheme {
    /// The colour of the dot made by step `(i, j)`.
    pub open spec fn color_of(self, i: int, j: int) -> Rgba {
        match self {
            ColorScheme::Indexed { blue } => Rgba {
                r: (i % 256) as u8,
                g: (j % 256) as u8,
                b: blue,
                a: 255,
            },
            ColorScheme::Solid { color } => color,
        }
    }

    /// The colour of the dot made by step `(i, j)`.
    pub fn dot_color(&self, i: u32, j: u32) -> (r: Rgba)
        ensures
            r == self.color_of(i as int, j as int),
    {
        match self {
            ColorScheme::Indexed { blue } => {
                let r = (i % 256) as u8;
                let g = (j % 256) as u8;
                Rgba { r, g, b: *blue, a: 255 }
            },
            ColorScheme::Solid { color } => *color,
        }
    }
}

/// The fixed parameters of the animation: a `width` by `height` canvas,
/// `point_count * point_count` generator steps per frame, square dots of side
/// `dot_size`, coloured by `scheme`.
#[derive(Clone, Copy, Debug, PartialEq, Eq, Structural)]
pub struct Config {
    pub width: u32,
    pub height: u32,
    pub point_count: u32,
    pub dot_size: u32,
    pub scheme: ColorScheme,
}

/// Why a frame could not be rendered.
#[derive(Clone, Copy, Debug, PartialEq, Eq, Structural)]
pub enum RenderError {
    /// The host has no surface to present the frame on.
    SurfaceUnavailable,
    /// The pixel buffer of the configured size cannot be allocated.
    BufferAllocationFailed,
    /// The number of generated points is not `point_count * point_count`.
    PointCountMismatch,
}

impl Config {
    /// Number of generator steps in one frame.
    pub open spec fn steps(self) -> int {
        self.point_count as int * self.point_count as int
    }

    /// The buffer of this canvas size fits in the address space.
    pub open spec fn allocatable(self) -> bool {
        self.width as int * self.height as int * 4 <= usize::MAX
    }

    /// Screen position of a point given by its offset from the canvas centre
    /// (`width / 2`, `height / 2`).
    pub open spec fn screen_of(self, offset: (i32, i32)) -> (int, int) {
        (offset.0 as int + self.width as int / 2, offset.1 as int + self.height as int / 2)
    }

    /// Screen position of a point given by its offset from the canvas centre.
    pub fn screen_point(&self, offset: (i32, i32)) -> (r: (i64, i64))
        ensures
            (r.0 as int, r.1 as int) == self.screen_of(offset),
    {
        (offset.0 as i64 + (self.width / 2) as i64, offset.1 as i64 + (self.height / 2) as i64)
    }

    /// The colour of the pixel at (`col`, `row`) once the points whose
    /// centre offsets are `offsets` have been drawn, in order, on a blank
    /// canvas: the colour of the last dot that covers it, or the all-zero
    /// colour when none does. The `k`-th point is step
    /// `(k / point_count, k % point_count)`.
    pub open spec fn painted(self, offsets: Seq<(i32, i32)>, col: int, row: int) -> Rgba
        decreases offsets.len(),
    {
        if offsets.len() == 0 {
            Rgba::zero()
        } else {
            let k = offsets.len() - 1;
            let p = self.screen_of(offsets[k]);
            if covers(p.0, p.1, self.dot_size as int, col, row) {
                self.scheme.color_of(k / self.point_count as int, k % self.point_count as int)
            } else {
                self.painted(offsets.drop_last(), col, row)
            }
        }
    }

    /// `canvas` is the frame drawn from `offsets`: it has this configuration's
    /// size and each of its pixels is as `painted` says.
    pub open spec fn is_frame(self, offsets: Seq<(i32, i32)>, canvas: Canvas) -> bool {
        &&& canvas.wf()
        &&& canvas.cols() == self.width
        &&& canvas.rows() == self.height
        &&& forall|col: int, row: int|
            on_canvas(self.width as int, self.height as int, col, row) ==> #[trigger] canvas.pixel(
                col,
                row,
            ) == self.painted(offsets, col, row)
    }
}

/// The frame counter after `count`: one more, wrapping to zero past
/// `u64::MAX`.
pub open spec fn next_count(count: u64) -> u64 {
    if count == u64::MAX {
        0
    } else {
        (count + 1) as u64
    }
}

/// Drives the animation: holds its configuration and the frame counter, and
/// renders one frame per call. The counter is the number of frames rendered
/// so far; the host derives the frame's time parameter from it.
pub struct FrameDriver {
    config: Config,
    frame_count: u64,
}

impl FrameDriver {
    /// The configuration.
    pub closed spec fn cfg(&self) -> Config {
        self.config
    }

    /// The frame counter.
    pub closed spec fn count(&self) -> u64 {
        self.frame_count
    }

    /// A driver for `config` that has rendered no frame yet.
    pub fn new(config: Config) -> (r: FrameDriver)
        ensures
            r.cfg() == config,
            r.count() == 0,
    {
        FrameDriver { config, frame_count: 0 }
    }

    /// The configuration.
    pub fn config(&self) -> (r: Config)
        ensures
            r == self.cfg(),
    {
        self.config
    }

    /// The frame counter: the number of the frame that the next call of
    /// `render_frame` draws.
    pub fn frame_count(&self) -> (r: u64)
        ensures
            r == self.count(),
    {
        self.frame_count
    }

    /// Renders one frame. `offsets` holds the points of the frame's
    /// `point_count * point_count` generator steps, in step order, each as its
    /// offset from the canvas centre. A fresh blank canvas is allocated and the
    /// dot of step `k` is written at the screen position of `offsets[k]` in the
    /// colour of step `(k / point_count, k % point_count)`; later dots overwrite
    /// earlier ones and the parts off the canvas are skipped. On success the
    /// frame counter advances by exactly one; on failure nothing changes.
    pub fn render_frame(&mut self, offsets: &Vec<(i32, i32)>) -> (r: Result<Canvas, RenderError>)
        ensures
            final(self).cfg() == old(self).cfg(),
            offsets@.len() != old(self).cfg().steps() ==> r == Err::<Canvas, RenderError>(
                RenderError::PointCountMismatch,
            ),
            offsets@.len() == old(self).cfg().steps() && !old(self).cfg().allocatable() ==> r
                == Err::<Canvas, RenderError>(RenderError::BufferAllocationFailed),
            offsets@.len() == old(self).cfg().steps() && old(self).cfg().allocatable() ==> r is Ok,
            r is Err ==> final(self).count() == old(self).count(),
            r matches Ok(canvas) ==> final(self).count() == next_count(old(self).count())
                && old(self).cfg().is_frame(offsets@, canvas),
    {
        let cfg = self.config;
        let n = cfg.point_count;
        let len = offsets.len();
        assert((n as int) * (n as int) <= u64::MAX) by (nonlinear_arith)
            requires
                n <= u32::MAX,
        ;
        if len as u64 != n as u64 * n as u64 {
            return Err(RenderError::PointCountMismatch);
        }
        let mut canvas = match Canvas::new(cfg.width, cfg.height) {
            Ok(c) => c,
            Err(_) => {
                return Err(RenderError::BufferAllocationFailed);
            },
        };
        assert(offsets@.take(0) =~= Seq::<(i32, i32)>::empty());
        let mut i: u32 = 0;
        while i < n
            invariant
                n == cfg.point_count,
                offsets@.len() == n as int * n as int,
                len == offsets@.len(),
                0 <= i <= n,
                cfg.is_frame(offsets@.take(i as int * n as int), canvas),
            decreases n - i,
        {
            let mut j: u32 = 0;
            while j < n
                invariant
                    n == cfg.point_count,
                    offsets@.len() == n as int * n as int,
                    len == offsets@.len(),
                    0 <= i < n,
                    0 <= j <= n,
                    cfg.is_frame(offsets@.take(i as int * n as int + j as int), canvas),
                decreases n - j,
            {
                let ghost prev = canvas;
                proof {
                    assert((i as int) * (n as int) + (j as int) < (n as int) * (n as int)) by (nonlinear_arith)
                        requires
                            0 <= i < n,
                            0 <= j < n,
                    ;
                    assert((i as int) * (n as int) <= (i as int) * (n as int) + (j as int));
                }
                let k: usize = i as usize * n as usize + j as usize;
                let offset = offsets[k];
                let (x, y) = cfg.screen_point(offset);
                let color = cfg.scheme.dot_color(i, j);
                canvas.write_dot(x, y, color, cfg.dot_size);
                proof {
                    let done = offsets@.take(k as int + 1);
                    assert(done.drop_last() =~= offsets@.take(k as int));
                    assert(done[k as int] == offset);
                    lemma_fundamental_div_mod_converse(k as int, n as int, i as int, j as int);
                    assert forall|col: int, row: int|
                        on_canvas(cfg.width as int, cfg.height as int, col, row) implies #[trigger] canvas.pixel(
                            col,
                            row,
                        ) == cfg.painted(done, col, row) by {
                        assert(prev.pixel(col, row) == cfg.painted(offsets@.take(k as int), col, row));
                    }
                }
                j = j + 1;
            }
            proof {
                assert(i as int * n as int + n as int == (i as int + 1) * n as int) by (nonlinear_arith);
            }
            i = i + 1;
        }
        proof {
            assert(offsets@.take(n as int * n as int) =~= offsets@);
        }
        self.frame_count = self.frame_count.wrapping_add(1);
        Ok(canvas)
    }
}

/// Rendering holds no hidden state or randomness: two frames drawn with the
/// same configuration from the same points are byte-identical.
pub proof fn lemma_frame_deterministic(
    cfg: Config,
    offsets: Seq<(i32, i32)>,
    a: Canvas,
    b: Canvas,
)
    requires
        cfg.is_frame(offsets, a),
        cfg.is_frame(offsets, b),
    ensures
        a.bytes() == b.bytes(),
{
    assert forall|col: int, row: int|
        on_canvas(a.cols() as int, a.rows() as int, col, row) implies #[trigger] a.pixel(col, row)
            == b.pixel(col, row) by {
        assert(a.pixel(col, row) == cfg.painted(offsets, col, row));
        assert(b.pixel(col, row) == cfg.painted(offsets, col, row));
    }
    lemma_same_pixels_same_bytes(a, b);
}

} // verus!
