//! Gradient-magnitude energy estimation by Sobel-style convolution.
//!
//! For each pixel, two fixed odd-sized kernels (horizontal and vertical
//! gradient) are applied over a neighborhood clamped to the image bounds:
//! indices outside the image are excluded from the sums rather than treated
//! as zero. The energy of the pixel is the integer square root of the sum of
//! the squared gradients; no normalization or clipping is applied.

use vstd::prelude::*;
use vstd::arithmetic::mul::lemma_mul_inequality;
use vstd::arithmetic::mul::lemma_mul_upper_bound;
use vstd::arithmetic::div_mod::lemma_fundamental_div_mod_converse;

verus! {

/// The closed set of convolution kernels: 5x5 or 3x3 (the default inside the
/// carving pipeline).
#[derive(Clone, Copy, Debug)]
pub enum Kernel {
    X5,
    X3,
}

/// Kernel side length.
pub open spec fn kernel_size(k: Kernel) -> int {
    match k {
        Kernel::X5 => 5,
        Kernel::X3 => 3,
    }
}

/// Horizontal-gradient weight at flat kernel index `i` (row-major).
pub open spec fn kernel_x_at(k: Kernel, i: int) -> int {
    match k {
        Kernel::X3 => if i == 0 {
            -1
        } else if i == 1 {
            -2
        } else if i == 2 {
            -1
        } else if i <= 5 {
            0
        } else if i == 6 {
            1
        } else if i == 7 {
            2
        } else {
            1
        },
        Kernel::X5 => if i == 2 {
            4
        } else if i <= 4 {
            2
        } else if i == 7 {
            2
        } else if i <= 9 {
            1
        } else if i <= 14 {
            0
        } else if i == 17 {
            -2
        } else if i <= 19 {
            -1
        } else if i == 22 {
            -4
        } else {
            -2
        },
    }
}

/// Vertical-gradient weight at flat kernel index `i` (row-major).
pub open spec fn kernel_y_at(k: Kernel, i: int) -> int {
    match k {
        Kernel::X3 => if i == 0 {
            -1
        } else if i == 1 {
            0
        } else if i == 2 {
            1
        } else if i == 3 {
            -2
        } else if i == 4 {
            0
        } else if i == 5 {
            2
        } else if i == 6 {
            -1
        } else if i == 7 {
            0
        } else {
            1
        },
        Kernel::X5 => {
            let c = i % 5;
            let r = i / 5;
            let base = if c == 0 {
                2
            } else if c == 1 {
                1
            } else if c == 2 {
                0
            } else if c == 3 {
                -1
            } else {
                -2
            };
            if r == 2 {
                2 * base
            } else {
                base
            }
        },
    }
}

/// One weight of the chosen gradient axis.
pub open spec fn kernel_at(k: Kernel, horiz: bool, i: int) -> int {
    if horiz {
        kernel_x_at(k, i)
    } else {
        kernel_y_at(k, i)
    }
}

/// Every kernel weight is at most 4 in magnitude.
proof fn lemma_kernel_at_bound(k: Kernel, horiz: bool, i: int)
    ensures
        -4 <= kernel_at(k, horiz, i) <= 4,
{
}

/// Lower edge (inclusive) of a convolution window centered at `c`, clamped
/// to the image.
pub open spec fn win_lo(c: int, b: int) -> int {
    if c - b < 0 {
        0
    } else {
        c - b
    }
}

/// Upper edge (inclusive) of a convolution window centered at `c`, clamped
/// to an image of `n` cells.
pub open spec fn win_hi(c: int, b: int, n: int) -> int {
    if c + b > n - 1 {
        n - 1
    } else {
        c + b
    }
}

/// One addend of a convolution sum: the intensity at `(ix, iy)` times the
/// kernel weight that lies over it when the kernel is centered at `(x, y)`.
pub open spec fn conv_term(
    img: Seq<u8>,
    w: int,
    k: Kernel,
    horiz: bool,
    x: int,
    y: int,
    ix: int,
    iy: int,
) -> int {
    let b = kernel_size(k) / 2;
    img[iy * w + ix] * kernel_at(k, horiz, (ix + b - x) + (iy + b - y) * kernel_size(k))
}

/// Partial column sum of the window at `(x, y)`: addends with first
/// coordinate `ix` and second coordinate from the clamped window start up to
/// (excluding) `iy_end`.
pub open spec fn conv_col(
    img: Seq<u8>,
    w: int,
    h: int,
    k: Kernel,
    horiz: bool,
    x: int,
    y: int,
    ix: int,
    iy_end: int,
) -> int
    decreases iy_end - win_lo(y, kernel_size(k) / 2),
{
    if iy_end <= win_lo(y, kernel_size(k) / 2) {
        0
    } else {
        conv_col(img, w, h, k, horiz, x, y, ix, iy_end - 1) + conv_term(
            img,
            w,
            k,
            horiz,
            x,
            y,
            ix,
            iy_end - 1,
        )
    }
}

/// Partial convolution sum of the window at `(x, y)`: the full columns with
/// first coordinate from the clamped window start up to (excluding) `ix_end`.
pub open spec fn conv_row(
    img: Seq<u8>,
    w: int,
    h: int,
    k: Kernel,
    horiz: bool,
    x: int,
    y: int,
    ix_end: int,
) -> int
    decreases ix_end - win_lo(x, kernel_size(k) / 2),
{
    if ix_end <= win_lo(x, kernel_size(k) / 2) {
        0
    } else {
        conv_row(img, w, h, k, horiz, x, y, ix_end - 1) + conv_col(
            img,
            w,
            h,
            k,
            horiz,
            x,
            y,
            ix_end - 1,
            win_hi(y, kernel_size(k) / 2, h) + 1,
        )
    }
}

/// The full convolution sum at `(x, y)`: all addends of the clamped window.
pub open spec fn conv(img: Seq<u8>, w: int, h: int, k: Kernel, horiz: bool, x: int, y: int) -> int {
    conv_row(img, w, h, k, horiz, x, y, win_hi(x, kernel_size(k) / 2, w) + 1)
}

/// The squared gradient magnitude at `(x, y)`.
pub open spec fn grad_sq(img: Seq<u8>, w: int, h: int, k: Kernel, x: int, y: int) -> int {
    let gx = conv(img, w, h, k, true, x, y);
    let gy = conv(img, w, h, k, false, x, y);
    gx * gx + gy * gy
}

/// `r` is the integer square root (rounded down) of `n`.
pub open spec fn is_sqrt_floor(n: int, r: int) -> bool {
    &&& 0 <= r
    &&& r * r <= n
    &&& n < (r + 1) * (r + 1)
}

/// The energy buffer `out` holds, for every pixel of `img`, the integer
/// square root of the sum of the squared gradient convolutions.
pub open spec fn energy_post(k: Kernel, img: Seq<u8>, w: int, h: int, out: Seq<u32>) -> bool {
    &&& out.len() == img.len()
    &&& forall|x: int, y: int|
        0 <= x < w && 0 <= y < h ==> is_sqrt_floor(
            #[trigger] grad_sq(img, w, h, k, x, y),
            out[y * w + x] as int,
        )
}

/// A partial column sum over a window of height at most 5 stays within
/// `count * 1020` (each addend is at most `255 * 4` in magnitude).
proof fn lemma_conv_col_bound(
    img: Seq<u8>,
    w: int,
    h: int,
    k: Kernel,
    horiz: bool,
    x: int,
    y: int,
    ix: int,
    iy_end: int,
)
    requires
        win_lo(y, kernel_size(k) / 2) <= iy_end,
    ensures
        -(iy_end - win_lo(y, kernel_size(k) / 2)) * 1020 <= conv_col(
            img,
            w,
            h,
            k,
            horiz,
            x,
            y,
            ix,
            iy_end,
        ) <= (iy_end - win_lo(y, kernel_size(k) / 2)) * 1020,
    decreases iy_end - win_lo(y, kernel_size(k) / 2),
{
    let b = kernel_size(k) / 2;
    if iy_end > win_lo(y, b) {
        lemma_conv_col_bound(img, w, h, k, horiz, x, y, ix, iy_end - 1);
        lemma_kernel_at_bound(k, horiz, (ix + b - x) + (iy_end - 1 + b - y) * kernel_size(k));
        let v = img[(iy_end - 1) * w + ix] as int;
        let kw = kernel_at(k, horiz, (ix + b - x) + (iy_end - 1 + b - y) * kernel_size(k));
        assert(-1020 <= v * kw <= 1020) by (nonlinear_arith)
            requires 0 <= v <= 255, -4 <= kw <= 4;
        assert((iy_end - win_lo(y, b)) * 1020 == (iy_end - 1 - win_lo(y, b)) * 1020 + 1020)
            by (nonlinear_arith);
    }
}

/// A partial convolution sum over a window of at most 5 columns of at most 5
/// cells stays within `count * 5100`.
proof fn lemma_conv_row_bound(
    img: Seq<u8>,
    w: int,
    h: int,
    k: Kernel,
    horiz: bool,
    x: int,
    y: int,
    ix_end: int,
)
    requires
        win_lo(x, kernel_size(k) / 2) <= ix_end,
        0 <= y <= h - 1,
    ensures
        -(ix_end - win_lo(x, kernel_size(k) / 2)) * 5100 <= conv_row(
            img,
            w,
            h,
            k,
            horiz,
            x,
            y,
            ix_end,
        ) <= (ix_end - win_lo(x, kernel_size(k) / 2)) * 5100,
    decreases ix_end - win_lo(x, kernel_size(k) / 2),
{
    let b = kernel_size(k) / 2;
    if ix_end > win_lo(x, b) {
        lemma_conv_row_bound(img, w, h, k, horiz, x, y, ix_end - 1);
        let hi = win_hi(y, b, h) + 1;
        lemma_conv_col_bound(img, w, h, k, horiz, x, y, ix_end - 1, hi);
        let cnt = hi - win_lo(y, b);
        assert(0 <= cnt <= 5);
        assert(cnt * 1020 <= 5100) by (nonlinear_arith)
            requires 0 <= cnt <= 5;
        assert(-(cnt) * 1020 >= -5100) by (nonlinear_arith)
            requires 0 <= cnt <= 5;
        assert((ix_end - win_lo(x, b)) * 5100 == (ix_end - 1 - win_lo(x, b)) * 5100 + 5100)
            by (nonlinear_arith);
    }
}

/// The full convolution sum at any pixel stays within `25500` in magnitude.
proof fn lemma_conv_bound(img: Seq<u8>, w: int, h: int, k: Kernel, horiz: bool, x: int, y: int)
    requires
        0 <= x <= w - 1,
        0 <= y <= h - 1,
    ensures
        -25500 <= conv(img, w, h, k, horiz, x, y) <= 25500,
{
    let b = kernel_size(k) / 2;
    let hi = win_hi(x, b, w) + 1;
    lemma_conv_row_bound(img, w, h, k, horiz, x, y, hi);
    let cnt = hi - win_lo(x, b);
    assert(0 <= cnt <= 5);
    assert(cnt * 5100 <= 25500) by (nonlinear_arith)
        requires 0 <= cnt <= 5;
    assert(-(cnt) * 5100 >= -25500) by (nonlinear_arith)
        requires 0 <= cnt <= 5;
}

/// Integer square root, rounded down, by binary search.
fn isqrt64(n: u64) -> (r: u64)
    ensures
        is_sqrt_floor(n as int, r as int),
        r <= 0xFFFF_FFFF,
{
    let mut lo: u64 = 0;
    let mut hi: u64 = 0x1_0000_0000u64;
    proof {
        assert((0x1_0000_0000u64 as int) * (0x1_0000_0000u64 as int) > n as int);
    }
    while lo + 1 < hi
        invariant
            lo < hi <= 0x1_0000_0000u64,
            (lo as int) * (lo as int) <= n as int,
            (n as int) < (hi as int) * (hi as int),
        decreases hi - lo,
    {
        let mid = lo + (hi - lo) / 2;
        proof {
            assert(lo < mid < hi);
            lemma_mul_upper_bound(mid as int, 0xFFFF_FFFFu64 as int, mid as int, 0xFFFF_FFFFu64 as int);
        }
        if mid * mid <= n {
            lo = mid;
        } else {
            hi = mid;
        }
    }
    proof {
        assert(hi == lo + 1);
    }
    lo
}

/// The gradient-based energy estimator, parameterized by kernel choice.
#[derive(Debug)]
pub struct Sobel {
    pub kernel: Kernel,
}

impl Kernel {
    /// Kernel side length.
    fn size(self) -> (r: usize)
        ensures
            r == kernel_size(self),
    {
        match self {
            Self::X5 => 5,
            Self::X3 => 3,
        }
    }

    /// The horizontal-gradient weights, row-major.
    fn x(self) -> (r: Vec<i32>)
        ensures
            r.len() == kernel_size(self) * kernel_size(self),
            forall|i: int| 0 <= i < r.len() ==> r[i] == kernel_x_at(self, i),
    {
        match self {
            Self::X5 => vec![
                2, 2, 4, 2, 2, 1, 1, 2, 1, 1, 0, 0, 0, 0, 0, -1, -1, -2, -1, -1, -2, -2, -4, -2, -2,
            ],
            Self::X3 => vec![-1, -2, -1, 0, 0, 0, 1, 2, 1],
        }
    }

    /// The vertical-gradient weights, row-major.
    fn y(self) -> (r: Vec<i32>)
        ensures
            r.len() == kernel_size(self) * kernel_size(self),
            forall|i: int| 0 <= i < r.len() ==> r[i] == kernel_y_at(self, i),
    {
        match self {
            Self::X5 => vec![
                2, 1, 0, -1, -2, 2, 1, 0, -1, -2, 4, 2, 0, -2, -4, 2, 1, 0, -1, -2, 2, 1, 0, -1, -2,
            ],
            Self::X3 => vec![-1, 0, 1, -2, 0, 2, -1, 0, 1],
        }
    }
}

impl Default for Sobel {
    /// Same as `Sobel::new`: the 3x3 kernel.
    fn default() -> (s: Self)
        ensures
            s.kernel == Kernel::X3,
    {
        Self::new()
    }
}

impl Sobel {
    /// A Sobel estimator with the default 3x3 kernel.
    pub fn new() -> (s: Self)
        ensures
            s.kernel == Kernel::X3,
    {
        Self { kernel: Kernel::X3 }
    }

    /// Replaces the kernel (builder style).
    pub fn kernel(self, kernel: Kernel) -> (s: Self)
        ensures
            s.kernel == kernel,
    {
        let mut s = self;
        s.kernel = kernel;
        s
    }

    /// Computes the energy buffer of a single-channel intensity image: for
    /// every pixel, the integer square root of the summed squares of the two
    /// gradient convolutions over the bounds-clamped window around it.
    #[verifier::loop_isolation(false)]
    #[verifier::rlimit(100)]
    pub fn apply(&self, image: &Vec<u8>, width: usize, height: usize) -> (buf: Vec<u32>)
        requires
            image.len() == width * height,
            width <= 0xFFFF_FFFF,
            height <= 0xFFFF_FFFF,
        ensures
            energy_post(self.kernel, image@, width as int, height as int, buf@),
    {
        let ghost gw: int = width as int;
        let ghost gh: int = height as int;
        let k = self.kernel;
        let kernel_x = k.x();
        let kernel_y = k.y();
        let n = image.len();
        let mut buf: Vec<u32> = vec![0u32; n];
        let mut r: usize = 0;
        while r < height
            invariant
                r <= height,
                buf.len() == n,
                forall|x: int, y: int|
                    0 <= x < gw && 0 <= y < r ==> is_sqrt_floor(
                        #[trigger] grad_sq(image@, gw, gh, k, x, y),
                        buf@[y * gw + x] as int,
                    ),
            decreases height - r,
        {
            let mut c: usize = 0;
            while c < width
                invariant
                    c <= width,
                    buf.len() == n,
                    r < height,
                    forall|x: int, y: int|
                        0 <= x < gw && 0 <= y < r ==> is_sqrt_floor(
                            #[trigger] grad_sq(image@, gw, gh, k, x, y),
                            buf@[y * gw + x] as int,
                        ),
                    forall|x: int|
                        0 <= x < c ==> is_sqrt_floor(
                            #[trigger] grad_sq(image@, gw, gh, k, x, r as int),
                            buf@[r as int * gw + x] as int,
                        ),
                decreases width - c,
            {
                let (val_kx, val_ky) = conv_pair(image, width, height, k, &kernel_x, &kernel_y, c, r);
                proof {
                    assert(0 <= val_kx * val_kx <= 650250000) by (nonlinear_arith)
                        requires -25500 <= val_kx <= 25500;
                    assert(0 <= val_ky * val_ky <= 650250000) by (nonlinear_arith)
                        requires -25500 <= val_ky <= 25500;
                }
                let mag2: u64 = ((val_kx * val_kx) + (val_ky * val_ky)) as u64;
                let e: u32 = isqrt64(mag2) as u32;
                proof {
                    lemma_mul_inequality(r as int + 1, gh, gw);
                    assert((r as int + 1) * gw == r as int * gw + gw) by (nonlinear_arith);
                }
                let idx = c + r * width;
                proof {
                    lemma_fundamental_div_mod_converse(idx as int, gw, r as int, c as int);
                }
                let ghost buf0 = buf@;
                buf[idx] = e;
                proof {
                    assert(is_sqrt_floor(grad_sq(image@, gw, gh, k, c as int, r as int), e as int));
                    assert forall|x: int, y: int|
                        0 <= x < gw && 0 <= y < r ==> is_sqrt_floor(
                            #[trigger] grad_sq(image@, gw, gh, k, x, y),
                            buf@[y * gw + x] as int,
                        ) by {
                        if 0 <= x < gw && 0 <= y < r {
                            lemma_mul_inequality(y + 1, gh, gw);
                            assert((y + 1) * gw == y * gw + gw) by (nonlinear_arith);
                            lemma_fundamental_div_mod_converse(y * gw + x, gw, y, x);
                            assert(y * gw + x != idx);
                            assert(buf@[y * gw + x] == buf0[y * gw + x]);
                        }
                    }
                    assert forall|x: int|
                        0 <= x < c + 1 ==> is_sqrt_floor(
                            #[trigger] grad_sq(image@, gw, gh, k, x, r as int),
                            buf@[r as int * gw + x] as int,
                        ) by {
                        if 0 <= x < c as int {
                            lemma_fundamental_div_mod_converse(r as int * gw + x, gw, r as int, x);
                            assert(r as int * gw + x != idx);
                            assert(buf@[r as int * gw + x] == buf0[r as int * gw + x]);
                        }
                    }
                }
                c = c + 1;
            }
            r = r + 1;
        }
        buf
    }
}

/// The two gradient convolution sums of the bounds-clamped window centered
/// at `(c, r)`.
#[verifier::loop_isolation(false)]
#[verifier::rlimit(60)]
fn conv_pair(
    image: &Vec<u8>,
    width: usize,
    height: usize,
    k: Kernel,
    kernel_x: &Vec<i32>,
    kernel_y: &Vec<i32>,
    c: usize,
    r: usize,
) -> (g: (i64, i64))
    requires
        image.len() == width * height,
        width <= 0xFFFF_FFFF,
        height <= 0xFFFF_FFFF,
        c < width,
        r < height,
        kernel_x.len() == kernel_size(k) * kernel_size(k),
        forall|i: int| 0 <= i < kernel_x.len() ==> kernel_x[i] == kernel_x_at(k, i),
        kernel_y.len() == kernel_size(k) * kernel_size(k),
        forall|i: int| 0 <= i < kernel_y.len() ==> kernel_y[i] == kernel_y_at(k, i),
    ensures
        g.0 == conv(image@, width as int, height as int, k, true, c as int, r as int),
        g.1 == conv(image@, width as int, height as int, k, false, c as int, r as int),
        -25500 <= g.0 <= 25500,
        -25500 <= g.1 <= 25500,
{
    let ghost gw: int = width as int;
    let ghost gh: int = height as int;
    let ksize = k.size();
    let b: usize = ksize / 2;
    proof {
        assert(1 <= ksize <= 5);
        assert(b <= 2);
    }
    let start_x: usize = if c >= b {
        c - b
    } else {
        0
    };
    let stop_x: usize = if width - 1 - c >= b {
        c + b
    } else {
        width - 1
    };
    proof {
        assert(start_x == win_lo(c as int, b as int));
        assert(stop_x == win_hi(c as int, b as int, gw));
    }
    let mut val_kx: i64 = 0;
    let mut val_ky: i64 = 0;
    let mut ix = start_x;
    while ix <= stop_x
        invariant
            start_x <= ix <= stop_x + 1,
            ksize == kernel_size(k),
            b == kernel_size(k) / 2,
            start_x == win_lo(c as int, b as int),
            stop_x == win_hi(c as int, b as int, gw),
            val_kx == conv_row(image@, gw, gh, k, true, c as int, r as int, ix as int),
            val_ky == conv_row(image@, gw, gh, k, false, c as int, r as int, ix as int),
        decreases stop_x + 1 - ix,
    {
        proof {
            lemma_conv_row_bound(image@, gw, gh, k, true, c as int, r as int, ix as int);
            lemma_conv_row_bound(image@, gw, gh, k, false, c as int, r as int, ix as int);
        }
        let (col_x, col_y) = conv_col_pair(image, width, height, k, kernel_x, kernel_y, c, r, ix);
        val_kx = val_kx + col_x;
        val_ky = val_ky + col_y;
        ix = ix + 1;
    }
    proof {
        lemma_conv_bound(image@, gw, gh, k, true, c as int, r as int);
        lemma_conv_bound(image@, gw, gh, k, false, c as int, r as int);
    }
    (val_kx, val_ky)
}

/// The two gradient sums of one full window column.
#[verifier::rlimit(60)]
fn conv_col_pair(
    image: &Vec<u8>,
    width: usize,
    height: usize,
    k: Kernel,
    kernel_x: &Vec<i32>,
    kernel_y: &Vec<i32>,
    c: usize,
    r: usize,
    ix: usize,
) -> (g: (i64, i64))
    requires
        image.len() == width * height,
        width <= 0xFFFF_FFFF,
        height <= 0xFFFF_FFFF,
        c < width,
        r < height,
        win_lo(c as int, kernel_size(k) / 2) <= ix <= win_hi(
            c as int,
            kernel_size(k) / 2,
            width as int,
        ),
        kernel_x.len() == kernel_size(k) * kernel_size(k),
        forall|i: int| 0 <= i < kernel_x.len() ==> kernel_x[i] == kernel_x_at(k, i),
        kernel_y.len() == kernel_size(k) * kernel_size(k),
        forall|i: int| 0 <= i < kernel_y.len() ==> kernel_y[i] == kernel_y_at(k, i),
    ensures
        g.0 == conv_col(
            image@,
            width as int,
            height as int,
            k,
            true,
            c as int,
            r as int,
            ix as int,
            win_hi(r as int, kernel_size(k) / 2, height as int) + 1,
        ),
        g.1 == conv_col(
            image@,
            width as int,
            height as int,
            k,
            false,
            c as int,
            r as int,
            ix as int,
            win_hi(r as int, kernel_size(k) / 2, height as int) + 1,
        ),
        -5100 <= g.0 <= 5100,
        -5100 <= g.1 <= 5100,
{
    let ghost gw: int = width as int;
    let ghost gh: int = height as int;
    let ksize = k.size();
    let b: usize = ksize / 2;
    proof {
        assert(1 <= ksize <= 5);
        assert(b <= 2);
    }
    let start_y: usize = if r >= b {
        r - b
    } else {
        0
    };
    let stop_y: usize = if height - 1 - r >= b {
        r + b
    } else {
        height - 1
    };
    proof {
        assert(start_y == win_lo(r as int, b as int));
        assert(stop_y == win_hi(r as int, b as int, gh));
    }
    let mut col_x: i64 = 0;
    let mut col_y: i64 = 0;
    let mut iy = start_y;
    while iy <= stop_y
        invariant
            start_y <= iy <= stop_y + 1,
            gw == width as int,
            gh == height as int,
            image.len() == width * height,
            width <= 0xFFFF_FFFF,
            height <= 0xFFFF_FFFF,
            c < width,
            r < height,
            win_lo(c as int, kernel_size(k) / 2) <= ix <= win_hi(
                c as int,
                kernel_size(k) / 2,
                width as int,
            ),
            kernel_x.len() == kernel_size(k) * kernel_size(k),
            forall|i: int| 0 <= i < kernel_x.len() ==> kernel_x[i] == kernel_x_at(k, i),
            kernel_y.len() == kernel_size(k) * kernel_size(k),
            forall|i: int| 0 <= i < kernel_y.len() ==> kernel_y[i] == kernel_y_at(k, i),
            ksize == kernel_size(k),
            b == kernel_size(k) / 2,
            1 <= ksize <= 5,
            b <= 2,
            start_y == win_lo(r as int, b as int),
            stop_y == win_hi(r as int, b as int, gh),
            col_x == conv_col(image@, gw, gh, k, true, c as int, r as int, ix as int, iy as int),
            col_y == conv_col(image@, gw, gh, k, false, c as int, r as int, ix as int, iy as int),
        decreases stop_y + 1 - iy,
    {
        proof {
            lemma_conv_col_bound(image@, gw, gh, k, true, c as int, r as int, ix as int, iy as int);
            lemma_conv_col_bound(image@, gw, gh, k, false, c as int, r as int, ix as int, iy as int);
            lemma_kernel_at_bound(k, true, (ix + b - c) + (iy + b - r) * kernel_size(k));
            lemma_kernel_at_bound(k, false, (ix + b - c) + (iy + b - r) * kernel_size(k));
            lemma_mul_inequality(iy as int + 1, gh, gw);
            assert((iy as int + 1) * gw == iy as int * gw + gw) by (nonlinear_arith);
        }
        let kx_off: usize = if ix >= c {
            (ix - c) + b
        } else {
            b - (c - ix)
        };
        let ky_off: usize = if iy >= r {
            (iy - r) + b
        } else {
            b - (r - iy)
        };
        let kxi: usize = kx_off + ky_off * ksize;
        proof {
            assert(kx_off == ix + b - c && ky_off == iy + b - r);
            assert(kx_off <= 2 * b && ky_off <= 2 * b);
            assert(ky_off * ksize <= 2 * b * ksize) by (nonlinear_arith)
                requires ky_off <= 2 * b, ksize >= 1;
            assert(kxi < ksize * ksize) by (nonlinear_arith)
                requires
                    kxi == kx_off + ky_off * ksize,
                    kx_off <= 2 * b,
                    ky_off * ksize <= 2 * b * ksize,
                    2 * b < ksize,
                    ksize >= 1;
            assert(kxi as int == (ix + b - c) + (iy + b - r) * ksize);
        }
        let val_i = image[ix + iy * width] as i64;
        let wx = kernel_x[kxi] as i64;
        let wy = kernel_y[kxi] as i64;
        proof {
            assert(-1020 <= val_i * wx <= 1020) by (nonlinear_arith)
                requires 0 <= val_i <= 255, -4 <= wx <= 4;
            assert(-1020 <= val_i * wy <= 1020) by (nonlinear_arith)
                requires 0 <= val_i <= 255, -4 <= wy <= 4;
        }
        col_x = col_x + val_i * wx;
        col_y = col_y + val_i * wy;
        iy = iy + 1;
    }
    proof {
        lemma_conv_col_bound(image@, gw, gh, k, true, c as int, r as int, ix as int, stop_y as int + 1);
        lemma_conv_col_bound(image@, gw, gh, k, false, c as int, r as int, ix as int, stop_y as int + 1);
        assert((stop_y as int + 1 - win_lo(r as int, b as int)) * 1020 <= 5100) by (nonlinear_arith)
            requires 0 <= stop_y as int + 1 - win_lo(r as int, b as int) <= 5;
        assert(-(stop_y as int + 1 - win_lo(r as int, b as int)) * 1020 >= -5100) by (nonlinear_arith)
            requires 0 <= stop_y as int + 1 - win_lo(r as int, b as int) <= 5;
    }
    (col_x, col_y)
}

/// Partial column sum of kernel weights alone: column `kx`, rows `0..ky_end`
/// of the kernel grid.
pub open spec fn kernel_col_sum(k: Kernel, horiz: bool, kx: int, ky_end: int) -> int
    decreases ky_end,
{
    if ky_end <= 0 {
        0
    } else {
        kernel_col_sum(k, horiz, kx, ky_end - 1) + kernel_at(
            k,
            horiz,
            kx + (ky_end - 1) * kernel_size(k),
        )
    }
}

/// Partial sum of all kernel weights: full columns `0..kx_end`.
pub open spec fn kernel_sum(k: Kernel, horiz: bool, kx_end: int) -> int
    decreases kx_end,
{
    if kx_end <= 0 {
        0
    } else {
        kernel_sum(k, horiz, kx_end - 1) + kernel_col_sum(k, horiz, kx_end - 1, kernel_size(k))
    }
}

/// The weights of either gradient kernel cancel: they sum to zero.
proof fn lemma_kernel_sum_zero(k: Kernel, horiz: bool)
    ensures
        kernel_sum(k, horiz, kernel_size(k)) == 0,
{
    reveal_with_fuel(kernel_col_sum, 7);
    reveal_with_fuel(kernel_sum, 7);
    match k {
        Kernel::X3 => {
            assert(kernel_sum(k, horiz, 3) == 0);
        },
        Kernel::X5 => {
            assert(kernel_sum(k, horiz, 5) == 0);
        },
    }
}

/// Over a constant image, a window column sum is the intensity times the
/// kernel column sum (for a pixel whose window is not clamped).
proof fn lemma_const_conv_col(
    img: Seq<u8>,
    w: int,
    h: int,
    k: Kernel,
    horiz: bool,
    x: int,
    y: int,
    ix: int,
    iy_end: int,
    v: u8,
)
    requires
        img.len() == w * h,
        forall|i: int| 0 <= i < img.len() ==> img[i] == v,
        0 <= ix < w,
        kernel_size(k) / 2 <= y,
        y + kernel_size(k) / 2 <= h - 1,
        y - kernel_size(k) / 2 <= iy_end <= y + kernel_size(k) / 2 + 1,
    ensures
        conv_col(img, w, h, k, horiz, x, y, ix, iy_end) == v * kernel_col_sum(
            k,
            horiz,
            ix + kernel_size(k) / 2 - x,
            iy_end - (y - kernel_size(k) / 2),
        ),
    decreases iy_end - (y - kernel_size(k) / 2),
{
    let b = kernel_size(k) / 2;
    assert(win_lo(y, b) == y - b);
    if iy_end <= y - b {
        assert(v * 0 == 0) by (nonlinear_arith);
    } else {
        lemma_const_conv_col(img, w, h, k, horiz, x, y, ix, iy_end - 1, v);
        let iy = iy_end - 1;
        assert(0 <= iy <= h - 1);
        lemma_mul_inequality(iy + 1, h, w);
        assert((iy + 1) * w == iy * w + w) by (nonlinear_arith);
        assert(0 <= iy * w) by (nonlinear_arith)
            requires 0 <= iy, 0 <= w;
        assert(h * w == w * h) by (nonlinear_arith);
        assert(0 <= iy * w + ix < img.len());
        assert(img[iy * w + ix] == v);
        let kw = kernel_at(k, horiz, (ix + b - x) + (iy + b - y) * kernel_size(k));
        let s = kernel_col_sum(k, horiz, ix + b - x, iy_end - 1 - (y - b));
        assert(iy + b - y == iy_end - (y - b) - 1);
        assert(v * (s + kw) == v * s + v * kw) by (nonlinear_arith);
    }
}

/// Over a constant image, a partial window sum is the intensity times the
/// partial kernel sum (for a pixel whose window is not clamped).
proof fn lemma_const_conv_row(
    img: Seq<u8>,
    w: int,
    h: int,
    k: Kernel,
    horiz: bool,
    x: int,
    y: int,
    ix_end: int,
    v: u8,
)
    requires
        img.len() == w * h,
        forall|i: int| 0 <= i < img.len() ==> img[i] == v,
        kernel_size(k) / 2 <= x,
        x + kernel_size(k) / 2 <= w - 1,
        kernel_size(k) / 2 <= y,
        y + kernel_size(k) / 2 <= h - 1,
        x - kernel_size(k) / 2 <= ix_end <= x + kernel_size(k) / 2 + 1,
    ensures
        conv_row(img, w, h, k, horiz, x, y, ix_end) == v * kernel_sum(
            k,
            horiz,
            ix_end - (x - kernel_size(k) / 2),
        ),
    decreases ix_end - (x - kernel_size(k) / 2),
{
    let b = kernel_size(k) / 2;
    assert(win_lo(x, b) == x - b);
    if ix_end <= x - b {
        assert(v * 0 == 0) by (nonlinear_arith);
    } else {
        lemma_const_conv_row(img, w, h, k, horiz, x, y, ix_end - 1, v);
        let ix = ix_end - 1;
        assert(win_hi(y, b, h) == y + b);
        lemma_const_conv_col(img, w, h, k, horiz, x, y, ix, y + b + 1, v);
        assert(y + b + 1 - (y - b) == 2 * b + 1);
        assert(2 * b + 1 == kernel_size(k));
        let s = kernel_sum(k, horiz, ix_end - 1 - (x - b));
        let cs = kernel_col_sum(k, horiz, ix + b - x, kernel_size(k));
        assert(v * (s + cs) == v * s + v * cs) by (nonlinear_arith);
    }
}

/// Energy of a flat image is zero away from the border: at any pixel of a
/// constant-intensity image whose convolution window is not clamped by the
/// image bounds, the energy is exactly zero. (At clamped border pixels the
/// truncated kernel need not cancel, so this does not hold there.)
pub proof fn lemma_flat_image_interior_energy_zero(
    k: Kernel,
    img: Seq<u8>,
    w: int,
    h: int,
    out: Seq<u32>,
    v: u8,
    x: int,
    y: int,
)
    requires
        energy_post(k, img, w, h, out),
        img.len() == w * h,
        forall|i: int| 0 <= i < img.len() ==> img[i] == v,
        kernel_size(k) / 2 <= x,
        x + kernel_size(k) / 2 <= w - 1,
        kernel_size(k) / 2 <= y,
        y + kernel_size(k) / 2 <= h - 1,
    ensures
        out[y * w + x] == 0,
{
    let b = kernel_size(k) / 2;
    assert(win_hi(x, b, w) == x + b);
    lemma_const_conv_row(img, w, h, k, true, x, y, x + b + 1, v);
    lemma_const_conv_row(img, w, h, k, false, x, y, x + b + 1, v);
    assert(x + b + 1 - (x - b) == kernel_size(k));
    lemma_kernel_sum_zero(k, true);
    lemma_kernel_sum_zero(k, false);
    assert(v * 0 == 0) by (nonlinear_arith);
    assert(conv(img, w, h, k, true, x, y) == 0);
    assert(conv(img, w, h, k, false, x, y) == 0);
    assert(grad_sq(img, w, h, k, x, y) == 0);
    assert(is_sqrt_floor(grad_sq(img, w, h, k, x, y), out[y * w + x] as int));
    let r = out[y * w + x] as int;
    assert(r == 0) by (nonlinear_arith)
        requires 0 <= r, r * r <= 0;
}

} // verus!
