//! Integer rasterisation: an image of colors, Bresenham line drawing and
//! filled dots.
use vstd::prelude::*;
use vstd::arithmetic::div_mod::lemma_fundamental_div_mod_converse;

verus! {

/// An 8-bit RGB color.
#[derive(Clone, Copy, Debug, PartialEq, Eq, Structural)]
pub struct Color {
    pub r: u8,
    pub g: u8,
    pub b: u8,
}

impl Color {
    /// The color with the given channels.
    pub fn new(r: u8, g: u8, b: u8) -> (c: Self)
        ensures
            c == (Color { r, g, b }),
    {
        Color { r, g, b }
    }
}

/// Black, the color of a new image.
pub open spec fn black() -> Color {
    Color { r: 0, g: 0, b: 0 }
}

/// `pix` after setting the pixel at `p` of a `w` by `h` row-major image to
/// `c`; a point outside the image changes nothing.
pub open spec fn set_pixel<C>(pix: Seq<C>, w: int, h: int, p: (int, int), c: C) -> Seq<C> {
    if 0 <= p.0 < w && 0 <= p.1 < h {
        pix.update(p.1 * w + p.0, c)
    } else {
        pix
    }
}

/// `pix` after setting each point of `pts`, in order, to `c`.
pub open spec fn paint<C>(pix: Seq<C>, w: int, h: int, pts: Seq<(int, int)>, c: C) -> Seq<C>
    decreases pts.len(),
{
    if pts.len() == 0 {
        pix
    } else {
        set_pixel(paint(pix, w, h, pts.drop_last(), c), w, h, pts.last(), c)
    }
}

pub(crate) proof fn lemma_row_major(w: int, h: int, x: int, y: int)
    requires
        0 <= x < w,
        0 <= y < h,
    ensures
        0 <= y * w + x < w * h,
{
    assert(0 <= y * w + x < w * h) by (nonlinear_arith)
        requires
            0 <= x < w,
            0 <= y < h,
    ;
}

/// A `w` by `h` image stored row by row.
pub struct Image {
    pub w: usize,
    pub h: usize,
    pub pixels: Vec<Color>,
}

impl Image {
    /// Well-formed: one pixel per position.
    pub open spec fn wf(&self) -> bool {
        self.pixels@.len() == self.w * self.h
    }

    /// A black `w` by `h` image.
    pub fn new(w: usize, h: usize) -> (r: Self)
        requires
            w * h <= usize::MAX,
        ensures
            r.wf(),
            r.w == w,
            r.h == h,
            r.pixels@ == Seq::new((w * h) as nat, |i: int| black()),
    {
        let n = w * h;
        let mut pixels: Vec<Color> = Vec::with_capacity(n);
        let mut i: usize = 0;
        while i < n
            invariant
                i <= n,
                pixels@ == Seq::new(i as nat, |k: int| black()),
            decreases n - i,
        {
            pixels.push(Color { r: 0, g: 0, b: 0 });
            i = i + 1;
            assert(pixels@ =~= Seq::new(i as nat, |k: int| black()));
        }
        Image { w, h, pixels }
    }

    /// Sets the pixel at column `x`, row `y` to `c`; a point outside the
    /// image is ignored.
    pub fn set(&mut self, x: i32, y: i32, c: Color)
        requires
            old(self).wf(),
        ensures
            final(self).wf(),
            final(self).w == old(self).w,
            final(self).h == old(self).h,
            final(self).pixels@ == set_pixel(
                old(self).pixels@,
                old(self).w as int,
                old(self).h as int,
                (x as int, y as int),
                c,
            ),
    {
        if x >= 0 && (x as usize) < self.w && y >= 0 && (y as usize) < self.h {
            let n = self.pixels.len();
            proof {
                lemma_row_major(self.w as int, self.h as int, x as int, y as int);
            }
            assert((y as usize) * self.w + (x as usize) < n);
            let idx = (y as usize) * self.w + (x as usize);
            self.pixels.set(idx, c);
        }
    }
}

/// The endpoints after Bresenham's normalisation: `(a0, b0, a1, b1, steep)`,
/// the line running along `a` from `a0` to `a1 >= a0`, `b` moving at most as
/// fast, and `steep` telling whether `a` is the row.
pub open spec fn normalised(x0: int, y0: int, x1: int, y1: int) -> (int, int, int, int, bool) {
    let steep = abs(y1 - y0) > abs(x1 - x0);
    let (a0, b0, a1, b1) = if steep {
        (y0, x0, y1, x1)
    } else {
        (x0, y0, x1, y1)
    };
    if a0 > a1 {
        (a1, b1, a0, b0, steep)
    } else {
        (a0, b0, a1, b1, steep)
    }
}

/// Absolute value.
pub open spec fn abs(v: int) -> int {
    if v < 0 {
        -v
    } else {
        v
    }
}

/// How many times Bresenham's line has stepped sideways before its `k`-th
/// pixel: `ceil((k * dy - dx / 2) / dx)`.
pub open spec fn side_steps(k: int, dx: int, dy: int) -> int {
    if dx == 0 {
        0
    } else {
        (k * dy - dx / 2 + dx - 1) / dx
    }
}

/// The pixels Bresenham's algorithm draws from `(x0, y0)` to `(x1, y1)`, in
/// drawing order: one per step along the faster axis, the other coordinate
/// moving by one whenever the accumulated error demands it.
pub open spec fn line_points(x0: int, y0: int, x1: int, y1: int) -> Seq<(int, int)> {
    let (a0, b0, a1, b1, steep) = normalised(x0, y0, x1, y1);
    let dx = a1 - a0;
    let dy = abs(b1 - b0);
    let ystep: int = if b0 < b1 {
        1
    } else {
        -1
    };
    Seq::new(
        (dx + 1) as nat,
        |k: int|
            {
                let a = a0 + k;
                let b = b0 + ystep * side_steps(k, dx, dy);
                if steep {
                    (b, a)
                } else {
                    (a, b)
                }
            },
    )
}

proof fn lemma_side_steps(k: int, dx: int, dy: int, m: int, err: int)
    requires
        dx > 0,
        0 <= err < dx,
        err == dx / 2 - k * dy + m * dx,
    ensures
        m == side_steps(k, dx, dy),
{
    let n = k * dy - dx / 2 + dx - 1;
    assert(n == m * dx + (dx - 1 - err));
    lemma_fundamental_div_mod_converse(n, dx, m, dx - 1 - err);
}

proof fn lemma_step_count(dx: int, dy: int, k: int, m: int)
    requires
        dx > 0,
        0 <= k < dx,
        0 <= dy,
        dx / 2 - (k + 1) * dy + m * dx < 0,
    ensures
        m < dy,
{
    assert((k + 1) * dy <= dx * dy) by (nonlinear_arith)
        requires
            0 <= k + 1 <= dx,
            0 <= dy,
    ;
    assert(m < dy) by (nonlinear_arith)
        requires
            dx > 0,
            m * dx < dx * dy,
    ;
}

/// Draws the line from `(x0, y0)` to `(x1, y1)` in color `c` with
/// Bresenham's algorithm; pixels outside the image are skipped.
pub fn bresenham(x0: i32, y0: i32, x1: i32, y1: i32, img: &mut Image, c: Color)
    requires
        old(img).wf(),
        i32::MIN < x1 - x0 <= i32::MAX,
        i32::MIN < y1 - y0 <= i32::MAX,
    ensures
        final(img).wf(),
        final(img).w == old(img).w,
        final(img).h == old(img).h,
        final(img).pixels@ == paint(
            old(img).pixels@,
            old(img).w as int,
            old(img).h as int,
            line_points(x0 as int, y0 as int, x1 as int, y1 as int),
            c,
        ),
{
    let ghost (ox0, oy0, ox1, oy1) = (x0 as int, y0 as int, x1 as int, y1 as int);
    let (mut x0, mut y0, mut x1, mut y1) = (x0, y0, x1, y1);
    let ddy = y1 - y0;
    let ddx = x1 - x0;
    let ady = if ddy < 0 { -ddy } else { ddy };
    let adx = if ddx < 0 { -ddx } else { ddx };
    let steep = ady > adx;
    if steep {
        std::mem::swap(&mut x0, &mut y0);
        std::mem::swap(&mut x1, &mut y1);
    }
    if x0 > x1 {
        std::mem::swap(&mut x0, &mut x1);
        std::mem::swap(&mut y0, &mut y1);
    }
    let ghost pts = line_points(ox0, oy0, ox1, oy1);
    let ghost orig = img.pixels@;
    let ghost w = img.w as int;
    let ghost h = img.h as int;
    let dx = x1 - x0;
    let dyv = y1 - y0;
    let dy = if dyv < 0 { -dyv } else { dyv };
    let mut err = dx / 2;
    let ystep: i32 = if y0 < y1 { 1 } else { -1 };
    let mut y = y0;
    let mut x = x0;
    let ghost mut m: int = 0;
    assert(pts.len() == dx + 1);
    assert(0 * (dy as int) == 0);
    loop
        invariant_except_break
            img.pixels@ == paint(orig, w, h, pts.take(x - x0), c),
        invariant
            img.wf(),
            img.w == w,
            img.h == h,
            pts == line_points(ox0, oy0, ox1, oy1),
            pts.len() == dx + 1,
            x0 <= x <= x1,
            dx == x1 - x0,
            0 <= dy <= dx,
            dy == abs(y1 - y0),
            ystep == (if y0 < y1 { 1int } else { -1int }),
            (x0 as int, y0 as int, x1 as int, y1 as int, steep) == normalised(ox0, oy0, ox1, oy1),
            err == dx / 2 - (x - x0) * dy + m * dx,
            dx > 0 ==> 0 <= err < dx,
            dx == 0 ==> err == 0 && m == 0,
            0 <= m <= dy,
            y == (if ystep == 1 { y0 + m } else { y0 - m }),
        ensures
            img.wf(),
            img.w == w,
            img.h == h,
            img.pixels@ == paint(orig, w, h, pts, c),
        decreases x1 - x,
    {
        let ghost k: int = x - x0;
        proof {
            if dx > 0 {
                lemma_side_steps(k, dx as int, dy as int, m, err as int);
            }
            assert(pts[k] == (if steep { (y as int, x as int) } else { (x as int, y as int) }));
            assert(pts.take(k + 1).drop_last() =~= pts.take(k));
        }
        if steep {
            img.set(y, x, c);
        } else {
            img.set(x, y, c);
        }
        if x == x1 {
            assert(pts.take(k + 1) =~= pts);
            break;
        }
        assert((k + 1) * (dy as int) == k * dy + dy) by (nonlinear_arith);
        err = err - dy;
        if err < 0 {
            proof {
                lemma_step_count(dx as int, dy as int, k, m);
            }
            y = y + ystep;
            err = err + dx;
            proof {
                m = m + 1;
            }
            assert((m - 1) * (dx as int) + dx == m * dx) by (nonlinear_arith);
        }
        x = x + 1;
    }
}

proof fn lemma_div_step(a: int, d: int, dx: int)
    requires
        dx > 0,
        0 <= d <= dx,
    ensures
        a / dx <= (a + d) / dx <= a / dx + 1,
{
    let q = a / dx;
    let r = a % dx;
    vstd::arithmetic::div_mod::lemma_fundamental_div_mod(a, dx);
    let q2 = (a + d) / dx;
    let r2 = (a + d) % dx;
    vstd::arithmetic::div_mod::lemma_fundamental_div_mod(a + d, dx);
    assert(q <= q2 <= q + 1) by (nonlinear_arith)
        requires
            a == dx * q + r,
            a + d == dx * q2 + r2,
            0 <= r < dx,
            0 <= r2 < dx,
            0 <= d <= dx,
    ;
}

/// A Bresenham line starts at one endpoint and ends at the other.
pub proof fn lemma_line_endpoints(x0: int, y0: int, x1: int, y1: int)
    ensures
        ({
            let pts = line_points(x0, y0, x1, y1);
            pts.len() >= 1 && ((pts[0] == (x0, y0) && pts.last() == (x1, y1)) || (pts[0] == (
            x1,
            y1,
            ) && pts.last() == (x0, y0)))
        }),
{
    let (a0, b0, a1, b1, steep) = normalised(x0, y0, x1, y1);
    let dx = a1 - a0;
    let dy = abs(b1 - b0);
    assert(0 <= dy <= dx);
    if dx > 0 {
        let n = dx * dy - dx / 2 + dx - 1;
        assert(0 <= dx - 1 - dx / 2 < dx);
        assert(n == dy * dx + (dx - 1 - dx / 2)) by (nonlinear_arith)
            requires
                n == dx * dy - dx / 2 + dx - 1,
        ;
        lemma_fundamental_div_mod_converse(n, dx, dy, dx - 1 - dx / 2);
        assert(side_steps(dx, dx, dy) == dy);
    }
    assert(side_steps(0, dx, dy) == 0) by {
        if dx > 0 {
            lemma_fundamental_div_mod_converse(-(dx / 2) + dx - 1, dx, 0, dx - 1 - dx / 2);
        }
    }
    let ystep: int = if b0 < b1 {
        1
    } else {
        -1
    };
    assert(b0 + ystep * side_steps(0, dx, dy) == b0);
    assert(b0 + ystep * side_steps(dx, dx, dy) == b1) by {
        if dx == 0 {
            assert(dy == 0);
        }
        if b0 < b1 {
            assert(ystep * dy == dy);
        } else {
            assert(ystep * dy == -dy);
        }
    }
    let pts = line_points(x0, y0, x1, y1);
    assert(pts[0] == (if steep { (b0, a0) } else { (a0, b0) }));
    assert(pts.last() == (if steep { (b1, a1) } else { (a1, b1) }));
}

/// Consecutive pixels of a Bresenham line touch: they differ by at most one
/// in each coordinate, and by exactly one along the longer axis.
pub proof fn lemma_line_connected(x0: int, y0: int, x1: int, y1: int, k: int)
    requires
        0 <= k,
        k + 1 < line_points(x0, y0, x1, y1).len(),
    ensures
        ({
            let pts = line_points(x0, y0, x1, y1);
            let (p, q) = (pts[k], pts[k + 1]);
            abs(q.0 - p.0) <= 1 && abs(q.1 - p.1) <= 1 && abs(q.0 - p.0) + abs(q.1 - p.1) >= 1
        }),
{
    let (a0, b0, a1, b1, steep) = normalised(x0, y0, x1, y1);
    let dx = a1 - a0;
    let dy = abs(b1 - b0);
    assert(dx > 0);
    let base = k * dy - dx / 2 + dx - 1;
    assert((k + 1) * dy - dx / 2 + dx - 1 == base + dy) by (nonlinear_arith)
        requires
            base == k * dy - dx / 2 + dx - 1,
    ;
    lemma_div_step(base, dy, dx);
}

/// `pix` with the Bresenham lines between the endpoint pairs of `lines`
/// drawn in order, each in color `c`.
pub open spec fn paint_lines<C>(
    pix: Seq<C>,
    w: int,
    h: int,
    lines: Seq<(int, int, int, int)>,
    c: C,
) -> Seq<C>
    decreases lines.len(),
{
    if lines.len() == 0 {
        pix
    } else {
        let l = lines.last();
        paint(paint_lines(pix, w, h, lines.drop_last(), c), w, h, line_points(l.0, l.1, l.2, l.3), c)
    }
}

/// The twelve spokes of the line demo: from `(cx, cy)` to points `len` away
/// at slopes 0, 1/3, 3 and vertical, in every quadrant, clockwise from the
/// right.
pub open spec fn spokes(cx: int, cy: int, len: int) -> Seq<(int, int, int, int)> {
    seq![
        (cx, cy, cx + len, cy),
        (cx, cy, cx + len, cy + len / 3),
        (cx, cy, cx + len / 3, cy + len),
        (cx, cy, cx, cy + len),
        (cx, cy, cx - len / 3, cy + len),
        (cx, cy, cx - len, cy + len / 3),
        (cx, cy, cx - len, cy),
        (cx, cy, cx - len, cy - len / 3),
        (cx, cy, cx - len / 3, cy - len),
        (cx, cy, cx, cy - len),
        (cx, cy, cx + len / 3, cy - len),
        (cx, cy, cx + len, cy - len / 3),
    ]
}

proof fn lemma_paint_lines_step<C>(
    pix: Seq<C>,
    w: int,
    h: int,
    lines: Seq<(int, int, int, int)>,
    k: int,
    c: C,
)
    requires
        0 <= k < lines.len(),
    ensures
        paint_lines(pix, w, h, lines.take(k + 1), c) == paint(
            paint_lines(pix, w, h, lines.take(k), c),
            w,
            h,
            line_points(lines[k].0, lines[k].1, lines[k].2, lines[k].3),
            c,
        ),
{
    assert(lines.take(k + 1).drop_last() =~= lines.take(k));
}

/// Draws the twelve white spokes of length 60 around the point 90 rows down
/// the middle column.
pub fn draw_bresenham_demo(img: &mut Image)
    requires
        old(img).wf(),
        i32::MIN <= (old(img).w / 2) as i32 - 60,
        (old(img).w / 2) as i32 + 60 <= i32::MAX,
    ensures
        final(img).wf(),
        final(img).w == old(img).w,
        final(img).h == old(img).h,
        final(img).pixels@ == paint_lines(
            old(img).pixels@,
            old(img).w as int,
            old(img).h as int,
            spokes((old(img).w / 2) as i32 as int, 90, 60),
            Color { r: 255, g: 255, b: 255 },
        ),
{
    let white = Color::new(255, 255, 255);
    let cx = (img.w / 2) as i32;
    let cy: i32 = 90;
    let len: i32 = 60;
    let ghost (w, h, orig) = (img.w as int, img.h as int, img.pixels@);
    let ghost sp = spokes(cx as int, cy as int, len as int);
    assert(sp.take(0) =~= Seq::<(int, int, int, int)>::empty());
    bresenham(cx, cy, cx + len, cy, img, white);
    proof { lemma_paint_lines_step(orig, w, h, sp, 0, white); }
    bresenham(cx, cy, cx + len, cy + len / 3, img, white);
    proof { lemma_paint_lines_step(orig, w, h, sp, 1, white); }
    bresenham(cx, cy, cx + len / 3, cy + len, img, white);
    proof { lemma_paint_lines_step(orig, w, h, sp, 2, white); }
    bresenham(cx, cy, cx, cy + len, img, white);
    proof { lemma_paint_lines_step(orig, w, h, sp, 3, white); }
    bresenham(cx, cy, cx - len / 3, cy + len, img, white);
    proof { lemma_paint_lines_step(orig, w, h, sp, 4, white); }
    bresenham(cx, cy, cx - len, cy + len / 3, img, white);
    proof { lemma_paint_lines_step(orig, w, h, sp, 5, white); }
    bresenham(cx, cy, cx - len, cy, img, white);
    proof { lemma_paint_lines_step(orig, w, h, sp, 6, white); }
    bresenham(cx, cy, cx - len, cy - len / 3, img, white);
    proof { lemma_paint_lines_step(orig, w, h, sp, 7, white); }
    bresenham(cx, cy, cx - len / 3, cy - len, img, white);
    proof { lemma_paint_lines_step(orig, w, h, sp, 8, white); }
    bresenham(cx, cy, cx, cy - len, img, white);
    proof { lemma_paint_lines_step(orig, w, h, sp, 9, white); }
    bresenham(cx, cy, cx + len / 3, cy - len, img, white);
    proof { lemma_paint_lines_step(orig, w, h, sp, 10, white); }
    bresenham(cx, cy, cx + len, cy - len / 3, img, white);
    proof { lemma_paint_lines_step(orig, w, h, sp, 11, white); }
    assert(sp.take(12) =~= sp);
}

/// Whether `(px, py)` lies on the disc of radius `r` around `(x, y)`.
pub open spec fn in_disc(px: int, py: int, x: int, y: int, r: int) -> bool {
    &&& -r <= px - x <= r
    &&& -r <= py - y <= r
    &&& (px - x) * (px - x) + (py - y) * (py - y) <= r * r
}

/// Whether the point `(px, py)` of the disc comes before offset
/// `(cdx, cdy)` in the drawing order (column by column, top to bottom).
pub open spec fn dot_done(px: int, py: int, x: int, y: int, r: int, cdx: int, cdy: int) -> bool {
    in_disc(px, py, x, y, r) && (px - x < cdx || (px - x == cdx && py - y < cdy))
}

/// The `w` by `h` row-major pixels `pix` with the points of the disc that
/// satisfy `done` set to `c`.
pub open spec fn disc_pixels<C>(
    pix: Seq<C>,
    w: int,
    h: int,
    x: int,
    y: int,
    r: int,
    cdx: int,
    cdy: int,
    c: C,
) -> Seq<C> {
    Seq::new(
        pix.len(),
        |i: int|
            if w > 0 && i < w * h && dot_done(i % w, i / w, x, y, r, cdx, cdy) {
                c
            } else {
                pix[i]
            },
    )
}

proof fn lemma_index_coords(w: int, h: int, px: int, py: int, i: int)
    requires
        0 <= px < w,
        0 <= py < h,
    ensures
        0 <= py * w + px < w * h,
        (py * w + px) % w == px,
        (py * w + px) / w == py,
        (0 <= i < w * h && i % w == px && i / w == py) ==> i == py * w + px,
{
    lemma_row_major(w, h, px, py);
    lemma_fundamental_div_mod_converse(py * w + px, w, py, px);
    if 0 <= i < w * h && i % w == px && i / w == py {
        vstd::arithmetic::div_mod::lemma_fundamental_div_mod(i, w);
        assert(i == w * py + px);
        assert(w * py == py * w) by (nonlinear_arith);
    }
}

/// Fills the disc of radius `radius` around `(x, y)` with `color` in the
/// `w` by `h` row-major `pixels`; points outside the image are skipped.
pub fn draw_dot(
    pixels: &mut [(u8, u8, u8)],
    w: usize,
    h: usize,
    x: i32,
    y: i32,
    radius: i32,
    color: (u8, u8, u8),
)
    requires
        old(pixels)@.len() >= w * h,
        w <= i32::MAX,
        h <= i32::MAX,
        radius >= 0 ==> {
            &&& i32::MIN <= x - radius
            &&& x + radius <= i32::MAX
            &&& i32::MIN <= y - radius
            &&& y + radius <= i32::MAX
            &&& 2 * radius * radius <= i32::MAX
        },
    ensures
        final(pixels)@ == disc_pixels(
            old(pixels)@,
            w as int,
            h as int,
            x as int,
            y as int,
            radius as int,
            radius + 1,
            -radius,
            color,
        ),
{
    let ghost orig = pixels@;
    let ghost (wi, hi, xi, yi, ri) = (w as int, h as int, x as int, y as int, radius as int);
    if radius < 0 {
        assert(pixels@ =~= disc_pixels(orig, wi, hi, xi, yi, ri, ri + 1, -ri, color));
        return;
    }
    assert(radius * radius <= i32::MAX && radius <= 32768 && 2 * radius * radius == radius
        * radius + radius * radius) by (nonlinear_arith)
        requires
            2 * radius * radius <= i32::MAX,
            radius >= 0,
    ;
    let mut ddx: i32 = -radius;
    while ddx <= radius
        invariant
            -radius <= ddx <= radius + 1,
            0 <= radius <= 32768,
            2 * radius * radius == radius * radius + radius * radius,
            radius * radius <= i32::MAX,
            2 * radius * radius <= i32::MAX,
            i32::MIN <= x - radius,
            x + radius <= i32::MAX,
            i32::MIN <= y - radius,
            y + radius <= i32::MAX,
            orig.len() >= wi * hi,
            w <= i32::MAX,
            h <= i32::MAX,
            (wi, hi, xi, yi, ri) == (w as int, h as int, x as int, y as int, radius as int),
            pixels@ == disc_pixels(orig, wi, hi, xi, yi, ri, ddx as int, -ri, color),
        decreases radius + 1 - ddx,
    {
        assert(disc_pixels(orig, wi, hi, xi, yi, ri, ddx as int, -ri, color) =~= disc_pixels(
            orig,
            wi,
            hi,
            xi,
            yi,
            ri,
            ddx - 1,
            ri + 1,
            color,
        ));
        let mut ddy: i32 = -radius;
        while ddy <= radius
            invariant
                -radius <= ddx <= radius,
                -radius <= ddy <= radius + 1,
                0 <= radius <= 32768,
                2 * radius * radius == radius * radius + radius * radius,
                radius * radius <= i32::MAX,
                2 * radius * radius <= i32::MAX,
                i32::MIN <= x - radius,
                x + radius <= i32::MAX,
                i32::MIN <= y - radius,
                y + radius <= i32::MAX,
                orig.len() >= wi * hi,
                w <= i32::MAX,
                h <= i32::MAX,
                (wi, hi, xi, yi, ri) == (w as int, h as int, x as int, y as int, radius as int),
                pixels@ == disc_pixels(orig, wi, hi, xi, yi, ri, ddx as int, ddy as int, color),
            decreases radius + 1 - ddy,
        {
            assert(ddx * ddx <= radius * radius) by (nonlinear_arith)
                requires
                    -radius <= ddx <= radius,
            ;
            assert(ddy * ddy <= radius * radius) by (nonlinear_arith)
                requires
                    -radius <= ddy <= radius,
            ;
            assert(0 <= ddx * ddx && 0 <= ddy * ddy) by (nonlinear_arith);
            let ghost before = pixels@;
            if ddx * ddx + ddy * ddy <= radius * radius {
                let nx = x + ddx;
                let ny = y + ddy;
                if nx >= 0 && nx < w as i32 && ny >= 0 && ny < h as i32 {
                    let plen = pixels.len();
                    proof {
                        lemma_index_coords(wi, hi, nx as int, ny as int, 0);
                    }
                    let idx = (ny as usize) * w + (nx as usize);
                    pixels[idx] = color;
                    proof {
                        assert forall|i: int| 0 <= i < pixels@.len() implies pixels@[i]
                            == disc_pixels(
                            orig,
                            wi,
                            hi,
                            xi,
                            yi,
                            ri,
                            ddx as int,
                            ddy + 1,
                            color,
                        )[i] by {
                            lemma_index_coords(wi, hi, nx as int, ny as int, i);
                        }
                    }
                } else {
                    proof {
                        assert forall|i: int| 0 <= i < pixels@.len() implies pixels@[i]
                            == disc_pixels(
                            orig,
                            wi,
                            hi,
                            xi,
                            yi,
                            ri,
                            ddx as int,
                            ddy + 1,
                            color,
                        )[i] by {
                            if wi > 0 && i < wi * hi {
                                vstd::arithmetic::div_mod::lemma_fundamental_div_mod(i, wi);
                                assert(0 <= i % wi < wi);
                                let q = i / wi;
                                assert(0 <= q < hi) by (nonlinear_arith)
                                    requires
                                        i == wi * q + i % wi,
                                        0 <= i % wi,
                                        0 <= i < wi * hi,
                                        wi > 0,
                                ;
                            }
                        }
                    }
                }
            } else {
                proof {
                    assert forall|i: int| 0 <= i < pixels@.len() implies pixels@[i] == disc_pixels(
                        orig,
                        wi,
                        hi,
                        xi,
                        yi,
                        ri,
                        ddx as int,
                        ddy + 1,
                        color,
                    )[i] by {}
                }
            }
            assert(pixels@ =~= disc_pixels(orig, wi, hi, xi, yi, ri, ddx as int, ddy + 1, color));
            ddy = ddy + 1;
        }
        assert(pixels@ =~= disc_pixels(orig, wi, hi, xi, yi, ri, ddx + 1, -ri, color)) by {
            assert forall|i: int| 0 <= i < pixels@.len() implies pixels@[i] == disc_pixels(
                orig,
                wi,
                hi,
                xi,
                yi,
                ri,
                ddx + 1,
                -ri,
                color,
            )[i] by {}
        }
        ddx = ddx + 1;
    }
}

/// Whether `v` fits in an `i32`.
pub open spec fn fits_i32(v: int) -> bool {
    i32::MIN <= v <= i32::MAX
}

/// One step of the all-octant line walk from position `(s.0, s.1)` with
/// error `s.2`: a step along x when `2 * err > -dy`, a step along y when
/// `2 * err < dx`, each adjusting the error.
pub open spec fn walk_step(s: (int, int, int), dx: int, dy: int, sx: int, sy: int) -> (int, int, int) {
    let e2 = 2 * s.2;
    let (e1, cx) = if e2 > -dy {
        (s.2 - dy, s.0 + sx)
    } else {
        (s.2, s.0)
    };
    let (e3, cy) = if e2 < dx {
        (e1 + dx, s.1 + sy)
    } else {
        (e1, s.1)
    };
    (cx, cy, e3)
}

/// The positions the walk visits from state `s` until it reaches
/// `(x1, y1)`, at most `fuel` steps.
pub open spec fn walk_points(
    s: (int, int, int),
    x1: int,
    y1: int,
    dx: int,
    dy: int,
    sx: int,
    sy: int,
    fuel: nat,
) -> Seq<(int, int)>
    decreases fuel,
{
    if (s.0 == x1 && s.1 == y1) || fuel == 0 {
        seq![(s.0, s.1)]
    } else {
        seq![(s.0, s.1)] + walk_points(walk_step(s, dx, dy, sx, sy), x1, y1, dx, dy, sx, sy, (fuel
            - 1) as nat)
    }
}

/// Every error value the walk from `s` computes fits in an `i32`.
pub open spec fn walk_fits(
    s: (int, int, int),
    x1: int,
    y1: int,
    dx: int,
    dy: int,
    sx: int,
    sy: int,
    fuel: nat,
) -> bool
    decreases fuel,
{
    if (s.0 == x1 && s.1 == y1) || fuel == 0 {
        true
    } else {
        &&& fits_i32(2 * s.2)
        &&& fits_i32(s.2 - dy)
        &&& fits_i32(s.2 + dx)
        &&& fits_i32(s.2 - dy + dx)
        &&& walk_fits(walk_step(s, dx, dy, sx, sy), x1, y1, dx, dy, sx, sy, (fuel - 1) as nat)
    }
}

/// The pixels of the all-octant line from `(x0, y0)` to `(x1, y1)`, in
/// drawing order.
pub open spec fn line_walk(x0: int, y0: int, x1: int, y1: int) -> Seq<(int, int)> {
    let dx = abs(x1 - x0);
    let dy = abs(y1 - y0);
    let sx: int = if x0 < x1 {
        1
    } else {
        -1
    };
    let sy: int = if y0 < y1 {
        1
    } else {
        -1
    };
    walk_points((x0, y0, dx - dy), x1, y1, dx, dy, sx, sy, (dx + dy) as nat)
}

/// Every error value the all-octant line from `(x0, y0)` to `(x1, y1)`
/// computes fits in an `i32`.
pub open spec fn line_walk_fits(x0: int, y0: int, x1: int, y1: int) -> bool {
    let dx = abs(x1 - x0);
    let dy = abs(y1 - y0);
    let sx: int = if x0 < x1 {
        1
    } else {
        -1
    };
    let sy: int = if y0 < y1 {
        1
    } else {
        -1
    };
    walk_fits((x0, y0, dx - dy), x1, y1, dx, dy, sx, sy, (dx + dy) as nat)
}

proof fn lemma_walk_progress(dx: int, dy: int, nx: int, ny: int, e: int)
    requires
        0 <= nx <= dx,
        0 <= ny <= dy,
        !(nx == dx && ny == dy),
        e == dx - dy - nx * dy + ny * dx,
    ensures
        nx == dx ==> !(2 * e > -dy),
        ny == dy ==> !(2 * e < dx),
        2 * e > -dy || 2 * e < dx,
{
    if nx == dx {
        assert(e <= -dy) by (nonlinear_arith)
            requires
                e == dx - dy - nx * dy + ny * dx,
                nx == dx,
                0 <= ny < dy,
                dx >= 0,
        ;
    }
    if ny == dy {
        assert(e >= dx) by (nonlinear_arith)
            requires
                e == dx - dy - nx * dy + ny * dx,
                ny == dy,
                0 <= nx < dx,
                dy >= 0,
        ;
    }
}

/// Whether consecutive points of `pts` touch.
pub open spec fn connected(pts: Seq<(int, int)>) -> bool {
    forall|j: int|
        0 <= j < pts.len() - 1 ==> abs((#[trigger] pts[j + 1]).0 - pts[j].0) <= 1 && abs(
            pts[j + 1].1 - pts[j].1,
        ) <= 1
}

proof fn lemma_walk_reaches_end(
    x1: int,
    y1: int,
    dx: int,
    dy: int,
    sx: int,
    sy: int,
    nx: int,
    ny: int,
    k: int,
    cx: int,
    cy: int,
    e: int,
    fuel: nat,
)
    requires
        sx == 1 || sx == -1,
        sy == 1 || sy == -1,
        0 <= nx <= dx,
        0 <= ny <= dy,
        0 <= k <= nx + ny,
        cx == x1 - sx * (dx - nx),
        cy == y1 - sy * (dy - ny),
        e == dx - dy - nx * dy + ny * dx,
        fuel == dx + dy - k,
    ensures
        walk_points((cx, cy, e), x1, y1, dx, dy, sx, sy, fuel).len() >= 1,
        walk_points((cx, cy, e), x1, y1, dx, dy, sx, sy, fuel)[0] == (cx, cy),
        walk_points((cx, cy, e), x1, y1, dx, dy, sx, sy, fuel).last() == (x1, y1),
        connected(walk_points((cx, cy, e), x1, y1, dx, dy, sx, sy, fuel)),
    decreases fuel,
{
    let s = (cx, cy, e);
    if !(cx == x1 && cy == y1) {
        assert(!(nx == dx && ny == dy)) by (nonlinear_arith)
            requires
                cx == x1 - sx * (dx - nx),
                cy == y1 - sy * (dy - ny),
                !(cx == x1 && cy == y1),
        ;
        lemma_walk_progress(dx, dy, nx, ny, e);
        assert(fuel > 0);
        let e2 = 2 * e;
        let nx2 = if e2 > -dy { nx + 1 } else { nx };
        let ny2 = if e2 < dx { ny + 1 } else { ny };
        let t = walk_step(s, dx, dy, sx, sy);
        assert(t.2 == dx - dy - nx2 * dy + ny2 * dx) by (nonlinear_arith)
            requires
                e == dx - dy - nx * dy + ny * dx,
                nx2 == (if e2 > -dy { nx + 1 } else { nx }),
                ny2 == (if e2 < dx { ny + 1 } else { ny }),
                e2 == 2 * e,
                t.2 == (if e2 > -dy { e - dy } else { e }) + (if e2 < dx { dx } else { 0 }),
        ;
        assert(t.0 == x1 - sx * (dx - nx2)) by (nonlinear_arith)
            requires
                cx == x1 - sx * (dx - nx),
                t.0 == (if e2 > -dy { cx + sx } else { cx }),
                nx2 == (if e2 > -dy { nx + 1 } else { nx }),
        ;
        assert(t.1 == y1 - sy * (dy - ny2)) by (nonlinear_arith)
            requires
                cy == y1 - sy * (dy - ny),
                t.1 == (if e2 < dx { cy + sy } else { cy }),
                ny2 == (if e2 < dx { ny + 1 } else { ny }),
        ;
        let f2 = (fuel - 1) as nat;
        lemma_walk_reaches_end(x1, y1, dx, dy, sx, sy, nx2, ny2, k + 1, t.0, t.1, t.2, f2);
        let rest = walk_points((t.0, t.1, t.2), x1, y1, dx, dy, sx, sy, f2);
        let pts = walk_points(s, x1, y1, dx, dy, sx, sy, fuel);
        assert(t == (t.0, t.1, t.2));
        assert(pts == seq![(cx, cy)] + rest);
        assert forall|j: int| 0 <= j < pts.len() - 1 implies abs((#[trigger] pts[j + 1]).0 - pts[j].0)
            <= 1 && abs(pts[j + 1].1 - pts[j].1) <= 1 by {
            if j > 0 {
                assert(pts[j + 1] == rest[(j - 1) + 1]);
                assert(pts[j] == rest[j - 1]);
            } else {
                assert(pts[1] == rest[0]);
            }
        }
    }
}

/// The all-octant line starts at its first endpoint, ends at its second,
/// and each pixel touches the one before it.
pub proof fn lemma_line_walk_endpoints(x0: int, y0: int, x1: int, y1: int)
    ensures
        line_walk(x0, y0, x1, y1).len() >= 1,
        line_walk(x0, y0, x1, y1)[0] == (x0, y0),
        line_walk(x0, y0, x1, y1).last() == (x1, y1),
        connected(line_walk(x0, y0, x1, y1)),
{
    let dx = abs(x1 - x0);
    let dy = abs(y1 - y0);
    let sx: int = if x0 < x1 { 1 } else { -1 };
    let sy: int = if y0 < y1 { 1 } else { -1 };
    assert(0 * dy == 0 && 0 * dx == 0);
    assert(x0 == x1 - sx * (dx - 0)) by (nonlinear_arith)
        requires
            dx == abs(x1 - x0),
            sx == (if x0 < x1 { 1int } else { -1int }),
    ;
    assert(y0 == y1 - sy * (dy - 0)) by (nonlinear_arith)
        requires
            dy == abs(y1 - y0),
            sy == (if y0 < y1 { 1int } else { -1int }),
    ;
    lemma_walk_reaches_end(x1, y1, dx, dy, sx, sy, 0, 0, 0, x0, y0, dx - dy, (dx + dy) as nat);
}

/// Draws the line from `(x0, y0)` to `(x1, y1)` in color `color` into the
/// `w` by `h` row-major `pixels`, walking one pixel at a time in any
/// octant; pixels outside the image are skipped.
pub fn draw_line(
    pixels: &mut [(u8, u8, u8)],
    w: usize,
    h: usize,
    x0: i32,
    y0: i32,
    x1: i32,
    y1: i32,
    color: (u8, u8, u8),
)
    requires
        old(pixels)@.len() >= w * h,
        w <= i32::MAX,
        h <= i32::MAX,
        i32::MIN < x1 - x0 <= i32::MAX,
        i32::MIN < y1 - y0 <= i32::MAX,
        line_walk_fits(x0 as int, y0 as int, x1 as int, y1 as int),
    ensures
        final(pixels)@ == paint(
            old(pixels)@,
            w as int,
            h as int,
            line_walk(x0 as int, y0 as int, x1 as int, y1 as int),
            color,
        ),
{
    let ddx = x1 - x0;
    let ddy = y1 - y0;
    let dx = if ddx < 0 { -ddx } else { ddx };
    let dy = if ddy < 0 { -ddy } else { ddy };
    let sx: i32 = if x0 < x1 { 1 } else { -1 };
    let sy: i32 = if y0 < y1 { 1 } else { -1 };
    let mut err = dx - dy;
    let mut cx = x0;
    let mut cy = y0;
    let ghost (wi, hi, orig) = (w as int, h as int, pixels@);
    let ghost total = line_walk(x0 as int, y0 as int, x1 as int, y1 as int);
    let ghost mut done: Seq<(int, int)> = Seq::empty();
    let ghost mut fuel: nat = (dx + dy) as nat;
    let ghost mut nx: int = 0;
    let ghost mut ny: int = 0;
    let ghost mut k: int = 0;
    assert(0 * (dy as int) == 0 && 0 * (dx as int) == 0);
    loop
        invariant_except_break
            total == done + walk_points(
                (cx as int, cy as int, err as int),
                x1 as int,
                y1 as int,
                dx as int,
                dy as int,
                sx as int,
                sy as int,
                fuel,
            ),
            walk_fits(
                (cx as int, cy as int, err as int),
                x1 as int,
                y1 as int,
                dx as int,
                dy as int,
                sx as int,
                sy as int,
                fuel,
            ),
            pixels@ == paint(orig, wi, hi, done, color),
        invariant
            wi == w,
            hi == h,
            w <= i32::MAX,
            h <= i32::MAX,
            orig.len() >= wi * hi,
            pixels@.len() == orig.len(),
            dx == abs(x1 - x0),
            dy == abs(y1 - y0),
            sx == (if x0 < x1 { 1int } else { -1int }),
            sy == (if y0 < y1 { 1int } else { -1int }),
            0 <= nx <= dx,
            0 <= ny <= dy,
            cx == (if sx == 1 { x0 + nx } else { x0 - nx }),
            cy == (if sy == 1 { y0 + ny } else { y0 - ny }),
            err == dx - dy - nx * dy + ny * dx,
            0 <= k <= nx + ny,
            fuel == dx + dy - k,
        ensures
            pixels@ == paint(orig, wi, hi, total, color),
        decreases fuel,
    {
        let ghost s = (cx as int, cy as int, err as int);
        let ghost before = pixels@;
        if cx >= 0 && cx < w as i32 && cy >= 0 && cy < h as i32 {
            let plen = pixels.len();
            proof {
                lemma_row_major(wi, hi, cx as int, cy as int);
            }
            let idx = (cy as usize) * w + (cx as usize);
            pixels[idx] = color;
        }
        proof {
            assert(pixels@ == set_pixel(before, wi, hi, (cx as int, cy as int), color));
            assert((done + seq![(cx as int, cy as int)]).drop_last() =~= done);
        }
        if cx == x1 && cy == y1 {
            proof {
                assert(total == done + seq![(cx as int, cy as int)]);
            }
            break;
        }
        proof {
            lemma_walk_progress(dx as int, dy as int, nx, ny, err as int);
            assert(fuel > 0);
        }
        let e2 = 2 * err;
        if e2 > -dy {
            err = err - dy;
            cx = cx + sx;
            proof {
                nx = nx + 1;
                assert(err == dx - dy - nx * dy + ny * dx) by (nonlinear_arith)
                    requires
                        err == (dx - dy - (nx - 1) * dy + ny * dx) - dy,
                ;
            }
        }
        if e2 < dx {
            err = err + dx;
            cy = cy + sy;
            proof {
                ny = ny + 1;
                assert(err == dx - dy - nx * dy + ny * dx) by (nonlinear_arith)
                    requires
                        err == (dx - dy - nx * dy + (ny - 1) * dx) + dx,
                ;
            }
        }
        proof {
            let rest = walk_points(
                (cx as int, cy as int, err as int),
                x1 as int,
                y1 as int,
                dx as int,
                dy as int,
                sx as int,
                sy as int,
                (fuel - 1) as nat,
            );
            assert(walk_step(s, dx as int, dy as int, sx as int, sy as int) == (
                cx as int,
                cy as int,
                err as int,
            ));
            assert((done + seq![(s.0, s.1)]) + rest =~= done + (seq![(s.0, s.1)] + rest));
            done = done + seq![(s.0, s.1)];
            k = k + 1;
            fuel = (fuel - 1) as nat;
        }
    }
}

} // verus!
