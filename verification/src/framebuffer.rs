//! The color plane of a software rasteriser's framebuffer and its wireframe
//! line drawing, which walks with a halved error term.
use vstd::prelude::*;
use crate::raster::{abs, connected, lemma_row_major, paint, set_pixel};

verus! {

/// A `width` by `height` row-major plane of RGB pixels.
pub struct Framebuffer {
    pub width: usize,
    pub height: usize,
    pub color: Vec<[u8; 3]>,
}

/// A black pixel.
pub open spec fn black_px() -> [u8; 3] {
    [0u8, 0u8, 0u8]
}

impl Framebuffer {
    /// One pixel per position, and coordinates that fit in an `i32`.
    pub open spec fn wf(&self) -> bool {
        &&& self.color@.len() == self.width * self.height
        &&& self.width <= i32::MAX
        &&& self.height <= i32::MAX
    }

    /// A black framebuffer of `w` by `h` pixels.
    pub fn new(w: usize, h: usize) -> (r: Self)
        requires
            w * h <= usize::MAX,
            w <= i32::MAX,
            h <= i32::MAX,
        ensures
            r.wf(),
            r.width == w,
            r.height == h,
            r.color@ == Seq::new((w * h) as nat, |i: int| black_px()),
    {
        let n = w * h;
        let mut color: Vec<[u8; 3]> = Vec::new();
        let mut i: usize = 0;
        while i < n
            invariant
                i <= n,
                color@ == Seq::new(i as nat, |j: int| black_px()),
            decreases n - i,
        {
            color.push([0u8, 0u8, 0u8]);
            i = i + 1;
            assert(color@ =~= Seq::new(i as nat, |j: int| black_px()));
        }
        Framebuffer { width: w, height: h, color }
    }

    /// Sets the pixel at `(x, y)` to `c`; a point outside changes nothing.
    pub fn set_pixel(&mut self, x: i32, y: i32, c: [u8; 3])
        requires
            old(self).wf(),
        ensures
            final(self).wf(),
            final(self).width == old(self).width,
            final(self).height == old(self).height,
            final(self).color@ == set_pixel(
                old(self).color@,
                old(self).width as int,
                old(self).height as int,
                (x as int, y as int),
                c,
            ),
    {
        if x >= 0 && (x as usize) < self.width && y >= 0 && (y as usize) < self.height {
            let n = self.color.len();
            proof {
                lemma_row_major(self.width as int, self.height as int, x as int, y as int);
                assert((y as usize) * self.width + (x as usize) < self.color@.len());
                assert(0 <= (y as usize) * self.width) by (nonlinear_arith)
                    requires
                        y >= 0,
                        self.width >= 0,
                ;
            }
            let idx = (y as usize) * self.width + (x as usize);
            self.color.set(idx, c);
        }
    }

    /// Paints every pixel `bg`.
    pub fn clear(&mut self, bg: [u8; 3])
        requires
            old(self).wf(),
        ensures
            final(self).wf(),
            final(self).width == old(self).width,
            final(self).height == old(self).height,
            final(self).color@ == Seq::new(old(self).color@.len(), |i: int| bg),
    {
        let n = self.color.len();
        let mut i: usize = 0;
        while i < n
            invariant
                i <= n,
                n == self.color@.len(),
                self.width == old(self).width,
                self.height == old(self).height,
                self.color@.len() == old(self).color@.len(),
                forall|j: int| 0 <= j < i ==> self.color@[j] == bg,
            decreases n - i,
        {
            self.color.set(i, bg);
            i = i + 1;
        }
        assert(self.color@ =~= Seq::new(old(self).color@.len(), |i: int| bg));
    }
}

/// The error the walk starts with: half the longer extent, positive when x
/// is longer and negative otherwise.
pub open spec fn half_error_start(dx: int, dy: int) -> int {
    if dx > dy {
        dx / 2
    } else {
        -(dy / 2)
    }
}

/// One step of the walk from `(s.0, s.1)` with error `s.2`: a step along x
/// when `err > -dx`, a step along y when `err < dy`, each adjusting the
/// error.
pub open spec fn half_step(s: (int, int, int), dx: int, dy: int, sx: int, sy: int) -> (int, int, int) {
    let (e1, cx) = if s.2 > -dx {
        (s.2 - dy, s.0 + sx)
    } else {
        (s.2, s.0)
    };
    let (e3, cy) = if s.2 < dy {
        (e1 + dx, s.1 + sy)
    } else {
        (e1, s.1)
    };
    (cx, cy, e3)
}

/// The positions the walk visits from state `s` until it reaches
/// `(x1, y1)`, at most `fuel` steps.
pub open spec fn half_walk(
    s: (int, int, int),
    x1: int,
    y1: int,
    dx: int,
    dy: int,
    sx: int,
    sy: int,
    fuel: nat,
) -> Seq<(int, int)>
    decreases fuel,
{
    if (s.0 == x1 && s.1 == y1) || fuel == 0 {
        seq![(s.0, s.1)]
    } else {
        seq![(s.0, s.1)] + half_walk(half_step(s, dx, dy, sx, sy), x1, y1, dx, dy, sx, sy, (fuel
            - 1) as nat)
    }
}

/// The pixels of the wireframe line from `(x0, y0)` to `(x1, y1)`, in
/// drawing order.
pub open spec fn half_line(x0: int, y0: int, x1: int, y1: int) -> Seq<(int, int)> {
    let dx = abs(x1 - x0);
    let dy = abs(y1 - y0);
    let sx: int = if x0 < x1 {
        1
    } else {
        -1
    };
    let sy: int = if y0 < y1 {
        1
    } else {
        -1
    };
    half_walk((x0, y0, half_error_start(dx, dy)), x1, y1, dx, dy, sx, sy, (dx + dy) as nat)
}

/// The error window the walk keeps: `[0, dx)` when x is longer, `(-dy, 0]`
/// otherwise.
pub open spec fn in_window(err: int, dx: int, dy: int) -> bool {
    if dx > dy {
        0 <= err < dx
    } else {
        -dy < err <= 0
    }
}

/// From a state inside the window, with `nx` and `ny` steps taken along
/// each axis, the walk still to come is not finished only while some axis
/// has steps left; it steps along the longer axis every time, never past the
/// end of either axis, and stays in the window.
proof fn lemma_half_progress(dx: int, dy: int, nx: int, ny: int, err: int)
    requires
        0 <= nx <= dx,
        0 <= ny <= dy,
        !(nx == dx && ny == dy),
        err == half_error_start(dx, dy) - nx * dy + ny * dx,
        in_window(err, dx, dy),
    ensures
        nx == dx ==> !(err > -dx),
        ny == dy ==> !(err < dy),
        err > -dx || err < dy,
        ({
            let nx2 = if err > -dx { nx + 1 } else { nx };
            let ny2 = if err < dy { ny + 1 } else { ny };
            let e3 = err - (if err > -dx { dy } else { 0 }) + (if err < dy { dx } else { 0 });
            &&& e3 == half_error_start(dx, dy) - nx2 * dy + ny2 * dx
            &&& in_window(e3, dx, dy)
        }),
{
    let e0 = half_error_start(dx, dy);
    if dx > dy {
        assert(0 <= e0 < dx);
        if nx == dx {
            assert(ny == dy) by (nonlinear_arith)
                requires
                    err == e0 - nx * dy + ny * dx,
                    nx == dx,
                    0 <= err < dx,
                    0 <= e0 < dx,
                    0 <= ny <= dy,
            ;
        }
        if ny == dy {
            assert(err >= dy) by (nonlinear_arith)
                requires
                    err == e0 - nx * dy + ny * dx,
                    ny == dy,
                    0 <= nx < dx,
                    0 <= e0,
                    dy >= 0,
            ;
        }
    } else {
        assert(dy > 0);
        assert(-dy < e0 <= 0);
        if ny == dy {
            assert(nx == dx) by (nonlinear_arith)
                requires
                    err == e0 - nx * dy + ny * dx,
                    ny == dy,
                    -dy < err <= 0,
                    -dy < e0 <= 0,
                    0 <= nx <= dx,
                    dx <= dy,
            ;
        }
        if nx == dx {
            assert(err <= -dx) by (nonlinear_arith)
                requires
                    err == e0 - nx * dy + ny * dx,
                    nx == dx,
                    0 <= ny < dy,
                    e0 <= 0,
                    dx >= 0,
            ;
        }
    }
    let nx2 = if err > -dx { nx + 1 } else { nx };
    let ny2 = if err < dy { ny + 1 } else { ny };
    let e3 = err - (if err > -dx { dy } else { 0 }) + (if err < dy { dx } else { 0 });
    assert(e3 == e0 - nx2 * dy + ny2 * dx) by (nonlinear_arith)
        requires
            err == e0 - nx * dy + ny * dx,
            nx2 == (if err > -dx { nx + 1 } else { nx }),
            ny2 == (if err < dy { ny + 1 } else { ny }),
            e3 == err - (if err > -dx { dy } else { 0 }) + (if err < dy { dx } else { 0 }),
    ;
}

proof fn lemma_half_walk_reaches_end(
    x1: int,
    y1: int,
    dx: int,
    dy: int,
    sx: int,
    sy: int,
    nx: int,
    ny: int,
    k: int,
    cx: int,
    cy: int,
    e: int,
    fuel: nat,
)
    requires
        sx == 1 || sx == -1,
        sy == 1 || sy == -1,
        0 <= nx <= dx,
        0 <= ny <= dy,
        0 <= k <= nx + ny,
        cx == x1 - sx * (dx - nx),
        cy == y1 - sy * (dy - ny),
        e == half_error_start(dx, dy) - nx * dy + ny * dx,
        (nx == dx && ny == dy) || in_window(e, dx, dy),
        fuel == dx + dy - k,
    ensures
        half_walk((cx, cy, e), x1, y1, dx, dy, sx, sy, fuel).len() >= 1,
        half_walk((cx, cy, e), x1, y1, dx, dy, sx, sy, fuel)[0] == (cx, cy),
        half_walk((cx, cy, e), x1, y1, dx, dy, sx, sy, fuel).last() == (x1, y1),
        connected(half_walk((cx, cy, e), x1, y1, dx, dy, sx, sy, fuel)),
    decreases fuel,
{
    let s = (cx, cy, e);
    if !(cx == x1 && cy == y1) {
        assert(!(nx == dx && ny == dy)) by (nonlinear_arith)
            requires
                cx == x1 - sx * (dx - nx),
                cy == y1 - sy * (dy - ny),
                !(cx == x1 && cy == y1),
        ;
        lemma_half_progress(dx, dy, nx, ny, e);
        assert(fuel > 0);
        let nx2 = if e > -dx { nx + 1 } else { nx };
        let ny2 = if e < dy { ny + 1 } else { ny };
        let t = half_step(s, dx, dy, sx, sy);
        assert(t.0 == x1 - sx * (dx - nx2)) by (nonlinear_arith)
            requires
                cx == x1 - sx * (dx - nx),
                t.0 == (if e > -dx { cx + sx } else { cx }),
                nx2 == (if e > -dx { nx + 1 } else { nx }),
        ;
        assert(t.1 == y1 - sy * (dy - ny2)) by (nonlinear_arith)
            requires
                cy == y1 - sy * (dy - ny),
                t.1 == (if e < dy { cy + sy } else { cy }),
                ny2 == (if e < dy { ny + 1 } else { ny }),
        ;
        let f2 = (fuel - 1) as nat;
        lemma_half_walk_reaches_end(x1, y1, dx, dy, sx, sy, nx2, ny2, k + 1, t.0, t.1, t.2, f2);
        let rest = half_walk((t.0, t.1, t.2), x1, y1, dx, dy, sx, sy, f2);
        let pts = half_walk(s, x1, y1, dx, dy, sx, sy, fuel);
        assert(t == (t.0, t.1, t.2));
        assert(pts == seq![(cx, cy)] + rest);
        assert forall|j: int| 0 <= j < pts.len() - 1 implies abs((#[trigger] pts[j + 1]).0 - pts[j].0)
            <= 1 && abs(pts[j + 1].1 - pts[j].1) <= 1 by {
            if j > 0 {
                assert(pts[j + 1] == rest[(j - 1) + 1]);
                assert(pts[j] == rest[j - 1]);
            } else {
                assert(pts[1] == rest[0]);
            }
        }
    }
}

/// The wireframe line starts at its first endpoint, ends at its second, and
/// each pixel touches the one before it.
pub proof fn lemma_half_line_endpoints(x0: int, y0: int, x1: int, y1: int)
    ensures
        half_line(x0, y0, x1, y1).len() >= 1,
        half_line(x0, y0, x1, y1)[0] == (x0, y0),
        half_line(x0, y0, x1, y1).last() == (x1, y1),
        connected(half_line(x0, y0, x1, y1)),
{
    let dx = abs(x1 - x0);
    let dy = abs(y1 - y0);
    let sx: int = if x0 < x1 { 1 } else { -1 };
    let sy: int = if y0 < y1 { 1 } else { -1 };
    assert(0 * dy == 0 && 0 * dx == 0);
    assert(x0 == x1 - sx * (dx - 0)) by (nonlinear_arith)
        requires
            dx == abs(x1 - x0),
            sx == (if x0 < x1 { 1int } else { -1int }),
    ;
    assert(y0 == y1 - sy * (dy - 0)) by (nonlinear_arith)
        requires
            dy == abs(y1 - y0),
            sy == (if y0 < y1 { 1int } else { -1int }),
    ;
    lemma_half_walk_reaches_end(
        x1,
        y1,
        dx,
        dy,
        sx,
        sy,
        0,
        0,
        0,
        x0,
        y0,
        half_error_start(dx, dy),
        (dx + dy) as nat,
    );
}

/// Draws the line from `(x0, y0)` to `(x1, y1)` in color `c`, walking one
/// pixel at a time with a halved error term; pixels outside the framebuffer
/// are skipped. The error is updated in whichever order keeps it in range.
pub fn draw_line(fb: &mut Framebuffer, x0: i32, y0: i32, x1: i32, y1: i32, c: [u8; 3])
    requires
        old(fb).wf(),
        i32::MIN < x1 - x0 <= i32::MAX,
        i32::MIN < y1 - y0 <= i32::MAX,
    ensures
        final(fb).wf(),
        final(fb).width == old(fb).width,
        final(fb).height == old(fb).height,
        final(fb).color@ == paint(
            old(fb).color@,
            old(fb).width as int,
            old(fb).height as int,
            half_line(x0 as int, y0 as int, x1 as int, y1 as int),
            c,
        ),
{
    let ddx = x1 - x0;
    let ddy = y1 - y0;
    let dx = if ddx < 0 { -ddx } else { ddx };
    let dy = if ddy < 0 { -ddy } else { ddy };
    let sx: i32 = if x0 < x1 { 1 } else { -1 };
    let sy: i32 = if y0 < y1 { 1 } else { -1 };
    let mut err: i32 = if dx > dy { dx / 2 } else { -(dy / 2) };
    let mut cx = x0;
    let mut cy = y0;
    let ghost (wi, hi, orig) = (fb.width as int, fb.height as int, fb.color@);
    let ghost total = half_line(x0 as int, y0 as int, x1 as int, y1 as int);
    let ghost mut done: Seq<(int, int)> = Seq::empty();
    let ghost mut fuel: nat = (dx + dy) as nat;
    let ghost mut nx: int = 0;
    let ghost mut ny: int = 0;
    let ghost mut k: int = 0;
    assert(0 * (dy as int) == 0 && 0 * (dx as int) == 0);
    loop
        invariant_except_break
            total == done + half_walk(
                (cx as int, cy as int, err as int),
                x1 as int,
                y1 as int,
                dx as int,
                dy as int,
                sx as int,
                sy as int,
                fuel,
            ),
            (nx == dx && ny == dy) || in_window(err as int, dx as int, dy as int),
            fb.color@ == paint(orig, wi, hi, done, c),
        invariant
            fb.wf(),
            wi == fb.width,
            hi == fb.height,
            orig.len() == fb.color@.len(),
            dx == abs(x1 - x0),
            dy == abs(y1 - y0),
            sx == (if x0 < x1 { 1int } else { -1int }),
            sy == (if y0 < y1 { 1int } else { -1int }),
            0 <= nx <= dx,
            0 <= ny <= dy,
            cx == (if sx == 1 { x0 + nx } else { x0 - nx }),
            cy == (if sy == 1 { y0 + ny } else { y0 - ny }),
            err == half_error_start(dx as int, dy as int) - nx * dy + ny * dx,
            0 <= k <= nx + ny,
            fuel == dx + dy - k,
        ensures
            fb.wf(),
            wi == fb.width,
            hi == fb.height,
            fb.color@ == paint(orig, wi, hi, total, c),
        decreases fuel,
    {
        let ghost s = (cx as int, cy as int, err as int);
        let ghost before = fb.color@;
        fb.set_pixel(cx, cy, c);
        proof {
            assert((done + seq![(cx as int, cy as int)]).drop_last() =~= done);
        }
        if cx == x1 && cy == y1 {
            proof {
                assert(total == done + seq![(cx as int, cy as int)]);
            }
            break;
        }
        proof {
            assert(!(nx == dx && ny == dy)) by (nonlinear_arith)
                requires
                    cx == (if sx == 1 { x0 + nx } else { x0 - nx }),
                    cy == (if sy == 1 { y0 + ny } else { y0 - ny }),
                    dx == abs(x1 - x0),
                    dy == abs(y1 - y0),
                    sx == (if x0 < x1 { 1int } else { -1int }),
                    sy == (if y0 < y1 { 1int } else { -1int }),
                    !(cx == x1 && cy == y1),
            ;
            lemma_half_progress(dx as int, dy as int, nx, ny, err as int);
            assert(fuel > 0);
        }
        let step_x = err > -dx;
        let step_y = err < dy;
        let ghost e_old = err as int;
        if step_x {
            cx = cx + sx;
        }
        if step_y {
            cy = cy + sy;
        }
        err = if step_x && step_y {
            if err >= 0 {
                (err - dy) + dx
            } else {
                (err + dx) - dy
            }
        } else if step_x {
            err - dy
        } else {
            err + dx
        };
        proof {
            if step_x {
                nx = nx + 1;
            }
            if step_y {
                ny = ny + 1;
            }
            let rest = half_walk(
                (cx as int, cy as int, err as int),
                x1 as int,
                y1 as int,
                dx as int,
                dy as int,
                sx as int,
                sy as int,
                (fuel - 1) as nat,
            );
            assert(half_step(s, dx as int, dy as int, sx as int, sy as int) == (
                cx as int,
                cy as int,
                err as int,
            ));
            assert((done + seq![(s.0, s.1)]) + rest =~= done + (seq![(s.0, s.1)] + rest));
            done = done + seq![(s.0, s.1)];
            k = k + 1;
            fuel = (fuel - 1) as nat;
        }
    }
}

} // verus!
