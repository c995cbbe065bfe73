use vstd::prelude::*;
use vstd::arithmetic::div_mod::lemma_fundamental_div_mod_converse;
use vstd::arithmetic::div_mod::lemma_fundamental_div_mod;

verus! {

/// The depth key of a pixel that nothing was drawn on yet: every depth is nearer.
pub const FAR_DEPTH: u32 = 0xffff_ffff;

/// The bytes of a frame after pixel `i` (four bytes: red, green, blue, alpha) got `color`.
pub open spec fn paint(frame: Seq<u8>, i: int, color: [u8; 4]) -> Seq<u8> {
    Seq::new(frame.len(), |k: int| if 4 * i <= k < 4 * i + 4 { color@[k - 4 * i] } else { frame[k] })
}

/// The bytes of a frame after every whole pixel got `color` (bytes past the last
/// whole pixel stay as they are).
pub open spec fn filled(frame: Seq<u8>, color: [u8; 4]) -> Seq<u8> {
    Seq::new(frame.len(), |k: int| if k < 4 * (frame.len() / 4) { color@[k % 4] } else { frame[k] })
}

/// A depth buffer in which every pixel is as far as can be.
pub open spec fn cleared_depth(depth: Option<Seq<u32>>) -> Option<Seq<u32>> {
    match depth {
        Some(d) => Some(Seq::new(d.len(), |i: int| FAR_DEPTH)),
        None => None,
    }
}

/// The depth buffer, if there is one, as its sequence of depth keys.
pub open spec fn depth_of(buffer: Option<Vec<u32>>) -> Option<Seq<u32>> {
    match buffer {
        Some(b) => Some(b@),
        None => None,
    }
}

proof fn lemma_pixel_index(x: int, y: int, w: int, h: int)
    requires
        0 <= x < w,
        0 <= y < h,
    ensures
        0 <= y * w + x < w * h,
        4 * (y * w + x) + 4 <= 4 * (w * h),
{
    assert(y * w + x < w * h) by (nonlinear_arith)
        requires
            0 <= x < w,
            0 <= y < h,
    ;
    assert(0 <= y * w) by (nonlinear_arith)
        requires
            0 <= y,
            0 <= w,
    ;
}

proof fn lemma_coordinates(x: int, y: int, w: int, h: int)
    requires
        0 <= x < w,
        0 <= y < h,
    ensures
        (y * w + x) % w == x,
        (y * w + x) / w == y,
{
    lemma_fundamental_div_mod_converse(y * w + x, w, y, x);
}

proof fn lemma_index_of_coordinates(i: int, w: int, h: int)
    requires
        0 <= i < w * h,
        0 < w,
    ensures
        i == (i / w) * w + i % w,
        0 <= i % w < w,
        0 <= i / w < h,
{
    lemma_fundamental_div_mod(i, w);
    assert((i / w) * w == w * (i / w)) by (nonlinear_arith);
    assert(i / w < h) by (nonlinear_arith)
        requires
            0 <= i < w * h,
            0 < w,
            i == w * (i / w) + i % w,
            0 <= i % w < w,
    ;
    assert(0 <= i / w) by (nonlinear_arith)
        requires
            0 <= i,
            0 < w,
            i == w * (i / w) + i % w,
            0 <= i % w < w,
    ;
}

/// The value of `v` read as an `i32` (two's complement).
pub open spec fn wrap_i32(v: u32) -> int {
    if v <= i32::MAX { v as int } else { v - 0x1_0000_0000 }
}

/// Whether pixel (a, b) lies in the rectangle with corner (x, y), `w` columns
/// and `h` rows (sizes read as `i32`, as the canvas coordinates are).
pub open spec fn rect_covers(x: int, y: int, w: u32, h: u32, a: int, b: int) -> bool {
    x <= a < x + wrap_i32(w) && y <= b < y + wrap_i32(h)
}

/// Absolute value.
pub open spec fn abs_int(v: int) -> int {
    if v < 0 { -v } else { v }
}

/// One step of Bresenham's algorithm from (x, y) with error term `err`, where
/// `dx >= 0` and `dy <= 0` are the two (signed) extents of the line and
/// `sx`, `sy` the directions: the new position and error term.
pub open spec fn bresenham_step(x: int, y: int, err: int, sx: int, sy: int, dx: int, dy: int) -> (int, int, int) {
    let e2 = 2 * err;
    let x2 = if e2 >= dy { x + sx } else { x };
    let err2 = if e2 >= dy { err + dy } else { err };
    if e2 <= dx {
        (x2, y + sy, err2 + dx)
    } else {
        (x2, y, err2)
    }
}

/// The points that Bresenham's algorithm visits from (x, y) up to and including
/// (x1, y1), taking at most `fuel` points.
pub open spec fn bresenham_points(
    x: int,
    y: int,
    err: int,
    x1: int,
    y1: int,
    sx: int,
    sy: int,
    dx: int,
    dy: int,
    fuel: nat,
) -> Seq<(int, int)>
    decreases fuel,
{
    if fuel == 0 {
        seq![]
    } else if x == x1 && y == y1 {
        seq![(x, y)]
    } else {
        let (nx, ny, ne) = bresenham_step(x, y, err, sx, sy, dx, dy);
        seq![(x, y)] + bresenham_points(nx, ny, ne, x1, y1, sx, sy, dx, dy, (fuel - 1) as nat)
    }
}

/// The points of the segment from (x0, y0) to (x1, y1) as Bresenham's
/// algorithm visits them, the start first.
pub open spec fn line_points(x0: int, y0: int, x1: int, y1: int) -> Seq<(int, int)> {
    let dx = abs_int(x1 - x0);
    let dy = -abs_int(y1 - y0);
    let sx: int = if x0 < x1 { 1 } else { -1 };
    let sy: int = if y0 < y1 { 1 } else { -1 };
    bresenham_points(x0, y0, dx + dy, x1, y1, sx, sy, dx, dy, (dx - dy + 1) as nat)
}

/// Whether pixel (a, b) lies on the horizontal segment of row `y` between `x0` and `x1`.
pub open spec fn span_covers(x0: int, x1: int, y: int, a: int, b: int) -> bool {
    b == y && (if x0 <= x1 { x0 <= a <= x1 } else { x1 <= a <= x0 })
}

/// Integer division rounding toward zero, as Rust's `/` on signed integers.
pub open spec fn div_toward_zero(x: int, d: int) -> int {
    if x == 0 {
        0
    } else if x > 0 && d > 0 {
        x / d
    } else if x < 0 && d < 0 {
        (x * -1) / (d * -1)
    } else if x < 0 {
        ((x * -1) / d) * -1
    } else {
        (x / (d * -1)) * -1
    }
}

/// `v` limited to the range of `i32`.
pub open spec fn clamp_i32(v: int) -> int {
    if v < i32::MIN {
        i32::MIN as int
    } else if v > i32::MAX {
        i32::MAX as int
    } else {
        v
    }
}

/// The x coordinate at row `y` of the edge from (xa, ya) to (xb, yb), rounded
/// toward xa and limited to `i32`; a flat edge gives `xa`.
pub open spec fn interpolate_x(y: int, xa: int, ya: int, xb: int, yb: int) -> int {
    if ya == yb {
        xa
    } else {
        clamp_i32(xa + div_toward_zero((xb - xa) * (y - ya), yb - ya))
    }
}

/// The three vertices reordered by y, as three compare-and-swap steps (first
/// with second, first with third, second with third) leave them.
pub open spec fn sort_by_y(v: (int, int, int, int, int, int)) -> (int, int, int, int, int, int) {
    let (x0, y0, x1, y1, x2, y2) = v;
    let (x0, y0, x1, y1) = if y0 > y1 { (x1, y1, x0, y0) } else { (x0, y0, x1, y1) };
    let (x0, y0, x2, y2) = if y0 > y2 { (x2, y2, x0, y0) } else { (x0, y0, x2, y2) };
    let (x1, y1, x2, y2) = if y1 > y2 { (x2, y2, x1, y1) } else { (x1, y1, x2, y2) };
    (x0, y0, x1, y1, x2, y2)
}

/// The x coordinate at row `y` of the upper short edge, from the top vertex
/// (xa, ya) to the middle one (xb, yb); a flat upper edge (the triangle's top
/// row) reaches over to the middle vertex.
pub open spec fn upper_edge_x(y: int, xa: int, ya: int, xb: int, yb: int) -> int {
    if ya == yb { xb } else { interpolate_x(y, xa, ya, xb, yb) }
}

/// Whether pixel (a, b) is filled for the triangle whose vertices, sorted by y,
/// are `t`: every row from the top vertex to the bottom one is filled between the
/// long edge (top to bottom) and the short edge of its half (a flat top edge is
/// filled from one end to the other); a triangle whose top and bottom rows
/// coincide has no interior and fills nothing.
pub open spec fn triangle_covers(t: (int, int, int, int, int, int), a: int, b: int) -> bool {
    let (x0, y0, x1, y1, x2, y2) = t;
    y0 != y2 && (
    (y0 <= b <= y1 && span_covers(interpolate_x(b, x0, y0, x2, y2), upper_edge_x(b, x0, y0, x1, y1), b, a, b))
    || (y1 + 1 <= b <= y2 && span_covers(interpolate_x(b, x0, y0, x2, y2), interpolate_x(b, x1, y1, x2, y2), b, a, b)))
}

/// The x coordinate at row `y` of the edge from (xa, ya) to (xb, yb) (see [`interpolate_x`]).
pub fn edge_x(y: i32, xa: i32, ya: i32, xb: i32, yb: i32) -> (r: i32)
    ensures
        r == interpolate_x(y as int, xa as int, ya as int, xb as int, yb as int),
{
    if ya == yb {
        return xa;
    }
    proof {
        assert(-0x1_0000_0000_0000_0000 <= (xb - xa) * (y - ya) <= 0x1_0000_0000_0000_0000) by (nonlinear_arith)
            requires
                -0x1_0000_0000 <= xb - xa <= 0x1_0000_0000,
                -0x1_0000_0000 <= y - ya <= 0x1_0000_0000,
        ;
    }
    let num: i128 = (xb as i128 - xa as i128) * (y as i128 - ya as i128);
    let den: i128 = yb as i128 - ya as i128;
    let q: i128 = match num.checked_div(den) {
        Some(q) => q,
        None => 0,
    };
    let result: i128 = xa as i128 + q;
    if result < i32::MIN as i128 {
        i32::MIN
    } else if result > i32::MAX as i128 {
        i32::MAX
    } else {
        result as i32
    }
}

/// A drawing surface over the RGBA bytes of one frame, with an optional
/// per-pixel depth buffer (smaller depth keys are nearer).
pub struct CPUDrawer<'a> {
    /// The frame: four bytes per pixel, row after row.
    pub frame: &'a mut [u8],
    /// Width of the canvas in pixels.
    pub width: u32,
    /// Height of the canvas in pixels.
    pub height: u32,
    /// Nearest depth key drawn so far at each pixel, when depth testing was ever enabled.
    pub depth_buffer: Option<Vec<u32>>,
    /// Whether pixels are depth tested.
    pub depth_enabled: bool,
    /// Depth key of the primitives drawn next.
    pub current_depth: u32,
}

impl<'a> CPUDrawer<'a> {
    /// The frame holds exactly the canvas, and the depth buffer (if any) one key per pixel.
    pub open spec fn wf(&self) -> bool {
        &&& self.frame@.len() >= 4 * (self.width * self.height)
        &&& (self.depth_buffer matches Some(b) ==> b@.len() == self.width * self.height)
    }

    /// The settings that drawing does not change.
    pub open spec fn same_pen(&self, other: &Self) -> bool {
        &&& self.width == other.width
        &&& self.height == other.height
        &&& self.depth_enabled == other.depth_enabled
        &&& self.current_depth == other.current_depth
    }

    /// Whether (x, y) lies on the canvas.
    pub open spec fn on_canvas(&self, x: int, y: int) -> bool {
        0 <= x < self.width && 0 <= y < self.height
    }

    /// The linear index of pixel (x, y).
    pub open spec fn index_of(&self, x: int, y: int) -> int {
        y * self.width + x
    }

    /// Whether the depth test rejects pixel `i` given the depth buffer `depth`.
    pub open spec fn rejects(&self, depth: Option<Seq<u32>>, i: int) -> bool {
        self.depth_enabled && depth is Some && self.current_depth >= depth.unwrap()[i]
    }

    /// Frame bytes after drawing pixel (x, y) with `color` over `frame`/`depth`.
    pub open spec fn plot_frame(&self, frame: Seq<u8>, depth: Option<Seq<u32>>, x: int, y: int, color: [u8; 4]) -> Seq<u8> {
        if !self.on_canvas(x, y) || self.rejects(depth, self.index_of(x, y)) {
            frame
        } else {
            paint(frame, self.index_of(x, y), color)
        }
    }

    /// Depth buffer after drawing pixel (x, y) over `depth`.
    pub open spec fn plot_depth(&self, depth: Option<Seq<u32>>, x: int, y: int) -> Option<Seq<u32>> {
        if !self.on_canvas(x, y) || self.rejects(depth, self.index_of(x, y)) || !self.depth_enabled {
            depth
        } else {
            match depth {
                Some(d) => Some(d.update(self.index_of(x, y), self.current_depth)),
                None => None,
            }
        }
    }

    /// The column of the pixel with linear index `i`.
    pub open spec fn column_of(&self, i: int) -> int {
        i % (self.width as int)
    }

    /// The row of the pixel with linear index `i`.
    pub open spec fn row_of(&self, i: int) -> int {
        i / (self.width as int)
    }

    /// Frame bytes after drawing, with the depth test, every canvas pixel (x, y)
    /// for which `covers(x, y)` holds, each pixel once.
    pub open spec fn stamp_frame(&self, frame: Seq<u8>, depth: Option<Seq<u32>>, covers: spec_fn(int, int) -> bool, color: [u8; 4]) -> Seq<u8> {
        Seq::new(
            frame.len(),
            |k: int|
                if k < 4 * (self.width * self.height) && covers(self.column_of(k / 4), self.row_of(k / 4))
                    && !self.rejects(depth, k / 4) {
                    color@[k % 4]
                } else {
                    frame[k]
                },
        )
    }

    /// Depth buffer after drawing, with the depth test, the pixels that `covers` selects.
    pub open spec fn stamp_depth(&self, depth: Option<Seq<u32>>, covers: spec_fn(int, int) -> bool) -> Option<Seq<u32>> {
        match depth {
            Some(d) => if self.depth_enabled {
                Some(Seq::new(d.len(), |i: int| if covers(self.column_of(i), self.row_of(i)) && self.current_depth < d[i] { self.current_depth } else { d[i] }))
            } else {
                depth
            },
            None => None,
        }
    }

    /// Frame bytes after drawing, in order and with the depth test, the pixels `pts`.
    pub open spec fn plot_all_frame(&self, frame: Seq<u8>, depth: Option<Seq<u32>>, pts: Seq<(int, int)>, color: [u8; 4]) -> Seq<u8>
        decreases pts.len(),
    {
        if pts.len() == 0 {
            frame
        } else {
            let prev = pts.drop_last();
            self.plot_frame(
                self.plot_all_frame(frame, depth, prev, color),
                self.plot_all_depth(depth, prev),
                pts.last().0,
                pts.last().1,
                color,
            )
        }
    }

    /// Depth buffer after drawing, in order and with the depth test, the pixels `pts`.
    pub open spec fn plot_all_depth(&self, depth: Option<Seq<u32>>, pts: Seq<(int, int)>) -> Option<Seq<u32>>
        decreases pts.len(),
    {
        if pts.len() == 0 {
            depth
        } else {
            let prev = pts.drop_last();
            self.plot_depth(self.plot_all_depth(depth, prev), pts.last().0, pts.last().1)
        }
    }

    /// Frame bytes and depth buffer after [`CPUDrawer::draw_line`] from (x0, y0) to (x1, y1) over `st`.
    pub open spec fn line_result(&self, st: (Seq<u8>, Option<Seq<u32>>), x0: int, y0: int, x1: int, y1: int, color: [u8; 4]) -> (Seq<u8>, Option<Seq<u32>>) {
        if y0 == y1 {
            (
                self.stamp_frame(st.0, st.1, |a: int, b: int| span_covers(x0, x1, y0, a, b), color),
                self.stamp_depth(st.1, |a: int, b: int| span_covers(x0, x1, y0, a, b)),
            )
        } else {
            (self.plot_all_frame(st.0, st.1, line_points(x0, y0, x1, y1), color), self.plot_all_depth(st.1, line_points(x0, y0, x1, y1)))
        }
    }

    /// A drawer over `frame`, a canvas of `width` x `height` pixels, without depth testing.
    pub fn new(frame: &'a mut [u8], width: u32, height: u32) -> (r: Self)
        requires
            old(frame)@.len() >= 4 * (width * height),
        ensures
            r.wf(),
            r.frame@ == old(frame)@,
            r.width == width,
            r.height == height,
            r.depth_buffer is None,
            !r.depth_enabled,
            r.current_depth == FAR_DEPTH,
            final(frame)@ == final(r.frame)@,
    {
        CPUDrawer { frame, width, height, depth_buffer: None, depth_enabled: false, current_depth: FAR_DEPTH }
    }

    /// Width of the canvas in pixels.
    pub fn width(&self) -> (r: u32)
        ensures
            r == self.width,
    {
        self.width
    }

    /// Height of the canvas in pixels.
    pub fn height(&self) -> (r: u32)
        ensures
            r == self.height,
    {
        self.height
    }

    /// Turns depth testing on or off; the first time it is turned on, a depth
    /// buffer with every pixel far away is made.
    pub fn enable_depth_mode(&mut self, enabled: bool)
        requires
            old(self).wf(),
        ensures
            final(self).wf(),
            final(self).frame@ == old(self).frame@,
            final(self).width == old(self).width,
            final(self).height == old(self).height,
            final(self).current_depth == old(self).current_depth,
            final(self).depth_enabled == enabled,
            depth_of(final(self).depth_buffer) == (if enabled && old(self).depth_buffer is None {
                Some(Seq::new((old(self).width * old(self).height) as nat, |i: int| FAR_DEPTH))
            } else {
                depth_of(old(self).depth_buffer)
            }),
            final(final(self).frame)@ == final(old(self).frame)@,
    {
        self.depth_enabled = enabled;
        if enabled && self.depth_buffer.is_none() {
            let frame_len = self.frame.len();
            proof {
                assert(0 <= self.width * self.height) by (nonlinear_arith);
                assert(self.width * self.height <= frame_len);
            }
            let size: usize = (self.width as usize) * (self.height as usize);
            let buf: Vec<u32> = vec![FAR_DEPTH; size];
            self.depth_buffer = Some(buf);
            assert(buf@ =~= Seq::new((self.width * self.height) as nat, |i: int| FAR_DEPTH));
        }
    }

    /// Makes every pixel of the depth buffer (if there is one) far away again.
    pub fn clear_depth_buffer(&mut self)
        requires
            old(self).wf(),
        ensures
            final(self).wf(),
            final(self).same_pen(old(self)),
            final(self).frame@ == old(self).frame@,
            depth_of(final(self).depth_buffer) == cleared_depth(depth_of(old(self).depth_buffer)),
            final(final(self).frame)@ == final(old(self).frame)@,
    {
        match &mut self.depth_buffer {
            Some(buf) => {
                let n = buf.len();
                for i in 0..n
                    invariant
                        n == buf@.len(),
                        forall|j: int| 0 <= j < i ==> buf@[j] == FAR_DEPTH,
                {
                    buf.set(i, FAR_DEPTH);
                }
                assert(buf@ =~= Seq::new(n as nat, |i: int| FAR_DEPTH));
            },
            None => {},
        }
    }

    /// Sets the depth key of the primitives drawn next.
    pub fn set_current_depth_value(&mut self, depth: u32)
        ensures
            final(self).frame@ == old(self).frame@,
            final(self).width == old(self).width,
            final(self).height == old(self).height,
            final(self).depth_enabled == old(self).depth_enabled,
            final(self).depth_buffer == old(self).depth_buffer,
            final(self).current_depth == depth,
            final(final(self).frame)@ == final(old(self).frame)@,
    {
        self.current_depth = depth;
    }

    /// Gives every pixel of the frame `color`, and makes every pixel of the depth
    /// buffer (if there is one) far away.
    pub fn clear(&mut self, color: [u8; 4])
        requires
            old(self).wf(),
        ensures
            final(self).wf(),
            final(self).same_pen(old(self)),
            final(self).frame@ == filled(old(self).frame@, color),
            depth_of(final(self).depth_buffer) == cleared_depth(depth_of(old(self).depth_buffer)),
            final(final(self).frame)@ == final(old(self).frame)@,
    {
        let n = self.frame.len() / 4;
        for i in 0..n
            invariant
                self.frame@.len() == old(self).frame@.len(),
                self.frame@.len() <= usize::MAX,
                n == self.frame@.len() / 4,
                self.same_pen(old(self)),
                self.depth_buffer == old(self).depth_buffer,
                forall|k: int| 0 <= k < self.frame@.len() ==> self.frame@[k] == (if k < 4 * i { color@[k % 4] } else { old(self).frame@[k] }),
                final(self.frame)@ == final(old(self).frame)@,
        {
            let p = 4 * i;
            self.frame[p] = color[0];
            self.frame[p + 1] = color[1];
            self.frame[p + 2] = color[2];
            self.frame[p + 3] = color[3];
        }
        assert(self.frame@ =~= filled(old(self).frame@, color));
        self.clear_depth_buffer();
    }

    /// Draws, with the depth test, every canvas pixel of the rectangle with
    /// corner (x, y), `w` columns and `h` rows.
    pub fn draw_rect(&mut self, x: i32, y: i32, w: u32, h: u32, color: [u8; 4])
        requires
            old(self).wf(),
        ensures
            final(self).wf(),
            final(self).same_pen(old(self)),
            final(self).frame@ == old(self).stamp_frame(
                old(self).frame@,
                depth_of(old(self).depth_buffer),
                (|a: int, b: int| rect_covers(x as int, y as int, w, h, a, b)),
                color,
            ),
            depth_of(final(self).depth_buffer) == old(self).stamp_depth(
                depth_of(old(self).depth_buffer),
                (|a: int, b: int| rect_covers(x as int, y as int, w, h, a, b)),
            ),
            final(final(self).frame)@ == final(old(self).frame)@,
    {
        let ghost d0 = *old(self);
        let ghost frame0 = old(self).frame@;
        let ghost depth0 = depth_of(old(self).depth_buffer);
        let ghost full = |a: int, b: int| rect_covers(x as int, y as int, w, h, a, b);
        let ww: i64 = if w <= 0x7fff_ffff { w as i64 } else { w as i64 - 0x1_0000_0000 };
        let hh: i64 = if h <= 0x7fff_ffff { h as i64 } else { h as i64 - 0x1_0000_0000 };
        let r0: i64 = if y < 0 { 0 } else { y as i64 };
        let r1: i64 = if y as i64 + hh < self.height as i64 { y as i64 + hh } else { self.height as i64 };
        let c0: i64 = if x < 0 { 0 } else { x as i64 };
        let c1: i64 = if x as i64 + ww < self.width as i64 { x as i64 + ww } else { self.width as i64 };
        proof {
            lemma_stamp_none(&d0, frame0, depth0, |a: int, b: int| full(a, b) && b < r0, color);
        }
        let mut row: i64 = r0;
        while row < r1
            invariant
                self.wf(),
                self.same_pen(&d0),
                d0.wf(),
                0 <= r0 <= row,
                r1 <= d0.height,
                row <= r1 || row == r0,
                0 <= c0,
                c1 <= d0.width,
                r0 == (if y < 0 { 0 } else { y as int }),
                r1 == (if y + hh < d0.height { y + hh } else { d0.height as int }),
                c0 == (if x < 0 { 0 } else { x as int }),
                c1 == (if x + ww < d0.width { x + ww } else { d0.width as int }),
                ww == wrap_i32(w),
                hh == wrap_i32(h),
                full == (|a: int, b: int| rect_covers(x as int, y as int, w, h, a, b)),
                frame0.len() >= 4 * (d0.width * d0.height),
                depth0 matches Some(b) ==> b.len() == d0.width * d0.height,
                self.frame@ == d0.stamp_frame(frame0, depth0, |a: int, b: int| full(a, b) && b < row, color),
                depth_of(self.depth_buffer) == d0.stamp_depth(depth0, |a: int, b: int| full(a, b) && b < row),
                final(self.frame)@ == final(d0.frame)@,
            decreases r1 - row,
        {
            let mut col: i64 = c0;
            proof {
                lemma_stamp_ext(&d0, frame0, depth0,
                    |a: int, b: int| full(a, b) && b < row,
                    |a: int, b: int| full(a, b) && (b < row || (b == row && a < col)), color);
            }
            while col < c1
                invariant
                    self.wf(),
                    self.same_pen(&d0),
                    d0.wf(),
                    0 <= r0 <= row < r1,
                    r1 <= d0.height,
                    0 <= c0 <= col,
                    c1 <= d0.width,
                    col <= c1 || col == c0,
                    r0 == (if y < 0 { 0 } else { y as int }),
                    r1 == (if y + hh < d0.height { y + hh } else { d0.height as int }),
                    c0 == (if x < 0 { 0 } else { x as int }),
                    c1 == (if x + ww < d0.width { x + ww } else { d0.width as int }),
                    ww == wrap_i32(w),
                    hh == wrap_i32(h),
                    full == (|a: int, b: int| rect_covers(x as int, y as int, w, h, a, b)),
                    frame0.len() >= 4 * (d0.width * d0.height),
                    depth0 matches Some(b) ==> b.len() == d0.width * d0.height,
                    self.frame@ == d0.stamp_frame(frame0, depth0, |a: int, b: int| full(a, b) && (b < row || (b == row && a < col)), color),
                    depth_of(self.depth_buffer) == d0.stamp_depth(depth0, |a: int, b: int| full(a, b) && (b < row || (b == row && a < col))),
                    final(self.frame)@ == final(d0.frame)@,
                decreases c1 - col,
            {
                proof {
                    lemma_stamp_step(&d0, frame0, depth0,
                        |a: int, b: int| full(a, b) && (b < row || (b == row && a < col)),
                        |a: int, b: int| full(a, b) && (b < row || (b == row && a < col + 1)),
                        col as int, row as int, color);
                }
                self.plot(col, row, color);
                col = col + 1;
            }
            proof {
                lemma_stamp_ext(&d0, frame0, depth0,
                    |a: int, b: int| full(a, b) && (b < row || (b == row && a < col)),
                    |a: int, b: int| full(a, b) && b < row + 1, color);
            }
            row = row + 1;
        }
        proof {
            lemma_stamp_ext(&d0, frame0, depth0, |a: int, b: int| full(a, b) && b < row, full, color);
        }
    }

    /// Draws the segment from (x0, y0) to (x1, y1), each pixel with the depth test.
    /// A horizontal segment covers every canvas pixel between its ends; any other
    /// segment is drawn pixel by pixel along Bresenham's points.
    pub fn draw_line(&mut self, x0: i32, y0: i32, x1: i32, y1: i32, color: [u8; 4])
        requires
            old(self).wf(),
        ensures
            final(self).wf(),
            final(self).same_pen(old(self)),
            y0 == y1 ==> final(self).frame@ == old(self).stamp_frame(
                old(self).frame@,
                depth_of(old(self).depth_buffer),
                (|a: int, b: int| span_covers(x0 as int, x1 as int, y0 as int, a, b)),
                color,
            ),
            y0 == y1 ==> depth_of(final(self).depth_buffer) == old(self).stamp_depth(
                depth_of(old(self).depth_buffer),
                (|a: int, b: int| span_covers(x0 as int, x1 as int, y0 as int, a, b)),
            ),
            y0 != y1 ==> final(self).frame@ == old(self).plot_all_frame(
                old(self).frame@,
                depth_of(old(self).depth_buffer),
                line_points(x0 as int, y0 as int, x1 as int, y1 as int),
                color,
            ),
            y0 != y1 ==> depth_of(final(self).depth_buffer) == old(self).plot_all_depth(
                depth_of(old(self).depth_buffer),
                line_points(x0 as int, y0 as int, x1 as int, y1 as int),
            ),
            final(final(self).frame)@ == final(old(self).frame)@,
    {
        let ghost d0 = *old(self);
        let ghost frame0 = old(self).frame@;
        let ghost depth0 = depth_of(old(self).depth_buffer);
        if y0 == y1 {
            let ghost full = |a: int, b: int| span_covers(x0 as int, x1 as int, y0 as int, a, b);
            if y0 < 0 || y0 as i64 >= self.height as i64 {
                proof {
                    lemma_stamp_none(&d0, frame0, depth0, full, color);
                }
                return;
            }
            let lo: i64 = if x0 < x1 { x0 as i64 } else { x1 as i64 };
            let hi: i64 = if x0 < x1 { x1 as i64 } else { x0 as i64 };
            let start_x: i64 = if lo < 0 { 0 } else { lo };
            let end_x: i64 = if hi < self.width as i64 - 1 { hi } else { self.width as i64 - 1 };
            proof {
                lemma_stamp_none(&d0, frame0, depth0, |a: int, b: int| full(a, b) && a < start_x, color);
            }
            let mut x: i64 = start_x;
            while x <= end_x
                invariant
                    self.wf(),
                    self.same_pen(&d0),
                    d0.wf(),
                    0 <= start_x <= x,
                    x <= end_x + 1 || x == start_x,
                    end_x < d0.width,
                    0 <= y0 < d0.height,
                    lo == (if x0 < x1 { x0 } else { x1 }),
                    hi == (if x0 < x1 { x1 } else { x0 }),
                    start_x == (if lo < 0 { 0 } else { lo }),
                    end_x == (if hi < d0.width - 1 { hi as int } else { d0.width - 1 }),
                    full == (|a: int, b: int| span_covers(x0 as int, x1 as int, y0 as int, a, b)),
                    frame0.len() >= 4 * (d0.width * d0.height),
                    depth0 matches Some(b) ==> b.len() == d0.width * d0.height,
                    self.frame@ == d0.stamp_frame(frame0, depth0, |a: int, b: int| full(a, b) && a < x, color),
                    depth_of(self.depth_buffer) == d0.stamp_depth(depth0, |a: int, b: int| full(a, b) && a < x),
                    final(self.frame)@ == final(d0.frame)@,
                decreases end_x + 1 - x,
            {
                proof {
                    lemma_stamp_step(&d0, frame0, depth0,
                        |a: int, b: int| full(a, b) && a < x,
                        |a: int, b: int| full(a, b) && a < x + 1,
                        x as int, y0 as int, color);
                }
                self.plot(x, y0 as i64, color);
                x = x + 1;
            }
            proof {
                lemma_stamp_ext(&d0, frame0, depth0, |a: int, b: int| full(a, b) && a < x, full, color);
            }
            return;
        }
        let ghost points = line_points(x0 as int, y0 as int, x1 as int, y1 as int);
        let dx: i64 = if x1 >= x0 { x1 as i64 - x0 as i64 } else { x0 as i64 - x1 as i64 };
        let sx: i64 = if x0 < x1 { 1 } else { -1 };
        let dy: i64 = if y1 >= y0 { y0 as i64 - y1 as i64 } else { y1 as i64 - y0 as i64 };
        let sy: i64 = if y0 < y1 { 1 } else { -1 };
        let mut err: i64 = dx + dy;
        let mut x: i64 = x0 as i64;
        let mut y: i64 = y0 as i64;
        let ghost adx: int = dx as int;
        let ghost ady: int = -dy;
        let ghost fuel: nat = (dx - dy + 1) as nat;
        let ghost mut done_pts: Seq<(int, int)> = seq![];
        let ghost mut k: nat = 0;
        let ghost mut cx: int = 0;
        let ghost mut cy: int = 0;
        loop
            invariant_except_break
                self.wf(),
                self.same_pen(&d0),
                d0.wf(),
                adx == abs_int(x1 - x0),
                ady == abs_int(y1 - y0),
                ady >= 1,
                dx == adx,
                dy == -ady,
                sx == (if x0 < x1 { 1int } else { -1int }),
                sy == (if y0 < y1 { 1int } else { -1int }),
                0 <= cx <= adx,
                0 <= cy <= ady,
                x == (if x0 < x1 { x0 + cx } else { x0 - cx }),
                y == (if y0 < y1 { y0 + cy } else { y0 - cy }),
                err == adx * (1 + cy) - ady * (1 + cx),
                -2 * ady <= err <= 2 * adx,
                fuel == adx + ady + 1,
                k <= fuel,
                fuel - k >= (adx - cx) + (ady - cy) + 1,
                points == done_pts + bresenham_points(x as int, y as int, err as int, x1 as int, y1 as int, sx as int, sy as int, dx as int, dy as int, (fuel - k) as nat),
                points == line_points(x0 as int, y0 as int, x1 as int, y1 as int),
                frame0.len() >= 4 * (d0.width * d0.height),
                depth0 matches Some(b) ==> b.len() == d0.width * d0.height,
                self.frame@ == d0.plot_all_frame(frame0, depth0, done_pts, color),
                depth_of(self.depth_buffer) == d0.plot_all_depth(depth0, done_pts),
                final(self.frame)@ == final(d0.frame)@,
            ensures
                self.wf(),
                self.same_pen(&d0),
                self.frame@ == d0.plot_all_frame(frame0, depth0, points, color),
                depth_of(self.depth_buffer) == d0.plot_all_depth(depth0, points),
                final(self.frame)@ == final(d0.frame)@,
            decreases (adx - cx) + (ady - cy),
        {
            proof {
                lemma_points_unfold(x as int, y as int, err as int, x1 as int, y1 as int, sx as int, sy as int, dx as int, dy as int, (fuel - k) as nat);
            }
            self.draw_pixel(x as i32, y as i32, color);
            proof {
                let old_pts = done_pts;
                done_pts = done_pts.push((x as int, y as int));
                assert(done_pts.drop_last() =~= old_pts);
            }
            if x == x1 as i64 && y == y1 as i64 {
                proof {
                    assert(points =~= done_pts);
                }
                break;
            }
            proof {
                lemma_bresenham_progress(adx, ady, cx, cy, err as int);
            }
            let ghost err_before: int = err as int;
            let e2 = 2 * err;
            if e2 >= dy {
                err = err + dy;
                x = x + sx;
                proof {
                    cx = cx + 1;
                }
            }
            if e2 <= dx {
                err = err + dx;
                y = y + sy;
                proof {
                    cy = cy + 1;
                }
            }
            proof {
                k = k + 1;
                lemma_error_term(adx, ady, cx, cy, err as int, err_before, e2 >= dy, e2 <= dx);
                assert(done_pts + bresenham_points(x as int, y as int, err as int, x1 as int, y1 as int, sx as int, sy as int, dx as int, dy as int, (fuel - k) as nat)
                    =~= points);
            }
        }
    }

    /// Draws the outline of a triangle: the segments from vertex 0 to 1, 1 to 2 and 2 to 0.
    pub fn draw_triangle(&mut self, x0: i32, y0: i32, x1: i32, y1: i32, x2: i32, y2: i32, color: [u8; 4])
        requires
            old(self).wf(),
        ensures
            final(self).wf(),
            final(self).same_pen(old(self)),
            (final(self).frame@, depth_of(final(self).depth_buffer)) == old(self).line_result(
                old(self).line_result(
                    old(self).line_result((old(self).frame@, depth_of(old(self).depth_buffer)), x0 as int, y0 as int, x1 as int, y1 as int, color),
                    x1 as int, y1 as int, x2 as int, y2 as int, color),
                x2 as int, y2 as int, x0 as int, y0 as int, color),
            final(final(self).frame)@ == final(old(self).frame)@,
    {
        let ghost d0 = *old(self);
        self.draw_line(x0, y0, x1, y1, color);
        let ghost d1 = *self;
        self.draw_line(x1, y1, x2, y2, color);
        let ghost d2 = *self;
        self.draw_line(x2, y2, x0, y0, color);
        proof {
            let st0 = (d0.frame@, depth_of(d0.depth_buffer));
            let st1 = d0.line_result(st0, x0 as int, y0 as int, x1 as int, y1 as int, color);
            assert((d1.frame@, depth_of(d1.depth_buffer)) == st1);
            lemma_same_pen_line(&d0, &d1, st1, x1 as int, y1 as int, x2 as int, y2 as int, color);
            let st2 = d0.line_result(st1, x1 as int, y1 as int, x2 as int, y2 as int, color);
            assert((d2.frame@, depth_of(d2.depth_buffer)) == st2);
            lemma_same_pen_line(&d0, &d2, st2, x2 as int, y2 as int, x0 as int, y0 as int, color);
        }
    }

    /// Fills a triangle, row by row: the vertices are sorted by y (see
    /// [`sort_by_y`]) and each canvas row between the top and the bottom vertex
    /// is drawn, with the depth test, between the triangle's two edges on it
    /// (see [`triangle_covers`]).
    pub fn draw_filled_triangle(&mut self, x0: i32, y0: i32, x1: i32, y1: i32, x2: i32, y2: i32, color: [u8; 4])
        requires
            old(self).wf(),
        ensures
            final(self).wf(),
            final(self).same_pen(old(self)),
            final(self).frame@ == old(self).stamp_frame(
                old(self).frame@,
                depth_of(old(self).depth_buffer),
                (|a: int, b: int| triangle_covers(sort_by_y((x0 as int, y0 as int, x1 as int, y1 as int, x2 as int, y2 as int)), a, b)),
                color,
            ),
            depth_of(final(self).depth_buffer) == old(self).stamp_depth(
                depth_of(old(self).depth_buffer),
                (|a: int, b: int| triangle_covers(sort_by_y((x0 as int, y0 as int, x1 as int, y1 as int, x2 as int, y2 as int)), a, b)),
            ),
            final(final(self).frame)@ == final(old(self).frame)@,
    {
        let ghost d0 = *old(self);
        let ghost frame0 = old(self).frame@;
        let ghost depth0 = depth_of(old(self).depth_buffer);
        let ghost t = sort_by_y((x0 as int, y0 as int, x1 as int, y1 as int, x2 as int, y2 as int));
        let ghost full = |a: int, b: int| triangle_covers(t, a, b);
        let (mut x0, mut y0, mut x1, mut y1, mut x2, mut y2) = (x0, y0, x1, y1, x2, y2);
        if y0 > y1 {
            let (tx, ty) = (x0, y0);
            x0 = x1;
            y0 = y1;
            x1 = tx;
            y1 = ty;
        }
        if y0 > y2 {
            let (tx, ty) = (x0, y0);
            x0 = x2;
            y0 = y2;
            x2 = tx;
            y2 = ty;
        }
        if y1 > y2 {
            let (tx, ty) = (x1, y1);
            x1 = x2;
            y1 = y2;
            x2 = tx;
            y2 = ty;
        }
        assert(t == (x0 as int, y0 as int, x1 as int, y1 as int, x2 as int, y2 as int));
        if y2 < 0 || y0 as i64 >= self.height as i64 || y0 == y2 {
            proof {
                lemma_stamp_none(&d0, frame0, depth0, full, color);
            }
            return;
        }
        let y_start1: i64 = if y0 < 0 { 0 } else { y0 as i64 };
        let y_end1: i64 = if (y1 as i64) < self.height as i64 - 1 { y1 as i64 } else { self.height as i64 - 1 };
        proof {
            lemma_stamp_none(&d0, frame0, depth0, |a: int, b: int| full(a, b) && b < y_start1, color);
        }
        let mut y: i64 = y_start1;
        while y <= y_end1
            invariant
                self.wf(),
                self.same_pen(&d0),
                d0.wf(),
                t == (x0 as int, y0 as int, x1 as int, y1 as int, x2 as int, y2 as int),
                y0 <= y1 <= y2,
                y0 != y2,
                y_start1 == (if y0 < 0 { 0 } else { y0 as int }),
                y_end1 == (if y1 < d0.height - 1 { y1 as int } else { d0.height - 1 }),
                y_start1 <= y,
                y <= y_end1 + 1 || y == y_start1,
                depth0 == depth_of(d0.depth_buffer),
                full == (|a: int, b: int| triangle_covers(t, a, b)),
                frame0.len() >= 4 * (d0.width * d0.height),
                depth0 matches Some(b) ==> b.len() == d0.width * d0.height,
                self.frame@ == d0.stamp_frame(frame0, depth0, |a: int, b: int| full(a, b) && b < y, color),
                depth_of(self.depth_buffer) == d0.stamp_depth(depth0, |a: int, b: int| full(a, b) && b < y),
                final(self.frame)@ == final(d0.frame)@,
            decreases y_end1 + 1 - y,
        {
            let row: i32 = y as i32;
            let xa = edge_x(row, x0, y0, x2, y2);
            let xb = if y0 == y1 { x1 } else { edge_x(row, x0, y0, x1, y1) };
            let ghost pre = *self;
            self.draw_line(xa, row, xb, row, color);
            proof {
                let span = |a: int, b: int| span_covers(xa as int, xb as int, y as int, a, b);
                lemma_same_pen_stamp(&pre, &d0, pre.frame@, depth_of(pre.depth_buffer), span, color);
                lemma_stamp_union(&d0, frame0, depth0, |a: int, b: int| full(a, b) && b < y, span, color);
                lemma_stamp_ext(&d0, frame0, depth0,
                    |a: int, b: int| (full(a, b) && b < y) || span(a, b),
                    |a: int, b: int| full(a, b) && b < y + 1,
                    color);
            }
            y = y + 1;
        }
        let y_start2: i64 = if (y1 as i64) + 1 < 0 { 0 } else { (y1 as i64) + 1 };
        let y_end2: i64 = if (y2 as i64) < self.height as i64 - 1 { y2 as i64 } else { self.height as i64 - 1 };
        proof {
            lemma_stamp_ext(&d0, frame0, depth0,
                |a: int, b: int| full(a, b) && b < y,
                |a: int, b: int| full(a, b) && b < y_start2,
                color);
        }
        let mut y: i64 = y_start2;
        while y <= y_end2
            invariant
                self.wf(),
                self.same_pen(&d0),
                d0.wf(),
                t == (x0 as int, y0 as int, x1 as int, y1 as int, x2 as int, y2 as int),
                y0 <= y1 <= y2,
                y0 != y2,
                y_start2 == (if y1 + 1 < 0 { 0 } else { y1 + 1 }),
                y_end2 == (if y2 < d0.height - 1 { y2 as int } else { d0.height - 1 }),
                y_start2 <= y,
                y <= y_end2 + 1 || y == y_start2,
                depth0 == depth_of(d0.depth_buffer),
                full == (|a: int, b: int| triangle_covers(t, a, b)),
                frame0.len() >= 4 * (d0.width * d0.height),
                depth0 matches Some(b) ==> b.len() == d0.width * d0.height,
                self.frame@ == d0.stamp_frame(frame0, depth0, |a: int, b: int| full(a, b) && b < y, color),
                depth_of(self.depth_buffer) == d0.stamp_depth(depth0, |a: int, b: int| full(a, b) && b < y),
                final(self.frame)@ == final(d0.frame)@,
            decreases y_end2 + 1 - y,
        {
            let row: i32 = y as i32;
            let xa = edge_x(row, x0, y0, x2, y2);
            let xb = edge_x(row, x1, y1, x2, y2);
            let ghost pre = *self;
            self.draw_line(xa, row, xb, row, color);
            proof {
                let span = |a: int, b: int| span_covers(xa as int, xb as int, y as int, a, b);
                lemma_same_pen_stamp(&pre, &d0, pre.frame@, depth_of(pre.depth_buffer), span, color);
                lemma_stamp_union(&d0, frame0, depth0, |a: int, b: int| full(a, b) && b < y, span, color);
                lemma_stamp_ext(&d0, frame0, depth0,
                    |a: int, b: int| (full(a, b) && b < y) || span(a, b),
                    |a: int, b: int| full(a, b) && b < y + 1,
                    color);
            }
            y = y + 1;
        }
        proof {
            lemma_stamp_ext(&d0, frame0, depth0, |a: int, b: int| full(a, b) && b < y, full, color);
        }
    }

    /// Draws one pixel; pixels off the canvas, and pixels that the depth test
    /// rejects, are left alone.
    pub fn draw_pixel(&mut self, x: i32, y: i32, color: [u8; 4])
        requires
            old(self).wf(),
        ensures
            final(self).wf(),
            final(self).same_pen(old(self)),
            final(self).frame@ == old(self).plot_frame(old(self).frame@, depth_of(old(self).depth_buffer), x as int, y as int, color),
            depth_of(final(self).depth_buffer) == old(self).plot_depth(depth_of(old(self).depth_buffer), x as int, y as int),
            final(final(self).frame)@ == final(old(self).frame)@,
    {
        self.plot(x as i64, y as i64, color);
    }

    /// Draws the pixel at (x, y) as [`CPUDrawer::draw_pixel`] does, for
    /// coordinates past the range of `i32` too.
    fn plot(&mut self, x: i64, y: i64, color: [u8; 4])
        requires
            old(self).wf(),
        ensures
            final(self).wf(),
            final(self).same_pen(old(self)),
            final(self).frame@ == old(self).plot_frame(old(self).frame@, depth_of(old(self).depth_buffer), x as int, y as int, color),
            depth_of(final(self).depth_buffer) == old(self).plot_depth(depth_of(old(self).depth_buffer), x as int, y as int),
            final(final(self).frame)@ == final(old(self).frame)@,
    {
        if x < 0 || y < 0 || x >= self.width as i64 || y >= self.height as i64 {
            return;
        }
        proof {
            lemma_pixel_index(x as int, y as int, self.width as int, self.height as int);
        }
        let frame_len = self.frame.len();
        assert(frame_len >= 4 * (self.width * self.height));
        let idx: usize = (y as usize) * (self.width as usize) + (x as usize);
        let p: usize = idx * 4;
        if self.depth_enabled {
            match &mut self.depth_buffer {
                Some(buf) => {
                    let stored = buf[idx];
                    if self.current_depth >= stored {
                        return;
                    }
                    buf.set(idx, self.current_depth);
                },
                None => {},
            }
        }
        self.frame[p] = color[0];
        self.frame[p + 1] = color[1];
        self.frame[p + 2] = color[2];
        self.frame[p + 3] = color[3];
        assert(self.frame@ =~= paint(old(self).frame@, idx as int, color));
    }
}


/// Stamping one more pixel is plotting it over the pixels stamped before.
proof fn lemma_stamp_step(
    d: &CPUDrawer,
    frame: Seq<u8>,
    depth: Option<Seq<u32>>,
    cov: spec_fn(int, int) -> bool,
    cov2: spec_fn(int, int) -> bool,
    x: int,
    y: int,
    color: [u8; 4],
)
    requires
        d.on_canvas(x, y),
        !cov(x, y),
        cov2(x, y),
        forall|a: int, b: int| !(a == x && b == y) ==> #[trigger] cov2(a, b) == cov(a, b),
        frame.len() >= 4 * (d.width * d.height),
        depth matches Some(b) ==> b.len() == d.width * d.height,
    ensures
        d.stamp_frame(frame, depth, cov2, color) == d.plot_frame(d.stamp_frame(frame, depth, cov, color), d.stamp_depth(depth, cov), x, y, color),
        d.stamp_depth(depth, cov2) == d.plot_depth(d.stamp_depth(depth, cov), x, y),
{
    let w = d.width as int;
    let h = d.height as int;
    let i0 = y * w + x;
    lemma_coordinates(x, y, w, h);
    lemma_pixel_index(x, y, w, h);
    assert(d.index_of(x, y) == i0);
    let sd = d.stamp_depth(depth, cov);
    assert(d.rejects(sd, i0) == d.rejects(depth, i0));
    let lhs = d.stamp_frame(frame, depth, cov2, color);
    let rhs = d.plot_frame(d.stamp_frame(frame, depth, cov, color), sd, x, y, color);
    assert forall|k: int| 0 <= k < lhs.len() implies lhs[k] == rhs[k] by {
        if k < 4 * (w * h) {
            let i = k / 4;
            lemma_index_of_coordinates(i, w, h);
            if i != i0 {
                assert(!(d.column_of(i) == x && d.row_of(i) == y));
            }
        }
    }
    assert(lhs =~= rhs);
    match depth {
        Some(b) => {
            if d.depth_enabled {
                let l = d.stamp_depth(depth, cov2).unwrap();
                let r = d.plot_depth(sd, x, y).unwrap();
                assert forall|i: int| 0 <= i < l.len() implies l[i] == r[i] by {
                    lemma_index_of_coordinates(i, w, h);
                    if i != i0 {
                        assert(!(d.column_of(i) == x && d.row_of(i) == y));
                    }
                }
                assert(l =~= r);
            }
        },
        None => {},
    }
}


/// Stamping looks only at the canvas pixels that `covers` selects.
proof fn lemma_stamp_ext(
    d: &CPUDrawer,
    frame: Seq<u8>,
    depth: Option<Seq<u32>>,
    cov1: spec_fn(int, int) -> bool,
    cov2: spec_fn(int, int) -> bool,
    color: [u8; 4],
)
    requires
        forall|a: int, b: int| d.on_canvas(a, b) ==> #[trigger] cov1(a, b) == cov2(a, b),
        depth matches Some(b) ==> b.len() == d.width * d.height,
    ensures
        d.stamp_frame(frame, depth, cov1, color) == d.stamp_frame(frame, depth, cov2, color),
        d.stamp_depth(depth, cov1) == d.stamp_depth(depth, cov2),
{
    let w = d.width as int;
    let h = d.height as int;
    assert forall|k: int| 0 <= k < frame.len() && k < 4 * (w * h) implies d.on_canvas(#[trigger] d.column_of(k / 4), d.row_of(k / 4)) by {
        lemma_index_of_coordinates(k / 4, w, h);
    }
    assert(d.stamp_frame(frame, depth, cov1, color) =~= d.stamp_frame(frame, depth, cov2, color));
    match depth {
        Some(b) => {
            assert forall|i: int| 0 <= i < b.len() implies d.on_canvas(#[trigger] d.column_of(i), d.row_of(i)) by {
                lemma_index_of_coordinates(i, w, h);
            }
            if d.depth_enabled {
                assert(d.stamp_depth(depth, cov1).unwrap() =~= d.stamp_depth(depth, cov2).unwrap());
            }
        },
        None => {},
    }
}

/// Stamping no canvas pixel changes nothing.
proof fn lemma_stamp_none(d: &CPUDrawer, frame: Seq<u8>, depth: Option<Seq<u32>>, cov: spec_fn(int, int) -> bool, color: [u8; 4])
    requires
        forall|a: int, b: int| d.on_canvas(a, b) ==> !#[trigger] cov(a, b),
        depth matches Some(b) ==> b.len() == d.width * d.height,
    ensures
        d.stamp_frame(frame, depth, cov, color) == frame,
        d.stamp_depth(depth, cov) == depth,
{
    let w = d.width as int;
    let h = d.height as int;
    assert forall|k: int| 0 <= k < frame.len() && k < 4 * (w * h) implies d.on_canvas(#[trigger] d.column_of(k / 4), d.row_of(k / 4)) by {
        lemma_index_of_coordinates(k / 4, w, h);
    }
    assert(d.stamp_frame(frame, depth, cov, color) =~= frame);
    match depth {
        Some(b) => {
            assert forall|i: int| 0 <= i < b.len() implies d.on_canvas(#[trigger] d.column_of(i), d.row_of(i)) by {
                lemma_index_of_coordinates(i, w, h);
            }
            if d.depth_enabled {
                assert(d.stamp_depth(depth, cov).unwrap() =~= b);
            }
        },
        None => {},
    }
}


/// The error term of Bresenham's algorithm after `cx` steps along x and `cy`
/// steps along y stays between `-2 * ady` and `2 * adx`, and each step moves
/// toward the end point without passing it.
proof fn lemma_bresenham_progress(adx: int, ady: int, cx: int, cy: int, err: int)
    requires
        0 <= cx <= adx,
        0 <= cy <= ady,
        !(cx == adx && cy == ady),
        err == adx * (1 + cy) - ady * (1 + cx),
    ensures
        2 * err >= -ady ==> cx < adx,
        2 * err <= adx ==> cy < ady,
        2 * err >= -ady || 2 * err <= adx,
{
    if cx == adx {
        assert(2 * err < -ady) by (nonlinear_arith)
            requires
                cx == adx,
                0 <= cy < ady,
                0 <= adx,
                err == adx * (1 + cy) - ady * (1 + cx),
        ;
    }
    if cy == ady {
        assert(2 * err > adx) by (nonlinear_arith)
            requires
                cy == ady,
                0 <= cx < adx,
                0 <= ady,
                err == adx * (1 + cy) - ady * (1 + cx),
        ;
    }
}

/// Drawing depends on a drawer's settings only, not on its frame.
proof fn lemma_same_pen_plot_all(d: &CPUDrawer, e: &CPUDrawer, frame: Seq<u8>, depth: Option<Seq<u32>>, pts: Seq<(int, int)>, color: [u8; 4])
    requires
        d.same_pen(e),
    ensures
        d.plot_all_frame(frame, depth, pts, color) == e.plot_all_frame(frame, depth, pts, color),
        d.plot_all_depth(depth, pts) == e.plot_all_depth(depth, pts),
    decreases pts.len(),
{
    if pts.len() > 0 {
        lemma_same_pen_plot_all(d, e, frame, depth, pts.drop_last(), color);
        let f = d.plot_all_frame(frame, depth, pts.drop_last(), color);
        let dd = d.plot_all_depth(depth, pts.drop_last());
        let p = pts.last();
        if d.on_canvas(p.0, p.1) && !d.rejects(dd, d.index_of(p.0, p.1)) {
            assert(d.plot_frame(f, dd, p.0, p.1, color) =~= e.plot_frame(f, dd, p.0, p.1, color));
        }
    }
}

/// Drawing a segment depends on a drawer's settings only, not on its frame.
proof fn lemma_same_pen_line(d: &CPUDrawer, e: &CPUDrawer, st: (Seq<u8>, Option<Seq<u32>>), x0: int, y0: int, x1: int, y1: int, color: [u8; 4])
    requires
        d.same_pen(e),
    ensures
        d.line_result(st, x0, y0, x1, y1, color) == e.line_result(st, x0, y0, x1, y1, color),
{
    lemma_same_pen_plot_all(d, e, st.0, st.1, line_points(x0, y0, x1, y1), color);
    lemma_same_pen_stamp(d, e, st.0, st.1, |a: int, b: int| span_covers(x0, x1, y0, a, b), color);
}

/// Stamping depends on a drawer's settings only, not on its frame.
proof fn lemma_same_pen_stamp(d: &CPUDrawer, e: &CPUDrawer, frame: Seq<u8>, depth: Option<Seq<u32>>, cov: spec_fn(int, int) -> bool, color: [u8; 4])
    requires
        d.same_pen(e),
    ensures
        d.stamp_frame(frame, depth, cov, color) == e.stamp_frame(frame, depth, cov, color),
        d.stamp_depth(depth, cov) == e.stamp_depth(depth, cov),
{
    assert(d.stamp_frame(frame, depth, cov, color) =~= e.stamp_frame(frame, depth, cov, color));
    if depth is Some && d.depth_enabled {
        assert(d.stamp_depth(depth, cov).unwrap() =~= e.stamp_depth(depth, cov).unwrap());
    }
}

/// Stamping two sets of pixels one after the other, in one color, is stamping
/// their union once: a pixel that the first stamp painted holds the current
/// depth already, so the second stamp leaves it as it is.
proof fn lemma_stamp_union(d: &CPUDrawer, frame: Seq<u8>, depth: Option<Seq<u32>>, c1: spec_fn(int, int) -> bool, c2: spec_fn(int, int) -> bool, color: [u8; 4])
    requires
        frame.len() >= 4 * (d.width * d.height),
        depth matches Some(b) ==> b.len() == d.width * d.height,
    ensures
        d.stamp_frame(d.stamp_frame(frame, depth, c1, color), d.stamp_depth(depth, c1), c2, color)
            == d.stamp_frame(frame, depth, |a: int, b: int| c1(a, b) || c2(a, b), color),
        d.stamp_depth(d.stamp_depth(depth, c1), c2) == d.stamp_depth(depth, |a: int, b: int| c1(a, b) || c2(a, b)),
{
    let lhs = d.stamp_frame(d.stamp_frame(frame, depth, c1, color), d.stamp_depth(depth, c1), c2, color);
    let rhs = d.stamp_frame(frame, depth, |a: int, b: int| c1(a, b) || c2(a, b), color);
    assert(lhs =~= rhs);
    if depth is Some && d.depth_enabled {
        assert(d.stamp_depth(d.stamp_depth(depth, c1), c2).unwrap() =~= d.stamp_depth(depth, |a: int, b: int| c1(a, b) || c2(a, b)).unwrap());
    }
}

/// The error term after one step, in terms of the steps taken along each axis.
proof fn lemma_error_term(adx: int, ady: int, cx: int, cy: int, err: int, err_before: int, xs: bool, ys: bool)
    requires
        err_before == adx * (1 + (if ys { cy - 1 } else { cy })) - ady * (1 + (if xs { cx - 1 } else { cx })),
        err == err_before + (if xs { -ady } else { 0 }) + (if ys { adx } else { 0 }),
    ensures
        err == adx * (1 + cy) - ady * (1 + cx),
{
    assert(err == adx * (1 + cy) - ady * (1 + cx)) by (nonlinear_arith)
        requires
            err_before == adx * (1 + (if ys { cy - 1 } else { cy })) - ady * (1 + (if xs { cx - 1 } else { cx })),
            err == err_before + (if xs { -ady } else { 0 }) + (if ys { adx } else { 0 }),
    ;
}

/// Every Bresenham point list that starts where the walk stands decomposes into
/// its first point and the rest of the walk.
proof fn lemma_points_unfold(x: int, y: int, err: int, x1: int, y1: int, sx: int, sy: int, dx: int, dy: int, fuel: nat)
    requires
        fuel > 0,
    ensures
        x == x1 && y == y1 ==> bresenham_points(x, y, err, x1, y1, sx, sy, dx, dy, fuel) == seq![(x, y)],
        !(x == x1 && y == y1) ==> bresenham_points(x, y, err, x1, y1, sx, sy, dx, dy, fuel) == seq![(x, y)]
            + bresenham_points(
                bresenham_step(x, y, err, sx, sy, dx, dy).0,
                bresenham_step(x, y, err, sx, sy, dx, dy).1,
                bresenham_step(x, y, err, sx, sy, dx, dy).2,
                x1, y1, sx, sy, dx, dy, (fuel - 1) as nat),
{
}


/// A pixel off the canvas is discarded: drawing it changes neither the frame nor the depth buffer.
pub proof fn lemma_off_canvas_pixel_discarded(d: &CPUDrawer, frame: Seq<u8>, depth: Option<Seq<u32>>, x: int, y: int, color: [u8; 4])
    requires
        !d.on_canvas(x, y),
    ensures
        d.plot_frame(frame, depth, x, y, color) == frame,
        d.plot_depth(depth, x, y) == depth,
{
}

/// With depth testing on, a pixel is painted exactly when its depth is nearer
/// than the one stored, and the depth buffer then keeps, at that pixel, the
/// nearer of the two depths: it never moves farther.
pub proof fn lemma_depth_test_keeps_nearest(d: &CPUDrawer, frame: Seq<u8>, depth: Seq<u32>, x: int, y: int, color: [u8; 4])
    requires
        d.depth_enabled,
        d.on_canvas(x, y),
        depth.len() == d.width * d.height,
        frame.len() >= 4 * (d.width * d.height),
    ensures
        d.plot_frame(frame, Some(depth), x, y, color) == (if d.current_depth < depth[d.index_of(x, y)] {
            paint(frame, d.index_of(x, y), color)
        } else {
            frame
        }),
        d.plot_depth(Some(depth), x, y) is Some,
        forall|i: int| 0 <= i < depth.len() ==> #[trigger] d.plot_depth(Some(depth), x, y).unwrap()[i] == (if i == d.index_of(x, y) && d.current_depth < depth[i] {
            d.current_depth
        } else {
            depth[i]
        }),
        forall|i: int| 0 <= i < depth.len() ==> #[trigger] d.plot_depth(Some(depth), x, y).unwrap()[i] <= depth[i],
{
    lemma_pixel_index(x, y, d.width as int, d.height as int);
}

/// With depth testing on, two pixels drawn at different depths give the same
/// frame and depth buffer in either order: where they overlap, the nearer one wins.
pub proof fn lemma_depth_test_order_independent(
    d1: &CPUDrawer,
    d2: &CPUDrawer,
    frame: Seq<u8>,
    depth: Seq<u32>,
    x1: int,
    y1: int,
    c1: [u8; 4],
    x2: int,
    y2: int,
    c2: [u8; 4],
)
    requires
        d1.width == d2.width,
        d1.height == d2.height,
        d1.depth_enabled,
        d2.depth_enabled,
        d1.current_depth != d2.current_depth,
        depth.len() == d1.width * d1.height,
        frame.len() >= 4 * (d1.width * d1.height),
    ensures
        d2.plot_frame(d1.plot_frame(frame, Some(depth), x1, y1, c1), d1.plot_depth(Some(depth), x1, y1), x2, y2, c2)
            == d1.plot_frame(d2.plot_frame(frame, Some(depth), x2, y2, c2), d2.plot_depth(Some(depth), x2, y2), x1, y1, c1),
        d2.plot_depth(d1.plot_depth(Some(depth), x1, y1), x2, y2) == d1.plot_depth(d2.plot_depth(Some(depth), x2, y2), x1, y1),
{
    let w = d1.width as int;
    let h = d1.height as int;
    if d1.on_canvas(x1, y1) {
        lemma_pixel_index(x1, y1, w, h);
    }
    if d2.on_canvas(x2, y2) {
        lemma_pixel_index(x2, y2, w, h);
    }
    if d1.on_canvas(x1, y1) && d2.on_canvas(x2, y2) && d1.index_of(x1, y1) != d2.index_of(x2, y2) {
        let i1 = d1.index_of(x1, y1);
        let i2 = d2.index_of(x2, y2);
        let f12 = d2.plot_frame(d1.plot_frame(frame, Some(depth), x1, y1, c1), d1.plot_depth(Some(depth), x1, y1), x2, y2, c2);
        let f21 = d1.plot_frame(d2.plot_frame(frame, Some(depth), x2, y2, c2), d2.plot_depth(Some(depth), x2, y2), x1, y1, c1);
        assert(f12 =~= f21);
        assert(d2.plot_depth(d1.plot_depth(Some(depth), x1, y1), x2, y2).unwrap() =~= d1.plot_depth(d2.plot_depth(Some(depth), x2, y2), x1, y1).unwrap());
    } else if d1.on_canvas(x1, y1) && d2.on_canvas(x2, y2) {
        let f12 = d2.plot_frame(d1.plot_frame(frame, Some(depth), x1, y1, c1), d1.plot_depth(Some(depth), x1, y1), x2, y2, c2);
        let f21 = d1.plot_frame(d2.plot_frame(frame, Some(depth), x2, y2, c2), d2.plot_depth(Some(depth), x2, y2), x1, y1, c1);
        assert(f12 =~= f21);
        assert(d2.plot_depth(d1.plot_depth(Some(depth), x1, y1), x2, y2).unwrap() =~= d1.plot_depth(d2.plot_depth(Some(depth), x2, y2), x1, y1).unwrap());
    }
}


/// Whether two pixels are distinct and share a side or a corner.
pub open spec fn neighbours(p: (int, int), q: (int, int)) -> bool {
    &&& abs_int(q.0 - p.0) <= 1
    &&& abs_int(q.1 - p.1) <= 1
    &&& p != q
}

/// Whether consecutive points of `pts` are neighbours.
pub open spec fn contiguous(pts: Seq<(int, int)>) -> bool {
    forall|i: int, j: int| 0 <= i && j == i + 1 && j < pts.len() ==> #[trigger] neighbours(pts[i], pts[j])
}

/// How far pixel `p` lies from (x0, y0) toward (x1, y1): steps along x plus steps along y.
pub open spec fn walk_progress(x0: int, y0: int, x1: int, y1: int, p: (int, int)) -> int {
    (if x0 < x1 { p.0 - x0 } else { x0 - p.0 }) + (if y0 < y1 { p.1 - y0 } else { y0 - p.1 })
}

/// Whether every point of `pts` has made at least `base` steps from (x0, y0),
/// and each point more than the ones before it.
pub open spec fn advancing(x0: int, y0: int, x1: int, y1: int, pts: Seq<(int, int)>, base: int) -> bool {
    &&& forall|i: int| 0 <= i < pts.len() ==> walk_progress(x0, y0, x1, y1, #[trigger] pts[i]) >= base
    &&& forall|i: int, j: int| 0 <= i < j < pts.len() ==>
        walk_progress(x0, y0, x1, y1, #[trigger] pts[i]) < walk_progress(x0, y0, x1, y1, #[trigger] pts[j])
}

proof fn lemma_points_shape(x0: int, y0: int, x1: int, y1: int, cx: int, cy: int, err: int, fuel: nat)
    requires
        0 <= cx <= abs_int(x1 - x0),
        0 <= cy <= abs_int(y1 - y0),
        err == abs_int(x1 - x0) * (1 + cy) - abs_int(y1 - y0) * (1 + cx),
        fuel >= (abs_int(x1 - x0) - cx) + (abs_int(y1 - y0) - cy) + 1,
    ensures
        ({
            let x = if x0 < x1 { x0 + cx } else { x0 - cx };
            let y = if y0 < y1 { y0 + cy } else { y0 - cy };
            let pts = bresenham_points(
                x, y, err, x1, y1,
                if x0 < x1 { 1 } else { -1 },
                if y0 < y1 { 1 } else { -1 },
                abs_int(x1 - x0), -abs_int(y1 - y0), fuel);
            &&& pts.len() >= 1
            &&& pts.len() <= (abs_int(x1 - x0) - cx) + (abs_int(y1 - y0) - cy) + 1
            &&& pts[0] == (x, y)
            &&& pts.last() == (x1, y1)
            &&& contiguous(pts)
            &&& (abs_int(x1 - x0) >= abs_int(y1 - y0) && 2 * err >= abs_int(x1 - x0) - 2 * abs_int(y1 - y0)
                ==> pts.len() == abs_int(x1 - x0) - cx + 1)
            &&& (abs_int(y1 - y0) >= abs_int(x1 - x0) && 2 * err <= 2 * abs_int(x1 - x0) - abs_int(y1 - y0)
                ==> pts.len() == abs_int(y1 - y0) - cy + 1)
        }),
    decreases fuel,
{
    let adx = abs_int(x1 - x0);
    let ady = abs_int(y1 - y0);
    let sx: int = if x0 < x1 { 1 } else { -1 };
    let sy: int = if y0 < y1 { 1 } else { -1 };
    let x = if x0 < x1 { x0 + cx } else { x0 - cx };
    let y = if y0 < y1 { y0 + cy } else { y0 - cy };
    lemma_points_unfold(x, y, err, x1, y1, sx, sy, adx, -ady, fuel);
    if !(x == x1 && y == y1) {
        lemma_bresenham_progress(adx, ady, cx, cy, err);
        let (nx, ny, ne) = bresenham_step(x, y, err, sx, sy, adx, -ady);
        let xs = 2 * err >= -ady;
        let ys = 2 * err <= adx;
        let ncx = if xs { cx + 1 } else { cx };
        let ncy = if ys { cy + 1 } else { cy };
        lemma_error_term(adx, ady, ncx, ncy, ne, err, xs, ys);
        lemma_points_shape(x0, y0, x1, y1, ncx, ncy, ne, (fuel - 1) as nat);
        let rest = bresenham_points(nx, ny, ne, x1, y1, sx, sy, adx, -ady, (fuel - 1) as nat);
        let pts = seq![(x, y)] + rest;
        assert(nx == (if x0 < x1 { x0 + ncx } else { x0 - ncx }));
        assert(ny == (if y0 < y1 { y0 + ncy } else { y0 - ncy }));
        assert(rest.len() >= 1 && rest[0] == (nx, ny) && rest.last() == (x1, y1));
        assert(pts == bresenham_points(x, y, err, x1, y1, sx, sy, adx, -ady, fuel));
        assert(pts.len() == rest.len() + 1);
        assert(pts[0] == (x, y));
        assert(pts.last() == rest.last());
        assert(xs || ys);
        assert(abs_int(nx - x) <= 1 && abs_int(ny - y) <= 1 && (nx, ny) != (x, y));
        assert forall|i: int, j: int| 0 <= i && j == i + 1 && j < pts.len() implies #[trigger] neighbours(pts[i], pts[j]) by {
            if i > 0 {
                let k = i - 1;
                assert(pts[i] == rest[k]);
                assert(pts[j] == rest[k + 1]);
                assert(neighbours(rest[k], rest[k + 1]));
            } else {
                assert(pts[1] == rest[0]);
            }
        }
        assert(contiguous(pts));
    }
}

/// Each point of the walk from step (cx, cy) on has made more steps than the ones before it.
proof fn lemma_points_advancing(x0: int, y0: int, x1: int, y1: int, cx: int, cy: int, err: int, fuel: nat)
    requires
        0 <= cx <= abs_int(x1 - x0),
        0 <= cy <= abs_int(y1 - y0),
        err == abs_int(x1 - x0) * (1 + cy) - abs_int(y1 - y0) * (1 + cx),
    ensures
        advancing(x0, y0, x1, y1, bresenham_points(
            if x0 < x1 { x0 + cx } else { x0 - cx },
            if y0 < y1 { y0 + cy } else { y0 - cy },
            err, x1, y1,
            if x0 < x1 { 1 } else { -1 },
            if y0 < y1 { 1 } else { -1 },
            abs_int(x1 - x0), -abs_int(y1 - y0), fuel), cx + cy),
    decreases fuel,
{
    let adx = abs_int(x1 - x0);
    let ady = abs_int(y1 - y0);
    let sx: int = if x0 < x1 { 1 } else { -1 };
    let sy: int = if y0 < y1 { 1 } else { -1 };
    let x = if x0 < x1 { x0 + cx } else { x0 - cx };
    let y = if y0 < y1 { y0 + cy } else { y0 - cy };
    let pts = bresenham_points(x, y, err, x1, y1, sx, sy, adx, -ady, fuel);
    if fuel == 0 {
        return;
    }
    lemma_points_unfold(x, y, err, x1, y1, sx, sy, adx, -ady, fuel);
    if x == x1 && y == y1 {
        assert(pts =~= seq![(x, y)]);
        return;
    }
    lemma_bresenham_progress(adx, ady, cx, cy, err);
    let (nx, ny, ne) = bresenham_step(x, y, err, sx, sy, adx, -ady);
    let xs = 2 * err >= -ady;
    let ys = 2 * err <= adx;
    let ncx = if xs { cx + 1 } else { cx };
    let ncy = if ys { cy + 1 } else { cy };
    lemma_error_term(adx, ady, ncx, ncy, ne, err, xs, ys);
    lemma_points_advancing(x0, y0, x1, y1, ncx, ncy, ne, (fuel - 1) as nat);
    assert(nx == (if x0 < x1 { x0 + ncx } else { x0 - ncx }));
    assert(ny == (if y0 < y1 { y0 + ncy } else { y0 - ncy }));
    let rest = bresenham_points(nx, ny, ne, x1, y1, sx, sy, adx, -ady, (fuel - 1) as nat);
    assert(advancing(x0, y0, x1, y1, rest, ncx + ncy));
    assert(pts == seq![(x, y)] + rest);
    assert forall|i: int| 0 <= i < pts.len() implies walk_progress(x0, y0, x1, y1, #[trigger] pts[i]) >= cx + cy by {
        if i > 0 {
            assert(pts[i] == rest[i - 1]);
        }
    }
    assert forall|i: int, j: int| 0 <= i < j < pts.len() implies
        walk_progress(x0, y0, x1, y1, #[trigger] pts[i]) < walk_progress(x0, y0, x1, y1, #[trigger] pts[j]) by {
        assert(pts[j] == rest[j - 1]);
        if i > 0 {
            assert(pts[i] == rest[i - 1]);
        }
    }
}

/// The points of a segment start at its first end, finish at its second end, and
/// form a contiguous chain of neighbouring pixels, one per step along the longer
/// axis (plus the start), none of them twice.
pub proof fn lemma_line_points_shape(x0: int, y0: int, x1: int, y1: int)
    ensures
        line_points(x0, y0, x1, y1).len() >= 1,
        line_points(x0, y0, x1, y1).len() == (if abs_int(x1 - x0) >= abs_int(y1 - y0) { abs_int(x1 - x0) } else { abs_int(y1 - y0) }) + 1,
        line_points(x0, y0, x1, y1)[0] == (x0, y0),
        line_points(x0, y0, x1, y1).last() == (x1, y1),
        contiguous(line_points(x0, y0, x1, y1)),
        line_points(x0, y0, x1, y1).no_duplicates(),
{
    lemma_points_shape(x0, y0, x1, y1, 0, 0, abs_int(x1 - x0) - abs_int(y1 - y0), (abs_int(x1 - x0) + abs_int(y1 - y0) + 1) as nat);
    lemma_points_advancing(x0, y0, x1, y1, 0, 0, abs_int(x1 - x0) - abs_int(y1 - y0), (abs_int(x1 - x0) + abs_int(y1 - y0) + 1) as nat);
    let pts = line_points(x0, y0, x1, y1);
    assert(advancing(x0, y0, x1, y1, pts, 0));
    assert forall|i: int, j: int| 0 <= i < j < pts.len() implies pts[i] != pts[j] by {
        assert(walk_progress(x0, y0, x1, y1, pts[i]) < walk_progress(x0, y0, x1, y1, pts[j]));
    }
}


/// Whether (a, b, c) lists the same three items as (p, q, r), in some order.
pub open spec fn same_three<A>(a: A, b: A, c: A, p: A, q: A, r: A) -> bool {
    ||| (a == p && b == q && c == r)
    ||| (a == p && b == r && c == q)
    ||| (a == q && b == p && c == r)
    ||| (a == q && b == r && c == p)
    ||| (a == r && b == p && c == q)
    ||| (a == r && b == q && c == p)
}

/// Sorting the vertices of a triangle puts them in ascending y and keeps the
/// same three vertices; and a filled triangle paints only rows from its top
/// vertex to its bottom one.
pub proof fn lemma_sort_by_y(x0: int, y0: int, x1: int, y1: int, x2: int, y2: int)
    ensures
        ({
            let t = sort_by_y((x0, y0, x1, y1, x2, y2));
            &&& t.1 <= t.3 <= t.5
            &&& same_three((t.0, t.1), (t.2, t.3), (t.4, t.5), (x0, y0), (x1, y1), (x2, y2))
            &&& forall|a: int, b: int| #[trigger] triangle_covers(t, a, b) ==> t.1 <= b <= t.5
        }),
{
}

/// Swapping two vertices on the same row of a sorted triangle changes no pixel it covers.
proof fn lemma_covers_tie_swap(t: (int, int, int, int, int, int), a: int, b: int)
    requires
        t.1 <= t.3 <= t.5,
        i32::MIN <= t.0 <= i32::MAX,
        i32::MIN <= t.2 <= i32::MAX,
        i32::MIN <= t.4 <= i32::MAX,
    ensures
        t.1 == t.3 ==> triangle_covers((t.2, t.3, t.0, t.1, t.4, t.5), a, b) == triangle_covers(t, a, b),
        t.3 == t.5 ==> triangle_covers((t.0, t.1, t.4, t.5, t.2, t.3), a, b) == triangle_covers(t, a, b),
{
    let (x0, y0, x1, y1, x2, y2) = t;
    if y0 != y2 {
        if y0 == y1 && b == y0 {
            assert(interpolate_x(b, x0, y0, x2, y2) == x0);
            assert(interpolate_x(b, x1, y1, x2, y2) == x1);
        }
    }
}

/// The pixels a filled triangle covers do not depend on the order in which its
/// vertices are given.
pub proof fn lemma_triangle_order_independent(x0: i32, y0: i32, x1: i32, y1: i32, x2: i32, y2: i32, a: int, b: int)
    ensures
        ({
            let (x0, y0, x1, y1, x2, y2) = (x0 as int, y0 as int, x1 as int, y1 as int, x2 as int, y2 as int);
            let c = triangle_covers(sort_by_y((x0, y0, x1, y1, x2, y2)), a, b);
            &&& c == triangle_covers(sort_by_y((x0, y0, x2, y2, x1, y1)), a, b)
            &&& c == triangle_covers(sort_by_y((x1, y1, x0, y0, x2, y2)), a, b)
            &&& c == triangle_covers(sort_by_y((x1, y1, x2, y2, x0, y0)), a, b)
            &&& c == triangle_covers(sort_by_y((x2, y2, x0, y0, x1, y1)), a, b)
            &&& c == triangle_covers(sort_by_y((x2, y2, x1, y1, x0, y0)), a, b)
        }),
{
    let t = sort_by_y((x0 as int, y0 as int, x1 as int, y1 as int, x2 as int, y2 as int));
    lemma_covers_tie_swap(t, a, b);
}

/// Drawing one more pixel over a stamp is stamping it together with that pixel:
/// a pixel stamped already either holds the color and the current depth, or
/// was kept by the depth test, which keeps it again.
proof fn lemma_stamp_add(d: &CPUDrawer, frame: Seq<u8>, depth: Option<Seq<u32>>, cov: spec_fn(int, int) -> bool, x: int, y: int, color: [u8; 4])
    requires
        frame.len() >= 4 * (d.width * d.height),
        depth matches Some(b) ==> b.len() == d.width * d.height,
    ensures
        d.plot_frame(d.stamp_frame(frame, depth, cov, color), d.stamp_depth(depth, cov), x, y, color)
            == d.stamp_frame(frame, depth, |a: int, b: int| cov(a, b) || (a == x && b == y), color),
        d.plot_depth(d.stamp_depth(depth, cov), x, y) == d.stamp_depth(depth, |a: int, b: int| cov(a, b) || (a == x && b == y)),
{
    let cov2 = |a: int, b: int| cov(a, b) || (a == x && b == y);
    if !d.on_canvas(x, y) {
        lemma_stamp_ext(d, frame, depth, cov, cov2, color);
    } else if !cov(x, y) {
        lemma_stamp_step(d, frame, depth, cov, cov2, x, y, color);
    } else {
        lemma_stamp_ext(d, frame, depth, cov, cov2, color);
        let w = d.width as int;
        let h = d.height as int;
        let i0 = y * w + x;
        lemma_coordinates(x, y, w, h);
        lemma_pixel_index(x, y, w, h);
        let sf = d.stamp_frame(frame, depth, cov, color);
        let sd = d.stamp_depth(depth, cov);
        assert(d.index_of(x, y) == i0);
        if !d.rejects(sd, i0) {
            assert(!d.rejects(depth, i0));
            assert(d.plot_frame(sf, sd, x, y, color) =~= sf) by {
                assert forall|k: int| 4 * i0 <= k < 4 * i0 + 4 implies sf[k] == color@[k - 4 * i0] by {
                    assert(k / 4 == i0);
                    assert(k % 4 == k - 4 * i0);
                }
            }
            if d.depth_enabled && sd is Some {
                assert(sd.unwrap()[i0] == d.current_depth);
                assert(sd.unwrap().update(i0, d.current_depth) =~= sd.unwrap());
            }
        }
    }
}

/// Drawing pixels one after the other, with the depth test, is stamping the set
/// of those pixels: the order does not matter, and a pixel drawn twice counts once.
pub proof fn lemma_plot_all_is_stamp(d: &CPUDrawer, frame: Seq<u8>, depth: Option<Seq<u32>>, pts: Seq<(int, int)>, color: [u8; 4])
    requires
        frame.len() >= 4 * (d.width * d.height),
        depth matches Some(b) ==> b.len() == d.width * d.height,
    ensures
        d.plot_all_frame(frame, depth, pts, color) == d.stamp_frame(frame, depth, |a: int, b: int| pts.contains((a, b)), color),
        d.plot_all_depth(depth, pts) == d.stamp_depth(depth, |a: int, b: int| pts.contains((a, b))),
    decreases pts.len(),
{
    if pts.len() == 0 {
        lemma_stamp_none(d, frame, depth, |a: int, b: int| pts.contains((a, b)), color);
    } else {
        let prev = pts.drop_last();
        let p = pts.last();
        lemma_plot_all_is_stamp(d, frame, depth, prev, color);
        lemma_stamp_add(d, frame, depth, |a: int, b: int| prev.contains((a, b)), p.0, p.1, color);
        assert forall|a: int, b: int| #[trigger] pts.contains((a, b)) == (prev.contains((a, b)) || (a == p.0 && b == p.1)) by {
            if pts.contains((a, b)) {
                let i = choose|i: int| 0 <= i < pts.len() && pts[i] == (a, b);
                if i < pts.len() - 1 {
                    assert(prev[i] == (a, b));
                }
            }
            if prev.contains((a, b)) {
                let i = choose|i: int| 0 <= i < prev.len() && prev[i] == (a, b);
                assert(pts[i] == (a, b));
            }
            if a == p.0 && b == p.1 {
                assert(pts[pts.len() - 1] == (a, b));
            }
        }
        lemma_stamp_ext(d, frame, depth,
            |a: int, b: int| prev.contains((a, b)) || (a == p.0 && b == p.1),
            |a: int, b: int| pts.contains((a, b)),
            color);
    }
}

} // verus!
