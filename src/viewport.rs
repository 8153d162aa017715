use vstd::prelude::*;

verus! {

/// Smallest accepted zoom factor: a zoom at or below zero is raised to it.
pub const MIN_ZOOM: u32 = 1;

/// One point of drawable geometry, in pixels.
#[derive(Clone, Copy, Debug, PartialEq, Eq, Structural)]
pub struct Point {
    pub x: i128,
    pub y: i128,
}

/// The pan/zoom transform from samples to pixels.
///
/// `pan_x` is counted in sample indices, `pan_y` in sample units; `zoom` is
/// the number of pixels per index step and per sample unit.
#[derive(Clone, Copy, Debug, PartialEq, Eq, Structural)]
pub struct Viewport {
    pub pan_x: i32,
    pub pan_y: i32,
    pub zoom: u32,
}

/// What a requested zoom becomes: never below `MIN_ZOOM`, never above `u32::MAX`.
pub open spec fn clamp_zoom(z: int) -> int {
    if z < MIN_ZOOM as int {
        MIN_ZOOM as int
    } else if z > u32::MAX as int {
        u32::MAX as int
    } else {
        z
    }
}

/// Horizontal pixel of the sample at index `i`.
pub open spec fn pixel_x(vp: Viewport, i: int) -> int {
    (i + vp.pan_x as int) * vp.zoom as int
}

/// Vertical pixel of a sample of value `v` on a canvas `height` pixels high:
/// value zero at the vertical centre, larger values higher up.
pub open spec fn pixel_y(vp: Viewport, height: int, v: int) -> int {
    height / 2 - (v + vp.pan_y as int) * vp.zoom as int
}

/// `pts` is the geometry of a whole sample sequence: one point per sample, in order.
pub open spec fn is_projection(pts: Seq<Point>, vp: Viewport, samples: Seq<i32>, height: int) -> bool {
    &&& pts.len() == samples.len()
    &&& forall|i: int|
        0 <= i < pts.len() ==> #[trigger] pts[i].x == pixel_x(vp, i) && pts[i].y == pixel_y(
            vp,
            height,
            samples[i] as int,
        )
}

impl Viewport {
    /// The zoom is never below `MIN_ZOOM`.
    pub open spec fn wf(self) -> bool {
        self.zoom >= MIN_ZOOM
    }

    /// No pan, zoom one.
    pub fn new() -> (r: Viewport)
        ensures
            r.wf(),
            r.pan_x == 0,
            r.pan_y == 0,
            r.zoom == 1,
    {
        Viewport { pan_x: 0, pan_y: 0, zoom: 1 }
    }

    /// Sets the translation; any value is accepted.
    pub fn set_pan(&mut self, pan_x: i32, pan_y: i32)
        ensures
            *final(self) == (Viewport { pan_x, pan_y, zoom: old(self).zoom }),
    {
        self.pan_x = pan_x;
        self.pan_y = pan_y;
    }

    /// Sets the zoom, raising a value at or below zero to `MIN_ZOOM`.
    pub fn set_zoom(&mut self, zoom: i64)
        ensures
            final(self).wf(),
            final(self).zoom as int == clamp_zoom(zoom as int),
            final(self).pan_x == old(self).pan_x,
            final(self).pan_y == old(self).pan_y,
    {
        if zoom < MIN_ZOOM as i64 {
            self.zoom = MIN_ZOOM;
        } else if zoom > u32::MAX as i64 {
            self.zoom = u32::MAX;
        } else {
            self.zoom = zoom as u32;
        }
    }

    /// Maps each sample to its pixel; an empty slice gives no points.
    pub fn project(&self, samples: &[i32], canvas_height: u32) -> (r: Vec<Point>)
        ensures
            is_projection(r@, *self, samples@, canvas_height as int),
    {
        let mut out: Vec<Point> = Vec::new();
        let half: i128 = (canvas_height / 2) as i128;
        let mut i: usize = 0;
        while i < samples.len()
            invariant
                i <= samples@.len(),
                half == canvas_height as int / 2,
                out@.len() == i,
                forall|k: int| 0 <= k < i ==> #[trigger] out@[k].x == pixel_x(*self, k) && out@[k].y == pixel_y(*self, canvas_height as int, samples@[k] as int),
            decreases samples@.len() - i,
        {
            let v: i32 = samples[i];
            assert(-0x1_0000_0000_0000_0000 <= (v as int + self.pan_y as int) * self.zoom as int
                <= 0x1_0000_0000_0000_0000) by (nonlinear_arith)
                requires
                    -0x8000_0000 <= v <= 0x7fff_ffff,
                    -0x8000_0000 <= self.pan_y <= 0x7fff_ffff,
                    0 <= self.zoom <= 0xffff_ffff,
            ;
            assert(-0x1_0000_0000_0000_0000 <= (i as int + self.pan_x as int) * self.zoom as int
                <= 0x2_0000_0000_0000_0000 * 0x1_0000_0000) by (nonlinear_arith)
                requires
                    0 <= i <= 0xffff_ffff_ffff_ffff,
                    -0x8000_0000 <= self.pan_x <= 0x7fff_ffff,
                    0 <= self.zoom <= 0xffff_ffff,
            ;
            let x: i128 = (i as i128 + self.pan_x as i128) * self.zoom as i128;
            let y: i128 = half - (v as i128 + self.pan_y as i128) * self.zoom as i128;
            out.push(Point { x, y });
            i = i + 1;
        }
        out
    }
}

/// With a positive zoom, later samples are never drawn to the left of earlier ones.
pub proof fn lemma_project_monotonic(pts: Seq<Point>, vp: Viewport, samples: Seq<i32>, height: int, i: int, j: int)
    requires
        vp.wf(),
        is_projection(pts, vp, samples, height),
        0 <= i <= j < samples.len(),
    ensures
        pts[i].x <= pts[j].x,
{
    assert((i + vp.pan_x as int) * vp.zoom as int <= (j + vp.pan_x as int) * vp.zoom as int)
        by (nonlinear_arith)
        requires
            i <= j,
            vp.zoom >= 1,
    ;
}

/// An empty buffer has no geometry, whatever the pan and zoom.
pub proof fn lemma_project_empty(pts: Seq<Point>, vp: Viewport, height: int)
    requires
        is_projection(pts, vp, Seq::<i32>::empty(), height),
    ensures
        pts == Seq::<Point>::empty(),
{
    assert(pts =~= Seq::<Point>::empty());
}

} // verus!
