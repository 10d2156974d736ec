use vstd::prelude::*;
use crate::depth_grid::{DepthGrid, cells, filled, grid_from_elem, grid_get, grid_set};

verus! {

/// A point in pixel space: column `x`, row `y` (row 0 at the bottom) and depth `z`.
#[derive(Clone, Copy, Debug, PartialEq, Eq, Structural)]
pub struct Point {
    pub x: i32,
    pub y: i32,
    pub z: i32,
}

/// A triangle in pixel space.
#[derive(Clone, Copy, Debug, PartialEq, Eq, Structural)]
pub struct PixelTriangle {
    pub p0: Point,
    pub p1: Point,
    pub p2: Point,
}

/// Why a pixel access was refused.
#[derive(Clone, Copy, Debug, PartialEq, Eq, Structural)]
pub enum CanvasError {
    OutOfBounds,
}

/// The abstract state of a canvas: its size, the color of each pixel, the depth
/// buffer (meaningful when `depth_test` holds) and whether writes are depth-tested.
pub struct Raster {
    pub width: int,
    pub height: int,
    pub color: Map<(int, int), u32>,
    pub depth: Map<(int, int), i32>,
    pub depth_test: bool,
}

/// The pixel positions of a `w` by `h` surface.
pub open spec fn bounds(w: int, h: int) -> Set<(int, int)> {
    Set::new(|p: (int, int)| 0 <= p.0 < w && 0 <= p.1 < h)
}

pub open spec fn in_bounds(r: Raster, x: int, y: int) -> bool {
    0 <= x < r.width && 0 <= y < r.height
}

impl Raster {
    /// Every pixel inside the surface has a color, and a depth when depth-tested.
    pub open spec fn wf(self) -> bool {
        &&& self.color.dom() == bounds(self.width, self.height)
        &&& self.depth_test ==> self.depth.dom() == bounds(self.width, self.height)
    }
}

/// The effect of writing color `c` at depth `z` to pixel `(x, y)`: ignored outside
/// the surface; on a depth-tested surface it is kept only where `z` is at least the
/// stored depth (greater is closer), and then the depth is stored too.
pub open spec fn put(r: Raster, x: int, y: int, z: int, c: u32) -> Raster {
    if in_bounds(r, x, y) && (!r.depth_test || z >= r.depth[(x, y)]) {
        Raster {
            color: r.color.insert((x, y), c),
            depth: if r.depth_test {
                r.depth.insert((x, y), z as i32)
            } else {
                r.depth
            },
            ..r
        }
    } else {
        r
    }
}

/// The depth that marks a pixel that nothing has been drawn on.
pub const EMPTY_DEPTH: i32 = i32::MIN;

/// A `width` by `height` surface of packed colors, with an optional depth buffer.
pub struct Canvas {
    width: u32,
    height: u32,
    pixels: Vec<u32>,
    depth: Option<DepthGrid>,
}

proof fn lemma_pixel_index(w: int, h: int, x: int, y: int, x2: int, y2: int)
    requires
        0 <= x < w,
        0 <= y < h,
        0 <= x2 < w,
        0 <= y2 < h,
    ensures
        0 <= y * w + x < w * h,
        y * w + x == y2 * w + x2 ==> x == x2 && y == y2,
{
    assert(0 <= y * w + x < w * h) by (nonlinear_arith)
        requires
            0 <= x < w,
            0 <= y < h,
    ;
    if y < y2 {
        assert(y * w + x < y2 * w + x2) by (nonlinear_arith)
            requires
                0 <= x < w,
                y < y2,
                0 <= x2,
        ;
    } else if y2 < y {
        assert(y2 * w + x2 < y * w + x) by (nonlinear_arith)
            requires
                0 <= x2 < w,
                y2 < y,
                0 <= x,
        ;
    }
}

impl View for Canvas {
    type V = Raster;

    closed spec fn view(&self) -> Raster {
        let w = self.width as int;
        Raster {
            width: w,
            height: self.height as int,
            color: Map::new(
                |p: (int, int)| 0 <= p.0 < w && 0 <= p.1 < self.height as int,
                |p: (int, int)| self.pixels@[p.1 * w + p.0],
            ),
            depth: match self.depth {
                Some(g) => cells(g),
                None => Map::empty(),
            },
            depth_test: self.depth is Some,
        }
    }
}

impl Canvas {
    pub closed spec fn wf(&self) -> bool {
        &&& self.pixels@.len() == self.width as int * self.height as int
        &&& self.width as int * self.height as int <= isize::MAX as int
        &&& match self.depth {
            Some(g) => cells(g).dom() == bounds(self.width as int, self.height as int),
            None => true,
        }
    }

    /// A well-formed canvas has a well-formed abstract state.
    pub proof fn lemma_view_wf(&self)
        requires
            self.wf(),
        ensures
            self@.wf(),
    {
        assert(self@.color.dom() =~= bounds(self@.width, self@.height));
    }

    /// A blank (all zero) surface whose writes always land.
    pub fn new(width: u32, height: u32) -> (r: Canvas)
        requires
            width as int * height as int <= isize::MAX as int,
        ensures
            r.wf(),
            r@.wf(),
            r@.width == width as int,
            r@.height == height as int,
            !r@.depth_test,
            r@.color == Map::new(|p: (int, int)| bounds(width as int, height as int).contains(p), |p: (int, int)| 0u32),
    {
        let pixels = Canvas::blank_pixels(width, height);
        let r = Canvas { width, height, pixels, depth: None };
        proof {
            r.lemma_view_wf();
            assert(r@.color =~= Map::new(|p: (int, int)| bounds(width as int, height as int).contains(p), |p: (int, int)| 0u32)) by {
                assert forall|p: (int, int)| #[trigger] bounds(width as int, height as int).contains(p) implies r.pixels@[p.1 * width as int + p.0] == 0u32 by {
                    lemma_pixel_index(width as int, height as int, p.0, p.1, p.0, p.1);
                }
            }
        }
        r
    }

    /// A blank surface with a depth buffer in which every pixel is empty.
    pub fn new_with_depth(width: u32, height: u32) -> (r: Canvas)
        requires
            width as int <= isize::MAX as int,
            height as int <= isize::MAX as int,
            width as int * height as int <= isize::MAX as int,
        ensures
            r.wf(),
            r@.wf(),
            r@.width == width as int,
            r@.height == height as int,
            r@.depth_test,
            r@.color == Map::new(|p: (int, int)| bounds(width as int, height as int).contains(p), |p: (int, int)| 0u32),
            r@.depth == filled(width as int, height as int, EMPTY_DEPTH),
    {
        let pixels = Canvas::blank_pixels(width, height);
        let g = grid_from_elem(width as usize, height as usize, EMPTY_DEPTH);
        let r = Canvas { width, height, pixels, depth: Some(g) };
        proof {
            assert(cells(g).dom() =~= bounds(width as int, height as int));
            r.lemma_view_wf();
            assert(r@.color =~= Map::new(|p: (int, int)| bounds(width as int, height as int).contains(p), |p: (int, int)| 0u32)) by {
                assert forall|p: (int, int)| #[trigger] bounds(width as int, height as int).contains(p) implies r.pixels@[p.1 * width as int + p.0] == 0u32 by {
                    lemma_pixel_index(width as int, height as int, p.0, p.1, p.0, p.1);
                }
            }
        }
        r
    }

    fn blank_pixels(width: u32, height: u32) -> (v: Vec<u32>)
        requires
            width as int * height as int <= isize::MAX as int,
        ensures
            v@ == Seq::new((width as int * height as int) as nat, |i: int| 0u32),
    {
        let n: usize = width as usize * height as usize;
        let mut v: Vec<u32> = Vec::new();
        let mut i: usize = 0;
        while i < n
            invariant
                i <= n,
                n == width as int * height as int,
                v@ == Seq::new(i as nat, |k: int| 0u32),
            decreases n - i,
        {
            v.push(0);
            i = i + 1;
            assert(v@ =~= Seq::new(i as nat, |k: int| 0u32));
        }
        v
    }

    pub fn get_width(&self) -> (r: u32)
        ensures
            r as int == self@.width,
    {
        self.width
    }

    pub fn get_height(&self) -> (r: u32)
        ensures
            r as int == self@.height,
    {
        self.height
    }

    /// Writes color `color` at depth `z` to pixel `(x, y)` as `put` describes; a
    /// position outside the surface is reported and changes nothing.
    pub fn set(&mut self, x: i32, y: i32, z: i32, color: u32) -> (r: Result<(), CanvasError>)
        requires
            old(self).wf(),
        ensures
            final(self).wf(),
            final(self)@.wf(),
            final(self)@ == put(old(self)@, x as int, y as int, z as int, color),
            r == (if in_bounds(old(self)@, x as int, y as int) {
                Ok::<(), CanvasError>(())
            } else {
                Err(CanvasError::OutOfBounds)
            }),
    {
        if x < 0 || y < 0 || x as u32 >= self.width || y as u32 >= self.height {
            proof {
                self.lemma_view_wf();
            }
            return Err(CanvasError::OutOfBounds);
        }
        let xu = x as usize;
        let yu = y as usize;
        proof {
            lemma_pixel_index(self.width as int, self.height as int, x as int, y as int, x as int, y as int);
        }
        let write = match &self.depth {
            Some(g) => {
                assert(bounds(self.width as int, self.height as int).contains((x as int, y as int)));
                z >= grid_get(g, xu, yu)
            },
            None => true,
        };
        if write {
            let ghost before = *self;
            let idx = yu * (self.width as usize) + xu;
            self.pixels.set(idx, color);
            match &mut self.depth {
                Some(g) => {
                    assert(bounds(self.width as int, self.height as int).contains((x as int, y as int)));
                    grid_set(g, xu, yu, z);
                },
                None => {},
            }
            proof {
                let w = self.width as int;
                let h = self.height as int;
                assert forall|p: (int, int)| 0 <= p.0 < w && 0 <= p.1 < h && p != (x as int, y as int)
                    implies #[trigger] self.pixels@[p.1 * w + p.0] == before.pixels@[p.1 * w + p.0] by {
                    lemma_pixel_index(w, h, p.0, p.1, x as int, y as int);
                }
                assert(self@.color =~= before@.color.insert((x as int, y as int), color));
                assert(self@.depth =~= put(before@, x as int, y as int, z as int, color).depth);
            }
        }
        proof {
            self.lemma_view_wf();
        }
        Ok(())
    }

    /// The color of pixel `(x, y)`.
    pub fn get(&self, x: i32, y: i32) -> (r: Result<u32, CanvasError>)
        requires
            self.wf(),
        ensures
            r == (if in_bounds(self@, x as int, y as int) {
                Ok::<u32, CanvasError>(self@.color[(x as int, y as int)])
            } else {
                Err(CanvasError::OutOfBounds)
            }),
    {
        if x < 0 || y < 0 || x as u32 >= self.width || y as u32 >= self.height {
            return Err(CanvasError::OutOfBounds);
        }
        proof {
            lemma_pixel_index(self.width as int, self.height as int, x as int, y as int, x as int, y as int);
        }
        Ok(self.pixels[y as usize * self.width as usize + x as usize])
    }

    /// The stored depth of pixel `(x, y)`, on a depth-tested surface.
    pub fn get_depth(&self, x: i32, y: i32) -> (r: Option<i32>)
        requires
            self.wf(),
        ensures
            r == (if self@.depth_test && in_bounds(self@, x as int, y as int) {
                Some(self@.depth[(x as int, y as int)])
            } else {
                None
            }),
    {
        if x < 0 || y < 0 || x as u32 >= self.width || y as u32 >= self.height {
            return None;
        }
        match &self.depth {
            Some(g) => {
                assert(bounds(self.width as int, self.height as int).contains((x as int, y as int)));
                Some(grid_get(g, x as usize, y as usize))
            },
            None => None,
        }
    }
}

/// The gray level that shows depth `z` on a scale where `depth_scale` is white:
/// `255 * z / depth_scale` rounded toward zero, held to `0..=255`.
pub open spec fn gray_of(z: int, depth_scale: int) -> int {
    if z <= 0 {
        0
    } else if 255 * z / depth_scale > 255 {
        255
    } else {
        255 * z / depth_scale
    }
}

pub fn gray_level(z: i32, depth_scale: i32) -> (r: u8)
    requires
        depth_scale > 0,
    ensures
        r as int == gray_of(z as int, depth_scale as int),
{
    if z <= 0 {
        return 0;
    }
    let g: i64 = 255 * z as i64 / depth_scale as i64;
    if g > 255 {
        255
    } else {
        g as u8
    }
}

} // verus!
