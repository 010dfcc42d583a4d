//! Axis-aligned rectangles in screen space.
//!
//! A rectangle built by [`Rect::new`] is kept inside a window in which its
//! right and bottom edges can always be computed: positions lie between
//! `MIN_POSITION` and `MAX_POSITION`, sizes between 1 and `MAX_SIZE`.

use vstd::prelude::*;

verus! {

/// The largest x or y position of a rectangle made by [`Rect::new`].
pub const MAX_POSITION: i32 = 1073741823;

/// The smallest x or y position of a rectangle made by [`Rect::new`].
pub const MIN_POSITION: i32 = -1073741824;

/// The largest width or height of a rectangle made by [`Rect::new`].
pub const MAX_SIZE: u32 = 1073741823;

/// A rectangle: the position of its top left corner and its size.
#[derive(Debug, Clone, Copy, PartialEq, Eq, Structural)]
pub struct Rect {
    pub x: i32,
    pub y: i32,
    pub w: u32,
    pub h: u32,
}

/// A position, brought into the range that [`Rect::new`] keeps.
pub open spec fn clamp_position(val: int) -> int {
    if val > MAX_POSITION {
        MAX_POSITION as int
    } else if val < MIN_POSITION {
        MIN_POSITION as int
    } else {
        val
    }
}

/// A size, brought into the range that [`Rect::new`] keeps: an empty side
/// becomes a side of one unit, an oversized one becomes `MAX_SIZE`.
pub open spec fn clamp_size(val: int) -> int {
    if val == 0 {
        1
    } else if val > MAX_SIZE || val < 0 {
        MAX_SIZE as int
    } else {
        val
    }
}

/// The rectangle that [`Rect::new`] makes of four unbounded integers.
pub open spec fn clamped_rect(x: int, y: int, w: int, h: int) -> Rect {
    Rect {
        x: clamp_position(x) as i32,
        y: clamp_position(y) as i32,
        w: clamp_size(w) as u32,
        h: clamp_size(h) as u32,
    }
}

fn clamp_position_exec(val: i64) -> (r: i32)
    ensures
        r == clamp_position(val as int),
{
    if val > 1073741823 {
        1073741823
    } else if val < -1073741824 {
        -1073741824
    } else {
        val as i32
    }
}

fn clamp_size_exec(val: i64) -> (r: u32)
    ensures
        r == clamp_size(val as int),
{
    if val == 0 {
        1
    } else if val > 1073741823 || val < 0 {
        1073741823
    } else {
        val as u32
    }
}

impl Rect {
    /// True if the rectangle lies in the window that [`Rect::new`] keeps.
    pub open spec fn is_clamped(&self) -> bool {
        &&& MIN_POSITION <= self.x <= MAX_POSITION
        &&& MIN_POSITION <= self.y <= MAX_POSITION
        &&& 1 <= self.w <= MAX_SIZE
        &&& 1 <= self.h <= MAX_SIZE
    }

    /// The x position of the right edge.
    pub open spec fn spec_right(&self) -> int {
        self.x + self.w
    }

    /// The y position of the bottom edge.
    pub open spec fn spec_bottom(&self) -> int {
        self.y + self.h
    }

    /// Makes a rectangle, clamping position and size.
    pub fn new(x: i32, y: i32, width: u32, height: u32) -> (r: Rect)
        ensures
            r == clamped_rect(x as int, y as int, width as int, height as int),
            r.is_clamped(),
    {
        Rect {
            x: clamp_position_exec(x as i64),
            y: clamp_position_exec(y as i64),
            w: clamp_size_exec(width as i64),
            h: clamp_size_exec(height as i64),
        }
    }

    /// Makes a rectangle of values that may lie outside the machine ranges
    /// of [`Rect::new`]'s parameters. A negative size counts as oversized.
    pub fn from_wide(x: i64, y: i64, width: i64, height: i64) -> (r: Rect)
        ensures
            r == clamped_rect(x as int, y as int, width as int, height as int),
            r.is_clamped(),
    {
        Rect {
            x: clamp_position_exec(x),
            y: clamp_position_exec(y),
            w: clamp_size_exec(width),
            h: clamp_size_exec(height),
        }
    }

    /// The x position of the left edge.
    pub fn x(&self) -> (r: i32)
        ensures
            r == self.x,
    {
        self.x
    }

    /// The y position of the top edge.
    pub fn y(&self) -> (r: i32)
        ensures
            r == self.y,
    {
        self.y
    }

    /// The width.
    pub fn width(&self) -> (r: u32)
        ensures
            r == self.w,
    {
        self.w
    }

    /// The height.
    pub fn height(&self) -> (r: u32)
        ensures
            r == self.h,
    {
        self.h
    }

    /// The x position of the left edge.
    pub fn left(&self) -> (r: i32)
        ensures
            r == self.x,
    {
        self.x
    }

    /// The y position of the top edge.
    pub fn top(&self) -> (r: i32)
        ensures
            r == self.y,
    {
        self.y
    }

    /// The x position of the right edge, which may lie beyond `i32`.
    pub fn right(&self) -> (r: i64)
        ensures
            r == self.spec_right(),
    {
        self.x as i64 + self.w as i64
    }

    /// The y position of the bottom edge, which may lie beyond `i32`.
    pub fn bottom(&self) -> (r: i64)
        ensures
            r == self.spec_bottom(),
    {
        self.y as i64 + self.h as i64
    }

    /// Width times height.
    pub fn area(&self) -> (r: u64)
        ensures
            r == self.w * self.h,
    {
        assert(self.w * self.h <= 0xffff_ffff * 0xffff_ffff) by (nonlinear_arith)
            requires
                0 <= self.w <= 0xffff_ffff,
                0 <= self.h <= 0xffff_ffff,
        ;
        self.w as u64 * self.h as u64
    }
}

/// Inside the window that [`Rect::new`] keeps, clamping changes nothing.
pub proof fn lemma_clamped_rect_is_exact(x: int, y: int, w: int, h: int)
    requires
        MIN_POSITION <= x <= MAX_POSITION,
        MIN_POSITION <= y <= MAX_POSITION,
        1 <= w <= MAX_SIZE,
        1 <= h <= MAX_SIZE,
    ensures
        clamped_rect(x, y, w, h) == (Rect { x: x as i32, y: y as i32, w: w as u32, h: h as u32 }),
{
}

} // verus!
