use vstd::prelude::*;

verus! {

/// The largest coordinate a terminal cell can have.
pub const MAX_COORD: u16 = 65535;

/// A rectangle of terminal cells: its top-left corner and its extent.
#[derive(Clone, Copy, Debug, PartialEq, Eq, Structural)]
pub struct Rect {
    pub x: u16,
    pub y: u16,
    pub width: u16,
    pub height: u16,
}

impl Rect {
    /// Create a rectangle from its corner and extent.
    pub fn new(x: u16, y: u16, width: u16, height: u16) -> (r: Rect)
        ensures
            r == (Rect { x, y, width, height }),
    {
        Rect { x, y, width, height }
    }

    /// The rectangle fits in the coordinate space: its far edges are addressable.
    pub open spec fn fits(self) -> bool {
        self.x + self.width <= MAX_COORD && self.y + self.height <= MAX_COORD
    }
}

/// The intrinsic size a widget asks for when it is drawn sized.
#[derive(Clone, Copy, Debug, PartialEq, Eq, Structural)]
pub struct Size {
    pub width: usize,
    pub height: usize,
}

impl Size {
    /// Create a new size.
    pub fn new(width: usize, height: usize) -> (r: Size)
        ensures
            r == (Size { width, height }),
    {
        Size { width, height }
    }

    /// Create a new size with equal dimensions.
    pub fn rect(size: usize) -> (r: Size)
        ensures
            r == (Size { width: size, height: size }),
    {
        Size::new(size, size)
    }
}

/// Placement of a sized widget inside the area allotted to it, per axis.
#[derive(Clone, Copy, Debug, PartialEq, Eq, Structural)]
pub enum Align {
    Start,
    Center,
    End,
}

impl Default for Align {
    fn default() -> (r: Align)
        ensures
            r == Align::Start,
    {
        Align::Start
    }
}

/// The extent actually used on an axis of length `available` by content of
/// length `wanted`: content never overflows the area.
pub open spec fn used_extent(available: int, wanted: int) -> int {
    if wanted < available {
        wanted
    } else {
        available
    }
}

/// Offset of content of length `used` inside an axis of length `available`.
pub open spec fn align_offset(align: Align, available: int, used: int) -> int {
    match align {
        Align::Start => 0,
        Align::Center => (available - used) / 2,
        Align::End => available - used,
    }
}

/// A coordinate clamped to the addressable range.
pub open spec fn clamp_coord(v: int) -> int {
    if v <= MAX_COORD {
        v
    } else {
        MAX_COORD as int
    }
}

/// The sub-rectangle of `area` in which content of intrinsic size `size` is
/// drawn, aligned independently on each axis.
pub open spec fn aligned_rect(area: Rect, size: Size, horizontal: Align, vertical: Align) -> Rect {
    let w = used_extent(area.width as int, size.width as int);
    let h = used_extent(area.height as int, size.height as int);
    Rect {
        x: clamp_coord(area.x + align_offset(horizontal, area.width as int, w)) as u16,
        y: clamp_coord(area.y + align_offset(vertical, area.height as int, h)) as u16,
        width: w as u16,
        height: h as u16,
    }
}

/// Offset and extent of content of length `wanted` on an axis that starts at
/// `start` and has length `available`.
fn align_axis(start: u16, available: u16, wanted: usize, align: Align) -> (r: (u16, u16))
    ensures
        r.1 == used_extent(available as int, wanted as int),
        r.0 == clamp_coord(start + align_offset(align, available as int, r.1 as int)),
{
    let used: u16 = if wanted < available as usize {
        wanted as u16
    } else {
        available
    };
    let offset: u16 = match align {
        Align::Start => 0,
        Align::Center => (available - used) / 2,
        Align::End => available - used,
    };
    let pos: u16 = if offset <= MAX_COORD - start {
        start + offset
    } else {
        MAX_COORD
    };
    (pos, used)
}

/// The sub-rectangle of `area` in which content of intrinsic size `size` is
/// drawn: `Start` puts it at offset 0, `Center` at half the spare extent
/// rounded down, `End` at the full spare extent.
pub fn align_rect(area: Rect, size: Size, horizontal: Align, vertical: Align) -> (r: Rect)
    ensures
        r == aligned_rect(area, size, horizontal, vertical),
{
    let (x, width) = align_axis(area.x, area.width, size.width, horizontal);
    let (y, height) = align_axis(area.y, area.height, size.height, vertical);
    Rect { x, y, width, height }
}

/// Alignment on an axis: content that fits is placed at offset 0 (`Start`), at
/// half the spare extent rounded down (`Center`), or flush with the far edge
/// (`End`), and keeps its intrinsic extent.
pub proof fn lemma_alignment_offsets(area: Rect, size: Size, horizontal: Align, vertical: Align)
    requires
        area.fits(),
        size.width <= area.width,
        size.height <= area.height,
    ensures
        aligned_rect(area, size, horizontal, vertical).width == size.width,
        aligned_rect(area, size, horizontal, vertical).height == size.height,
        horizontal == Align::Start ==> aligned_rect(area, size, horizontal, vertical).x == area.x,
        horizontal == Align::Center ==> aligned_rect(area, size, horizontal, vertical).x == area.x
            + (area.width - size.width) / 2,
        horizontal == Align::End ==> aligned_rect(area, size, horizontal, vertical).x == area.x
            + area.width - size.width,
        vertical == Align::Start ==> aligned_rect(area, size, horizontal, vertical).y == area.y,
        vertical == Align::Center ==> aligned_rect(area, size, horizontal, vertical).y == area.y
            + (area.height - size.height) / 2,
        vertical == Align::End ==> aligned_rect(area, size, horizontal, vertical).y == area.y
            + area.height - size.height,
{
}

} // verus!
