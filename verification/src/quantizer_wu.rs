//! The integer core of Wu's colour quantizer: the colour histogram, its
//! three-dimensional cumulative moments, and box volumes over them.
use vstd::prelude::*;

verus! {

/// Bits of each channel kept in the histogram.
pub const INDEX_BITS: u8 = 5;
/// Bits of each channel dropped when a colour is placed in the histogram.
pub const BITS_TO_REMOVE: u8 = 3;
/// Side of the histogram cube: `(1 << INDEX_BITS) + 1`.
pub const SIDE_LENGTH: usize = 33;
/// Number of cells of the histogram cube: `SIDE_LENGTH` cubed.
pub const TOTAL_SIZE: usize = 35937;

/// The axis along which a box is cut.
pub enum Direction {
    Red,
    Green,
    Blue,
}

/// Represents requested and result counts of Wu algorithm.
#[derive(Debug, Default, Clone, Copy)]
pub struct QuantizerWuCounter {
    /// How many colors the caller asked to be returned from quantization
    pub requested_count: usize,
    /// Actual number of colors achieved from quantization. May be lower than the requested count
    pub result_count: usize,
}

impl QuantizerWuCounter {
    pub fn new(requested_count: usize, result_count: usize) -> (res: Self)
        ensures
            res.requested_count == requested_count,
            res.result_count == result_count,
    {
        Self { requested_count, result_count }
    }
}

/// A corner of a box in the histogram cube.
#[derive(Debug, Default, Clone, Copy)]
pub struct Pixel {
    pub r: u8,
    pub g: u8,
    pub b: u8,
}

impl Pixel {
    pub fn new(r: u8, g: u8, b: u8) -> (res: Self)
        ensures
            res.r == r,
            res.g == g,
            res.b == b,
    {
        Self { r, g, b }
    }
}

/// Keeps track of the state of each box created as the Wu quantization
/// algorithm progresses through, dividing the image's pixels as plotted in RGB.
/// The box holds the cells whose coordinates lie above `pixels.0` and at or
/// below `pixels.1` on each axis.
#[derive(Debug, Default, Clone, Copy)]
pub struct Box {
    pub pixels: (Pixel, Pixel),
    pub vol: u16,
}

impl Box {
    /// The corners are ordered on each axis.
    pub open spec fn ordered(&self) -> bool {
        &&& self.pixels.0.r <= self.pixels.1.r
        &&& self.pixels.0.g <= self.pixels.1.g
        &&& self.pixels.0.b <= self.pixels.1.b
    }

    /// Number of histogram cells in the box.
    pub open spec fn spec_volume(&self) -> int {
        (self.pixels.1.r - self.pixels.0.r) * (self.pixels.1.g - self.pixels.0.g) * (
        self.pixels.1.b - self.pixels.0.b)
    }

    pub fn new(pixels: (Pixel, Pixel)) -> (res: Self)
        ensures
            res.pixels == pixels,
            res.vol == 0,
    {
        Self { vol: 0, pixels }
    }

    /// The number of cells in the box. The corners must be ordered and the
    /// product must fit in a `u16`, the width the volume is computed in.
    pub fn calculate_vol(&self) -> (res: u16)
        requires
            self.ordered(),
            self.spec_volume() <= u16::MAX,
        ensures
            res == self.spec_volume(),
    {
        let dr = (self.pixels.1.r - self.pixels.0.r) as u16;
        let dg = (self.pixels.1.g - self.pixels.0.g) as u16;
        let db = (self.pixels.1.b - self.pixels.0.b) as u16;
        assert(dr * dg <= 65025) by (nonlinear_arith)
            requires
                dr <= 255,
                dg <= 255,
        ;
        dr * dg * db
    }

    /// The two boxes that a cut at `at` along `direction` makes of this box:
    /// the first keeps the lower corner and ends at `at`, the second starts
    /// at `at` and keeps the upper corner; each with its volume.
    pub fn split(&self, direction: &Direction, at: u8) -> (res: (Box, Box))
        requires
            self.ordered(),
            corners_in_cube(*self),
            coordinate(self.pixels.0, *direction) <= at <= coordinate(self.pixels.1, *direction),
        ensures
            res.0.pixels == (self.pixels.0, with_coordinate(self.pixels.1, *direction, at)),
            res.1.pixels == (with_coordinate(self.pixels.0, *direction, at), self.pixels.1),
            res.0.vol == res.0.spec_volume(),
            res.1.vol == res.1.spec_volume(),
    {
        let (lo, hi) = self.pixels;
        let (end, start) = match direction {
            Direction::Red => (Pixel::new(at, hi.g, hi.b), Pixel::new(at, lo.g, lo.b)),
            Direction::Green => (Pixel::new(hi.r, at, hi.b), Pixel::new(lo.r, at, lo.b)),
            Direction::Blue => (Pixel::new(hi.r, hi.g, at), Pixel::new(lo.r, lo.g, at)),
        };
        let one = Box::new((lo, end));
        let two = Box::new((start, hi));
        proof {
            lemma_small_volume(one);
            lemma_small_volume(two);
        }
        let v1 = one.calculate_vol();
        let v2 = two.calculate_vol();
        (Box { vol: v1, pixels: one.pixels }, Box { vol: v2, pixels: two.pixels })
    }
}

/// The coordinate of `p` along `d`.
pub open spec fn coordinate(p: Pixel, d: Direction) -> u8 {
    match d {
        Direction::Red => p.r,
        Direction::Green => p.g,
        Direction::Blue => p.b,
    }
}

/// `p` with its coordinate along `d` set to `v`.
pub open spec fn with_coordinate(p: Pixel, d: Direction, v: u8) -> Pixel {
    match d {
        Direction::Red => Pixel { r: v, g: p.g, b: p.b },
        Direction::Green => Pixel { r: p.r, g: v, b: p.b },
        Direction::Blue => Pixel { r: p.r, g: p.g, b: v },
    }
}

/// An ordered box within the histogram cube has at most 32 cells a side.
proof fn lemma_small_volume(b: Box)
    requires
        b.ordered(),
        corners_in_cube(b),
    ensures
        b.spec_volume() <= u16::MAX,
{
    let dr = b.pixels.1.r - b.pixels.0.r;
    let dg = b.pixels.1.g - b.pixels.0.g;
    let db = b.pixels.1.b - b.pixels.0.b;
    assert(dr * dg * db <= 32 * 32 * 32) by (nonlinear_arith)
        requires
            0 <= dr <= 32,
            0 <= dg <= 32,
            0 <= db <= 32,
    ;
}

/// Position of the cell `(r, g, b)` in the flattened histogram cube.
pub open spec fn cell_index(r: int, g: int, b: int) -> int {
    r * 1089 + g * 33 + b
}

/// Position of the cell `(r, g, b)` in the flattened histogram cube; the
/// position must fit in a `usize`, the width it is computed in.
pub fn get_index(r: usize, g: usize, b: usize) -> (res: usize)
    requires
        cell_index(r as int, g as int, b as int) <= usize::MAX,
    ensures
        res == cell_index(r as int, g as int, b as int),
{
    r * 1024 + r * 64 + r + g * 32 + g + b
}

} // verus!

verus! {

/// A histogram cube given by the value of each flattened cell.
pub open spec fn cells_u32(s: Seq<u32>) -> spec_fn(int) -> int {
    |i: int| s[i] as int
}

/// A histogram cube given by the value of each flattened cell.
pub open spec fn cells_u64(s: Seq<u64>) -> spec_fn(int) -> int {
    |i: int| s[i] as int
}

/// Sum of `h` over the cells `(r, g, 1..=b)`.
pub open spec fn line_sum(h: spec_fn(int) -> int, r: int, g: int, b: int) -> int
    decreases b,
{
    if b <= 0 {
        0
    } else {
        line_sum(h, r, g, b - 1) + h(cell_index(r, g, b))
    }
}

/// Sum of `h` over the cells `(r, 1..=g, 1..=b)`.
pub open spec fn area_sum(h: spec_fn(int) -> int, r: int, g: int, b: int) -> int
    decreases g,
{
    if g <= 0 {
        0
    } else {
        area_sum(h, r, g - 1, b) + line_sum(h, r, g, b)
    }
}

/// Sum of `h` over the cells `(1..=r, 1..=g, 1..=b)`: the cumulative moment at `(r, g, b)`.
pub open spec fn prefix_sum(h: spec_fn(int) -> int, r: int, g: int, b: int) -> int
    decreases r,
{
    if r <= 0 {
        0
    } else {
        prefix_sum(h, r - 1, g, b) + area_sum(h, r, g, b)
    }
}

/// Every cell of the cube holds a value that is not negative.
pub open spec fn nonneg_cells(h: spec_fn(int) -> int) -> bool {
    forall|i: int| 0 <= i < TOTAL_SIZE ==> 0 <= #[trigger] h(i)
}

/// The cells with a zero coordinate hold zero.
pub open spec fn zero_planes(h: spec_fn(int) -> int) -> bool {
    forall|r: int, g: int, b: int|
        0 <= r < SIDE_LENGTH && 0 <= g < SIDE_LENGTH && 0 <= b < SIDE_LENGTH && (r == 0 || g == 0
            || b == 0) ==> #[trigger] h(cell_index(r, g, b)) == 0
}

/// `(r1, g1, b1)` comes before `(r, g, b)` in the order the cube is swept.
pub open spec fn swept_before(r1: int, g1: int, b1: int, r: int, g: int, b: int) -> bool {
    r1 < r || (r1 == r && (g1 < g || (g1 == g && b1 < b)))
}

pub open spec fn in_side(x: int) -> bool {
    0 <= x < SIDE_LENGTH
}

proof fn lemma_cell_index_bounds(r: int, g: int, b: int)
    requires
        in_side(r),
        in_side(g),
        in_side(b),
    ensures
        0 <= cell_index(r, g, b) < TOTAL_SIZE,
{
}

proof fn lemma_line_mono(h: spec_fn(int) -> int, r: int, g: int, b: int, b2: int)
    requires
        nonneg_cells(h),
        in_side(r),
        in_side(g),
        0 <= b <= b2 < SIDE_LENGTH,
    ensures
        0 <= line_sum(h, r, g, b) <= line_sum(h, r, g, b2),
    decreases b2,
{
    if b2 > b {
        lemma_line_mono(h, r, g, b, b2 - 1);
        lemma_cell_index_bounds(r, g, b2);
    } else if b > 0 {
        lemma_line_mono(h, r, g, b - 1, b - 1);
        lemma_cell_index_bounds(r, g, b);
    }
}

proof fn lemma_area_mono(h: spec_fn(int) -> int, r: int, g: int, b: int, g2: int, b2: int)
    requires
        nonneg_cells(h),
        in_side(r),
        0 <= g <= g2 < SIDE_LENGTH,
        0 <= b <= b2 < SIDE_LENGTH,
    ensures
        0 <= area_sum(h, r, g, b) <= area_sum(h, r, g2, b2),
    decreases g2,
{
    if g2 > 0 {
        lemma_line_mono(h, r, g2, b, b2);
        if g2 > g {
            lemma_area_mono(h, r, g, b, g2 - 1, b2);
        } else {
            lemma_area_mono(h, r, g - 1, b, g - 1, b2);
        }
    }
}

proof fn lemma_prefix_mono(h: spec_fn(int) -> int, r: int, g: int, b: int, r2: int, g2: int, b2: int)
    requires
        nonneg_cells(h),
        0 <= r <= r2 < SIDE_LENGTH,
        0 <= g <= g2 < SIDE_LENGTH,
        0 <= b <= b2 < SIDE_LENGTH,
    ensures
        0 <= prefix_sum(h, r, g, b) <= prefix_sum(h, r2, g2, b2),
    decreases r2,
{
    if r2 > 0 {
        lemma_area_mono(h, r2, g, b, g2, b2);
        if r2 > r {
            lemma_prefix_mono(h, r, g, b, r2 - 1, g2, b2);
        } else {
            lemma_prefix_mono(h, r - 1, g, b, r - 1, g2, b2);
        }
    }
}

/// Every partial sum met while sweeping the cube is bounded by the total.
proof fn lemma_partial_sums_bounded(h: spec_fn(int) -> int, r: int, g: int, b: int)
    requires
        nonneg_cells(h),
        1 <= r < SIDE_LENGTH,
        1 <= g < SIDE_LENGTH,
        1 <= b < SIDE_LENGTH,
    ensures
        0 <= line_sum(h, r, g, b) <= area_sum(h, r, g, b),
        area_sum(h, r, g, b) <= prefix_sum(h, r, g, b),
        prefix_sum(h, r, g, b) <= prefix_sum(h, 32, 32, 32),
{
    lemma_area_mono(h, r, g - 1, b, g - 1, b);
    lemma_line_mono(h, r, g, b, b);
    lemma_prefix_mono(h, r - 1, g, b, r - 1, g, b);
    lemma_prefix_mono(h, r, g, b, 32, 32, 32);
}

/// Cumulative sums vanish on the zero planes.
proof fn lemma_prefix_zero_planes(h: spec_fn(int) -> int)
    ensures
        forall|r: int, g: int, b: int|
            0 <= r < SIDE_LENGTH && 0 <= g < SIDE_LENGTH && 0 <= b < SIDE_LENGTH && (r == 0 || g
                == 0 || b == 0) ==> #[trigger] prefix_sum(h, r, g, b) == 0,
{
    assert forall|r: int, g: int, b: int|
        0 <= r < SIDE_LENGTH && 0 <= g < SIDE_LENGTH && 0 <= b < SIDE_LENGTH && (r == 0 || g == 0
            || b == 0) implies #[trigger] prefix_sum(h, r, g, b) == 0 by {
        lemma_prefix_zero(h, r, g, b);
    }
}

proof fn lemma_prefix_zero(h: spec_fn(int) -> int, r: int, g: int, b: int)
    requires
        0 <= r,
        0 <= g,
        0 <= b,
        r == 0 || g == 0 || b == 0,
    ensures
        prefix_sum(h, r, g, b) == 0,
    decreases r,
{
    if r > 0 {
        lemma_prefix_zero(h, r - 1, g, b);
        lemma_area_zero(h, r, g, b);
    }
}

proof fn lemma_area_zero(h: spec_fn(int) -> int, r: int, g: int, b: int)
    requires
        0 <= g,
        0 <= b,
        g == 0 || b == 0,
    ensures
        area_sum(h, r, g, b) == 0,
    decreases g,
{
    if g > 0 {
        lemma_area_zero(h, r, g - 1, b);
    }
}

/// Replaces the histogram held in `a` by its cumulative sums: afterwards the
/// cell `(r, g, b)` holds the sum of the histogram over `(1..=r, 1..=g, 1..=b)`.
fn accumulate_u32(a: &mut Vec<u32>)
    requires
        old(a)@.len() == TOTAL_SIZE,
        zero_planes(cells_u32(old(a)@)),
        prefix_sum(cells_u32(old(a)@), 32, 32, 32) <= u32::MAX,
    ensures
        final(a)@.len() == TOTAL_SIZE,
        forall|r: int, g: int, b: int|
            in_side(r) && in_side(g) && in_side(b) ==> #[trigger] final(a)@[cell_index(r, g, b)]
                == prefix_sum(cells_u32(old(a)@), r, g, b),
{
    let ghost h = cells_u32(old(a)@);
    proof {
        lemma_prefix_zero_planes(h);
        assert(nonneg_cells(h));
        assert forall|r1: int, g1: int, b1: int|
            in_side(r1) && in_side(g1) && in_side(b1) implies #[trigger] a@[cell_index(r1, g1, b1)]
                == if r1 < 1 {
                prefix_sum(h, r1, g1, b1)
            } else {
                h(cell_index(r1, g1, b1))
            } by {
            lemma_cell_index_bounds(r1, g1, b1);
            if r1 < 1 {
                assert(prefix_sum(h, r1, g1, b1) == 0);
                assert(h(cell_index(r1, g1, b1)) == 0);
            }
        }
    }
    let mut r: usize = 1;
    while r < SIDE_LENGTH
        invariant
            1 <= r <= SIDE_LENGTH,
            a@.len() == TOTAL_SIZE,
            h == cells_u32(old(a)@),
            nonneg_cells(h),
            zero_planes(h),
            prefix_sum(h, 32, 32, 32) <= u32::MAX,
            forall|r1: int, g1: int, b1: int|
                in_side(r1) && in_side(g1) && in_side(b1) ==> #[trigger] a@[cell_index(r1, g1, b1)]
                    == if r1 < r {
                    prefix_sum(h, r1, g1, b1)
                } else {
                    h(cell_index(r1, g1, b1))
                },
        decreases SIDE_LENGTH - r,
    {
        let mut area: Vec<u32> = vec![0u32; SIDE_LENGTH];
        proof {
            assert forall|r1: int, g1: int, b1: int|
                in_side(r1) && in_side(g1) && in_side(b1) implies #[trigger] a@[cell_index(r1, g1, b1)]
                    == if swept_before(r1, g1, b1, r as int, 1, 0) {
                    prefix_sum(h, r1, g1, b1)
                } else {
                    h(cell_index(r1, g1, b1))
                } by {
                lemma_cell_index_bounds(r1, g1, b1);
                if r1 == r && g1 == 0 {
                    lemma_prefix_zero(h, r1, g1, b1);
                    assert(h(cell_index(r1, g1, b1)) == 0);
                }
            }
        }
        let mut g: usize = 1;
        while g < SIDE_LENGTH
            invariant
                1 <= r < SIDE_LENGTH,
                1 <= g <= SIDE_LENGTH,
                a@.len() == TOTAL_SIZE,
                area@.len() == SIDE_LENGTH,
                h == cells_u32(old(a)@),
                nonneg_cells(h),
                zero_planes(h),
                prefix_sum(h, 32, 32, 32) <= u32::MAX,
                forall|b1: int| in_side(b1) ==> #[trigger] area@[b1] == area_sum(h, r as int, g - 1, b1),
                forall|r1: int, g1: int, b1: int|
                    in_side(r1) && in_side(g1) && in_side(b1) ==> #[trigger] a@[cell_index(r1, g1, b1)]
                        == if swept_before(r1, g1, b1, r as int, g as int, 0) {
                        prefix_sum(h, r1, g1, b1)
                    } else {
                        h(cell_index(r1, g1, b1))
                    },
            decreases SIDE_LENGTH - g,
        {
            let mut line: u32 = 0;
            proof {
                assert forall|r1: int, g1: int, b1: int|
                    in_side(r1) && in_side(g1) && in_side(b1) implies #[trigger] a@[cell_index(r1, g1, b1)]
                        == if swept_before(r1, g1, b1, r as int, g as int, 1) {
                        prefix_sum(h, r1, g1, b1)
                    } else {
                        h(cell_index(r1, g1, b1))
                    } by {
                    lemma_cell_index_bounds(r1, g1, b1);
                    if r1 == r && g1 == g && b1 == 0 {
                        lemma_prefix_zero(h, r1, g1, b1);
                        assert(h(cell_index(r1, g1, b1)) == 0);
                    }
                }
            }
            let mut b: usize = 1;
            while b < SIDE_LENGTH
                invariant
                    1 <= r < SIDE_LENGTH,
                    1 <= g < SIDE_LENGTH,
                    1 <= b <= SIDE_LENGTH,
                    a@.len() == TOTAL_SIZE,
                    area@.len() == SIDE_LENGTH,
                    h == cells_u32(old(a)@),
                    nonneg_cells(h),
                    zero_planes(h),
                    prefix_sum(h, 32, 32, 32) <= u32::MAX,
                    line == line_sum(h, r as int, g as int, b - 1),
                    forall|b1: int|
                        in_side(b1) ==> #[trigger] area@[b1] == if b1 < b {
                            area_sum(h, r as int, g as int, b1)
                        } else {
                            area_sum(h, r as int, g - 1, b1)
                        },
                    forall|r1: int, g1: int, b1: int|
                        in_side(r1) && in_side(g1) && in_side(b1) ==> #[trigger] a@[cell_index(r1, g1, b1)]
                            == if swept_before(r1, g1, b1, r as int, g as int, b as int) {
                            prefix_sum(h, r1, g1, b1)
                        } else {
                            h(cell_index(r1, g1, b1))
                        },
                decreases SIDE_LENGTH - b,
            {
                let index = get_index(r, g, b);
                proof {
                    lemma_partial_sums_bounded(h, r as int, g as int, b as int);
                    lemma_cell_index_bounds(r as int, g as int, b as int);
                    lemma_cell_index_bounds(r - 1, g as int, b as int);
                    assert(a@[cell_index(r as int, g as int, b as int)] == h(cell_index(r as int, g as int, b as int)));
                    assert(a@[cell_index(r - 1, g as int, b as int)] == prefix_sum(h, r - 1, g as int, b as int));
                }
                line = line + a[index];
                area.set(b, area[b] + line);
                let previous_index = get_index(r - 1, g, b);
                let value = a[previous_index] + area[b];
                a.set(index, value);
                proof {
                    assert forall|r1: int, g1: int, b1: int|
                        in_side(r1) && in_side(g1) && in_side(b1) implies #[trigger] a@[cell_index(r1, g1, b1)]
                            == if swept_before(r1, g1, b1, r as int, g as int, b + 1) {
                            prefix_sum(h, r1, g1, b1)
                        } else {
                            h(cell_index(r1, g1, b1))
                        } by {
                        lemma_cell_index_bounds(r1, g1, b1);
                    }
                }
                b = b + 1;
            }
            proof {
                assert forall|r1: int, g1: int, b1: int|
                    in_side(r1) && in_side(g1) && in_side(b1) implies #[trigger] a@[cell_index(r1, g1, b1)]
                        == if swept_before(r1, g1, b1, r as int, g + 1, 0) {
                        prefix_sum(h, r1, g1, b1)
                    } else {
                        h(cell_index(r1, g1, b1))
                    } by {
                    if r1 == r && g1 == g + 1 && b1 == 0 {
                    }
                }
            }
            g = g + 1;
        }
        proof {
            assert forall|r1: int, g1: int, b1: int|
                in_side(r1) && in_side(g1) && in_side(b1) implies #[trigger] a@[cell_index(r1, g1, b1)]
                    == if r1 < r + 1 {
                    prefix_sum(h, r1, g1, b1)
                } else {
                    h(cell_index(r1, g1, b1))
                } by {
            }
        }
        r = r + 1;
    }
}

/// Replaces the histogram held in `a` by its cumulative sums: afterwards the
/// cell `(r, g, b)` holds the sum of the histogram over `(1..=r, 1..=g, 1..=b)`.
fn accumulate_u64(a: &mut Vec<u64>)
    requires
        old(a)@.len() == TOTAL_SIZE,
        zero_planes(cells_u64(old(a)@)),
        prefix_sum(cells_u64(old(a)@), 32, 32, 32) <= u64::MAX,
    ensures
        final(a)@.len() == TOTAL_SIZE,
        forall|r: int, g: int, b: int|
            in_side(r) && in_side(g) && in_side(b) ==> #[trigger] final(a)@[cell_index(r, g, b)]
                == prefix_sum(cells_u64(old(a)@), r, g, b),
{
    let ghost h = cells_u64(old(a)@);
    proof {
        lemma_prefix_zero_planes(h);
        assert(nonneg_cells(h));
        assert forall|r1: int, g1: int, b1: int|
            in_side(r1) && in_side(g1) && in_side(b1) implies #[trigger] a@[cell_index(r1, g1, b1)]
                == if r1 < 1 {
                prefix_sum(h, r1, g1, b1)
            } else {
                h(cell_index(r1, g1, b1))
            } by {
            lemma_cell_index_bounds(r1, g1, b1);
            if r1 < 1 {
                assert(prefix_sum(h, r1, g1, b1) == 0);
                assert(h(cell_index(r1, g1, b1)) == 0);
            }
        }
    }
    let mut r: usize = 1;
    while r < SIDE_LENGTH
        invariant
            1 <= r <= SIDE_LENGTH,
            a@.len() == TOTAL_SIZE,
            h == cells_u64(old(a)@),
            nonneg_cells(h),
            zero_planes(h),
            prefix_sum(h, 32, 32, 32) <= u64::MAX,
            forall|r1: int, g1: int, b1: int|
                in_side(r1) && in_side(g1) && in_side(b1) ==> #[trigger] a@[cell_index(r1, g1, b1)]
                    == if r1 < r {
                    prefix_sum(h, r1, g1, b1)
                } else {
                    h(cell_index(r1, g1, b1))
                },
        decreases SIDE_LENGTH - r,
    {
        let mut area: Vec<u64> = vec![0u64; SIDE_LENGTH];
        proof {
            assert forall|r1: int, g1: int, b1: int|
                in_side(r1) && in_side(g1) && in_side(b1) implies #[trigger] a@[cell_index(r1, g1, b1)]
                    == if swept_before(r1, g1, b1, r as int, 1, 0) {
                    prefix_sum(h, r1, g1, b1)
                } else {
                    h(cell_index(r1, g1, b1))
                } by {
                lemma_cell_index_bounds(r1, g1, b1);
                if r1 == r && g1 == 0 {
                    lemma_prefix_zero(h, r1, g1, b1);
                    assert(h(cell_index(r1, g1, b1)) == 0);
                }
            }
        }
        let mut g: usize = 1;
        while g < SIDE_LENGTH
            invariant
                1 <= r < SIDE_LENGTH,
                1 <= g <= SIDE_LENGTH,
                a@.len() == TOTAL_SIZE,
                area@.len() == SIDE_LENGTH,
                h == cells_u64(old(a)@),
                nonneg_cells(h),
                zero_planes(h),
                prefix_sum(h, 32, 32, 32) <= u64::MAX,
                forall|b1: int| in_side(b1) ==> #[trigger] area@[b1] == area_sum(h, r as int, g - 1, b1),
                forall|r1: int, g1: int, b1: int|
                    in_side(r1) && in_side(g1) && in_side(b1) ==> #[trigger] a@[cell_index(r1, g1, b1)]
                        == if swept_before(r1, g1, b1, r as int, g as int, 0) {
                        prefix_sum(h, r1, g1, b1)
                    } else {
                        h(cell_index(r1, g1, b1))
                    },
            decreases SIDE_LENGTH - g,
        {
            let mut line: u64 = 0;
            proof {
                assert forall|r1: int, g1: int, b1: int|
                    in_side(r1) && in_side(g1) && in_side(b1) implies #[trigger] a@[cell_index(r1, g1, b1)]
                        == if swept_before(r1, g1, b1, r as int, g as int, 1) {
                        prefix_sum(h, r1, g1, b1)
                    } else {
                        h(cell_index(r1, g1, b1))
                    } by {
                    lemma_cell_index_bounds(r1, g1, b1);
                    if r1 == r && g1 == g && b1 == 0 {
                        lemma_prefix_zero(h, r1, g1, b1);
                        assert(h(cell_index(r1, g1, b1)) == 0);
                    }
                }
            }
            let mut b: usize = 1;
            while b < SIDE_LENGTH
                invariant
                    1 <= r < SIDE_LENGTH,
                    1 <= g < SIDE_LENGTH,
                    1 <= b <= SIDE_LENGTH,
                    a@.len() == TOTAL_SIZE,
                    area@.len() == SIDE_LENGTH,
                    h == cells_u64(old(a)@),
                    nonneg_cells(h),
                    zero_planes(h),
                    prefix_sum(h, 32, 32, 32) <= u64::MAX,
                    line == line_sum(h, r as int, g as int, b - 1),
                    forall|b1: int|
                        in_side(b1) ==> #[trigger] area@[b1] == if b1 < b {
                            area_sum(h, r as int, g as int, b1)
                        } else {
                            area_sum(h, r as int, g - 1, b1)
                        },
                    forall|r1: int, g1: int, b1: int|
                        in_side(r1) && in_side(g1) && in_side(b1) ==> #[trigger] a@[cell_index(r1, g1, b1)]
                            == if swept_before(r1, g1, b1, r as int, g as int, b as int) {
                            prefix_sum(h, r1, g1, b1)
                        } else {
                            h(cell_index(r1, g1, b1))
                        },
                decreases SIDE_LENGTH - b,
            {
                let index = get_index(r, g, b);
                proof {
                    lemma_partial_sums_bounded(h, r as int, g as int, b as int);
                    lemma_cell_index_bounds(r as int, g as int, b as int);
                    lemma_cell_index_bounds(r - 1, g as int, b as int);
                    assert(a@[cell_index(r as int, g as int, b as int)] == h(cell_index(r as int, g as int, b as int)));
                    assert(a@[cell_index(r - 1, g as int, b as int)] == prefix_sum(h, r - 1, g as int, b as int));
                }
                line = line + a[index];
                area.set(b, area[b] + line);
                let previous_index = get_index(r - 1, g, b);
                let value = a[previous_index] + area[b];
                a.set(index, value);
                proof {
                    assert forall|r1: int, g1: int, b1: int|
                        in_side(r1) && in_side(g1) && in_side(b1) implies #[trigger] a@[cell_index(r1, g1, b1)]
                            == if swept_before(r1, g1, b1, r as int, g as int, b + 1) {
                            prefix_sum(h, r1, g1, b1)
                        } else {
                            h(cell_index(r1, g1, b1))
                        } by {
                        lemma_cell_index_bounds(r1, g1, b1);
                    }
                }
                b = b + 1;
            }
            proof {
                assert forall|r1: int, g1: int, b1: int|
                    in_side(r1) && in_side(g1) && in_side(b1) implies #[trigger] a@[cell_index(r1, g1, b1)]
                        == if swept_before(r1, g1, b1, r as int, g + 1, 0) {
                        prefix_sum(h, r1, g1, b1)
                    } else {
                        h(cell_index(r1, g1, b1))
                    } by {
                    if r1 == r && g1 == g + 1 && b1 == 0 {
                    }
                }
            }
            g = g + 1;
        }
        proof {
            assert forall|r1: int, g1: int, b1: int|
                in_side(r1) && in_side(g1) && in_side(b1) implies #[trigger] a@[cell_index(r1, g1, b1)]
                    == if r1 < r + 1 {
                    prefix_sum(h, r1, g1, b1)
                } else {
                    h(cell_index(r1, g1, b1))
                } by {
            }
        }
        r = r + 1;
    }
}

} // verus!

verus! {

/// The quantity a histogram accumulates for each pixel.
pub enum Moment {
    /// One per pixel.
    Count,
    /// The red channel.
    Red,
    /// The green channel.
    Green,
    /// The blue channel.
    Blue,
    /// The sum of the squares of the three channels.
    Squares,
}

/// The value that `m` takes on the ARGB pixel `p`.
pub open spec fn pixel_moment(m: Moment, p: [u8; 4]) -> int {
    match m {
        Moment::Count => 1,
        Moment::Red => p[1] as int,
        Moment::Green => p[2] as int,
        Moment::Blue => p[3] as int,
        Moment::Squares => p[1] * p[1] + p[2] * p[2] + p[3] * p[3],
    }
}

/// Histogram coordinate of a channel value: its top five bits, plus one.
pub open spec fn channel_coord(c: u8) -> int {
    c as int / 8 + 1
}

/// The histogram cell an ARGB pixel falls in (its alpha is ignored).
pub open spec fn pixel_cell(p: [u8; 4]) -> int {
    cell_index(channel_coord(p[1]), channel_coord(p[2]), channel_coord(p[3]))
}

/// Sum of `m` over the pixels of `pixels` that fall in cell `i`.
pub open spec fn histogram(pixels: Seq<[u8; 4]>, m: Moment, i: int) -> int
    decreases pixels.len(),
{
    if pixels.len() == 0 {
        0
    } else {
        histogram(pixels.drop_last(), m, i) + if pixel_cell(pixels.last()) == i {
            pixel_moment(m, pixels.last())
        } else {
            0
        }
    }
}

/// The histogram of `m` over `pixels` as a function of the cell.
pub open spec fn histogram_cells(pixels: Seq<[u8; 4]>, m: Moment) -> spec_fn(int) -> int {
    |i: int| histogram(pixels, m, i)
}

/// Sum of `m` over all of `pixels`.
pub open spec fn moment_total(pixels: Seq<[u8; 4]>, m: Moment) -> int
    decreases pixels.len(),
{
    if pixels.len() == 0 {
        0
    } else {
        moment_total(pixels.drop_last(), m) + pixel_moment(m, pixels.last())
    }
}

/// The pixel's histogram coordinates lie in `(r0, r1] x (g0, g1] x (b0, b1]`.
pub open spec fn pixel_in_box(p: [u8; 4], r0: int, r1: int, g0: int, g1: int, b0: int, b1: int) -> bool {
    &&& r0 < channel_coord(p[1]) <= r1
    &&& g0 < channel_coord(p[2]) <= g1
    &&& b0 < channel_coord(p[3]) <= b1
}

/// Sum of `m` over the pixels whose histogram coordinates lie in
/// `(r0, r1] x (g0, g1] x (b0, b1]`.
pub open spec fn moment_in_box(
    pixels: Seq<[u8; 4]>,
    m: Moment,
    r0: int,
    r1: int,
    g0: int,
    g1: int,
    b0: int,
    b1: int,
) -> int
    decreases pixels.len(),
{
    if pixels.len() == 0 {
        0
    } else {
        moment_in_box(pixels.drop_last(), m, r0, r1, g0, g1, b0, b1) + if pixel_in_box(
            pixels.last(),
            r0,
            r1,
            g0,
            g1,
            b0,
            b1,
        ) {
            pixel_moment(m, pixels.last())
        } else {
            0
        }
    }
}

proof fn lemma_cell_index_injective(r1: int, g1: int, b1: int, r2: int, g2: int, b2: int)
    requires
        in_side(r1),
        in_side(g1),
        in_side(b1),
        in_side(r2),
        in_side(g2),
        in_side(b2),
        cell_index(r1, g1, b1) == cell_index(r2, g2, b2),
    ensures
        r1 == r2 && g1 == g2 && b1 == b2,
{
}

proof fn lemma_line_additive(h: spec_fn(int) -> int, h1: spec_fn(int) -> int, h2: spec_fn(int) -> int, r: int, g: int, b: int)
    requires
        forall|i: int| #[trigger] h(i) == h1(i) + h2(i),
    ensures
        line_sum(h, r, g, b) == line_sum(h1, r, g, b) + line_sum(h2, r, g, b),
    decreases b,
{
    if b > 0 {
        lemma_line_additive(h, h1, h2, r, g, b - 1);
        assert(h(cell_index(r, g, b)) == h1(cell_index(r, g, b)) + h2(cell_index(r, g, b)));
    }
}

proof fn lemma_area_additive(h: spec_fn(int) -> int, h1: spec_fn(int) -> int, h2: spec_fn(int) -> int, r: int, g: int, b: int)
    requires
        forall|i: int| #[trigger] h(i) == h1(i) + h2(i),
    ensures
        area_sum(h, r, g, b) == area_sum(h1, r, g, b) + area_sum(h2, r, g, b),
    decreases g,
{
    if g > 0 {
        lemma_area_additive(h, h1, h2, r, g - 1, b);
        lemma_line_additive(h, h1, h2, r, g, b);
    }
}

/// Cumulative sums are additive in the histogram.
pub proof fn lemma_prefix_additive(h: spec_fn(int) -> int, h1: spec_fn(int) -> int, h2: spec_fn(int) -> int, r: int, g: int, b: int)
    requires
        forall|i: int| #[trigger] h(i) == h1(i) + h2(i),
    ensures
        prefix_sum(h, r, g, b) == prefix_sum(h1, r, g, b) + prefix_sum(h2, r, g, b),
    decreases r,
{
    if r > 0 {
        lemma_prefix_additive(h, h1, h2, r - 1, g, b);
        lemma_area_additive(h, h1, h2, r, g, b);
    }
}

/// A histogram that holds `v` in the cell `(x, y, z)` and zero elsewhere.
pub open spec fn single_cell(x: int, y: int, z: int, v: int) -> spec_fn(int) -> int {
    |i: int| if i == cell_index(x, y, z) { v } else { 0 }
}

proof fn lemma_line_single(x: int, y: int, z: int, v: int, r: int, g: int, b: int)
    requires
        in_side(x),
        in_side(y),
        1 <= z < SIDE_LENGTH,
        in_side(r),
        in_side(g),
        0 <= b < SIDE_LENGTH,
    ensures
        line_sum(single_cell(x, y, z, v), r, g, b) == if r == x && g == y && z <= b {
            v
        } else {
            0
        },
    decreases b,
{
    if b > 0 {
        lemma_line_single(x, y, z, v, r, g, b - 1);
        if cell_index(r, g, b) == cell_index(x, y, z) {
            lemma_cell_index_injective(r, g, b, x, y, z);
        }
    }
}

proof fn lemma_area_single(x: int, y: int, z: int, v: int, r: int, g: int, b: int)
    requires
        in_side(x),
        1 <= y < SIDE_LENGTH,
        1 <= z < SIDE_LENGTH,
        in_side(r),
        0 <= g < SIDE_LENGTH,
        0 <= b < SIDE_LENGTH,
    ensures
        area_sum(single_cell(x, y, z, v), r, g, b) == if r == x && y <= g && z <= b {
            v
        } else {
            0
        },
    decreases g,
{
    if g > 0 {
        lemma_area_single(x, y, z, v, r, g - 1, b);
        lemma_line_single(x, y, z, v, r, g, b);
    }
}

/// The cumulative sums of a histogram with a single nonzero cell.
pub proof fn lemma_prefix_single(x: int, y: int, z: int, v: int, r: int, g: int, b: int)
    requires
        1 <= x < SIDE_LENGTH,
        1 <= y < SIDE_LENGTH,
        1 <= z < SIDE_LENGTH,
        0 <= r < SIDE_LENGTH,
        0 <= g < SIDE_LENGTH,
        0 <= b < SIDE_LENGTH,
    ensures
        prefix_sum(single_cell(x, y, z, v), r, g, b) == if x <= r && y <= g && z <= b {
            v
        } else {
            0
        },
    decreases r,
{
    if r > 0 {
        lemma_prefix_single(x, y, z, v, r - 1, g, b);
        lemma_area_single(x, y, z, v, r, g, b);
    }
}

proof fn lemma_channel_coord_range(c: u8)
    ensures
        1 <= channel_coord(c) <= 32,
{
}

/// The cumulative sum of a pixel histogram at `(r, g, b)` sums the moment over
/// the pixels whose coordinates are at most `(r, g, b)`.
pub proof fn lemma_prefix_of_histogram(pixels: Seq<[u8; 4]>, m: Moment, r: int, g: int, b: int)
    requires
        in_side(r),
        in_side(g),
        in_side(b),
    ensures
        prefix_sum(histogram_cells(pixels, m), r, g, b) == moment_in_box(pixels, m, 0, r, 0, g, 0, b),
    decreases pixels.len(),
{
    if pixels.len() == 0 {
        let h = histogram_cells(pixels, m);
        lemma_prefix_additive(h, h, h, r, g, b);
    } else {
        let rest = pixels.drop_last();
        let p = pixels.last();
        lemma_prefix_of_histogram(rest, m, r, g, b);
        let x = channel_coord(p[1]);
        let y = channel_coord(p[2]);
        let z = channel_coord(p[3]);
        lemma_channel_coord_range(p[1]);
        lemma_channel_coord_range(p[2]);
        lemma_channel_coord_range(p[3]);
        let h = histogram_cells(pixels, m);
        let h1 = histogram_cells(rest, m);
        let h2 = single_cell(x, y, z, pixel_moment(m, p));
        assert forall|i: int| #[trigger] h(i) == h1(i) + h2(i) by {
        }
        lemma_prefix_additive(h, h1, h2, r, g, b);
        lemma_prefix_single(x, y, z, pixel_moment(m, p), r, g, b);
    }
}

/// Inclusion and exclusion of eight corner sums give the sum over a box.
pub proof fn lemma_box_by_corners(
    pixels: Seq<[u8; 4]>,
    m: Moment,
    r0: int,
    r1: int,
    g0: int,
    g1: int,
    b0: int,
    b1: int,
)
    requires
        0 <= r0 <= r1,
        0 <= g0 <= g1,
        0 <= b0 <= b1,
    ensures
        moment_in_box(pixels, m, 0, r1, 0, g1, 0, b1) - moment_in_box(pixels, m, 0, r1, 0, g1, 0, b0)
            - moment_in_box(pixels, m, 0, r1, 0, g0, 0, b1) + moment_in_box(pixels, m, 0, r1, 0, g0, 0, b0)
            - moment_in_box(pixels, m, 0, r0, 0, g1, 0, b1) + moment_in_box(pixels, m, 0, r0, 0, g1, 0, b0)
            + moment_in_box(pixels, m, 0, r0, 0, g0, 0, b1) - moment_in_box(pixels, m, 0, r0, 0, g0, 0, b0)
            == moment_in_box(pixels, m, r0, r1, g0, g1, b0, b1),
    decreases pixels.len(),
{
    if pixels.len() > 0 {
        lemma_box_by_corners(pixels.drop_last(), m, r0, r1, g0, g1, b0, b1);
    }
}

} // verus!

verus! {

proof fn lemma_histogram_zero_planes(pixels: Seq<[u8; 4]>, m: Moment)
    ensures
        zero_planes(histogram_cells(pixels, m)),
    decreases pixels.len(),
{
    if pixels.len() > 0 {
        lemma_histogram_zero_planes(pixels.drop_last(), m);
        let p = pixels.last();
        lemma_channel_coord_range(p[1]);
        lemma_channel_coord_range(p[2]);
        lemma_channel_coord_range(p[3]);
        assert forall|r: int, g: int, b: int|
            0 <= r < SIDE_LENGTH && 0 <= g < SIDE_LENGTH && 0 <= b < SIDE_LENGTH && (r == 0 || g
                == 0 || b == 0) implies #[trigger] histogram_cells(pixels, m)(cell_index(r, g, b))
            == 0 by {
            assert(histogram_cells(pixels.drop_last(), m)(cell_index(r, g, b)) == 0);
            if pixel_cell(p) == cell_index(r, g, b) {
                lemma_cell_index_injective(
                    channel_coord(p[1]),
                    channel_coord(p[2]),
                    channel_coord(p[3]),
                    r,
                    g,
                    b,
                );
            }
        }
    }
}

proof fn lemma_moment_nonneg(m: Moment, p: [u8; 4])
    ensures
        0 <= pixel_moment(m, p),
        pixel_moment(m, p) <= 195075,
        m == Moment::Red ==> pixel_moment(m, p) <= 255 * pixel_moment(Moment::Count, p),
        m == Moment::Green ==> pixel_moment(m, p) <= 255 * pixel_moment(Moment::Count, p),
        m == Moment::Blue ==> pixel_moment(m, p) <= 255 * pixel_moment(Moment::Count, p),
{
    assert(p[1] * p[1] <= 65025) by (nonlinear_arith)
        requires
            p[1] <= 255,
    ;
    assert(p[2] * p[2] <= 65025) by (nonlinear_arith)
        requires
            p[2] <= 255,
    ;
    assert(p[3] * p[3] <= 65025) by (nonlinear_arith)
        requires
            p[3] <= 255,
    ;
    assert(0 <= p[1] * p[1]) by (nonlinear_arith);
    assert(0 <= p[2] * p[2]) by (nonlinear_arith);
    assert(0 <= p[3] * p[3]) by (nonlinear_arith);
}

proof fn lemma_histogram_bounded(pixels: Seq<[u8; 4]>, m: Moment, i: int)
    ensures
        0 <= histogram(pixels, m, i) <= moment_total(pixels, m),
    decreases pixels.len(),
{
    if pixels.len() > 0 {
        lemma_histogram_bounded(pixels.drop_last(), m, i);
        lemma_moment_nonneg(m, pixels.last());
    }
}

proof fn lemma_total_prefix_mono(pixels: Seq<[u8; 4]>, m: Moment, k: int)
    requires
        0 <= k <= pixels.len(),
    ensures
        0 <= moment_total(pixels.take(k), m) <= moment_total(pixels, m),
    decreases pixels.len(),
{
    if k < pixels.len() {
        lemma_total_prefix_mono(pixels.drop_last(), m, k);
        assert(pixels.drop_last().take(k) =~= pixels.take(k));
        lemma_moment_nonneg(m, pixels.last());
    } else {
        assert(pixels.take(k) =~= pixels);
        lemma_total_nonneg(pixels, m);
    }
}

proof fn lemma_total_nonneg(pixels: Seq<[u8; 4]>, m: Moment)
    ensures
        0 <= moment_total(pixels, m),
        moment_total(pixels, m) <= 195075 * pixels.len(),
        m == Moment::Red ==> moment_total(pixels, m) <= 255 * moment_total(pixels, Moment::Count),
    decreases pixels.len(),
{
    if pixels.len() > 0 {
        lemma_total_nonneg(pixels.drop_last(), m);
        lemma_moment_nonneg(m, pixels.last());
    }
}

proof fn lemma_count_total(pixels: Seq<[u8; 4]>)
    ensures
        moment_total(pixels, Moment::Count) == pixels.len(),
    decreases pixels.len(),
{
    if pixels.len() > 0 {
        lemma_count_total(pixels.drop_last());
    }
}

/// Every pixel lies in the whole cube.
proof fn lemma_whole_cube(pixels: Seq<[u8; 4]>, m: Moment)
    ensures
        moment_in_box(pixels, m, 0, 32, 0, 32, 0, 32) == moment_total(pixels, m),
    decreases pixels.len(),
{
    if pixels.len() > 0 {
        lemma_whole_cube(pixels.drop_last(), m);
        let p = pixels.last();
        lemma_channel_coord_range(p[1]);
        lemma_channel_coord_range(p[2]);
        lemma_channel_coord_range(p[3]);
    }
}

proof fn lemma_box_channel_bounded(
    pixels: Seq<[u8; 4]>,
    m: Moment,
    r0: int,
    r1: int,
    g0: int,
    g1: int,
    b0: int,
    b1: int,
)
    requires
        m == Moment::Red || m == Moment::Green || m == Moment::Blue,
    ensures
        0 <= moment_in_box(pixels, m, r0, r1, g0, g1, b0, b1) <= 255 * moment_in_box(
            pixels,
            Moment::Count,
            r0,
            r1,
            g0,
            g1,
            b0,
            b1,
        ),
        0 <= moment_in_box(pixels, Moment::Count, r0, r1, g0, g1, b0, b1),
    decreases pixels.len(),
{
    if pixels.len() > 0 {
        lemma_box_channel_bounded(pixels.drop_last(), m, r0, r1, g0, g1, b0, b1);
        lemma_moment_nonneg(m, pixels.last());
    }
}

proof fn lemma_prefix_congruent(h1: spec_fn(int) -> int, h2: spec_fn(int) -> int, r: int, g: int, b: int)
    requires
        forall|r1: int, g1: int, b1: int|
            in_side(r1) && in_side(g1) && in_side(b1) ==> #[trigger] h1(cell_index(r1, g1, b1)) == h2(
                cell_index(r1, g1, b1),
            ),
        0 <= r < SIDE_LENGTH,
        0 <= g < SIDE_LENGTH,
        0 <= b < SIDE_LENGTH,
    ensures
        prefix_sum(h1, r, g, b) == prefix_sum(h2, r, g, b),
    decreases r,
{
    if r > 0 {
        lemma_prefix_congruent(h1, h2, r - 1, g, b);
        lemma_area_congruent(h1, h2, r, g, b);
    }
}

proof fn lemma_area_congruent(h1: spec_fn(int) -> int, h2: spec_fn(int) -> int, r: int, g: int, b: int)
    requires
        forall|r1: int, g1: int, b1: int|
            in_side(r1) && in_side(g1) && in_side(b1) ==> #[trigger] h1(cell_index(r1, g1, b1)) == h2(
                cell_index(r1, g1, b1),
            ),
        in_side(r),
        0 <= g < SIDE_LENGTH,
        0 <= b < SIDE_LENGTH,
    ensures
        area_sum(h1, r, g, b) == area_sum(h2, r, g, b),
    decreases g,
{
    if g > 0 {
        lemma_area_congruent(h1, h2, r, g - 1, b);
        lemma_line_congruent(h1, h2, r, g, b);
    }
}

proof fn lemma_line_congruent(h1: spec_fn(int) -> int, h2: spec_fn(int) -> int, r: int, g: int, b: int)
    requires
        forall|r1: int, g1: int, b1: int|
            in_side(r1) && in_side(g1) && in_side(b1) ==> #[trigger] h1(cell_index(r1, g1, b1)) == h2(
                cell_index(r1, g1, b1),
            ),
        in_side(r),
        in_side(g),
        0 <= b < SIDE_LENGTH,
    ensures
        line_sum(h1, r, g, b) == line_sum(h2, r, g, b),
    decreases b,
{
    if b > 0 {
        lemma_line_congruent(h1, h2, r, g, b - 1);
        assert(h1(cell_index(r, g, b)) == h2(cell_index(r, g, b)));
    }
}

} // verus!

verus! {

/// Facts about an array that holds the histogram of `m` over `pixels`.
proof fn lemma_histogram_array(h: spec_fn(int) -> int, pixels: Seq<[u8; 4]>, m: Moment)
    requires
        forall|i: int| 0 <= i < TOTAL_SIZE ==> #[trigger] h(i) == histogram(pixels, m, i),
    ensures
        zero_planes(h),
        prefix_sum(h, 32, 32, 32) == moment_total(pixels, m),
        forall|r: int, g: int, b: int|
            in_side(r) && in_side(g) && in_side(b) ==> #[trigger] prefix_sum(h, r, g, b)
                == prefix_sum(histogram_cells(pixels, m), r, g, b),
{
    let hc = histogram_cells(pixels, m);
    assert forall|r1: int, g1: int, b1: int|
        in_side(r1) && in_side(g1) && in_side(b1) implies #[trigger] h(cell_index(r1, g1, b1)) == hc(
            cell_index(r1, g1, b1),
        ) by {
        lemma_cell_index_bounds(r1, g1, b1);
    }
    lemma_histogram_zero_planes(pixels, m);
    assert forall|r: int, g: int, b: int|
        0 <= r < SIDE_LENGTH && 0 <= g < SIDE_LENGTH && 0 <= b < SIDE_LENGTH && (r == 0 || g == 0
            || b == 0) implies #[trigger] h(cell_index(r, g, b)) == 0 by {
        lemma_cell_index_bounds(r, g, b);
        assert(hc(cell_index(r, g, b)) == 0);
    }
    assert forall|r: int, g: int, b: int|
        in_side(r) && in_side(g) && in_side(b) implies #[trigger] prefix_sum(h, r, g, b)
            == prefix_sum(hc, r, g, b) by {
        lemma_prefix_congruent(h, hc, r, g, b);
    }
    lemma_prefix_of_histogram(pixels, m, 32, 32, 32);
    lemma_whole_cube(pixels, m);
}

/// An image quantizer that divides the image's pixels into clusters by recursively cutting an RGB
/// cube, based on the weight of pixels in each area of the cube.
///
/// The algorithm was described by Xiaolin Wu in Graphic Gems II, published in 1991.
/// This type holds its histogram, its cumulative moments and the boxes.
pub struct QuantizerWu {
    weights: Vec<u32>,
    moments_r: Vec<u32>,
    moments_g: Vec<u32>,
    moments_b: Vec<u32>,
    /// Sums of squared channel values, held as exact integers.
    moments: Vec<u64>,
    cubes: Vec<Box>,
    /// The pixels the histogram was last built from.
    pixels: Ghost<Seq<[u8; 4]>>,
}

impl QuantizerWu {
    /// The pixels the histogram was last built from.
    pub closed spec fn source_pixels(&self) -> Seq<[u8; 4]> {
        self.pixels@
    }

    /// The boxes.
    pub closed spec fn spec_cubes(&self) -> Seq<Box> {
        self.cubes@
    }

    /// The array that accumulates `m`, as a function of the cell.
    pub closed spec fn cells(&self, m: Moment) -> spec_fn(int) -> int {
        match m {
            Moment::Count => cells_u32(self.weights@),
            Moment::Red => cells_u32(self.moments_r@),
            Moment::Green => cells_u32(self.moments_g@),
            Moment::Blue => cells_u32(self.moments_b@),
            Moment::Squares => cells_u64(self.moments@),
        }
    }

    /// Every array has one entry per cell.
    pub closed spec fn sized(&self) -> bool {
        &&& self.weights@.len() == TOTAL_SIZE
        &&& self.moments_r@.len() == TOTAL_SIZE
        &&& self.moments_g@.len() == TOTAL_SIZE
        &&& self.moments_b@.len() == TOTAL_SIZE
        &&& self.moments@.len() == TOTAL_SIZE
    }

    /// Each array holds, per cell, the histogram of its moment over the source pixels.
    pub closed spec fn holds_histogram(&self) -> bool {
        &&& self.sized()
        &&& self.pixels@.len() <= u32::MAX
        &&& forall|m: Moment, i: int|
            0 <= i < TOTAL_SIZE ==> #[trigger] self.cells(m)(i) == histogram(self.pixels@, m, i)
    }

    /// Each array holds, per cell, the cumulative sum of the histogram of its
    /// moment over the source pixels.
    pub closed spec fn holds_moments(&self) -> bool {
        &&& self.sized()
        &&& self.pixels@.len() <= u32::MAX
        &&& forall|m: Moment, r: int, g: int, b: int|
            in_side(r) && in_side(g) && in_side(b) ==> #[trigger] self.cells(m)(cell_index(r, g, b))
                == prefix_sum(histogram_cells(self.pixels@, m), r, g, b)
    }

    pub fn new() -> (res: Self)
        ensures
            res.source_pixels() == Seq::<[u8; 4]>::empty(),
            res.spec_cubes() == Seq::<Box>::empty(),
            res.holds_histogram(),
    {
        let res = QuantizerWu {
            weights: vec![0u32; TOTAL_SIZE],
            moments_r: vec![0u32; TOTAL_SIZE],
            moments_g: vec![0u32; TOTAL_SIZE],
            moments_b: vec![0u32; TOTAL_SIZE],
            moments: vec![0u64; TOTAL_SIZE],
            cubes: Vec::new(),
            pixels: Ghost(Seq::empty()),
        };
        assert forall|m: Moment, i: int| 0 <= i < TOTAL_SIZE implies #[trigger] res.cells(m)(i)
            == histogram(res.pixels@, m, i) by {
        }
        res
    }

    /// Builds the histogram of `pixels` (ARGB, alpha ignored): each cell gets the
    /// number of pixels that fall in it, the sums of their red, green and blue
    /// channels, and the sum of the squares of their channels.
    /// The sums of each channel over all pixels must fit in a `u32`, the width
    /// the sums are accumulated in.
    pub fn construct_histogram(&mut self, pixels: &[[u8; 4]])
        requires
            pixels@.len() <= u32::MAX,
            moment_total(pixels@, Moment::Red) <= u32::MAX,
            moment_total(pixels@, Moment::Green) <= u32::MAX,
            moment_total(pixels@, Moment::Blue) <= u32::MAX,
        ensures
            final(self).holds_histogram(),
            final(self).source_pixels() == pixels@,
            final(self).spec_cubes() == old(self).spec_cubes(),
    {
        self.weights = vec![0u32; TOTAL_SIZE];
        self.moments_r = vec![0u32; TOTAL_SIZE];
        self.moments_g = vec![0u32; TOTAL_SIZE];
        self.moments_b = vec![0u32; TOTAL_SIZE];
        self.moments = vec![0u64; TOTAL_SIZE];
        let ghost all = pixels@;
        let mut k: usize = 0;
        proof {
            lemma_count_total(all);
            lemma_total_nonneg(all, Moment::Squares);
            assert(all.take(0) =~= Seq::<[u8; 4]>::empty());
        }
        while k < pixels.len()
            invariant
                all == pixels@,
                k <= all.len(),
                all.len() <= u32::MAX,
                moment_total(all, Moment::Count) == all.len(),
                moment_total(all, Moment::Red) <= u32::MAX,
                moment_total(all, Moment::Green) <= u32::MAX,
                moment_total(all, Moment::Blue) <= u32::MAX,
                moment_total(all, Moment::Squares) <= 195075 * all.len(),
                self.cubes@ == old(self).cubes@,
                self.weights@.len() == TOTAL_SIZE,
                self.moments_r@.len() == TOTAL_SIZE,
                self.moments_g@.len() == TOTAL_SIZE,
                self.moments_b@.len() == TOTAL_SIZE,
                self.moments@.len() == TOTAL_SIZE,
                forall|i: int| 0 <= i < TOTAL_SIZE ==> #[trigger] self.weights@[i] == histogram(all.take(k as int), Moment::Count, i),
                forall|i: int| 0 <= i < TOTAL_SIZE ==> #[trigger] self.moments_r@[i] == histogram(all.take(k as int), Moment::Red, i),
                forall|i: int| 0 <= i < TOTAL_SIZE ==> #[trigger] self.moments_g@[i] == histogram(all.take(k as int), Moment::Green, i),
                forall|i: int| 0 <= i < TOTAL_SIZE ==> #[trigger] self.moments_b@[i] == histogram(all.take(k as int), Moment::Blue, i),
                forall|i: int| 0 <= i < TOTAL_SIZE ==> #[trigger] self.moments@[i] == histogram(all.take(k as int), Moment::Squares, i),
            decreases all.len() - k,
        {
            let p = pixels[k];
            let red = p[1];
            let green = p[2];
            let blue = p[3];
            assert((red >> 3u8) == red / 8 && (green >> 3u8) == green / 8 && (blue >> 3u8) == blue / 8)
                by (bit_vector);
            let index = get_index(
                (red >> BITS_TO_REMOVE) as usize + 1,
                (green >> BITS_TO_REMOVE) as usize + 1,
                (blue >> BITS_TO_REMOVE) as usize + 1,
            );
            let ghost before = all.take(k as int);
            let ghost after = all.take(k + 1);
            proof {
                assert(after.drop_last() =~= before);
                assert(after.last() == p);
                lemma_channel_coord_range(red);
                lemma_channel_coord_range(green);
                lemma_channel_coord_range(blue);
                lemma_cell_index_bounds(channel_coord(red), channel_coord(green), channel_coord(blue));
                assert(index == pixel_cell(p));
                lemma_histogram_bounded(after, Moment::Count, index as int);
                lemma_histogram_bounded(after, Moment::Red, index as int);
                lemma_histogram_bounded(after, Moment::Green, index as int);
                lemma_histogram_bounded(after, Moment::Blue, index as int);
                lemma_histogram_bounded(after, Moment::Squares, index as int);
                lemma_total_prefix_mono(all, Moment::Count, k + 1);
                lemma_total_prefix_mono(all, Moment::Red, k + 1);
                lemma_total_prefix_mono(all, Moment::Green, k + 1);
                lemma_total_prefix_mono(all, Moment::Blue, k + 1);
                lemma_total_prefix_mono(all, Moment::Squares, k + 1);
                assert(195075 * all.len() <= 195075 * 0xffff_ffffnat) by (nonlinear_arith)
                    requires
                        all.len() <= 0xffff_ffff,
                ;
                assert(red * red <= 65025) by (nonlinear_arith)
                    requires
                        red <= 255,
                ;
                assert(green * green <= 65025) by (nonlinear_arith)
                    requires
                        green <= 255,
                ;
                assert(blue * blue <= 65025) by (nonlinear_arith)
                    requires
                        blue <= 255,
                ;
            }
            let w = self.weights[index] + 1;
            self.weights.set(index, w);
            let mr = self.moments_r[index] + red as u32;
            self.moments_r.set(index, mr);
            let mg = self.moments_g[index] + green as u32;
            self.moments_g.set(index, mg);
            let mb = self.moments_b[index] + blue as u32;
            self.moments_b.set(index, mb);
            let squares: u32 = (red as u32) * (red as u32) + (green as u32) * (green as u32) + (
            blue as u32) * (blue as u32);
            let ms = self.moments[index] + squares as u64;
            self.moments.set(index, ms);
            k = k + 1;
        }
        proof {
            assert(all.take(k as int) =~= all);
        }
        self.pixels = Ghost(all);
        assert forall|m: Moment, i: int| 0 <= i < TOTAL_SIZE implies #[trigger] self.cells(m)(i)
            == histogram(self.pixels@, m, i) by {
        }
    }

    /// Replaces each histogram by its cumulative sums: afterwards the cell
    /// `(r, g, b)` of each array holds the sum of its moment over the pixels whose
    /// coordinates are at most `(r, g, b)`.
    pub fn compute_moments(&mut self)
        requires
            old(self).holds_histogram(),
            old(self).source_pixels().len() <= u32::MAX,
            moment_total(old(self).source_pixels(), Moment::Red) <= u32::MAX,
            moment_total(old(self).source_pixels(), Moment::Green) <= u32::MAX,
            moment_total(old(self).source_pixels(), Moment::Blue) <= u32::MAX,
        ensures
            final(self).holds_moments(),
            final(self).source_pixels() == old(self).source_pixels(),
            final(self).spec_cubes() == old(self).spec_cubes(),
    {
        let ghost pixels = self.pixels@;
        proof {
            lemma_count_total(pixels);
            lemma_total_nonneg(pixels, Moment::Squares);
            assert(195075 * pixels.len() <= 195075 * 0xffff_ffffnat) by (nonlinear_arith)
                requires
                    pixels.len() <= 0xffff_ffff,
            ;
            assert forall|i: int| 0 <= i < TOTAL_SIZE implies #[trigger] cells_u32(self.weights@)(i) == histogram(pixels, Moment::Count, i) by {
                assert(self.cells(Moment::Count)(i) == histogram(pixels, Moment::Count, i));
            }
            assert forall|i: int| 0 <= i < TOTAL_SIZE implies #[trigger] cells_u32(self.moments_r@)(i) == histogram(pixels, Moment::Red, i) by {
                assert(self.cells(Moment::Red)(i) == histogram(pixels, Moment::Red, i));
            }
            assert forall|i: int| 0 <= i < TOTAL_SIZE implies #[trigger] cells_u32(self.moments_g@)(i) == histogram(pixels, Moment::Green, i) by {
                assert(self.cells(Moment::Green)(i) == histogram(pixels, Moment::Green, i));
            }
            assert forall|i: int| 0 <= i < TOTAL_SIZE implies #[trigger] cells_u32(self.moments_b@)(i) == histogram(pixels, Moment::Blue, i) by {
                assert(self.cells(Moment::Blue)(i) == histogram(pixels, Moment::Blue, i));
            }
            assert forall|i: int| 0 <= i < TOTAL_SIZE implies #[trigger] cells_u64(self.moments@)(i) == histogram(pixels, Moment::Squares, i) by {
                assert(self.cells(Moment::Squares)(i) == histogram(pixels, Moment::Squares, i));
            }
            lemma_histogram_array(cells_u32(self.weights@), pixels, Moment::Count);
            lemma_histogram_array(cells_u32(self.moments_r@), pixels, Moment::Red);
            lemma_histogram_array(cells_u32(self.moments_g@), pixels, Moment::Green);
            lemma_histogram_array(cells_u32(self.moments_b@), pixels, Moment::Blue);
            lemma_histogram_array(cells_u64(self.moments@), pixels, Moment::Squares);
        }
        accumulate_u32(&mut self.weights);
        accumulate_u32(&mut self.moments_r);
        accumulate_u32(&mut self.moments_g);
        accumulate_u32(&mut self.moments_b);
        accumulate_u64(&mut self.moments);
        assert forall|m: Moment, r: int, g: int, b: int|
            in_side(r) && in_side(g) && in_side(b) implies #[trigger] self.cells(m)(cell_index(r, g, b))
                == prefix_sum(histogram_cells(self.pixels@, m), r, g, b) by {
        }
    }
}

} // verus!

verus! {

/// Both corners of the box lie in the histogram cube.
pub open spec fn corners_in_cube(cube: Box) -> bool {
    &&& cube.pixels.0.r < SIDE_LENGTH
    &&& cube.pixels.0.g < SIDE_LENGTH
    &&& cube.pixels.0.b < SIDE_LENGTH
    &&& cube.pixels.1.r < SIDE_LENGTH
    &&& cube.pixels.1.g < SIDE_LENGTH
    &&& cube.pixels.1.b < SIDE_LENGTH
}

/// The inclusion-exclusion of the eight corner values of `h` over the box.
pub open spec fn corner_volume(h: spec_fn(int) -> int, cube: Box) -> int {
    let (p0, p1) = cube.pixels;
    h(cell_index(p1.r as int, p1.g as int, p1.b as int)) - h(cell_index(p1.r as int, p1.g as int, p0.b as int))
        - h(cell_index(p1.r as int, p0.g as int, p1.b as int)) + h(cell_index(p1.r as int, p0.g as int, p0.b as int))
        - h(cell_index(p0.r as int, p1.g as int, p1.b as int)) + h(cell_index(p0.r as int, p1.g as int, p0.b as int))
        + h(cell_index(p0.r as int, p0.g as int, p1.b as int)) - h(cell_index(p0.r as int, p0.g as int, p0.b as int))
}

/// Sum of `m` over the source pixels that fall in the box.
pub open spec fn box_moment(pixels: Seq<[u8; 4]>, m: Moment, cube: Box) -> int {
    moment_in_box(
        pixels,
        m,
        cube.pixels.0.r as int,
        cube.pixels.1.r as int,
        cube.pixels.0.g as int,
        cube.pixels.1.g as int,
        cube.pixels.0.b as int,
        cube.pixels.1.b as int,
    )
}

/// The colour a box stands for: the mean of the channels of its pixels, fully
/// opaque; none for a box without pixels.
pub open spec fn box_color(pixels: Seq<[u8; 4]>, cube: Box) -> Option<[u8; 4]> {
    let weight = box_moment(pixels, Moment::Count, cube);
    if weight == 0 {
        None
    } else {
        Some(
            [
                0xff,
                (box_moment(pixels, Moment::Red, cube) / weight) as u8,
                (box_moment(pixels, Moment::Green, cube) / weight) as u8,
                (box_moment(pixels, Moment::Blue, cube) / weight) as u8,
            ],
        )
    }
}

/// The colours of the first `n` boxes, skipping the boxes without pixels.
pub open spec fn box_colors(pixels: Seq<[u8; 4]>, cubes: Seq<Box>, n: int) -> Seq<[u8; 4]>
    decreases n,
{
    if n <= 0 {
        Seq::empty()
    } else {
        match box_color(pixels, cubes[n - 1]) {
            Some(c) => box_colors(pixels, cubes, n - 1).push(c),
            None => box_colors(pixels, cubes, n - 1),
        }
    }
}

proof fn lemma_box_bounded(
    pixels: Seq<[u8; 4]>,
    m: Moment,
    r0: int,
    r1: int,
    g0: int,
    g1: int,
    b0: int,
    b1: int,
)
    ensures
        0 <= moment_in_box(pixels, m, r0, r1, g0, g1, b0, b1) <= moment_total(pixels, m),
    decreases pixels.len(),
{
    if pixels.len() > 0 {
        lemma_box_bounded(pixels.drop_last(), m, r0, r1, g0, g1, b0, b1);
        lemma_moment_nonneg(m, pixels.last());
    }
}

impl QuantizerWu {
    /// The cumulative value of `m` at the cell `(r, g, b)`.
    fn corner(&self, m: &Moment, r: u8, g: u8, b: u8) -> (res: i64)
        requires
            self.holds_moments(),
            r < SIDE_LENGTH,
            g < SIDE_LENGTH,
            b < SIDE_LENGTH,
        ensures
            res == self.cells(*m)(cell_index(r as int, g as int, b as int)),
            0 <= res <= moment_total(self.source_pixels(), *m),
            moment_total(self.source_pixels(), *m) <= 0xffff_ffff * 195075,
    {
        let i = get_index(r as usize, g as usize, b as usize);
        proof {
            lemma_cell_index_bounds(r as int, g as int, b as int);
            lemma_prefix_of_histogram(self.pixels@, *m, r as int, g as int, b as int);
            lemma_box_bounded(self.pixels@, *m, 0, r as int, 0, g as int, 0, b as int);
            lemma_total_nonneg(self.pixels@, *m);
            assert(195075 * self.pixels@.len() <= 195075 * 0xffff_ffffnat) by (nonlinear_arith)
                requires
                    self.pixels@.len() <= 0xffff_ffff,
            ;
            assert(self.cells(*m)(cell_index(r as int, g as int, b as int)) == prefix_sum(
                histogram_cells(self.pixels@, *m),
                r as int,
                g as int,
                b as int,
            ));
        }
        match m {
            Moment::Count => self.weights[i] as i64,
            Moment::Red => self.moments_r[i] as i64,
            Moment::Green => self.moments_g[i] as i64,
            Moment::Blue => self.moments_b[i] as i64,
            Moment::Squares => self.moments[i] as i64,
        }
    }

    /// The sum of `m` over the cells of the box, by inclusion and exclusion of
    /// the cumulative values at its eight corners.
    pub fn volume(&self, cube: &Box, m: &Moment) -> (res: i64)
        requires
            self.holds_moments(),
            corners_in_cube(*cube),
        ensures
            res == corner_volume(self.cells(*m), *cube),
            cube.ordered() ==> res == box_moment(self.source_pixels(), *m, *cube),
    {
        let (pixel0, pixel1) = cube.pixels;
        let v = self.corner(m, pixel1.r, pixel1.g, pixel1.b) - self.corner(m, pixel1.r, pixel1.g, pixel0.b)
            - self.corner(m, pixel1.r, pixel0.g, pixel1.b) + self.corner(m, pixel1.r, pixel0.g, pixel0.b)
            - self.corner(m, pixel0.r, pixel1.g, pixel1.b) + self.corner(m, pixel0.r, pixel1.g, pixel0.b)
            + self.corner(m, pixel0.r, pixel0.g, pixel1.b) - self.corner(m, pixel0.r, pixel0.g, pixel0.b);
        proof {
            if cube.ordered() {
                self.lemma_volume_is_box_moment(*cube, *m);
            }
        }
        v
    }

    /// With the corners ordered, the corner volume of a moment is its sum over the
    /// pixels that fall in the box.
    pub proof fn lemma_volume_is_box_moment(&self, cube: Box, m: Moment)
        requires
            self.holds_moments(),
            corners_in_cube(cube),
            cube.ordered(),
        ensures
            corner_volume(self.cells(m), cube) == box_moment(self.source_pixels(), m, cube),
    {
        let (p0, p1) = cube.pixels;
        let px = self.pixels@;
        lemma_prefix_of_histogram(px, m, p1.r as int, p1.g as int, p1.b as int);
        lemma_prefix_of_histogram(px, m, p1.r as int, p1.g as int, p0.b as int);
        lemma_prefix_of_histogram(px, m, p1.r as int, p0.g as int, p1.b as int);
        lemma_prefix_of_histogram(px, m, p1.r as int, p0.g as int, p0.b as int);
        lemma_prefix_of_histogram(px, m, p0.r as int, p1.g as int, p1.b as int);
        lemma_prefix_of_histogram(px, m, p0.r as int, p1.g as int, p0.b as int);
        lemma_prefix_of_histogram(px, m, p0.r as int, p0.g as int, p1.b as int);
        lemma_prefix_of_histogram(px, m, p0.r as int, p0.g as int, p0.b as int);
        lemma_box_by_corners(
            px,
            m,
            p0.r as int,
            p1.r as int,
            p0.g as int,
            p1.g as int,
            p0.b as int,
            p1.b as int,
        );
        assert(self.cells(m)(cell_index(p1.r as int, p1.g as int, p1.b as int)) == prefix_sum(histogram_cells(px, m), p1.r as int, p1.g as int, p1.b as int));
        assert(self.cells(m)(cell_index(p1.r as int, p1.g as int, p0.b as int)) == prefix_sum(histogram_cells(px, m), p1.r as int, p1.g as int, p0.b as int));
        assert(self.cells(m)(cell_index(p1.r as int, p0.g as int, p1.b as int)) == prefix_sum(histogram_cells(px, m), p1.r as int, p0.g as int, p1.b as int));
        assert(self.cells(m)(cell_index(p1.r as int, p0.g as int, p0.b as int)) == prefix_sum(histogram_cells(px, m), p1.r as int, p0.g as int, p0.b as int));
        assert(self.cells(m)(cell_index(p0.r as int, p1.g as int, p1.b as int)) == prefix_sum(histogram_cells(px, m), p0.r as int, p1.g as int, p1.b as int));
        assert(self.cells(m)(cell_index(p0.r as int, p1.g as int, p0.b as int)) == prefix_sum(histogram_cells(px, m), p0.r as int, p1.g as int, p0.b as int));
        assert(self.cells(m)(cell_index(p0.r as int, p0.g as int, p1.b as int)) == prefix_sum(histogram_cells(px, m), p0.r as int, p0.g as int, p1.b as int));
        assert(self.cells(m)(cell_index(p0.r as int, p0.g as int, p0.b as int)) == prefix_sum(histogram_cells(px, m), p0.r as int, p0.g as int, p0.b as int));
    }
}

} // verus!

verus! {

/// The box cut at `position` along `direction`: its upper corner on that axis
/// moves to `position`.
pub open spec fn cut_below(cube: Box, direction: Direction, position: u8) -> Box {
    let (p0, p1) = cube.pixels;
    let upper = match direction {
        Direction::Red => Pixel { r: position, g: p1.g, b: p1.b },
        Direction::Green => Pixel { r: p1.r, g: position, b: p1.b },
        Direction::Blue => Pixel { r: p1.r, g: p1.g, b: position },
    };
    Box { pixels: (p0, upper), vol: cube.vol }
}

/// The lower corner coordinate of the box along `direction`.
pub open spec fn lower_along(cube: Box, direction: Direction) -> u8 {
    match direction {
        Direction::Red => cube.pixels.0.r,
        Direction::Green => cube.pixels.0.g,
        Direction::Blue => cube.pixels.0.b,
    }
}

/// The part of the corner volume that lies on the lower face of the box along
/// `direction`, negated.
pub open spec fn bottom_value(h: spec_fn(int) -> int, cube: Box, direction: Direction) -> int {
    let (p0, p1) = cube.pixels;
    match direction {
        Direction::Red => h(cell_index(p0.r as int, p1.g as int, p0.b as int)) + h(cell_index(p0.r as int, p0.g as int, p1.b as int))
            - h(cell_index(p0.r as int, p0.g as int, p0.b as int)) - h(cell_index(p0.r as int, p1.g as int, p1.b as int)),
        Direction::Green => h(cell_index(p1.r as int, p0.g as int, p0.b as int)) + h(cell_index(p0.r as int, p0.g as int, p1.b as int))
            - h(cell_index(p0.r as int, p0.g as int, p0.b as int)) - h(cell_index(p1.r as int, p0.g as int, p1.b as int)),
        Direction::Blue => h(cell_index(p1.r as int, p0.g as int, p0.b as int)) + h(cell_index(p0.r as int, p1.g as int, p0.b as int))
            - h(cell_index(p0.r as int, p0.g as int, p0.b as int)) - h(cell_index(p1.r as int, p1.g as int, p0.b as int)),
    }
}

/// The part of the corner volume of the box cut at `position` that lies on the
/// cutting face.
pub open spec fn top_value(h: spec_fn(int) -> int, cube: Box, direction: Direction, position: u8) -> int {
    let (p0, p1) = cube.pixels;
    let x = position as int;
    match direction {
        Direction::Red => h(cell_index(x, p1.g as int, p1.b as int)) - h(cell_index(x, p1.g as int, p0.b as int))
            - h(cell_index(x, p0.g as int, p1.b as int)) + h(cell_index(x, p0.g as int, p0.b as int)),
        Direction::Green => h(cell_index(p1.r as int, x, p1.b as int)) - h(cell_index(p1.r as int, x, p0.b as int))
            - h(cell_index(p0.r as int, x, p1.b as int)) + h(cell_index(p0.r as int, x, p0.b as int)),
        Direction::Blue => h(cell_index(p1.r as int, p1.g as int, x)) - h(cell_index(p1.r as int, p0.g as int, x))
            - h(cell_index(p0.r as int, p1.g as int, x)) + h(cell_index(p0.r as int, p0.g as int, x)),
    }
}


/// Two quantizers with the same pixels and the same cells hold the
/// histogram, and the moments, alike.
proof fn lemma_same_cells(a: QuantizerWu, b: QuantizerWu)
    requires
        a.pixels@ == b.pixels@,
        a.sized() == b.sized(),
        forall|m: Moment| #[trigger] a.cells(m) == b.cells(m),
    ensures
        a.holds_histogram() == b.holds_histogram(),
        a.holds_moments() == b.holds_moments(),
{
    if b.holds_moments() {
        assert forall|m: Moment, r: int, g: int, cb: int|
            in_side(r) && in_side(g) && in_side(cb) implies #[trigger] a.cells(m)(cell_index(r, g, cb))
                == prefix_sum(histogram_cells(a.pixels@, m), r, g, cb) by {
            assert(b.cells(m)(cell_index(r, g, cb)) == prefix_sum(histogram_cells(b.pixels@, m), r, g, cb));
        }
    }
    if a.holds_moments() {
        assert forall|m: Moment, r: int, g: int, cb: int|
            in_side(r) && in_side(g) && in_side(cb) implies #[trigger] b.cells(m)(cell_index(r, g, cb))
                == prefix_sum(histogram_cells(b.pixels@, m), r, g, cb) by {
            assert(a.cells(m)(cell_index(r, g, cb)) == prefix_sum(histogram_cells(a.pixels@, m), r, g, cb));
        }
    }
    if b.holds_histogram() {
        assert forall|m: Moment, i: int| 0 <= i < TOTAL_SIZE implies #[trigger] a.cells(m)(i) == histogram(
            a.pixels@,
            m,
            i,
        ) by {
            assert(b.cells(m)(i) == histogram(b.pixels@, m, i));
        }
    }
    if a.holds_histogram() {
        assert forall|m: Moment, i: int| 0 <= i < TOTAL_SIZE implies #[trigger] b.cells(m)(i) == histogram(
            b.pixels@,
            m,
            i,
        ) by {
            assert(a.cells(m)(i) == histogram(a.pixels@, m, i));
        }
    }
}

impl QuantizerWu {
    /// The boxes.
    pub fn cubes(&self) -> (res: &Vec<Box>)
        ensures
            res@ == self.spec_cubes(),
    {
        &self.cubes
    }

    /// Replaces the boxes; the histogram and moments are kept.
    pub fn set_cubes(&mut self, cubes: Vec<Box>)
        ensures
            final(self).spec_cubes() == cubes@,
            final(self).source_pixels() == old(self).source_pixels(),
            forall|m: Moment| #[trigger] final(self).cells(m) == old(self).cells(m),
            final(self).holds_histogram() == old(self).holds_histogram(),
            final(self).holds_moments() == old(self).holds_moments(),
    {
        self.cubes = cubes;
        proof {
            assert forall|m: Moment| #[trigger] self.cells(m) == old(self).cells(m) by {
            }
            lemma_same_cells(*self, *old(self));
        }
    }

    /// Replaces the box at `index`; the histogram and moments are kept.
    pub fn set_cube(&mut self, index: usize, cube: Box)
        requires
            index < old(self).spec_cubes().len(),
        ensures
            final(self).spec_cubes() == old(self).spec_cubes().update(index as int, cube),
            final(self).source_pixels() == old(self).source_pixels(),
            forall|m: Moment| #[trigger] final(self).cells(m) == old(self).cells(m),
            final(self).holds_histogram() == old(self).holds_histogram(),
            final(self).holds_moments() == old(self).holds_moments(),
    {
        self.cubes.set(index, cube);
        proof {
            assert forall|m: Moment| #[trigger] self.cells(m) == old(self).cells(m) by {
            }
            lemma_same_cells(*self, *old(self));
        }
    }

    /// The cumulative values on the lower face of the box along `direction`, as
    /// the moment search for a cut uses them.
    pub fn bottom(&self, cube: &Box, direction: &Direction, m: &Moment) -> (res: i64)
        requires
            self.holds_moments(),
            corners_in_cube(*cube),
        ensures
            res == bottom_value(self.cells(*m), *cube, *direction),
    {
        let (p0, p1) = cube.pixels;
        match direction {
            Direction::Red => self.corner(m, p0.r, p1.g, p0.b) + self.corner(m, p0.r, p0.g, p1.b)
                - self.corner(m, p0.r, p0.g, p0.b) - self.corner(m, p0.r, p1.g, p1.b),
            Direction::Green => self.corner(m, p1.r, p0.g, p0.b) + self.corner(m, p0.r, p0.g, p1.b)
                - self.corner(m, p0.r, p0.g, p0.b) - self.corner(m, p1.r, p0.g, p1.b),
            Direction::Blue => self.corner(m, p1.r, p0.g, p0.b) + self.corner(m, p0.r, p1.g, p0.b)
                - self.corner(m, p0.r, p0.g, p0.b) - self.corner(m, p1.r, p1.g, p0.b),
        }
    }

    /// The cumulative values on the face of the box cut at `position` along
    /// `direction`.
    pub fn top(&self, cube: &Box, direction: &Direction, position: u8, m: &Moment) -> (res: i64)
        requires
            self.holds_moments(),
            corners_in_cube(*cube),
            position < SIDE_LENGTH,
        ensures
            res == top_value(self.cells(*m), *cube, *direction, position),
    {
        let (p0, p1) = cube.pixels;
        match direction {
            Direction::Red => self.corner(m, position, p1.g, p1.b) - self.corner(m, position, p1.g, p0.b)
                - self.corner(m, position, p0.g, p1.b) + self.corner(m, position, p0.g, p0.b),
            Direction::Green => self.corner(m, p1.r, position, p1.b) - self.corner(m, p1.r, position, p0.b)
                - self.corner(m, p0.r, position, p1.b) + self.corner(m, p0.r, position, p0.b),
            Direction::Blue => self.corner(m, p1.r, p1.g, position) - self.corner(m, p1.r, p0.g, position)
                - self.corner(m, p0.r, p1.g, position) + self.corner(m, p0.r, p0.g, position),
        }
    }

    /// Bottom and top add up to the moment of the part of the box below the cut.
    pub proof fn lemma_bottom_top(&self, cube: Box, direction: Direction, position: u8, m: Moment)
        requires
            self.holds_moments(),
            corners_in_cube(cube),
            cube.ordered(),
            position < SIDE_LENGTH,
            lower_along(cube, direction) <= position,
        ensures
            bottom_value(self.cells(m), cube, direction) + top_value(self.cells(m), cube, direction, position)
                == box_moment(self.source_pixels(), m, cut_below(cube, direction, position)),
    {
        self.lemma_volume_is_box_moment(cut_below(cube, direction, position), m);
    }

    /// The colour of each of the first `color_count` boxes, skipping the boxes
    /// that hold no pixel: the mean of each channel over the box's pixels.
    pub fn create_result(&self, color_count: usize) -> (res: Vec<[u8; 4]>)
        requires
            self.holds_moments(),
            color_count <= self.spec_cubes().len(),
            forall|i: int|
                0 <= i < color_count ==> corners_in_cube(#[trigger] self.spec_cubes()[i])
                    && self.spec_cubes()[i].ordered(),
        ensures
            res@ == box_colors(self.source_pixels(), self.spec_cubes(), color_count as int),
    {
        let mut res: Vec<[u8; 4]> = Vec::new();
        let mut i: usize = 0;
        while i < color_count
            invariant
                i <= color_count,
                color_count <= self.cubes@.len(),
                self.holds_moments(),
                forall|j: int|
                    0 <= j < color_count ==> corners_in_cube(#[trigger] self.cubes@[j])
                        && self.cubes@[j].ordered(),
                res@ == box_colors(self.pixels@, self.cubes@, i as int),
            decreases color_count - i,
        {
            let cube = self.cubes[i];
            let weight = self.volume(&cube, &Moment::Count);
            proof {
                lemma_box_channel_bounded(self.pixels@, Moment::Red, cube.pixels.0.r as int, cube.pixels.1.r as int, cube.pixels.0.g as int, cube.pixels.1.g as int, cube.pixels.0.b as int, cube.pixels.1.b as int);
                lemma_box_channel_bounded(self.pixels@, Moment::Green, cube.pixels.0.r as int, cube.pixels.1.r as int, cube.pixels.0.g as int, cube.pixels.1.g as int, cube.pixels.0.b as int, cube.pixels.1.b as int);
                lemma_box_channel_bounded(self.pixels@, Moment::Blue, cube.pixels.0.r as int, cube.pixels.1.r as int, cube.pixels.0.g as int, cube.pixels.1.g as int, cube.pixels.0.b as int, cube.pixels.1.b as int);
            }
            if weight != 0 {
                let r = self.volume(&cube, &Moment::Red) / weight;
                let g = self.volume(&cube, &Moment::Green) / weight;
                let b = self.volume(&cube, &Moment::Blue) / weight;
                proof {
                    let w = weight as int;
                    let vr = box_moment(self.pixels@, Moment::Red, cube);
                    let vg = box_moment(self.pixels@, Moment::Green, cube);
                    let vb = box_moment(self.pixels@, Moment::Blue, cube);
                    assert(0 <= vr / w <= 255) by (nonlinear_arith)
                        requires
                            0 <= vr <= 255 * w,
                            w > 0,
                    ;
                    assert(0 <= vg / w <= 255) by (nonlinear_arith)
                        requires
                            0 <= vg <= 255 * w,
                            w > 0,
                    ;
                    assert(0 <= vb / w <= 255) by (nonlinear_arith)
                        requires
                            0 <= vb <= 255 * w,
                            w > 0,
                    ;
                }
                res.push([0xff, r as u8, g as u8, b as u8]);
            }
            i = i + 1;
        }
        res
    }
}

/// The sum of `f` over the pixels.
pub open spec fn sum_over(pixels: Seq<[u8; 4]>, f: spec_fn([u8; 4]) -> int) -> int
    decreases pixels.len(),
{
    if pixels.len() == 0 {
        0
    } else {
        sum_over(pixels.drop_last(), f) + f(pixels.last())
    }
}

/// The box that covers the whole histogram cube.
pub open spec fn whole_cube() -> Box {
    Box { pixels: (Pixel { r: 0, g: 0, b: 0 }, Pixel { r: 32, g: 32, b: 32 }), vol: 0 }
}

/// Over the whole cube, the moments of any pixels are: their number, the
/// sums of their red, green and blue channels, and the sum over the pixels
/// of the squares of all three channels.
pub proof fn lemma_whole_cube_moments(pixels: Seq<[u8; 4]>)
    ensures
        box_moment(pixels, Moment::Count, whole_cube()) == pixels.len(),
        box_moment(pixels, Moment::Red, whole_cube()) == sum_over(pixels, |p: [u8; 4]| p[1] as int),
        box_moment(pixels, Moment::Green, whole_cube()) == sum_over(pixels, |p: [u8; 4]| p[2] as int),
        box_moment(pixels, Moment::Blue, whole_cube()) == sum_over(pixels, |p: [u8; 4]| p[3] as int),
        box_moment(pixels, Moment::Squares, whole_cube()) == sum_over(
            pixels,
            |p: [u8; 4]| (p[1] as int) * (p[1] as int) + (p[2] as int) * (p[2] as int) + (p[3] as int) * (p[3] as int),
        ),
    decreases pixels.len(),
{
    if pixels.len() > 0 {
        lemma_whole_cube_moments(pixels.drop_last());
        let p = pixels.last();
        assert(pixel_in_box(p, 0, 32, 0, 32, 0, 32));
    }
}

} // verus!
