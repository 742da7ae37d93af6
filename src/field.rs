use vstd::prelude::*;

use crate::SimError;
use vstd::arithmetic::div_mod::{lemma_div_is_ordered, lemma_div_multiples_vanish, lemma_div_pos_is_pos};

verus! {

/// Channel value that stands for full intensity (1.0).
pub const CHANNEL_ONE: u16 = 1000;

/// Largest width or height a field may have.
pub const MAX_DIMENSION: u32 = 32768;

/// Channel selector that stands for the sum of the three color channels.
pub const INTENSITY: u8 = 4;

/// A cell color; each channel runs from 0 to `CHANNEL_ONE`.
#[derive(Clone, Copy, Debug, PartialEq, Eq, Structural)]
pub struct Rgba {
    pub r: u16,
    pub g: u16,
    pub b: u16,
    pub a: u16,
}

/// Channel `k` of a color: 0 to 3 pick r, g, b, a; any other value sums r, g and b.
pub open spec fn channel_spec(c: Rgba, k: int) -> int {
    if k == 0 {
        c.r as int
    } else if k == 1 {
        c.g as int
    } else if k == 2 {
        c.b as int
    } else if k == 3 {
        c.a as int
    } else {
        c.r + c.g + c.b
    }
}

/// Every channel of `c` is at most `m`.
pub open spec fn rgba_bounded(c: Rgba, m: int) -> bool {
    c.r <= m && c.g <= m && c.b <= m && c.a <= m
}

/// The all-zero color.
pub open spec fn black() -> Rgba {
    Rgba { r: 0, g: 0, b: 0, a: 0 }
}

/// `a - b`, or zero where `b` exceeds `a`.
pub open spec fn sat_sub(a: int, b: int) -> int {
    if a > b {
        a - b
    } else {
        0
    }
}

/// Mathematical model of a trail field: a row-major grid of colors.
pub struct FieldModel {
    pub width: int,
    pub height: int,
    pub cells: Seq<Rgba>,
}

impl FieldModel {
    /// Dimensions in range, one cell per position, every channel within full intensity.
    pub open spec fn wf(self) -> bool {
        &&& 1 <= self.width <= MAX_DIMENSION
        &&& 1 <= self.height <= MAX_DIMENSION
        &&& self.cells.len() == self.width * self.height
        &&& forall|i: int| 0 <= i < self.cells.len() ==> rgba_bounded(#[trigger] self.cells[i], CHANNEL_ONE as int)
    }

    pub open spec fn in_bounds(self, x: int, y: int) -> bool {
        0 <= x < self.width && 0 <= y < self.height
    }

    pub open spec fn index(self, x: int, y: int) -> int {
        y * self.width + x
    }

    pub open spec fn cell(self, x: int, y: int) -> Rgba {
        self.cells[self.index(x, y)]
    }

    /// Sum of channel `k` over the cells `x0 .. x` of row `y`.
    pub open spec fn row_sum(self, y: int, x0: int, x: int, k: int) -> int
        decreases x - x0,
    {
        if x <= x0 {
            0
        } else {
            self.row_sum(y, x0, x - 1, k) + channel_spec(self.cell(x - 1, y), k)
        }
    }

    /// Sum of channel `k` over the rectangle of columns `x0 .. x1` and rows `y0 .. y`.
    pub open spec fn rect_sum(self, x0: int, x1: int, y0: int, y: int, k: int) -> int
        decreases y - y0,
    {
        if y <= y0 {
            0
        } else {
            self.rect_sum(x0, x1, y0, y - 1, k) + self.row_sum(y - 1, x0, x1, k)
        }
    }

    /// Sum of channel `k` over the cells of columns `x0 .. x1` and rows `y0 .. y1` that lie
    /// inside the field; cells outside contribute nothing.
    pub open spec fn window_sum(self, x0: int, x1: int, y0: int, y1: int, k: int) -> int {
        self.rect_sum(clip_low(x0), clip_high(x1, self.width), clip_low(y0), clip_high(y1, self.height), k)
    }

    /// Number of cells of the 3x3 neighbourhood of `(x, y)` that lie inside the field.
    pub open spec fn neighbour_count(self, x: int, y: int) -> int {
        (clip_high(x + 2, self.width) - clip_low(x - 1)) * (clip_high(y + 2, self.height) - clip_low(y - 1))
    }

    /// Channel `k` of the blurred and evaporated cell `(x, y)`.
    pub open spec fn diffuse_channel(self, x: int, y: int, k: int, e: int) -> int {
        sat_sub(self.window_sum(x - 1, x + 2, y - 1, y + 2, k) / self.neighbour_count(x, y), e)
    }

    /// Cell `(x, y)` after one diffusion pass that evaporates `e` from every channel.
    pub open spec fn diffuse_cell(self, x: int, y: int, e: int) -> Rgba {
        Rgba {
            r: self.diffuse_channel(x, y, 0, e) as u16,
            g: self.diffuse_channel(x, y, 1, e) as u16,
            b: self.diffuse_channel(x, y, 2, e) as u16,
            a: self.diffuse_channel(x, y, 3, e) as u16,
        }
    }

    /// The field after one diffusion pass that evaporates `e` from every channel.
    pub open spec fn diffused(self, e: int) -> FieldModel {
        FieldModel {
            width: self.width,
            height: self.height,
            cells: Seq::new(
                self.cells.len(),
                |i: int| self.diffuse_cell(i % self.width, i / self.width, e),
            ),
        }
    }
}

/// Lower end of a range, clipped to the field.
pub open spec fn clip_low(v: int) -> int {
    if v < 0 {
        0
    } else {
        v
    }
}

/// Upper end of a range, clipped to a field dimension `n`.
pub open spec fn clip_high(v: int, n: int) -> int {
    if v > n {
        n
    } else {
        v
    }
}

/// A row sum lies between zero and `b` times its length when every summed cell is at most `b`.
pub proof fn lemma_row_sum_bound(m: FieldModel, y: int, x0: int, x: int, k: int, b: int)
    requires
        0 <= b,
        forall|xx: int| x0 <= xx < x ==> channel_spec(#[trigger] m.cell(xx, y), k) <= b,
    ensures
        0 <= m.row_sum(y, x0, x, k),
        x0 <= x ==> m.row_sum(y, x0, x, k) <= (x - x0) * b,
        x < x0 ==> m.row_sum(y, x0, x, k) == 0,
    decreases x - x0,
{
    if x > x0 {
        lemma_row_sum_bound(m, y, x0, x - 1, k, b);
        assert(channel_spec(m.cell(x - 1, y), k) <= b);
        assert((x - 1 - x0) * b + b == (x - x0) * b) by (nonlinear_arith);
    }
}

/// A rectangle sum lies between zero and `b` times its area when every summed cell is at
/// most `b`.
pub proof fn lemma_rect_sum_bound(m: FieldModel, x0: int, x1: int, y0: int, y: int, k: int, b: int)
    requires
        0 <= b,
        x0 <= x1,
        forall|xx: int, yy: int|
            x0 <= xx < x1 && y0 <= yy < y ==> channel_spec(#[trigger] m.cell(xx, yy), k) <= b,
    ensures
        0 <= m.rect_sum(x0, x1, y0, y, k),
        y0 <= y ==> m.rect_sum(x0, x1, y0, y, k) <= (y - y0) * ((x1 - x0) * b),
        y < y0 ==> m.rect_sum(x0, x1, y0, y, k) == 0,
    decreases y - y0,
{
    if y > y0 {
        lemma_rect_sum_bound(m, x0, x1, y0, y - 1, k, b);
        assert forall|xx: int| x0 <= xx < x1 implies channel_spec(#[trigger] m.cell(xx, y - 1), k) <= b by {
            assert(channel_spec(m.cell(xx, y - 1), k) <= b);
        }
        lemma_row_sum_bound(m, y - 1, x0, x1, k, b);
        let a = (x1 - x0) * b;
        assert((y - 1 - y0) * a + a == (y - y0) * a) by (nonlinear_arith);
    }
}

/// A cell index of a well-formed field lies inside its cell list.
pub proof fn lemma_index_in_range(m: FieldModel, x: int, y: int)
    requires
        m.wf(),
        m.in_bounds(x, y),
    ensures
        0 <= y * m.width <= m.index(x, y) < m.cells.len(),
        m.cells.len() <= 0x4000_0000,
{
    assert(0 <= y * m.width) by (nonlinear_arith)
        requires 0 <= y, 0 <= m.width;
    assert(y * m.width + x < m.width * m.height) by (nonlinear_arith)
        requires 0 <= y < m.height, 0 <= x < m.width;
    lemma_area_bound(m.width, m.height);
}

/// The area of a field of admissible dimensions fits in 31 bits.
pub proof fn lemma_area_bound(width: int, height: int)
    requires
        0 <= width <= MAX_DIMENSION,
        0 <= height <= MAX_DIMENSION,
    ensures
        0 <= width * height <= 0x4000_0000,
{
    assert(0 <= width * height <= 0x4000_0000) by (nonlinear_arith)
        requires 0 <= width <= 32768, 0 <= height <= 32768;
}

/// Every channel selector of a cell of a well-formed field is at most three full intensities.
pub proof fn lemma_channel_bound(m: FieldModel, x: int, y: int, k: int)
    requires
        m.wf(),
        m.in_bounds(x, y),
    ensures
        0 <= channel_spec(m.cell(x, y), k) <= 3 * CHANNEL_ONE,
{
    lemma_index_in_range(m, x, y);
    assert(rgba_bounded(m.cells[m.index(x, y)], CHANNEL_ONE as int));
}

/// A 2-D grid of colors, stored row by row.
pub struct TrailField {
    width: u32,
    height: u32,
    cells: Vec<Rgba>,
}

impl View for TrailField {
    type V = FieldModel;

    closed spec fn view(&self) -> FieldModel {
        FieldModel { width: self.width as int, height: self.height as int, cells: self.cells@ }
    }
}

/// The checks that a field's width and height pass.
pub open spec fn dimension_error(width: int, height: int) -> Option<SimError> {
    if width == 0 || height == 0 {
        Some(SimError::ZeroDimension)
    } else if width > MAX_DIMENSION || height > MAX_DIMENSION {
        Some(SimError::TooLarge)
    } else {
        None
    }
}

/// Tests the width and height of a field.
pub fn check_dimensions(width: u32, height: u32) -> (r: Result<(), SimError>)
    ensures
        r is Err <==> dimension_error(width as int, height as int) is Some,
        r is Err ==> r == Err::<(), SimError>(dimension_error(width as int, height as int)->Some_0),
{
    if width == 0 || height == 0 {
        Err(SimError::ZeroDimension)
    } else if width > MAX_DIMENSION || height > MAX_DIMENSION {
        Err(SimError::TooLarge)
    } else {
        Ok(())
    }
}

impl TrailField {
    pub open spec fn wf(&self) -> bool {
        self@.wf()
    }

    /// A field of the given size with every cell black; fails on a zero or oversized dimension.
    pub fn new(width: u32, height: u32) -> (r: Result<TrailField, SimError>)
        ensures
            match r {
                Ok(f) => {
                    &&& dimension_error(width as int, height as int) is None
                    &&& f.wf()
                    &&& f@.width == width
                    &&& f@.height == height
                    &&& forall|i: int| 0 <= i < f@.cells.len() ==> #[trigger] f@.cells[i] == black()
                },
                Err(e) => dimension_error(width as int, height as int) == Some(e),
            },
    {
        match check_dimensions(width, height) {
            Err(e) => Err(e),
            Ok(()) => {
                proof {
                    lemma_area_bound(width as int, height as int);
                }
                let n: usize = width as usize * height as usize;
                let mut cells: Vec<Rgba> = Vec::new();
                while cells.len() < n
                    invariant
                        cells.len() <= n,
                        forall|i: int| 0 <= i < cells.len() ==> #[trigger] cells@[i] == black(),
                    decreases n - cells.len(),
                {
                    cells.push(Rgba { r: 0, g: 0, b: 0, a: 0 });
                }
                Ok(TrailField { width, height, cells })
            },
        }
    }

    /// A field of the given size holding `cells` row by row; fails on a zero or oversized
    /// dimension, a cell list of another length, or a channel above full intensity.
    pub fn from_cells(width: u32, height: u32, cells: Vec<Rgba>) -> (r: Result<TrailField, SimError>)
        ensures
            match r {
                Ok(f) => {
                    &&& f.wf()
                    &&& f@ == FieldModel { width: width as int, height: height as int, cells: cells@ }
                },
                Err(e) => {
                    if dimension_error(width as int, height as int) is Some {
                        Some(e) == dimension_error(width as int, height as int)
                    } else if cells@.len() != width * height {
                        e == SimError::LengthMismatch
                    } else {
                        &&& e == SimError::ChannelOutOfRange
                        &&& exists|i: int| 0 <= i < cells@.len() && !rgba_bounded(#[trigger] cells@[i], CHANNEL_ONE as int)
                    }
                },
            },
    {
        if let Err(e) = check_dimensions(width, height) {
            return Err(e);
        }
        proof {
            lemma_area_bound(width as int, height as int);
        }
        if cells.len() != width as usize * height as usize {
            return Err(SimError::LengthMismatch);
        }
        let mut i: usize = 0;
        while i < cells.len()
            invariant
                i <= cells.len(),
                cells@.len() == width * height,
                dimension_error(width as int, height as int) is None,
                forall|j: int| 0 <= j < i ==> rgba_bounded(#[trigger] cells@[j], CHANNEL_ONE as int),
            decreases cells.len() - i,
        {
            let c = cells[i];
            if c.r > CHANNEL_ONE || c.g > CHANNEL_ONE || c.b > CHANNEL_ONE || c.a > CHANNEL_ONE {
                assert(!rgba_bounded(cells@[i as int], CHANNEL_ONE as int));
                return Err(SimError::ChannelOutOfRange);
            }
            i += 1;
        }
        Ok(TrailField { width, height, cells })
    }

    pub fn width(&self) -> (r: u32)
        ensures
            r == self@.width,
    {
        self.width
    }

    pub fn height(&self) -> (r: u32)
        ensures
            r == self@.height,
    {
        self.height
    }

    /// The color of cell `(x, y)`.
    pub fn get(&self, x: u32, y: u32) -> (c: Rgba)
        requires
            self.wf(),
            self@.in_bounds(x as int, y as int),
        ensures
            c == self@.cell(x as int, y as int),
    {
        proof {
            lemma_index_in_range(self@, x as int, y as int);
        }
        self.cells[y as usize * self.width as usize + x as usize]
    }

    /// Paints cell `(x, y)` with `c`, leaving every other cell as it was.
    pub fn set(&mut self, x: u32, y: u32, c: Rgba)
        requires
            old(self).wf(),
            old(self)@.in_bounds(x as int, y as int),
            rgba_bounded(c, CHANNEL_ONE as int),
        ensures
            final(self).wf(),
            final(self)@ == (FieldModel {
                cells: old(self)@.cells.update(old(self)@.index(x as int, y as int), c),
                ..old(self)@
            }),
    {
        proof {
            lemma_index_in_range(self@, x as int, y as int);
        }
        let i = y as usize * self.width as usize + x as usize;
        self.cells.set(i, c);
    }
}


/// Channel `k` of a color, as `channel_spec` selects it.
pub fn channel(c: Rgba, k: u8) -> (v: u64)
    ensures
        v == channel_spec(c, k as int),
{
    if k == 0 {
        c.r as u64
    } else if k == 1 {
        c.g as u64
    } else if k == 2 {
        c.b as u64
    } else if k == 3 {
        c.a as u64
    } else {
        c.r as u64 + c.g as u64 + c.b as u64
    }
}

impl TrailField {
    /// Sum of channel `k` over the columns `x0 .. x1` and rows `y0 .. y1`, all inside the field.
    pub fn rect_sum(&self, x0: u32, x1: u32, y0: u32, y1: u32, k: u8) -> (s: u64)
        requires
            self.wf(),
            x0 <= x1 <= self@.width,
            y0 <= y1 <= self@.height,
        ensures
            s == self@.rect_sum(x0 as int, x1 as int, y0 as int, y1 as int, k as int),
    {
        let ghost m = self@;
        let mut acc: u64 = 0;
        let mut y: u32 = y0;
        while y < y1
            invariant
                self.wf(),
                m == self@,
                x0 <= x1 <= m.width,
                y0 <= y <= y1 <= m.height,
                acc == m.rect_sum(x0 as int, x1 as int, y0 as int, y as int, k as int),
            decreases y1 - y,
        {
            let mut row: u64 = 0;
            let mut x: u32 = x0;
            while x < x1
                invariant
                    self.wf(),
                    m == self@,
                    x0 <= x <= x1 <= m.width,
                    y0 <= y < y1 <= m.height,
                    row == m.row_sum(y as int, x0 as int, x as int, k as int),
                    row <= (x - x0) * (3 * CHANNEL_ONE),
                decreases x1 - x,
            {
                proof {
                    lemma_channel_bound(m, x as int, y as int, k as int);
                    assert((x - x0) * (3 * CHANNEL_ONE) <= 32768 * 3000) by (nonlinear_arith)
                        requires x - x0 <= 32768, 0 <= x - x0;
                    assert((x + 1 - x0) * (3 * CHANNEL_ONE) == (x - x0) * (3 * CHANNEL_ONE) + 3 * CHANNEL_ONE) by (nonlinear_arith);
                }
                row = row + channel(self.get(x, y), k);
                x = x + 1;
            }
            proof {
                assert forall|xx: int, yy: int|
                    x0 <= xx < x1 && y0 <= yy < y implies channel_spec(#[trigger] m.cell(xx, yy), k as int) <= 3 * CHANNEL_ONE by {
                    lemma_channel_bound(m, xx, yy, k as int);
                }
                lemma_rect_sum_bound(m, x0 as int, x1 as int, y0 as int, y as int, k as int, 3 * CHANNEL_ONE);
                let a = (x1 - x0) * (3 * CHANNEL_ONE);
                assert(0 <= a <= 32768 * 3000) by (nonlinear_arith)
                    requires a == (x1 - x0) * (3 * CHANNEL_ONE), 0 <= x1 - x0 <= 32768;
                assert((y - y0) * a <= 32768 * (32768 * 3000)) by (nonlinear_arith)
                    requires 0 <= y - y0 <= 32768, 0 <= a <= 32768 * 3000;
                assert(row <= a);
            }
            acc = acc + row;
            y = y + 1;
        }
        acc
    }
}


/// The 3x3 neighbourhood of a cell holds between one and nine cells of the field.
pub proof fn lemma_neighbour_count(m: FieldModel, x: int, y: int)
    requires
        m.wf(),
        m.in_bounds(x, y),
    ensures
        1 <= clip_high(x + 2, m.width) - clip_low(x - 1) <= 3,
        1 <= clip_high(y + 2, m.height) - clip_low(y - 1) <= 3,
        1 <= m.neighbour_count(x, y) <= 9,
{
    let cw = clip_high(x + 2, m.width) - clip_low(x - 1);
    let ch = clip_high(y + 2, m.height) - clip_low(y - 1);
    assert(1 <= cw * ch <= 9) by (nonlinear_arith)
        requires 1 <= cw <= 3, 1 <= ch <= 3;
}

/// Where every cell's channel `k` is at most `b`, a diffused cell's channel `k` is at most
/// `b - e` (and never below zero).
pub proof fn lemma_diffuse_channel_bound(m: FieldModel, x: int, y: int, k: int, e: int, b: int)
    requires
        m.wf(),
        m.in_bounds(x, y),
        0 <= b,
        forall|xx: int, yy: int| m.in_bounds(xx, yy) ==> channel_spec(#[trigger] m.cell(xx, yy), k) <= b,
    ensures
        0 <= m.diffuse_channel(x, y, k, e) <= sat_sub(b, e),
{
    lemma_neighbour_count(m, x, y);
    let x0 = clip_low(x - 1);
    let x1 = clip_high(x + 2, m.width);
    let y0 = clip_low(y - 1);
    let y1 = clip_high(y + 2, m.height);
    lemma_rect_sum_bound(m, x0, x1, y0, y1, k, b);
    let s = m.rect_sum(x0, x1, y0, y1, k);
    let c = m.neighbour_count(x, y);
    assert((y1 - y0) * ((x1 - x0) * b) == c * b) by (nonlinear_arith)
        requires c == (x1 - x0) * (y1 - y0);
    lemma_div_is_ordered(s, c * b, c);
    lemma_div_multiples_vanish(b, c);
    lemma_div_pos_is_pos(s, c);
}

impl TrailField {
    /// Channel `k` (one of r, g, b, a) of cell `(x, y)` after blurring and evaporating `e`.
    fn diffuse_channel(&self, x: u32, y: u32, k: u8, e: u64) -> (v: u16)
        requires
            self.wf(),
            self@.in_bounds(x as int, y as int),
            k < 4,
        ensures
            v == self@.diffuse_channel(x as int, y as int, k as int, e as int),
            v <= CHANNEL_ONE,
    {
        proof {
            lemma_neighbour_count(self@, x as int, y as int);
            assert forall|xx: int, yy: int| self@.in_bounds(xx, yy) implies
                channel_spec(#[trigger] self@.cell(xx, yy), k as int) <= CHANNEL_ONE by {
                lemma_index_in_range(self@, xx, yy);
                assert(rgba_bounded(self@.cells[self@.index(xx, yy)], CHANNEL_ONE as int));
            }
            lemma_diffuse_channel_bound(self@, x as int, y as int, k as int, e as int, CHANNEL_ONE as int);
        }
        let x0: u32 = if x >= 1 { x - 1 } else { 0 };
        let x1: u32 = if x + 2 > self.width { self.width } else { x + 2 };
        let y0: u32 = if y >= 1 { y - 1 } else { 0 };
        let y1: u32 = if y + 2 > self.height { self.height } else { y + 2 };
        let count: u64 = (x1 - x0) as u64 * (y1 - y0) as u64;
        let mean: u64 = self.rect_sum(x0, x1, y0, y1, k) / count;
        let v: u64 = if mean > e { mean - e } else { 0 };
        v as u16
    }

    /// One diffusion pass: each cell of `dst` becomes the mean of the cells of its 3x3
    /// neighbourhood that lie inside `self`, less `e` in every channel, clamped at zero.
    pub fn diffuse_into(&self, dst: &mut TrailField, e: u64)
        requires
            self.wf(),
            old(dst).wf(),
            old(dst)@.width == self@.width,
            old(dst)@.height == self@.height,
        ensures
            final(dst).wf(),
            final(dst)@ == self@.diffused(e as int),
    {
        let ghost m = self@;
        let n: usize = self.cells.len();
        let w: u32 = self.width;
        let mut i: usize = 0;
        while i < n
            invariant
                self.wf(),
                m == self@,
                n == m.cells.len(),
                w == m.width,
                dst.wf(),
                dst@.width == m.width,
                dst@.height == m.height,
                i <= n,
                forall|j: int| 0 <= j < i ==> #[trigger] dst@.cells[j] == m.diffuse_cell(j % m.width, j / m.width, e as int),
            decreases n - i,
        {
            let xi: usize = i % (w as usize);
            let yi: usize = i / (w as usize);
            proof {
                assert(yi < m.height) by (nonlinear_arith)
                    requires yi == (i as int) / (w as int), i < m.width * m.height, w == m.width, w > 0;
                assert(xi < m.width) by (nonlinear_arith)
                    requires xi == (i as int) % (w as int), w == m.width, w > 0;
                assert(i == yi * m.width + xi) by (nonlinear_arith)
                    requires yi == (i as int) / (w as int), xi == (i as int) % (w as int), w == m.width, w > 0;
            }
            let x: u32 = xi as u32;
            let y: u32 = yi as u32;
            let c = Rgba {
                r: self.diffuse_channel(x, y, 0, e),
                g: self.diffuse_channel(x, y, 1, e),
                b: self.diffuse_channel(x, y, 2, e),
                a: self.diffuse_channel(x, y, 3, e),
            };
            dst.set(x, y, c);
            i = i + 1;
        }
        assert(dst@.cells =~= m.diffused(e as int).cells);
    }
}


/// Every channel of a well-formed field's cells is at most `b`, read through `channel_spec`.
proof fn lemma_bounded_channels(m: FieldModel, b: int, k: int)
    requires
        m.wf(),
        0 <= k < 4,
        forall|i: int| 0 <= i < m.cells.len() ==> rgba_bounded(#[trigger] m.cells[i], b),
    ensures
        forall|xx: int, yy: int| m.in_bounds(xx, yy) ==> channel_spec(#[trigger] m.cell(xx, yy), k) <= b,
{
    assert forall|xx: int, yy: int| m.in_bounds(xx, yy) implies channel_spec(#[trigger] m.cell(xx, yy), k) <= b by {
        lemma_index_in_range(m, xx, yy);
        assert(rgba_bounded(m.cells[m.index(xx, yy)], b));
    }
}

/// Decay of diffusion: where every channel of every cell is at most `b`, every channel of every
/// cell after one pass is at most `b - e`, clamped at zero. With `e > 0` the bound thus falls
/// strictly at each pass until it reaches zero.
pub proof fn lemma_diffuse_decay(m: FieldModel, e: int, b: int)
    requires
        m.wf(),
        0 <= b,
        0 <= e,
        forall|i: int| 0 <= i < m.cells.len() ==> rgba_bounded(#[trigger] m.cells[i], b),
    ensures
        m.diffused(e).wf(),
        forall|i: int| 0 <= i < m.cells.len() ==> rgba_bounded(#[trigger] m.diffused(e).cells[i], sat_sub(b, e)),
{
    let d = m.diffused(e);
    assert forall|i: int| 0 <= i < m.cells.len() implies {
        &&& rgba_bounded(#[trigger] d.cells[i], sat_sub(b, e))
        &&& rgba_bounded(d.cells[i], CHANNEL_ONE as int)
    } by {
        let x = i % m.width;
        let y = i / m.width;
        assert(m.in_bounds(x, y)) by (nonlinear_arith)
            requires x == i % m.width, y == i / m.width, 0 <= i < m.width * m.height, m.width > 0;
        assert forall|k: int| 0 <= k < 4 implies 0 <= #[trigger] m.diffuse_channel(x, y, k, e) <= sat_sub(b, e)
            && m.diffuse_channel(x, y, k, e) <= CHANNEL_ONE by {
            lemma_bounded_channels(m, b, k);
            lemma_diffuse_channel_bound(m, x, y, k, e, b);
            assert forall|xx: int, yy: int| m.in_bounds(xx, yy) implies
                channel_spec(#[trigger] m.cell(xx, yy), k) <= CHANNEL_ONE by {
                lemma_index_in_range(m, xx, yy);
                assert(rgba_bounded(m.cells[m.index(xx, yy)], CHANNEL_ONE as int));
            }
            lemma_diffuse_channel_bound(m, x, y, k, e, CHANNEL_ONE as int);
        }
        assert(0 <= m.diffuse_channel(x, y, 0, e) <= CHANNEL_ONE);
        assert(0 <= m.diffuse_channel(x, y, 1, e) <= CHANNEL_ONE);
        assert(0 <= m.diffuse_channel(x, y, 2, e) <= CHANNEL_ONE);
        assert(0 <= m.diffuse_channel(x, y, 3, e) <= CHANNEL_ONE);
    }
}

/// The field after `n` diffusion passes, each evaporating `e`.
pub open spec fn diffused_times(m: FieldModel, e: int, n: nat) -> FieldModel
    decreases n,
{
    if n == 0 {
        m
    } else {
        diffused_times(m, e, (n - 1) as nat).diffused(e)
    }
}

/// Decay under repeated diffusion: where every channel of every cell is at most `b`, after `n`
/// passes every channel of every cell is at most `b - n e`, clamped at zero; the field stays
/// well formed and keeps its size.
pub proof fn lemma_diffuse_repeated_decay(m: FieldModel, e: int, b: int, n: nat)
    requires
        m.wf(),
        0 <= b,
        0 <= e,
        forall|i: int| 0 <= i < m.cells.len() ==> rgba_bounded(#[trigger] m.cells[i], b),
    ensures
        diffused_times(m, e, n).wf(),
        diffused_times(m, e, n).width == m.width,
        diffused_times(m, e, n).height == m.height,
        forall|i: int| 0 <= i < m.cells.len() ==>
            rgba_bounded(#[trigger] diffused_times(m, e, n).cells[i], sat_sub(b, n * e)),
    decreases n,
{
    if n > 0 {
        let k = (n - 1) as nat;
        lemma_diffuse_repeated_decay(m, e, b, k);
        let prev = diffused_times(m, e, k);
        assert(0 <= k * e) by (nonlinear_arith)
            requires 0 <= e;
        assert(n * e == k * e + e) by (nonlinear_arith)
            requires n == k + 1;
        lemma_diffuse_decay(prev, e, sat_sub(b, k * e));
    }
}

/// An all-black field stays all black under diffusion, whatever the evaporation amount.
pub proof fn lemma_diffuse_black_fixed_point(m: FieldModel, e: int)
    requires
        m.wf(),
        0 <= e,
        forall|i: int| 0 <= i < m.cells.len() ==> #[trigger] m.cells[i] == black(),
    ensures
        forall|i: int| 0 <= i < m.cells.len() ==> #[trigger] m.diffused(e).cells[i] == black(),
{
    assert forall|i: int| 0 <= i < m.cells.len() implies rgba_bounded(#[trigger] m.cells[i], 0) by {
        assert(m.cells[i] == black());
    }
    lemma_diffuse_decay(m, e, 0);
    assert forall|i: int| 0 <= i < m.cells.len() implies #[trigger] m.diffused(e).cells[i] == black() by {
        assert(rgba_bounded(m.diffused(e).cells[i], sat_sub(0, e)));
    }
}

impl TrailField {
    /// Copies every cell of `src`, which has the same size, into `self`.
    pub fn copy_from(&mut self, src: &TrailField)
        requires
            old(self).wf(),
            src.wf(),
            src@.width == old(self)@.width,
            src@.height == old(self)@.height,
        ensures
            final(self)@ == src@,
            final(self).wf(),
    {
        let n: usize = src.cells.len();
        let mut i: usize = 0;
        while i < n
            invariant
                src.wf(),
                n == src@.cells.len(),
                self@.width == src@.width,
                self@.height == src@.height,
                self@.cells.len() == n,
                i <= n,
                forall|j: int| 0 <= j < i ==> #[trigger] self@.cells[j] == src@.cells[j],
            decreases n - i,
        {
            self.cells.set(i, src.cells[i]);
            i = i + 1;
        }
        assert(self@.cells =~= src@.cells);
    }
}


/// A rectangle with no columns sums to zero.
pub proof fn lemma_rect_sum_no_columns(m: FieldModel, x0: int, x1: int, y0: int, y: int, k: int)
    requires
        x1 <= x0,
    ensures
        m.rect_sum(x0, x1, y0, y, k) == 0,
    decreases y - y0,
{
    if y > y0 {
        lemma_rect_sum_no_columns(m, x0, x1, y0, y - 1, k);
    }
}

} // verus!
