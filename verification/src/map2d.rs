//! Fixed-size dense 2D storage with clamped reads and bounds-dropping writes:
//! a read outside the grid behaves as if the grid were extended by its
//! boundary cells, and a write outside the grid silently succeeds without
//! changing anything.

use vstd::prelude::*;
use crate::Error;

verus! {

/// Clamps `v` into `[0, hi - 1]`.
pub open spec fn clamp_to(v: int, hi: int) -> int {
    if v < 0 {
        0
    } else if v > hi - 1 {
        hi - 1
    } else {
        v
    }
}

/// A row-major `width x height` grid of `T`, with the construction-time
/// default kept for resets.
pub struct Map2d<T> {
    pub items: Vec<T>,
    pub width: i32,
    pub height: i32,
    pub default: T,
}

/// `0 <= y*w + x < w*h` whenever `(x, y)` is an in-bounds coordinate.
pub proof fn lemma_index_bounds(w: int, h: int, x: int, y: int)
    requires
        1 <= w,
        1 <= h,
        0 <= x < w,
        0 <= y < h,
    ensures
        0 <= y * w + x < w * h,
        y * w <= (h - 1) * w,
{
    assert(0 <= y * w + x < w * h && y * w <= (h - 1) * w) by (nonlinear_arith)
        requires
            1 <= w,
            1 <= h,
            0 <= x < w,
            0 <= y < h,
    ;
}

/// Distinct in-bounds coordinates have distinct row-major indices.
pub proof fn lemma_index_injective(w: int, x1: int, y1: int, x2: int, y2: int)
    requires
        1 <= w,
        0 <= x1 < w,
        0 <= x2 < w,
        y1 * w + x1 == y2 * w + x2,
    ensures
        x1 == x2 && y1 == y2,
{
    assert(x1 == x2 && y1 == y2) by (nonlinear_arith)
        requires
            1 <= w,
            0 <= x1 < w,
            0 <= x2 < w,
            y1 * w + x1 == y2 * w + x2,
    ;
}

impl<T: Copy> Map2d<T> {
    /// The dimensions are positive, the backing vector holds exactly one item
    /// per coordinate, and the item count fits an `i32`.
    pub open spec fn wf(&self) -> bool {
        &&& 1 <= self.width
        &&& 1 <= self.height
        &&& (self.width as int) * (self.height as int) <= 0x7fff_ffff
        &&& self.items@.len() == (self.width as int) * (self.height as int)
    }

    /// The construction-time default item.
    pub open spec fn spec_default(&self) -> T {
        self.default
    }

    /// Row-major index of an in-bounds coordinate.
    pub open spec fn spec_index_of(&self, x: int, y: int) -> int {
        y * (self.width as int) + x
    }

    /// The item a read of `(x, y)` returns: both coordinates are clamped into
    /// range first, so every read succeeds.
    pub open spec fn spec_at(&self, x: int, y: int) -> T {
        self.items@[self.spec_index_of(
            clamp_to(x, self.width as int),
            clamp_to(y, self.height as int),
        )]
    }

    /// The grid a write of `item` at `(x, y)` leaves behind: updated when the
    /// coordinate is in bounds, unchanged when it is not.
    pub open spec fn spec_set_point(&self, x: int, y: int, item: T) -> Seq<T> {
        if 0 <= x < self.width as int && 0 <= y < self.height as int {
            self.items@.update(self.spec_index_of(x, y), item)
        } else {
            self.items@
        }
    }

    /// A fresh grid with every coordinate holding `item`, which also becomes
    /// the reset default.
    pub fn filled_with(item: T, width: i32, height: i32) -> (r: Map2d<T>)
        requires
            1 <= width,
            1 <= height,
            (width as int) * (height as int) <= 0x7fff_ffff,
        ensures
            r.wf(),
            r.width == width,
            r.height == height,
            r.spec_default() == item,
            forall|i: int| 0 <= i < r.items@.len() ==> r.items@[i] == item,
    {
        proof {
            lemma_index_bounds(width as int, height as int, 0, 0);
        }
        let n: usize = (width as usize) * (height as usize);
        let mut items: Vec<T> = Vec::new();
        let mut k: usize = 0;
        while k < n
            invariant
                k <= n,
                items@.len() == k,
                forall|i: int| 0 <= i < k ==> items@[i] == item,
            decreases n - k,
        {
            items.push(item);
            k = k + 1;
        }
        Map2d { items, width, height, default: item }
    }

    /// Reads the item at `(x, y)`, clamping both coordinates into range, so
    /// that edge lookups behave as if the grid were extended by its boundary.
    /// Never fails.
    pub fn retrieve(&self, x: i32, y: i32) -> (r: Result<T, Error>)
        requires
            self.wf(),
        ensures
            r == Ok::<T, Error>(self.spec_at(x as int, y as int)),
    {
        let cx = clamp_exec(x, self.width);
        let cy = clamp_exec(y, self.height);
        let id = self.xy_idx(cx, cy);
        proof {
            lemma_index_bounds(self.width as int, self.height as int, cx as int, cy as int);
        }
        Ok(self.items[id])
    }

    /// Writes `item` at `(x, y)` when the coordinate is in range, and silently
    /// reports success (changing nothing) when it is not.
    pub fn set_point(&mut self, x: i32, y: i32, item: T) -> (r: Result<(), String>)
        requires
            old(self).wf(),
        ensures
            r is Ok,
            final(self).wf(),
            final(self).width == old(self).width,
            final(self).height == old(self).height,
            final(self).spec_default() == old(self).spec_default(),
            final(self).items@ == old(self).spec_set_point(x as int, y as int, item),
    {
        if x < self.width && y < self.height && x >= 0 && y >= 0 {
            let id = self.xy_idx(x, y);
            proof {
                lemma_index_bounds(self.width as int, self.height as int, x as int, y as int);
            }
            let slot = &mut self.items[id];
            *slot = item;
        }
        Ok(())
    }

    /// Restores the construction-time default at `(x, y)` (out-of-range
    /// writes are dropped, as in `set_point`).
    pub fn reset_point(&mut self, x: i32, y: i32) -> (r: Result<(), String>)
        requires
            old(self).wf(),
        ensures
            r is Ok,
            final(self).wf(),
            final(self).width == old(self).width,
            final(self).height == old(self).height,
            final(self).spec_default() == old(self).spec_default(),
            final(self).items@ == old(self).spec_set_point(
                x as int,
                y as int,
                old(self).spec_default(),
            ),
    {
        let d = self.default;
        self.set_point(x, y, d)
    }

    /// Restores the construction-time default at every coordinate.
    pub fn reset_map(&mut self) -> (r: Result<(), String>)
        requires
            old(self).wf(),
        ensures
            r is Ok,
            final(self).wf(),
            final(self).width == old(self).width,
            final(self).height == old(self).height,
            final(self).spec_default() == old(self).spec_default(),
            forall|i: int|
                0 <= i < final(self).items@.len() ==> final(self).items@[i] == old(
                    self,
                ).spec_default(),
    {
        let n: usize = self.items.len();
        let mut i: usize = 0;
        while i < n
            invariant
                i <= n,
                self.wf(),
                n == self.items@.len(),
                self.width == old(self).width,
                self.height == old(self).height,
                self.spec_default() == old(self).spec_default(),
                forall|j: int| 0 <= j < i ==> self.items@[j] == old(self).spec_default(),
            decreases n - i,
        {
            let (x, y) = self.idx_xy(i);
            proof {
                vstd::arithmetic::div_mod::lemma_fundamental_div_mod(
                    i as int,
                    self.width as int,
                );
            }
            let _ = self.reset_point(x, y)?;
            i = i + 1;
        }
        Ok(())
    }

    /// Maps an in-bounds `(x, y)` coordinate to its row-major index.
    pub fn xy_idx(&self, x: i32, y: i32) -> (r: usize)
        requires
            self.wf(),
            0 <= x < self.width,
            0 <= y < self.height,
        ensures
            r == self.spec_index_of(x as int, y as int),
            r < self.items@.len(),
    {
        proof {
            lemma_index_bounds(self.width as int, self.height as int, x as int, y as int);
        }
        (y as usize * self.width as usize) + x as usize
    }

    /// Maps a row-major index back to its `(x, y)` coordinate.
    pub fn idx_xy(&self, idx: usize) -> (r: (i32, i32))
        requires
            self.wf(),
            idx < self.items@.len(),
        ensures
            r.0 == (idx as int) % (self.width as int),
            r.1 == (idx as int) / (self.width as int),
            0 <= r.0 < self.width,
            0 <= r.1 < self.height,
    {
        proof {
            vstd::arithmetic::div_mod::lemma_fundamental_div_mod(idx as int, self.width as int);
            vstd::arithmetic::div_mod::lemma_mod_bound(idx as int, self.width as int);
            lemma_div_below_height(self.width as int, self.height as int, idx as int);
        }
        ((idx % self.width as usize) as i32, (idx / self.width as usize) as i32)
    }
}

/// A row-major index decomposes back into its coordinate: modulus gives the
/// column, division gives the row.
pub proof fn lemma_index_decomp(w: int, x: int, y: int)
    requires
        1 <= w,
        0 <= x < w,
        0 <= y,
    ensures
        (y * w + x) % w == x,
        (y * w + x) / w == y,
{
    assert((y * w + x) % w == x && (y * w + x) / w == y) by (nonlinear_arith)
        requires
            1 <= w,
            0 <= x < w,
            0 <= y,
    ;
}

/// An index below `w*h` has its row number below `h`.
pub proof fn lemma_div_below_height(w: int, h: int, idx: int)
    requires
        1 <= w,
        1 <= h,
        0 <= idx < w * h,
    ensures
        0 <= idx / w < h,
{
    assert(0 <= idx / w < h) by (nonlinear_arith)
        requires
            1 <= w,
            1 <= h,
            0 <= idx < w * h,
    ;
}

/// Clamps `v` into `[0, hi - 1]`.
fn clamp_exec(v: i32, hi: i32) -> (r: i32)
    requires
        1 <= hi,
    ensures
        r == clamp_to(v as int, hi as int),
        0 <= r < hi,
{
    if v < 0 {
        0
    } else if v > hi - 1 {
        hi - 1
    } else {
        v
    }
}

/// Clamped-edge reads are idempotent: for every coordinate, in range or not,
/// reading it equals reading the nearest in-bounds coordinate (the one both
/// of its components clamp to).
pub proof fn lemma_retrieve_clamped<T: Copy>(m: Map2d<T>, x: int, y: int)
    requires
        m.wf(),
    ensures
        m.spec_at(x, y) == m.spec_at(
            clamp_to(x, m.width as int),
            clamp_to(y, m.height as int),
        ),
{
}

} // verus!
