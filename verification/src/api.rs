//! The simulation instance: grid storage, the cursor-relative cell-access API
//! used by the species rules, the clone registry, and painting/erasing entry
//! points.
//!
//! Writes made through the cursor-relative `set`/`swap` drop silently when the
//! target is out of range, and also when the target already holds a Border
//! cell: Border cells are immutable under rule evaluation.

use vstd::prelude::*;
use crate::Error;
use crate::cell::{Cell, Species, spec_empty, empty_cell};
use crate::map2d::{Map2d, clamp_to, lemma_index_bounds, lemma_index_injective};
use crate::rng::RandomSource;
use crate::zone::Zone;

verus! {

/// Row-major index of a coordinate.
pub open spec fn g_index(w: int, x: int, y: int) -> int {
    y * w + x
}

/// Whether `(x, y)` lies inside a `w x h` grid.
pub open spec fn g_in_bounds(w: int, h: int, x: int, y: int) -> bool {
    0 <= x < w && 0 <= y < h
}

/// The cell a clamped read of `(x, y)` returns.
pub open spec fn g_at(g: Seq<Cell>, w: int, h: int, x: int, y: int) -> Cell {
    g[g_index(w, clamp_to(x, w), clamp_to(y, h))]
}

/// The grid after an absolute (unguarded) write: updated in bounds, unchanged
/// out of bounds.
pub open spec fn g_set_raw(g: Seq<Cell>, w: int, h: int, x: int, y: int, c: Cell) -> Seq<Cell> {
    if g_in_bounds(w, h, x, y) {
        g.update(g_index(w, x, y), c)
    } else {
        g
    }
}

/// The grid after a rule write: dropped when the target is out of bounds or
/// already holds a Border cell.
pub open spec fn g_set_guarded(g: Seq<Cell>, w: int, h: int, x: int, y: int, c: Cell) -> Seq<
    Cell,
> {
    if g_in_bounds(w, h, x, y) && g[g_index(w, x, y)].species != Species::Border {
        g.update(g_index(w, x, y), c)
    } else {
        g
    }
}

/// The grid after the cursor cell at `(cx, cy)` swaps with the offset target:
/// the cursor slot receives the target's (clamped) value and the target slot
/// receives `c`; a Border target leaves everything in place.
pub open spec fn g_swap(
    g: Seq<Cell>,
    w: int,
    h: int,
    cx: int,
    cy: int,
    dx: int,
    dy: int,
    c: Cell,
) -> Seq<Cell> {
    let other = g_at(g, w, h, cx + dx, cy + dy);
    if other.species == Species::Border {
        g
    } else {
        g_set_guarded(g_set_guarded(g, w, h, cx, cy, other), w, h, cx + dx, cy + dy, c)
    }
}

/// Every Border cell of `pre` is still a Border cell in `post`.
pub open spec fn borders_kept(pre: Seq<Cell>, post: Seq<Cell>) -> bool {
    &&& post.len() == pre.len()
    &&& forall|i: int|
        0 <= i < pre.len() && pre[i].species == Species::Border ==> post[i].species
            == Species::Border
}

/// Whether `(x, y)` lies on the one-cell-thick outer ring.
pub open spec fn on_ring(w: int, h: int, x: int, y: int) -> bool {
    x == 0 || x == w - 1 || y == 0 || y == h - 1
}

/// What a construction-time cell at `(x, y)` looks like: a Border cell on the
/// ring when borders are enabled, the default Empty cell everywhere else.
pub open spec fn initial_cell_ok(c: Cell, borders: bool, w: int, h: int, x: int, y: int) -> bool {
    if borders && on_ring(w, h, x, y) {
        c.species == Species::Border && c.clock == false && c.heat == 20
    } else {
        c == spec_empty()
    }
}

/// Every in-bounds cell farther than `rad` from `(cx, cy)` (in either axis)
/// is unchanged between `pre` and `post`.
pub open spec fn unchanged_outside(
    pre: Seq<Cell>,
    post: Seq<Cell>,
    w: int,
    h: int,
    cx: int,
    cy: int,
    rad: int,
) -> bool {
    &&& post.len() == pre.len()
    &&& forall|x: int, y: int|
        g_in_bounds(w, h, x, y) && (x < cx - rad || x > cx + rad || y < cy - rad || y > cy + rad)
            ==> post[g_index(w, x, y)] == pre[g_index(w, x, y)]
}

/// A guarded write keeps every Border cell in place and changes at most the
/// written coordinate.
pub proof fn lemma_set_guarded_frame(g: Seq<Cell>, w: int, h: int, x: int, y: int, c: Cell)
    requires
        1 <= w,
        1 <= h,
        g.len() == w * h,
    ensures
        g_set_guarded(g, w, h, x, y, c).len() == g.len(),
        borders_kept(g, g_set_guarded(g, w, h, x, y, c)),
        forall|qx: int, qy: int|
            g_in_bounds(w, h, qx, qy) && !(qx == x && qy == y) ==> g_set_guarded(
                g,
                w,
                h,
                x,
                y,
                c,
            )[g_index(w, qx, qy)] == g[g_index(w, qx, qy)],
{
    if g_in_bounds(w, h, x, y) && g[g_index(w, x, y)].species != Species::Border {
        lemma_index_bounds(w, h, x, y);
        assert forall|qx: int, qy: int|
            g_in_bounds(w, h, qx, qy) && !(qx == x && qy == y) implies g_set_guarded(
            g,
            w,
            h,
            x,
            y,
            c,
        )[g_index(w, qx, qy)] == g[g_index(w, qx, qy)] by {
            lemma_index_bounds(w, h, qx, qy);
            if g_index(w, qx, qy) == g_index(w, x, y) {
                lemma_index_injective(w, qx, qy, x, y);
            }
        }
        assert forall|i: int|
            0 <= i < g.len() && g[i].species == Species::Border implies g_set_guarded(
            g,
            w,
            h,
            x,
            y,
            c,
        )[i].species == Species::Border by {}
    }
}

/// Offset order of the Moore neighborhood, as the rules see it.
pub open spec fn neighbor_dx(k: int) -> int {
    if k == 0 { -1 } else if k == 1 { 0 } else if k == 2 { -1 } else if k == 3 { -1 }
    else if k == 4 { 1 } else if k == 5 { 1 } else if k == 6 { 0 } else { 1 }
}

/// Offset order of the Moore neighborhood, as the rules see it.
pub open spec fn neighbor_dy(k: int) -> int {
    if k == 0 { -1 } else if k == 1 { -1 } else if k == 2 { 0 } else if k == 3 { 1 }
    else if k == 4 { -1 } else if k == 5 { 1 } else if k == 6 { 1 } else { 0 }
}

/// Whether `(px, py)` lies within Euclidean distance `radius` of `(cx, cy)`.
pub open spec fn in_disc(px: int, py: int, cx: int, cy: int, radius: int) -> bool {
    (px - cx) * (px - cx) + (py - cy) * (py - cy) <= radius * radius
}

/// A point whose offset leaves the bounding box of the disc is not in the disc.
pub proof fn lemma_outside_box_outside_disc(px: int, py: int, cx: int, cy: int, radius: int)
    requires
        0 <= radius,
        px < cx - radius || px > cx + radius || py < cy - radius || py > cy + radius,
    ensures
        !in_disc(px, py, cx, cy, radius),
{
    assert((px - cx) * (px - cx) + (py - cy) * (py - cy) > radius * radius) by (nonlinear_arith)
        requires
            0 <= radius,
            px < cx - radius || px > cx + radius || py < cy - radius || py > cy + radius,
    ;
}

/// An absolute write changes at most the written coordinate.
pub proof fn lemma_set_raw_frame(g: Seq<Cell>, w: int, h: int, x: int, y: int, c: Cell)
    requires
        1 <= w,
        1 <= h,
        g.len() == w * h,
    ensures
        g_set_raw(g, w, h, x, y, c).len() == g.len(),
        forall|qx: int, qy: int|
            g_in_bounds(w, h, qx, qy) && !(qx == x && qy == y) ==> g_set_raw(
                g,
                w,
                h,
                x,
                y,
                c,
            )[g_index(w, qx, qy)] == g[g_index(w, qx, qy)],
        g_in_bounds(w, h, x, y) ==> g_set_raw(g, w, h, x, y, c)[g_index(w, x, y)] == c,
{
    if g_in_bounds(w, h, x, y) {
        lemma_index_bounds(w, h, x, y);
        assert forall|qx: int, qy: int|
            g_in_bounds(w, h, qx, qy) && !(qx == x && qy == y) implies g_set_raw(
            g,
            w,
            h,
            x,
            y,
            c,
        )[g_index(w, qx, qy)] == g[g_index(w, qx, qy)] by {
            lemma_index_bounds(w, h, qx, qy);
            if g_index(w, qx, qy) == g_index(w, x, y) {
                lemma_index_injective(w, qx, qy, x, y);
            }
        }
    }
}

/// Border preservation is transitive.
pub proof fn lemma_borders_trans(g0: Seq<Cell>, g1: Seq<Cell>, g2: Seq<Cell>)
    requires
        borders_kept(g0, g1),
        borders_kept(g1, g2),
    ensures
        borders_kept(g0, g2),
{
    assert forall|i: int|
        0 <= i < g0.len() && g0[i].species == Species::Border implies g2[i].species
        == Species::Border by {
        assert(g1[i].species == Species::Border);
    }
}

/// `c` with its clock flag cleared.
pub open spec fn spec_unclock(c: Cell) -> Cell {
    Cell { species: c.species, clock: false, heat: c.heat, grain: c.grain }
}

/// Whether some grid cell is a Clone bound to `id`.
pub open spec fn referenced(g: Seq<Cell>, id: u16) -> bool {
    exists|j: int| 0 <= j < g.len() && g[j].species == Species::Clone(Some(id))
}

/// Every occupied clone-registry slot is referenced by some Clone cell of
/// the grid: what the per-tick registry sweep restores.
pub open spec fn zone_gc_clean(s: SandApi) -> bool {
    forall|id: int|
        0 <= id < s.cloned_cells.slots().len() && (#[trigger] s.cloned_cells.slots()[id]) is Some
            ==> referenced(s.grid(), id as u16)
}


/// A cell the heat model passes over when met as a neighbor: empty space or
/// the border.
pub open spec fn heat_inert(s: Species) -> bool {
    s == Species::Empty || s == Species::Border
}

/// A cursor cell the heat step skips entirely: empty space, the border, or a
/// Clone cell (which adopts its registered species' heat instead).
pub open spec fn heat_skipped(s: Species) -> bool {
    s == Species::Empty || s == Species::Border || s is Clone
}

/// Whether the cursor at `(x, y)` is isolated for the heat model: every
/// (clamped) Moore neighbor reads as Empty or Border.
pub open spec fn heat_isolated(g: Seq<Cell>, w: int, h: int, x: int, y: int) -> bool {
    forall|k: int|
        0 <= k < 8 ==> heat_inert(
            (#[trigger] g_at(g, w, h, x + neighbor_dx(k), y + neighbor_dy(k))).species,
        )
}

/// The heat exchange, exactly: scanning the eight neighbors in order with
/// `hs` the cursor's running heat before each step, a ten-unit transfer is
/// certain whenever the cursor currently exceeds a non-inert neighbor by
/// more than the ten-unit margin (the pair conserved: the cursor loses the
/// ten the neighbor gains); at exactly equal heats a coin decides whether
/// both shed one unit; otherwise neither cell changes, so heat never flows
/// from a colder cell to a hotter one. Empty and Border neighbors take no
/// part; a write to an out-of-range offset is dropped but still costs the
/// cursor its share.
pub open spec fn heat_trace_ok(
    g: Seq<Cell>,
    post: Seq<Cell>,
    w: int,
    h: int,
    x: int,
    y: int,
    hs: Seq<i16>,
) -> bool {
    &&& hs.len() == 9
    &&& forall|k: int|
        0 <= k < 8 ==> {
            let a = g_at(g, w, h, x + neighbor_dx(k), y + neighbor_dy(k));
            &&& (heat_inert(a.species) ==> (#[trigger] hs[k + 1]) == hs[k])
            &&& (!heat_inert(a.species) && hs[k] > a.heat + 10 ==> hs[k + 1]
                == crate::cell::sat_heat(hs[k] - 10))
            &&& (!heat_inert(a.species) && hs[k] == a.heat ==> (hs[k + 1] == hs[k] || hs[k + 1]
                == crate::cell::sat_heat(hs[k] - 1)))
            &&& (!heat_inert(a.species) && hs[k] <= a.heat + 10 && hs[k] != a.heat ==> hs[k + 1]
                == hs[k])
            &&& (g_in_bounds(w, h, x + neighbor_dx(k), y + neighbor_dy(k)) ==> {
                let b = post[g_index(w, x + neighbor_dx(k), y + neighbor_dy(k))];
                &&& (heat_inert(a.species) ==> b == a)
                &&& (!heat_inert(a.species) && hs[k] > a.heat + 10 ==> b
                    == crate::cell::spec_with_heat(a, crate::cell::sat_heat(a.heat + 10)))
                &&& (!heat_inert(a.species) && hs[k] == a.heat ==> ((hs[k + 1] == hs[k] && b == a)
                    || (hs[k + 1] == crate::cell::sat_heat(hs[k] - 1) && b
                    == crate::cell::spec_with_heat(a, crate::cell::sat_heat(a.heat - 1)))))
                &&& (!heat_inert(a.species) && hs[k] <= a.heat + 10 && hs[k] != a.heat ==> b == a)
            })
        }
}

/// One exchange step: the neighbor write (if any) lands exactly when the
/// target is in range and leaves every other cell, cursor included, alone.
#[verifier::spinoff_prover]
proof fn lemma_heat_exchange_step(
    g0: Seq<Cell>,
    g1: Seq<Cell>,
    g2: Seq<Cell>,
    w: int,
    h: int,
    x: int,
    y: int,
    k: int,
    nb: Cell,
)
    requires
        1 <= w,
        1 <= h,
        g0.len() == w * h,
        g1.len() == w * h,
        0 <= k < 8,
        g2 == g_set_guarded(g1, w, h, x + neighbor_dx(k), y + neighbor_dy(k), nb),
        !heat_inert(g_at(g0, w, h, x + neighbor_dx(k), y + neighbor_dy(k)).species),
        g_in_bounds(w, h, x + neighbor_dx(k), y + neighbor_dy(k)) ==> g1[g_index(
            w,
            x + neighbor_dx(k),
            y + neighbor_dy(k),
        )] == g_at(g0, w, h, x + neighbor_dx(k), y + neighbor_dy(k)),
    ensures
        g2.len() == g0.len(),
        g_in_bounds(w, h, x + neighbor_dx(k), y + neighbor_dy(k)) ==> g2[g_index(
            w,
            x + neighbor_dx(k),
            y + neighbor_dy(k),
        )] == nb,
        forall|qx: int, qy: int|
            g_in_bounds(w, h, qx, qy) && !(qx == x + neighbor_dx(k) && qy == y + neighbor_dy(k))
                ==> (#[trigger] g2[g_index(w, qx, qy)]) == g1[g_index(w, qx, qy)],
{
    lemma_set_guarded_frame(g1, w, h, x + neighbor_dx(k), y + neighbor_dy(k), nb);
    if g_in_bounds(w, h, x + neighbor_dx(k), y + neighbor_dy(k)) {
        lemma_index_bounds(w, h, x + neighbor_dx(k), y + neighbor_dy(k));
    }
}

/// The premise of the one-tick boil guarantee: borders are on, `(px, py)`
/// is an interior coordinate holding the only non-Empty, non-Border cell of
/// the grid, and that cell is unclocked Water whose heat clears the boil
/// threshold with room for the isolated cooling drift.
pub open spec fn sole_boiling_water(s: SandApi, px: int, py: int) -> bool {
    &&& s.borders
    &&& 0 < px < s.width as int - 1
    &&& 0 < py < s.height as int - 1
    &&& forall|qx: int, qy: int|
        g_in_bounds(s.width as int, s.height as int, qx, qy) && !(qx == px && qy == py)
            ==> heat_inert((#[trigger] s.grid()[g_index(s.width as int, qx, qy)]).species)
    &&& s.grid()[g_index(s.width as int, px, py)].species == Species::Water
    &&& !s.grid()[g_index(s.width as int, px, py)].clock
    &&& s.grid()[g_index(s.width as int, px, py)].heat >= 103
}

/// What the sweep leaves at a sole boiling Water cell: its Steam version,
/// cooled by the isolated drift and marked processed (the reset pass clears
/// the mark afterwards).
pub open spec fn boiled_cell(c: Cell) -> Cell {
    Cell { species: Species::Steam, clock: true, heat: (c.heat - 3) as i16, grain: c.grain }
}

/// The shared frame of the melt-check intermediate state: everything but
/// the grid contents and the randomness source matches the pre-state.
pub open spec fn melt_mid_ok(pre: SandApi, mid: SandApi) -> bool {
    &&& mid.width == pre.width
    &&& mid.height == pre.height
    &&& mid.x == pre.x
    &&& mid.y == pre.y
    &&& mid.borders == pre.borders
    &&& mid.paused == pre.paused
    &&& mid.map.width == pre.map.width
    &&& mid.map.height == pre.map.height
    &&& mid.map.default == pre.map.default
    &&& mid.cloned_cells == pre.cloned_cells
    &&& mid.inv()
}

/// What the species step guarantees for a meltable cursor (Sand, Mud, Salt,
/// Soil or Stone past the melting heat): either the grid went to the
/// species' own rule unchanged, or the cursor was first rewritten as its
/// Lava conversion and the Lava rule's outcome followed — nothing else.
pub open spec fn melt_outcome(pre: SandApi, post: SandApi, c: Cell) -> bool {
    let rc = crate::cell::spec_clocked(c);
    let rl = rc.spec_with_species(Species::Lava);
    let w = pre.width as int;
    let h = pre.height as int;
    let x = pre.x as int;
    let y = pre.y as int;
    exists|mid: SandApi|
        #[trigger] melt_mid_ok(pre, mid) && {
            ||| (mid.grid() == pre.grid() && (match c.species {
                Species::Sand => crate::rules::sand_outcome(mid, post, rc),
                Species::Mud(_) => crate::rules::mud_outcome(mid, post, rc),
                Species::Salt => crate::rules::salt_outcome(mid, post, rc),
                Species::Soil => crate::rules::soil_outcome(mid, post, rc),
                Species::Stone => post.grid() == mid.grid() && post.cloned_cells
                    == mid.cloned_cells,
                _ => true,
            }))
            ||| (mid.grid() == g_set_guarded(pre.grid(), w, h, x, y, rl) && crate::rules::lava_outcome(
                mid,
                post,
                rl,
            ))
        }
}

/// Linear scan for an identifier.
fn contains_id(v: &Vec<u16>, x: u16) -> (r: bool)
    ensures
        r == v@.contains(x),
{
    let mut k: usize = 0;
    while k < v.len()
        invariant
            k <= v@.len(),
            forall|j: int| 0 <= j < k ==> v@[j] != x,
        decreases v@.len() - k,
    {
        if v[k] == x {
            proof {
                assert(v@[k as int] == x);
            }
            return true;
        }
        k = k + 1;
    }
    false
}

/// A cell tagged with its offset from the cursor.
#[derive(Clone, Copy)]
pub struct Neighbor {
    pub cell: Cell,
    pub dx: i32,
    pub dy: i32,
}

/// The simulation instance: the cell grid, the cursor, the pause flag, the
/// clone registry and the randomness source for rule decisions.
pub struct SandApi {
    pub x: i32,
    pub y: i32,
    pub width: i32,
    pub height: i32,
    pub borders: bool,
    pub paused: bool,
    pub map: Map2d<Cell>,
    pub cloned_cells: Zone<Species>,
    pub rng: RandomSource,
}

impl SandApi {
    /// The instance is well formed: the grid is well formed, its dimensions
    /// agree with the instance's, and the registry respects its ceiling.
    pub open spec fn inv(&self) -> bool {
        &&& self.map.wf()
        &&& self.map.width == self.width
        &&& self.map.height == self.height
        &&& self.cloned_cells.wf()
    }

    /// The raw cell sequence, row-major.
    pub open spec fn grid(&self) -> Seq<Cell> {
        self.map.items@
    }

    /// Clamped read of an absolute coordinate.
    pub open spec fn at(&self, x: int, y: int) -> Cell {
        g_at(self.grid(), self.width as int, self.height as int, x, y)
    }

    /// Everything but the grid contents, the registry and the randomness
    /// source is unchanged: dimensions, cursor, flags and the grid's default.
    pub open spec fn same_frame(pre: &SandApi, post: &SandApi) -> bool {
        &&& post.width == pre.width
        &&& post.height == pre.height
        &&& post.x == pre.x
        &&& post.y == pre.y
        &&& post.borders == pre.borders
        &&& post.paused == pre.paused
        &&& post.map.width == pre.map.width
        &&& post.map.height == pre.map.height
        &&& post.map.default == pre.map.default
    }

    /// `same_frame` and additionally the grid and the registry are
    /// untouched: only the randomness source may differ.
    pub open spec fn only_rng_differs(pre: &SandApi, post: &SandApi) -> bool {
        &&& Self::same_frame(pre, post)
        &&& post.map == pre.map
        &&& post.cloned_cells == pre.cloned_cells
    }

    /// Builds a `width x height` instance, all cells Empty, paused off, the
    /// ambient randomness source installed, and — when `borders` is set — a
    /// one-cell-thick Border ring stamped around the outside.
    pub fn new(width: i32, height: i32, borders: bool) -> (r: SandApi)
        requires
            1 <= width,
            1 <= height,
            (width as int) * (height as int) <= 0x7fff_ffff,
        ensures
            r.inv(),
            r.width == width,
            r.height == height,
            r.borders == borders,
            r.paused == false,
            r.x == 0,
            r.y == 0,
            r.cloned_cells.slots().len() == 0,
            r.rng is Ambient,
            r.grid().len() == (width as int) * (height as int),
            forall|x: int, y: int|
                g_in_bounds(width as int, height as int, x, y) ==> initial_cell_ok(
                    #[trigger] r.grid()[g_index(width as int, x, y)],
                    borders,
                    width as int,
                    height as int,
                    x,
                    y,
                ),
    {
        proof {
            lemma_index_bounds(width as int, height as int, 0, 0);
        }
        let n: usize = (width as usize) * (height as usize);
        let mut items: Vec<Cell> = Vec::new();
        let mut k: usize = 0;
        while k < n
            invariant
                k <= n,
                items@.len() == k,
                1 <= width,
                1 <= height,
                n == (width as int) * (height as int),
                n <= 0x7fff_ffff,
                forall|j: int|
                    0 <= j < k ==> initial_cell_ok(
                        #[trigger] items@[j],
                        borders,
                        width as int,
                        height as int,
                        j % (width as int),
                        j / (width as int),
                    ),
            decreases n - k,
        {
            let xx: usize = k % (width as usize);
            let yy: usize = k / (width as usize);
            proof {
                vstd::arithmetic::div_mod::lemma_fundamental_div_mod(k as int, width as int);
                vstd::arithmetic::div_mod::lemma_mod_bound(k as int, width as int);
                crate::map2d::lemma_div_below_height(width as int, height as int, k as int);
            }
            let x = xx as i32;
            let y = yy as i32;
            let is_ring = x == 0 || x == width - 1 || y == 0 || y == height - 1;
            if borders && is_ring {
                items.push(Cell::new(Species::Border));
            } else {
                items.push(empty_cell());
            }
            k = k + 1;
        }
        let map = Map2d { items, width, height, default: empty_cell() };
        let r = SandApi {
            x: 0,
            y: 0,
            width,
            height,
            borders,
            paused: false,
            map,
            cloned_cells: Zone::new(),
            rng: RandomSource::ambient(),
        };
        proof {
            assert forall|x: int, y: int|
                g_in_bounds(width as int, height as int, x, y) implies initial_cell_ok(
                #[trigger] r.grid()[g_index(width as int, x, y)],
                borders,
                width as int,
                height as int,
                x,
                y,
            ) by {
                lemma_index_bounds(width as int, height as int, x, y);
                crate::map2d::lemma_index_decomp(width as int, x, y);
            }
        }
        r
    }

    /// Resets the instance to its construction-time state, keeping its
    /// dimensions and border configuration.
    pub fn init(&mut self)
        requires
            old(self).inv(),
        ensures
            final(self).inv(),
            final(self).width == old(self).width,
            final(self).height == old(self).height,
            final(self).borders == old(self).borders,
            final(self).paused == false,
            final(self).cloned_cells.slots().len() == 0,
    {
        let w = self.width;
        let h = self.height;
        let b = self.borders;
        proof {
            vstd::arithmetic::mul::lemma_mul_strictly_positive(w as int, h as int);
        }
        *self = SandApi::new(w, h, b);
    }

    /// Fixes the active coordinate against which relative accesses resolve.
    pub fn set_cursor(&mut self, x: i32, y: i32)
        ensures
            *final(self) == (SandApi { x, y, ..*old(self) }),
    {
        self.x = x;
        self.y = y;
    }

    /// The active coordinate.
    pub fn get_cursor(&self) -> (r: (i32, i32))
        ensures
            r.0 == self.x,
            r.1 == self.y,
    {
        (self.x, self.y)
    }

    /// Whether the instance is paused (a paused instance's tick is a no-op).
    pub fn is_paused(&self) -> (r: bool)
        ensures
            r == self.paused,
    {
        self.paused
    }

    /// Flips the pause flag; a paused instance's tick is a no-op.
    pub fn toggle_pause(&mut self)
        ensures
            *final(self) == (SandApi { paused: !old(self).paused, ..*old(self) }),
    {
        self.paused = !self.paused;
    }

    /// Clamped read relative to the cursor. Never fails.
    pub fn get(&self, dx: i32, dy: i32) -> (r: Result<Cell, Error>)
        requires
            self.inv(),
        ensures
            r == Ok::<Cell, Error>(self.at(self.x + dx, self.y + dy)),
    {
        let nx: i64 = self.x as i64 + dx as i64;
        let ny: i64 = self.y as i64 + dy as i64;
        let cx = clamp_exec_i64(nx, self.width as i64) as i32;
        let cy = clamp_exec_i64(ny, self.height as i64) as i32;
        self.map.retrieve(cx, cy)
    }

    /// Guarded write relative to the cursor: dropped silently when the target
    /// is out of range or holds a Border cell. Always reports success.
    pub fn set(&mut self, dx: i32, dy: i32, cell: Cell) -> (r: Result<(), Error>)
        requires
            old(self).inv(),
        ensures
            r is Ok,
            final(self).inv(),
            SandApi::same_frame(old(self), final(self)),
            final(self).cloned_cells == old(self).cloned_cells,
            final(self).rng == old(self).rng,
            final(self).grid() == g_set_guarded(
                old(self).grid(),
                old(self).width as int,
                old(self).height as int,
                old(self).x + dx,
                old(self).y + dy,
                cell,
            ),
            borders_kept(old(self).grid(), final(self).grid()),
    {
        proof {
            lemma_set_guarded_frame(
                old(self).grid(),
                old(self).width as int,
                old(self).height as int,
                old(self).x + dx,
                old(self).y + dy,
                cell,
            );
        }
        let nx: i64 = self.x as i64 + dx as i64;
        let ny: i64 = self.y as i64 + dy as i64;
        if 0 <= nx && nx < self.width as i64 && 0 <= ny && ny < self.height as i64 {
            let xi = nx as i32;
            let yi = ny as i32;
            let cur = match self.map.retrieve(xi, yi) {
                Ok(c) => c,
                Err(e) => return Err(e),
            };
            if !matches!(cur.species, Species::Border) {
                let _ = self.map.set_point(xi, yi, cell);
            }
        }
        Ok(())
    }

    /// Absolute, unguarded write: dropped silently when out of range, used by
    /// painting and the open-boundary pass. Always reports success.
    pub fn set_absolute(&mut self, x: i32, y: i32, cell: Cell) -> (r: Result<(), Error>)
        requires
            old(self).inv(),
        ensures
            r is Ok,
            final(self).inv(),
            SandApi::same_frame(old(self), final(self)),
            final(self).cloned_cells == old(self).cloned_cells,
            final(self).rng == old(self).rng,
            final(self).grid() == g_set_raw(
                old(self).grid(),
                old(self).width as int,
                old(self).height as int,
                x as int,
                y as int,
                cell,
            ),
    {
        let _ = self.map.set_point(x, y, cell);
        Ok(())
    }

    /// Absolute clamped read. Never fails.
    pub fn get_absolute(&self, x: i32, y: i32) -> (r: Result<Cell, Error>)
        requires
            self.inv(),
        ensures
            r == Ok::<Cell, Error>(self.at(x as int, y as int)),
    {
        self.map.retrieve(x, y)
    }

    /// Whether the (clamped) cell at the offset is Empty.
    pub fn is_empty(&self, dx: i32, dy: i32) -> (r: bool)
        requires
            self.inv(),
        ensures
            r == (self.at(self.x + dx, self.y + dy).species == Species::Empty),
    {
        let c = match self.get(dx, dy) {
            Ok(c) => c,
            Err(_) => return false,
        };
        matches!(c.species, Species::Empty)
    }

    /// Exchanges the cursor cell's value with the value at the offset; this
    /// is how movement is implemented, since the grid holds values, not
    /// identities. A Border at either end leaves the grid unchanged.
    pub fn swap(&mut self, dx: i32, dy: i32, cell: Cell) -> (r: Result<(), Error>)
        requires
            old(self).inv(),
        ensures
            r is Ok,
            final(self).inv(),
            SandApi::same_frame(old(self), final(self)),
            final(self).cloned_cells == old(self).cloned_cells,
            final(self).rng == old(self).rng,
            final(self).grid() == g_swap(
                old(self).grid(),
                old(self).width as int,
                old(self).height as int,
                old(self).x as int,
                old(self).y as int,
                dx as int,
                dy as int,
                cell,
            ),
            borders_kept(old(self).grid(), final(self).grid()),
    {
        let other = match self.get(dx, dy) {
            Ok(c) => c,
            Err(e) => return Err(e),
        };
        if matches!(other.species, Species::Border) {
            return Ok(());
        }
        let _ = self.set(0, 0, other);
        let _ = self.set(dx, dy, cell);
        Ok(())
    }

    /// Draws a value below `n` from the instance's randomness source; nothing
    /// but the source changes.
    pub fn rand_below(&mut self, n: u32) -> (r: u32)
        requires
            old(self).inv(),
            n >= 1,
        ensures
            r < n,
            final(self).inv(),
            SandApi::only_rng_differs(old(self), final(self)),
    {
        self.rng.below(n)
    }

    /// One biased coin flip (true with probability `num / den` under a
    /// uniform source); nothing but the source changes.
    pub fn rand_chance(&mut self, num: u32, den: u32) -> (r: bool)
        requires
            old(self).inv(),
            den >= 1,
        ensures
            final(self).inv(),
            SandApi::only_rng_differs(old(self), final(self)),
    {
        self.rng.chance(num, den)
    }

    /// Registers a species in the clone registry, returning its identifier
    /// (None only when the registry is full to its ceiling).
    pub fn store_cloned_cell(&mut self, species: Species) -> (r: Option<crate::cell::CloneId>)
        requires
            old(self).inv(),
        ensures
            final(self).inv(),
            SandApi::same_frame(old(self), final(self)),
            final(self).map == old(self).map,
            final(self).rng == old(self).rng,
            r matches Some(id) ==> {
                let i = id as int;
                &&& 0 <= i < final(self).cloned_cells.slots().len()
                &&& final(self).cloned_cells.slots()[i] == Some(species)
                &&& forall|j: int| 0 <= j < i ==> old(self).cloned_cells.slots()[j] is Some
                &&& if i < old(self).cloned_cells.slots().len() {
                    &&& old(self).cloned_cells.slots()[i] is None
                    &&& final(self).cloned_cells.slots() == old(self).cloned_cells.slots().update(
                        i,
                        Some(species),
                    )
                } else {
                    &&& i == old(self).cloned_cells.slots().len()
                    &&& final(self).cloned_cells.slots() == old(self).cloned_cells.slots().push(
                        Some(species),
                    )
                }
            },
            r is None ==> {
                &&& final(self).cloned_cells.slots() == old(self).cloned_cells.slots()
                &&& old(self).cloned_cells.slots().len() == crate::zone::ZONE_CAPACITY
                &&& forall|j: int|
                    0 <= j < old(self).cloned_cells.slots().len() ==> old(
                        self,
                    ).cloned_cells.slots()[j] is Some
            },
    {
        self.cloned_cells.insert(species)
    }

    /// Resolves a clone-registry identifier to a fresh cell of the remembered
    /// species; None when the identifier is dangling (no such slot, or the
    /// slot has been freed).
    pub fn get_cloned_cell(&self, id: crate::cell::CloneId) -> (r: Option<Cell>)
        requires
            self.inv(),
        ensures
            r is Some <==> ((id as int) < self.cloned_cells.slots().len()
                && self.cloned_cells.slots()[id as int] is Some),
            r matches Some(c) ==> {
                &&& self.cloned_cells.slots()[id as int] == Some(c.species)
                &&& c.clock == false
                &&& c.heat == c.species.spec_starting_temp()
            },
    {
        if (id as usize) < self.cloned_cells.len() {
            match self.cloned_cells.get(id) {
                Some(species) => Some(Cell::new(*species)),
                None => None,
            }
        } else {
            None
        }
    }

    /// The heat-diffusion step for the cursor cell, run before its species
    /// rule. Empty, Border and Clone cells take no part (exact: the instance
    /// is untouched). Otherwise: flammable material ignites at the two
    /// thresholds (BlueFire at 3000, Fire at 800); the eight neighbors are
    /// scanned in order, a ten-unit transfer forced onto each non-inert one
    /// the cursor currently exceeds by more than the margin (the pair
    /// conserved), a one-unit shave possible only at exactly equal heats;
    /// and an isolated cursor drifts toward its species' ambient temperature
    /// (exact).
    pub fn update_heat(&mut self) -> (r: Result<(), Error>)
        requires
            old(self).inv(),
        ensures
            r is Ok,
            final(self).inv(),
            SandApi::same_frame(old(self), final(self)),
            final(self).cloned_cells == old(self).cloned_cells,
            final(self).grid().len() == old(self).grid().len(),
            borders_kept(old(self).grid(), final(self).grid()),
            unchanged_outside(
                old(self).grid(),
                final(self).grid(),
                old(self).width as int,
                old(self).height as int,
                old(self).x as int,
                old(self).y as int,
                1,
            ),
            heat_skipped(old(self).at(old(self).x as int, old(self).y as int).species)
                ==> *final(self) == *old(self),
            ({
                let w = old(self).width as int;
                let h = old(self).height as int;
                let x = old(self).x as int;
                let y = old(self).y as int;
                let c0 = crate::cell::spec_ignite(old(self).at(x, y));
                !heat_skipped(old(self).at(x, y).species) ==> exists|hs: Seq<i16>|
                    {
                        &&& #[trigger] heat_trace_ok(old(self).grid(), final(self).grid(), w, h, x, y, hs)
                        &&& hs[0] == c0.heat
                        &&& ((g_in_bounds(w, h, x, y) && !heat_isolated(old(self).grid(), w, h, x, y))
                            ==> final(self).grid()[g_index(w, x, y)]
                            == crate::cell::spec_with_heat(c0, hs[8]))
                    }
            }),
            ({
                let w = old(self).width as int;
                let h = old(self).height as int;
                let x = old(self).x as int;
                let y = old(self).y as int;
                let c0 = crate::cell::spec_ignite(old(self).at(x, y));
                (!heat_skipped(old(self).at(x, y).species) && heat_isolated(
                    old(self).grid(),
                    w,
                    h,
                    x,
                    y,
                ) && g_in_bounds(w, h, x, y))
                    ==> final(self).grid() == g_set_guarded(
                    old(self).grid(),
                    w,
                    h,
                    x,
                    y,
                    crate::cell::spec_ambient_drift(c0),
                )
            }),
    {
        let ghost pre = *self;
        let ghost w = pre.width as int;
        let ghost h = pre.height as int;
        let ghost cx = pre.x as int;
        let ghost cy = pre.y as int;
        let mut cell = self.get(0, 0)?;
        if matches!(cell.species, Species::Empty | Species::Clone(_) | Species::Border) {
            return Ok(());
        }
        if cell.is_flammable() {
            if cell.heat >= 3000 {
                cell.species = Species::BlueFire;
            } else if cell.heat >= 800 {
                cell.species = Species::Fire;
            }
        }
        let ghost c0 = cell;
        proof {
            assert(c0 == crate::cell::spec_ignite(pre.at(cx, cy)));
        }
        let mut alone = true;
        let neighbors = self.neighbors()?;
        let ghost mut hs: Seq<i16> = seq![c0.heat];
        let mut k: usize = 0;
        while k < 8
            invariant
                self.inv(),
                pre.inv(),
                pre == *old(self),
                k <= 8,
                SandApi::same_frame(&pre, self),
                self.cloned_cells == pre.cloned_cells,
                self.grid().len() == pre.grid().len(),
                borders_kept(pre.grid(), self.grid()),
                unchanged_outside(pre.grid(), self.grid(), w, h, cx, cy, 1),
                w == pre.width as int,
                h == pre.height as int,
                cx == pre.x as int,
                cy == pre.y as int,
                neighbors@.len() == 8,
                forall|j: int|
                    0 <= j < 8 ==> (#[trigger] neighbors@[j]).dx == neighbor_dx(j)
                        && neighbors@[j].dy == neighbor_dy(j) && neighbors@[j].cell == g_at(
                        pre.grid(),
                        w,
                        h,
                        cx + neighbor_dx(j),
                        cy + neighbor_dy(j),
                    ),
                cell.species == c0.species,
                cell.clock == c0.clock,
                cell.grain == c0.grain,
                hs.len() == k + 1,
                hs[0] == c0.heat,
                hs[k as int] == cell.heat,
                forall|j: int|
                    0 <= j < k ==> {
                        let a = g_at(pre.grid(), w, h, cx + neighbor_dx(j), cy + neighbor_dy(j));
                        &&& (heat_inert(a.species) ==> (#[trigger] hs[j + 1]) == hs[j])
                        &&& (!heat_inert(a.species) && hs[j] > a.heat + 10 ==> hs[j + 1]
                            == crate::cell::sat_heat(hs[j] - 10))
                        &&& (!heat_inert(a.species) && hs[j] == a.heat ==> (hs[j + 1] == hs[j]
                            || hs[j + 1] == crate::cell::sat_heat(hs[j] - 1)))
                        &&& (!heat_inert(a.species) && hs[j] <= a.heat + 10 && hs[j] != a.heat
                            ==> hs[j + 1] == hs[j])
                    },
                forall|j: int|
                    0 <= j < k && g_in_bounds(w, h, cx + neighbor_dx(j), cy + neighbor_dy(j))
                        ==> {
                        let a = g_at(pre.grid(), w, h, cx + neighbor_dx(j), cy + neighbor_dy(j));
                        let b = (#[trigger] self.grid()[g_index(
                            w,
                            cx + neighbor_dx(j),
                            cy + neighbor_dy(j),
                        )]);
                        &&& (heat_inert(a.species) ==> b == a)
                        &&& (!heat_inert(a.species) && hs[j] > a.heat + 10 ==> b
                            == crate::cell::spec_with_heat(
                            a,
                            crate::cell::sat_heat(a.heat + 10),
                        ))
                        &&& (!heat_inert(a.species) && hs[j] == a.heat ==> ((hs[j + 1] == hs[j]
                            && b == a) || (hs[j + 1] == crate::cell::sat_heat(hs[j] - 1) && b
                            == crate::cell::spec_with_heat(
                            a,
                            crate::cell::sat_heat(a.heat - 1),
                        ))))
                        &&& (!heat_inert(a.species) && hs[j] <= a.heat + 10 && hs[j] != a.heat
                            ==> b == a)
                    },
                forall|j: int|
                    k <= j < 8 && g_in_bounds(w, h, cx + neighbor_dx(j), cy + neighbor_dy(j))
                        ==> (#[trigger] self.grid()[g_index(
                        w,
                        cx + neighbor_dx(j),
                        cy + neighbor_dy(j),
                    )]) == g_at(pre.grid(), w, h, cx + neighbor_dx(j), cy + neighbor_dy(j)),
                alone ==> forall|j: int|
                    0 <= j < k ==> heat_inert((#[trigger] neighbors@[j]).cell.species),
                heat_isolated(pre.grid(), w, h, cx, cy) ==> alone && cell == c0 && self.grid()
                    == pre.grid() && self.rng == pre.rng,
                g_in_bounds(w, h, cx, cy) ==> self.grid()[g_index(w, cx, cy)]
                    == pre.grid()[g_index(w, cx, cy)],
            decreases 8 - k,
        {
            let n = neighbors[k];
            let mut neighbor = n.cell;
            if !matches!(neighbor.species, Species::Empty | Species::Border) {
                alone = false;
                let mut changed = false;
                if (cell.heat as i32) > (neighbor.heat as i32) + 10 {
                    cell.heat = crate::cell::heat_sub(cell.heat, 10);
                    neighbor.heat = crate::cell::heat_add(neighbor.heat, 10);
                    changed = true;
                } else if cell.heat == neighbor.heat {
                    if self.rand_chance(40, 100) {
                        cell.heat = crate::cell::heat_sub(cell.heat, 1);
                        neighbor.heat = crate::cell::heat_sub(neighbor.heat, 1);
                        changed = true;
                    }
                }
                if changed {
                    let ghost mid = *self;
                    self.set(n.dx, n.dy, neighbor)?;
                    proof {
                        lemma_borders_trans(pre.grid(), mid.grid(), self.grid());
                        lemma_heat_exchange_step(
                            pre.grid(),
                            mid.grid(),
                            self.grid(),
                            w,
                            h,
                            cx,
                            cy,
                            k as int,
                            neighbor,
                        );
                        hs = hs.push(cell.heat);
                        assert(neighbor_dx(k as int) != 0 || neighbor_dy(k as int) != 0);
                        assert forall|j: int|
                            0 <= j < k && g_in_bounds(
                                w,
                                h,
                                cx + neighbor_dx(j),
                                cy + neighbor_dy(j),
                            ) implies (#[trigger] self.grid()[g_index(
                            w,
                            cx + neighbor_dx(j),
                            cy + neighbor_dy(j),
                        )]) == mid.grid()[g_index(w, cx + neighbor_dx(j), cy + neighbor_dy(j))] by {
                            crate::map2d::lemma_index_bounds(
                                w,
                                h,
                                cx + neighbor_dx(j),
                                cy + neighbor_dy(j),
                            );
                            crate::rules::lemma_neighbor_offsets_distinct(j, k as int);
                        }
                        assert forall|j: int|
                            k as int + 1 <= j < 8 && g_in_bounds(
                                w,
                                h,
                                cx + neighbor_dx(j),
                                cy + neighbor_dy(j),
                            ) implies (#[trigger] self.grid()[g_index(
                            w,
                            cx + neighbor_dx(j),
                            cy + neighbor_dy(j),
                        )]) == mid.grid()[g_index(w, cx + neighbor_dx(j), cy + neighbor_dy(j))] by {
                            crate::map2d::lemma_index_bounds(
                                w,
                                h,
                                cx + neighbor_dx(j),
                                cy + neighbor_dy(j),
                            );
                            crate::rules::lemma_neighbor_offsets_distinct(j, k as int);
                        }
                    }
                } else {
                    proof {
                        hs = hs.push(cell.heat);
                    }
                }
            } else {
                proof {
                    hs = hs.push(cell.heat);
                }
            }
            k = k + 1;
        }
        proof {
            // a full scan that stayed alone means every neighbor reads Empty
            // or Border, i.e. isolation
            if alone {
                assert forall|k2: int| 0 <= k2 < 8 implies heat_inert(
                    (#[trigger] g_at(
                        pre.grid(),
                        w,
                        h,
                        cx + neighbor_dx(k2),
                        cy + neighbor_dy(k2),
                    )).species,
                ) by {
                    assert(heat_inert(neighbors@[k2].cell.species));
                }
                assert(heat_isolated(pre.grid(), w, h, cx, cy));
            }
        }
        if alone && cell.heat > cell.species.starting_temp() {
            cell.heat = crate::cell::heat_sub(cell.heat, 3);
        } else if alone && cell.heat < cell.species.starting_temp() {
            cell.heat = crate::cell::heat_add(cell.heat, 1);
        }
        proof {
            if heat_isolated(pre.grid(), w, h, cx, cy) {
                assert(cell == crate::cell::spec_ambient_drift(c0));
            }
        }
        let ghost mid2 = *self;
        let res = self.set(0, 0, cell);
        proof {
            lemma_borders_trans(pre.grid(), mid2.grid(), self.grid());
            lemma_set_guarded_frame(mid2.grid(), w, h, cx, cy, cell);
            assert forall|j: int|
                0 <= j < 8 && g_in_bounds(w, h, cx + neighbor_dx(j), cy + neighbor_dy(j))
                implies (#[trigger] self.grid()[g_index(
                w,
                cx + neighbor_dx(j),
                cy + neighbor_dy(j),
            )]) == mid2.grid()[g_index(w, cx + neighbor_dx(j), cy + neighbor_dy(j))] by {
                crate::map2d::lemma_index_bounds(w, h, cx + neighbor_dx(j), cy + neighbor_dy(j));
                assert(neighbor_dx(j) != 0 || neighbor_dy(j) != 0);
            }
            if !heat_skipped(pre.at(cx, cy).species) {
                assert(heat_trace_ok(pre.grid(), self.grid(), w, h, cx, cy, hs));
                if g_in_bounds(w, h, cx, cy) {
                    crate::map2d::lemma_index_bounds(w, h, cx, cy);
                    assert(mid2.grid()[g_index(w, cx, cy)] == pre.grid()[g_index(w, cx, cy)]);
                    assert(self.grid()[g_index(w, cx, cy)] == cell);
                    if !heat_isolated(pre.grid(), w, h, cx, cy) {
                        assert(!alone);
                        assert(cell == crate::cell::spec_with_heat(c0, hs[8]));
                    }
                }
            }
        }
        res
    }

    /// The species step for the cursor cell: skipped (the instance untouched)
    /// when the cell is already clocked this tick, holds the Empty species,
    /// or is a Border cell; otherwise the cell is marked processed (clock set
    /// on the value handed to the rule), may melt into Lava under extreme
    /// heat, and is dispatched to exactly one species rule. The deterministic
    /// phase transitions are carried through: water boils and freezes, ice
    /// melts, salt water boils off, cool fire goes out.
    pub fn update_cell(&mut self) -> (r: Result<(), Error>)
        requires
            old(self).inv(),
        ensures
            r is Ok,
            final(self).inv(),
            SandApi::same_frame(old(self), final(self)),
            final(self).grid().len() == old(self).grid().len(),
            borders_kept(old(self).grid(), final(self).grid()),
            ({
                let c = old(self).at(old(self).x as int, old(self).y as int);
                (c.clock || c.species == Species::Empty || c.species == Species::Border)
                    ==> *final(self) == *old(self)
            }),
            ({
                let w = old(self).width as int;
                let h = old(self).height as int;
                let x = old(self).x as int;
                let y = old(self).y as int;
                let c = old(self).at(x, y);
                let rc = crate::cell::spec_clocked(c);
                g_in_bounds(w, h, x, y) && !c.clock ==> {
                    &&& (c.species == Species::Water && c.heat >= 100) ==> final(self).grid()
                        == g_set_guarded(
                        old(self).grid(),
                        w,
                        h,
                        x,
                        y,
                        rc.spec_with_species(Species::Steam),
                    )
                    &&& (c.species == Species::Water && c.heat <= 0) ==> final(self).grid()
                        == g_set_guarded(
                        old(self).grid(),
                        w,
                        h,
                        x,
                        y,
                        rc.spec_with_species(Species::Ice),
                    )
                    &&& (c.species == Species::Ice && c.heat > 0) ==> final(self).grid()
                        == g_set_guarded(
                        old(self).grid(),
                        w,
                        h,
                        x,
                        y,
                        rc.spec_with_species(Species::Water),
                    )
                    &&& (c.species == Species::Ice && c.heat <= 0) ==> final(self).grid()
                        == old(self).grid() && final(self).cloned_cells == old(
                        self,
                    ).cloned_cells && final(self).rng == old(self).rng
                    &&& (c.species == Species::SaltWater && c.heat >= 101) ==> final(self).grid()
                        == g_set_guarded(
                        g_set_guarded(
                            old(self).grid(),
                            w,
                            h,
                            x,
                            y - 1,
                            rc.spec_with_species(Species::Steam),
                        ),
                        w,
                        h,
                        x,
                        y,
                        rc.spec_with_species(Species::Salt),
                    )
                    &&& ((c.species == Species::Fire || c.species == Species::BlueFire)
                        && c.heat < 600) ==> final(self).grid() == g_set_guarded(
                        old(self).grid(),
                        w,
                        h,
                        x,
                        y,
                        spec_empty(),
                    )
                    &&& (c.species != Species::Empty && c.species != Species::Border
                        && c.spec_turns_to_lava() && c.heat > 1600) ==> melt_outcome(
                        *old(self),
                        *final(self),
                        c,
                    )
                }
            }),
    {
        let ghost pre = *self;
        let mut cell = self.get(0, 0)?;
        if cell.clock || cell == crate::cell::empty_cell() || matches!(
            cell.species,
            Species::Border,
        ) {
            return Ok(());
        }
        if matches!(cell.species, Species::Empty) {
            // an Empty cell with stray heat or grain: no rule applies
            return Ok(());
        }
        cell.clock = true;
        proof {
            assert(cell == crate::cell::spec_clocked(pre.at(pre.x as int, pre.y as int)));
        }

        if cell.turns_to_lava() && cell.heat > 1600 {
            if self.rand_below(100) < 5 {
                cell.species = Species::Lava;
                self.set(0, 0, cell)?;
            }
        }
        let ghost mid = *self;
        proof {
            assert(melt_mid_ok(pre, mid));
        }
        let res = match cell.species {
            Species::Sand => crate::rules::update_sand(self, cell),
            Species::Water => crate::rules::update_water(self, cell),
            Species::Mud(_) => crate::rules::update_mud(self, cell),
            Species::Acid => crate::rules::update_acid(self, cell),
            Species::Grass => crate::rules::update_grass(self, cell),
            Species::Soil => crate::rules::update_soil(self, cell),
            Species::GrassTip => crate::rules::update_grass_tip(self, cell),
            Species::Flower(_) => crate::rules::update_flower(self, cell),
            Species::WaterGrass(_) => crate::rules::update_water_grass(self, cell),
            Species::Lava => crate::rules::update_lava(self, cell),
            Species::Steam => crate::rules::update_steam(self, cell),
            Species::Salt => crate::rules::update_salt(self, cell),
            Species::SaltWater => crate::rules::update_salt_water(self, cell),
            Species::Fire => crate::rules::update_fire(self, cell),
            Species::BlueFire => crate::rules::update_fire(self, cell),
            Species::Ice => crate::rules::update_ice(self, cell),
            Species::Clone(_) => crate::rules::update_clone(self, cell),
            _ => Ok(()),
        };
        proof {
            lemma_borders_trans(pre.grid(), mid.grid(), self.grid());
            let c = pre.at(pre.x as int, pre.y as int);
            if g_in_bounds(pre.width as int, pre.height as int, pre.x as int, pre.y as int)
                && !c.clock && c.species != Species::Empty && c.species != Species::Border
                && c.spec_turns_to_lava() && c.heat > 1600 {
                assert(melt_outcome(pre, *self, c));
            }
        }
        res
    }

    /// One full simulation tick. A paused instance does nothing. Otherwise:
    /// sweep every coordinate in serpentine order (scan direction alternates
    /// by row parity), running the heat step and then the species step at
    /// each; clear every cell's clock flag; free every clone-registry slot no
    /// Clone cell references any more; and, when borders are disabled, force
    /// the outer ring back to Empty (open-boundary mode).
    ///
    /// The contract carries the tick's global guarantees: after an unpaused
    /// tick no cell is left clocked; with borders enabled every Border cell
    /// keeps its species and every occupied registry slot is still
    /// referenced; with borders disabled the outer ring ends Empty; and a
    /// sole interior Water cell past the boil threshold is Steam afterwards.
    pub fn update(&mut self) -> (r: Result<(), Error>)
        requires
            old(self).inv(),
        ensures
            r is Ok,
            final(self).inv(),
            final(self).width == old(self).width,
            final(self).height == old(self).height,
            final(self).borders == old(self).borders,
            final(self).paused == old(self).paused,
            final(self).grid().len() == old(self).grid().len(),
            old(self).paused ==> *final(self) == *old(self),
            !old(self).paused ==> final(self).x == 0 && final(self).y == 0,
            !old(self).paused ==> forall|i: int|
                0 <= i < final(self).grid().len() ==> !(#[trigger] final(self).grid()[i]).clock,
            old(self).borders ==> borders_kept(old(self).grid(), final(self).grid()),
            !old(self).paused && old(self).borders ==> zone_gc_clean(*final(self)),
            !old(self).paused && !old(self).borders ==> forall|x: int, y: int|
                g_in_bounds(old(self).width as int, old(self).height as int, x, y) && on_ring(
                    old(self).width as int,
                    old(self).height as int,
                    x,
                    y,
                ) ==> (#[trigger] final(self).grid()[g_index(old(self).width as int, x, y)])
                    == spec_empty(),
            !old(self).paused ==> forall|px: int, py: int|
                sole_boiling_water(*old(self), px, py) ==> (#[trigger] final(self).grid()[g_index(
                    old(self).width as int,
                    px,
                    py,
                )]) == spec_unclock(
                    boiled_cell(old(self).grid()[g_index(old(self).width as int, px, py)]),
                ),
    {
        if self.paused {
            return Ok(());
        }
        let ghost pre = *self;
        let ghost w = pre.width as int;
        let ghost h = pre.height as int;
        let width = self.width;
        let height = self.height;

        // sweep, serpentine: bottom row first, direction alternating by parity
        let mut yy: i32 = height;
        while yy > 0
            invariant
                self.inv(),
                pre.inv(),
                pre == *old(self),
                0 <= yy <= height,
                width == pre.width,
                height == pre.height,
                w == pre.width as int,
                h == pre.height as int,
                self.width == pre.width,
                self.height == pre.height,
                self.borders == pre.borders,
                self.paused == pre.paused,
                self.map.default == pre.map.default,
                self.grid().len() == pre.grid().len(),
                borders_kept(pre.grid(), self.grid()),
                forall|px: int, py: int|
                    #![trigger sole_boiling_water(pre, px, py)]
                    sole_boiling_water(pre, px, py) ==> if py >= yy {
                        self.grid() == pre.grid().update(
                            g_index(w, px, py),
                            boiled_cell(pre.grid()[g_index(w, px, py)]),
                        )
                    } else {
                        self.grid() == pre.grid()
                    },
            decreases yy,
        {
            yy = yy - 1;
            let mut xi: i32 = 0;
            while xi < width
                invariant
                    self.inv(),
                    pre.inv(),
                    pre == *old(self),
                    0 <= xi <= width,
                    0 <= yy < height,
                    width == pre.width,
                    height == pre.height,
                    w == pre.width as int,
                    h == pre.height as int,
                    self.width == pre.width,
                    self.height == pre.height,
                    self.borders == pre.borders,
                    self.paused == pre.paused,
                    self.map.default == pre.map.default,
                    self.grid().len() == pre.grid().len(),
                    borders_kept(pre.grid(), self.grid()),
                    forall|px: int, py: int|
                        #![trigger sole_boiling_water(pre, px, py)]
                        sole_boiling_water(pre, px, py) ==> if py > yy || (py == yy && (if yy % 2
                            == 0 {
                            px > width - 1 - xi
                        } else {
                            px < xi as int
                        })) {
                            self.grid() == pre.grid().update(
                                g_index(w, px, py),
                                boiled_cell(pre.grid()[g_index(w, px, py)]),
                            )
                        } else {
                            self.grid() == pre.grid()
                        },
                decreases width - xi,
            {
                let xx = if yy % 2 == 0 {
                    width - 1 - xi
                } else {
                    xi
                };
                self.set_cursor(xx, yy);
                let ghost g0 = *self;
                self.update_heat()?;
                let ghost g1 = *self;
                self.update_cell()?;
                proof {
                    lemma_borders_trans(pre.grid(), g0.grid(), g1.grid());
                    lemma_borders_trans(pre.grid(), g1.grid(), self.grid());
                    assert forall|px: int, py: int|
                        #![trigger sole_boiling_water(pre, px, py)]
                        sole_boiling_water(pre, px, py) implies if py > yy || (py == yy && (if yy
                            % 2 == 0 {
                            px > width - 1 - xi - 1
                        } else {
                            px < xi + 1
                        })) {
                        self.grid() == pre.grid().update(
                            g_index(w, px, py),
                            boiled_cell(pre.grid()[g_index(w, px, py)]),
                        )
                    } else {
                        self.grid() == pre.grid()
                    } by {
                        lemma_index_bounds(w, h, px, py);
                        let c = pre.grid()[g_index(w, px, py)];
                        if px == xx as int && py == yy as int {
                            // this very iteration processed the sole active
                            // cell: the heat step cooled it by the isolated
                            // drift, the species step boiled it
                            assert forall|k: int| 0 <= k < 8 implies heat_inert(
                                (#[trigger] g_at(
                                    g0.grid(),
                                    w,
                                    h,
                                    px + neighbor_dx(k),
                                    py + neighbor_dy(k),
                                )).species,
                            ) by {
                                lemma_index_bounds(w, h, px + neighbor_dx(k), py + neighbor_dy(k));
                            }
                            assert(heat_isolated(g0.grid(), w, h, px, py));
                            assert(g0.at(px, py) == c);
                            assert(crate::cell::spec_ignite(c) == c);
                            assert(g1.grid() == g_set_guarded(
                                g0.grid(),
                                w,
                                h,
                                px,
                                py,
                                crate::cell::spec_ambient_drift(c),
                            ));
                            let cd = crate::cell::spec_ambient_drift(c);
                            assert(g1.grid() == g0.grid().update(g_index(w, px, py), cd));
                            assert(g1.at(px, py) == cd);
                            assert(cd.species == Species::Water && cd.heat == c.heat - 3
                                && !cd.clock);
                            assert(self.grid() == g_set_guarded(
                                g1.grid(),
                                w,
                                h,
                                px,
                                py,
                                crate::cell::spec_clocked(cd).spec_with_species(Species::Steam),
                            ));
                            assert(self.grid() == g1.grid().update(
                                g_index(w, px, py),
                                boiled_cell(c),
                            ));
                            assert(self.grid() =~= pre.grid().update(
                                g_index(w, px, py),
                                boiled_cell(c),
                            ));
                        } else {
                            // the cursor holds an Empty or Border cell, in
                            // both the untouched and the already-boiled grid
                            lemma_index_bounds(w, h, xx as int, yy as int);
                            if g_index(w, xx as int, yy as int) == g_index(w, px, py) {
                                lemma_index_injective(w, xx as int, yy as int, px, py);
                            }
                            assert(heat_inert(g0.grid()[g_index(w, xx as int, yy as int)].species));
                            assert(g0.at(xx as int, yy as int) == g0.grid()[g_index(
                                w,
                                xx as int,
                                yy as int,
                            )]);
                            assert(g1 == g0) by {
                                assert(heat_skipped(g0.at(g0.x as int, g0.y as int).species));
                            }
                            assert(*self == g1) by {
                                let cc = g1.at(g1.x as int, g1.y as int);
                                assert(cc.species == Species::Empty || cc.species
                                    == Species::Border);
                            }
                        }
                    }
                }
                xi = xi + 1;
            }
        }

        // reset pass: restore the per-tick invariant that no clock is set
        let ghost sweep_end = *self;
        let n = self.map.items.len();
        let mut i: usize = 0;
        while i < n
            invariant
                self.inv(),
                sweep_end.inv(),
                i <= n,
                n == self.grid().len(),
                self.x == sweep_end.x,
                self.y == sweep_end.y,
                self.width == sweep_end.width,
                self.height == sweep_end.height,
                self.borders == sweep_end.borders,
                self.paused == sweep_end.paused,
                self.map.width == sweep_end.map.width,
                self.map.height == sweep_end.map.height,
                self.map.default == sweep_end.map.default,
                self.cloned_cells == sweep_end.cloned_cells,
                self.grid().len() == sweep_end.grid().len(),
                forall|j: int|
                    0 <= j < i ==> (#[trigger] self.grid()[j]) == spec_unclock(
                        sweep_end.grid()[j],
                    ),
                forall|j: int| i <= j < n ==> (#[trigger] self.grid()[j]) == sweep_end.grid()[j],
            decreases n - i,
        {
            let mut c = self.map.items[i];
            c.clock = false;
            let slot = &mut self.map.items[i];
            *slot = c;
            i = i + 1;
        }
        self.x = 0;
        self.y = 0;
        proof {
            assert forall|j: int|
                0 <= j < sweep_end.grid().len() && sweep_end.grid()[j].species == Species::Border
                implies self.grid()[j].species == Species::Border by {}
            lemma_borders_trans(pre.grid(), sweep_end.grid(), self.grid());
            assert forall|q: int|
                0 <= q < self.grid().len() implies !(#[trigger] self.grid()[q]).clock by {}
        }

        // registry sweep: collect every identifier some Clone cell still holds
        let ghost reset_end = *self;
        let mut clone_ids: Vec<u16> = Vec::new();
        let mut j: usize = 0;
        while j < n
            invariant
                self.inv(),
                *self == reset_end,
                j <= n,
                n == self.grid().len(),
                forall|t: int|
                    0 <= t < clone_ids@.len() ==> referenced(
                        self.grid(),
                        #[trigger] clone_ids@[t],
                    ),
            decreases n - j,
        {
            let c = self.map.items[j];
            if let Species::Clone(opt) = c.species {
                if let Some(id) = opt {
                    clone_ids.push(id);
                    proof {
                        assert(self.grid()[j as int].species == Species::Clone(Some(id)));
                        assert(referenced(self.grid(), id));
                    }
                }
            }
            j = j + 1;
        }

        // free every slot no Clone cell references any more
        let zlen = self.cloned_cells.len();
        let mut si: usize = 0;
        while si < zlen
            invariant
                self.inv(),
                reset_end.inv(),
                si <= zlen,
                zlen <= 32767,
                zlen == self.cloned_cells.slots().len(),
                self.map == reset_end.map,
                self.x == reset_end.x,
                self.y == reset_end.y,
                self.width == reset_end.width,
                self.height == reset_end.height,
                self.borders == reset_end.borders,
                self.paused == reset_end.paused,
                self.rng == reset_end.rng,
                forall|t: int|
                    0 <= t < clone_ids@.len() ==> referenced(
                        self.grid(),
                        #[trigger] clone_ids@[t],
                    ),
                forall|id: int|
                    0 <= id < si && (#[trigger] self.cloned_cells.slots()[id]) is Some
                        ==> referenced(self.grid(), id as u16),
            decreases zlen - si,
        {
            if !contains_id(&clone_ids, si as u16) {
                let _ = self.cloned_cells.remove(si as u16);
            } else {
                proof {
                    let t = choose|t: int|
                        0 <= t < clone_ids@.len() && clone_ids@[t] == si as u16;
                    assert(referenced(self.grid(), si as u16));
                }
            }
            si = si + 1;
        }

        // open-boundary mode: force the outer ring back to Empty every tick
        if !self.borders {
            let ghost gc_end = *self;
            let mut ry: i32 = 0;
            while ry < height
                invariant
                    self.inv(),
                    gc_end.inv(),
                    0 <= ry <= height,
                    height == self.height,
                    width == self.width,
                    w == self.width as int,
                    h == self.height as int,
                    self.x == gc_end.x,
                    self.y == gc_end.y,
                    self.borders == gc_end.borders,
                    self.paused == gc_end.paused,
                    self.map.default == gc_end.map.default,
                    self.cloned_cells == gc_end.cloned_cells,
                    self.grid().len() == gc_end.grid().len(),
                    forall|q: int|
                        0 <= q < self.grid().len() && !(#[trigger] gc_end.grid()[q]).clock
                            ==> !self.grid()[q].clock,
                    forall|qx: int, qy: int|
                        g_in_bounds(w, h, qx, qy) && (qx == 0 || qx == w - 1) && qy < ry
                            ==> (#[trigger] self.grid()[g_index(w, qx, qy)]) == spec_empty(),
                    forall|qx: int, qy: int|
                        g_in_bounds(w, h, qx, qy) && !(qx == 0 || qx == w - 1)
                            ==> (#[trigger] self.grid()[g_index(w, qx, qy)]) == gc_end.grid()[g_index(
                            w,
                            qx,
                            qy,
                        )],
                decreases height - ry,
            {
                proof {
                    lemma_index_bounds(w, h, 0, ry as int);
                    lemma_index_bounds(w, h, w - 1, ry as int);
                    lemma_set_raw_frame(self.grid(), w, h, 0, ry as int, spec_empty());
                }
                self.set_absolute(0, ry, crate::cell::empty_cell())?;
                proof {
                    lemma_set_raw_frame(self.grid(), w, h, w - 1, ry as int, spec_empty());
                }
                self.set_absolute(width - 1, ry, crate::cell::empty_cell())?;
                proof {
                    assert forall|qx: int, qy: int|
                        g_in_bounds(w, h, qx, qy) && (qx == 0 || qx == w - 1) && qy < ry + 1
                        implies (#[trigger] self.grid()[g_index(w, qx, qy)]) == spec_empty() by {
                        lemma_index_bounds(w, h, qx, qy);
                        if g_index(w, qx, qy) == g_index(w, 0, ry as int) {
                            lemma_index_injective(w, qx, qy, 0, ry as int);
                        }
                        if g_index(w, qx, qy) == g_index(w, w - 1, ry as int) {
                            lemma_index_injective(w, qx, qy, w - 1, ry as int);
                        }
                    }
                }
                ry = ry + 1;
            }
            let ghost sides_end = *self;
            let mut rx: i32 = 0;
            while rx < width
                invariant
                    self.inv(),
                    sides_end.inv(),
                    gc_end.inv(),
                    0 <= rx <= width,
                    height == self.height,
                    width == self.width,
                    w == self.width as int,
                    h == self.height as int,
                    self.x == sides_end.x,
                    self.y == sides_end.y,
                    self.borders == sides_end.borders,
                    self.paused == sides_end.paused,
                    self.map.default == sides_end.map.default,
                    self.cloned_cells == sides_end.cloned_cells,
                    self.grid().len() == sides_end.grid().len(),
                    forall|q: int|
                        0 <= q < self.grid().len() && !(#[trigger] sides_end.grid()[q]).clock
                            ==> !self.grid()[q].clock,
                    forall|q: int|
                        0 <= q < sides_end.grid().len() && !(#[trigger] gc_end.grid()[q]).clock
                            ==> !sides_end.grid()[q].clock,
                    forall|qx: int, qy: int|
                        g_in_bounds(w, h, qx, qy) && (qx == 0 || qx == w - 1)
                            ==> (#[trigger] sides_end.grid()[g_index(w, qx, qy)]) == spec_empty(),
                    forall|qx: int, qy: int|
                        g_in_bounds(w, h, qx, qy) && (qx == 0 || qx == w - 1)
                            ==> (#[trigger] self.grid()[g_index(w, qx, qy)]) == spec_empty(),
                    forall|qx: int, qy: int|
                        g_in_bounds(w, h, qx, qy) && (qy == 0 || qy == h - 1) && qx < rx
                            ==> (#[trigger] self.grid()[g_index(w, qx, qy)]) == spec_empty(),
                decreases width - rx,
            {
                proof {
                    lemma_index_bounds(w, h, rx as int, 0);
                    lemma_index_bounds(w, h, rx as int, h - 1);
                    lemma_set_raw_frame(self.grid(), w, h, rx as int, 0, spec_empty());
                }
                self.set_absolute(rx, 0, crate::cell::empty_cell())?;
                proof {
                    lemma_set_raw_frame(self.grid(), w, h, rx as int, h - 1, spec_empty());
                }
                self.set_absolute(rx, height - 1, crate::cell::empty_cell())?;
                proof {
                    assert forall|qx: int, qy: int|
                        g_in_bounds(w, h, qx, qy) && ((qx == 0 || qx == w - 1) || ((qy == 0 || qy
                            == h - 1) && qx < rx + 1)) implies (#[trigger] self.grid()[g_index(
                        w,
                        qx,
                        qy,
                    )]) == spec_empty() by {
                        lemma_index_bounds(w, h, qx, qy);
                        if g_index(w, qx, qy) == g_index(w, rx as int, 0) {
                            lemma_index_injective(w, qx, qy, rx as int, 0);
                        }
                        if g_index(w, qx, qy) == g_index(w, rx as int, h - 1) {
                            lemma_index_injective(w, qx, qy, rx as int, h - 1);
                        }
                    }
                }
                rx = rx + 1;
            }
            proof {
                assert forall|q: int|
                    0 <= q < self.grid().len() implies !(#[trigger] self.grid()[q]).clock by {
                    assert(!gc_end.grid()[q].clock);
                    assert(!sides_end.grid()[q].clock);
                }
            }
        } else {
            proof {
                assert forall|q: int|
                    0 <= q < self.grid().len() implies !(#[trigger] self.grid()[q]).clock by {
                    assert(self.grid()[q] == reset_end.grid()[q]);
                }
            }
        }
        proof {
            assert forall|px: int, py: int| sole_boiling_water(pre, px, py) implies (
            #[trigger] self.grid()[g_index(w, px, py)]) == spec_unclock(
                boiled_cell(pre.grid()[g_index(w, px, py)]),
            ) by {
                lemma_index_bounds(w, h, px, py);
                assert(sweep_end.grid() == pre.grid().update(
                    g_index(w, px, py),
                    boiled_cell(pre.grid()[g_index(w, px, py)]),
                ));
                assert(reset_end.grid()[g_index(w, px, py)] == spec_unclock(
                    sweep_end.grid()[g_index(w, px, py)],
                ));
                assert(pre.borders);
                assert(self.grid() == reset_end.grid());
            }
        }
        Ok(())
    }

    /// The 8 Moore-neighborhood cells around the cursor, tagged with their
    /// relative offsets and read through the cursor (inheriting the clamped
    /// edge semantics). Never fails.
    pub fn neighbors(&self) -> (r: Result<[Neighbor; 8], Error>)
        requires
            self.inv(),
        ensures
            r matches Ok(a) && a@.len() == 8 && forall|k: int|
                0 <= k < 8 ==> {
                    let n = #[trigger] a@[k];
                    &&& n.dx == neighbor_dx(k)
                    &&& n.dy == neighbor_dy(k)
                    &&& n.cell == self.at(self.x + neighbor_dx(k), self.y + neighbor_dy(k))
                },
    {
        let a = [
            Neighbor { cell: self.get(-1, -1)?, dx: -1, dy: -1 },
            Neighbor { cell: self.get(0, -1)?, dx: 0, dy: -1 },
            Neighbor { cell: self.get(-1, 0)?, dx: -1, dy: 0 },
            Neighbor { cell: self.get(-1, 1)?, dx: -1, dy: 1 },
            Neighbor { cell: self.get(1, -1)?, dx: 1, dy: -1 },
            Neighbor { cell: self.get(1, 1)?, dx: 1, dy: 1 },
            Neighbor { cell: self.get(0, 1)?, dx: 0, dy: 1 },
            Neighbor { cell: self.get(1, 0)?, dx: 1, dy: 0 },
        ];
        Ok(a)
    }

    /// Paints `cell` onto every exactly-default-Empty cell within `radius` of
    /// `(x, y)`, regraining each copy; with radius 1, paints only `(x, y)`
    /// itself, without regraining, and only when that cell is exactly the
    /// default Empty cell.
    pub fn brush(&mut self, x: i32, y: i32, radius: i32, cell: Cell) -> (r: Result<(), Error>)
        requires
            old(self).inv(),
            0 <= radius <= 46340,
        ensures
            r is Ok,
            final(self).inv(),
            SandApi::same_frame(old(self), final(self)),
            final(self).cloned_cells == old(self).cloned_cells,
            final(self).rng == old(self).rng,
            final(self).grid().len() == old(self).grid().len(),
            radius == 1 ==> final(self).grid() == (if old(self).at(x as int, y as int)
                == spec_empty() {
                g_set_raw(
                    old(self).grid(),
                    old(self).width as int,
                    old(self).height as int,
                    x as int,
                    y as int,
                    cell,
                )
            } else {
                old(self).grid()
            }),
            radius != 1 ==> forall|px: int, py: int|
                g_in_bounds(old(self).width as int, old(self).height as int, px, py)
                    ==> brush_point_ok(
                    old(self).grid()[g_index(old(self).width as int, px, py)],
                    #[trigger] final(self).grid()[g_index(old(self).width as int, px, py)],
                    cell,
                    px,
                    py,
                    x as int,
                    y as int,
                    radius as int,
                    true,
                ),
    {
        let mut paint = cell;
        if radius == 1 {
            let c = match self.get_absolute(x, y) {
                Ok(c) => c,
                Err(e) => return Err(e),
            };
            if c == empty_cell() {
                let _ = self.set_absolute(x, y, paint);
            }
            return Ok(());
        }
        let ghost pre = *self;
        let ghost w = pre.width as int;
        let ghost h = pre.height as int;
        let mut a: i32 = -radius;
        while a <= radius
            invariant
                self.inv(),
                pre.inv(),
                0 <= radius <= 46340,
                radius != 1,
                -radius <= a <= radius + 1,
                SandApi::same_frame(&pre, self),
                self.cloned_cells == pre.cloned_cells,
                self.rng == pre.rng,
                self.grid().len() == pre.grid().len(),
                w == pre.width as int,
                h == pre.height as int,
                paint.species == cell.species,
                paint.heat == cell.heat,
                paint.clock == cell.clock,
                forall|px: int, py: int|
                    g_in_bounds(w, h, px, py) ==> brush_point_ok(
                        pre.grid()[g_index(w, px, py)],
                        #[trigger] self.grid()[g_index(w, px, py)],
                        cell,
                        px,
                        py,
                        x as int,
                        y as int,
                        radius as int,
                        sweep_visited(px, py, x as int, y as int, radius as int, a as int, -radius as int),
                    ),
            decreases radius + 1 - a,
        {
            let mut b: i32 = -radius;
            while b <= radius
                invariant
                    self.inv(),
                    pre.inv(),
                    0 <= radius <= 46340,
                    radius != 1,
                    -radius <= a <= radius,
                    -radius <= b <= radius + 1,
                    SandApi::same_frame(&pre, self),
                    self.cloned_cells == pre.cloned_cells,
                    self.rng == pre.rng,
                    self.grid().len() == pre.grid().len(),
                    w == pre.width as int,
                    h == pre.height as int,
                    paint.species == cell.species,
                    paint.heat == cell.heat,
                    paint.clock == cell.clock,
                    forall|px: int, py: int|
                        g_in_bounds(w, h, px, py) ==> brush_point_ok(
                            pre.grid()[g_index(w, px, py)],
                            #[trigger] self.grid()[g_index(w, px, py)],
                            cell,
                            px,
                            py,
                            x as int,
                            y as int,
                            radius as int,
                            sweep_visited(px, py, x as int, y as int, radius as int, a as int, b as int),
                        ),
                decreases radius + 1 - b,
            {
                proof {
                    lemma_square_bound(a as int, 46340);
                    lemma_square_bound(b as int, 46340);
                    lemma_square_bound(radius as int, 46340);
                }
                let nx: i64 = x as i64 + a as i64;
                let ny: i64 = y as i64 + b as i64;
                let ghost mid = *self;
                if 0 <= nx && nx < self.width as i64 && 0 <= ny && ny < self.height as i64 {
                    let dist2: i64 = (a as i64) * (a as i64) + (b as i64) * (b as i64);
                    let r2: i64 = (radius as i64) * (radius as i64);
                    let c = match self.map.retrieve(nx as i32, ny as i32) {
                        Ok(c) => c,
                        Err(e) => return Err(e),
                    };
                    if dist2 <= r2 && c == empty_cell() {
                        paint.regrain();
                        let _ = self.map.set_point(nx as i32, ny as i32, paint);
                    }
                }
                proof {
                    lemma_brush_step(
                        pre.grid(),
                        mid.grid(),
                        self.grid(),
                        cell,
                        paint,
                        w,
                        h,
                        x as int,
                        y as int,
                        radius as int,
                        a as int,
                        b as int,
                    );
                }
                b = b + 1;
            }
            proof {
                assert forall|px: int, py: int| g_in_bounds(w, h, px, py) implies brush_point_ok(
                    pre.grid()[g_index(w, px, py)],
                    #[trigger] self.grid()[g_index(w, px, py)],
                    cell,
                    px,
                    py,
                    x as int,
                    y as int,
                    radius as int,
                    sweep_visited(
                        px,
                        py,
                        x as int,
                        y as int,
                        radius as int,
                        a as int + 1,
                        -radius as int,
                    ),
                ) by {
                    if px - x == a && (py - y < -radius || py - y > radius) {
                        lemma_outside_box_outside_disc(px, py, x as int, y as int, radius as int);
                    }
                }
            }
            a = a + 1;
        }
        proof {
            assert forall|px: int, py: int| g_in_bounds(w, h, px, py) implies brush_point_ok(
                pre.grid()[g_index(w, px, py)],
                #[trigger] self.grid()[g_index(w, px, py)],
                cell,
                px,
                py,
                x as int,
                y as int,
                radius as int,
                true,
            ) by {
                if px - x < -radius || px - x > radius {
                    lemma_outside_box_outside_disc(px, py, x as int, y as int, radius as int);
                }
            }
        }
        Ok(())
    }

    /// Erases (restores to the default Empty cell) every non-Border cell
    /// within `radius` of `(x, y)`; with radius 1 and a non-Border target,
    /// erases only `(x, y)` itself. Border cells are immune.
    pub fn erase(&mut self, x: i32, y: i32, radius: i32) -> (r: Result<(), Error>)
        requires
            old(self).inv(),
            0 <= radius <= 46340,
        ensures
            r is Ok,
            final(self).inv(),
            SandApi::same_frame(old(self), final(self)),
            final(self).cloned_cells == old(self).cloned_cells,
            final(self).rng == old(self).rng,
            final(self).grid().len() == old(self).grid().len(),
            if radius == 1 && old(self).at(x as int, y as int).species != Species::Border {
                final(self).grid() == g_set_raw(
                    old(self).grid(),
                    old(self).width as int,
                    old(self).height as int,
                    x as int,
                    y as int,
                    spec_empty(),
                )
            } else {
                forall|px: int, py: int|
                    g_in_bounds(old(self).width as int, old(self).height as int, px, py)
                        ==> (#[trigger] final(self).grid()[g_index(
                        old(self).width as int,
                        px,
                        py,
                    )]) == erase_point(
                        old(self).grid()[g_index(old(self).width as int, px, py)],
                        px,
                        py,
                        x as int,
                        y as int,
                        radius as int,
                        true,
                    )
            },
    {
        if radius == 1 {
            let c = match self.get_absolute(x, y) {
                Ok(c) => c,
                Err(e) => return Err(e),
            };
            if !matches!(c.species, Species::Border) {
                return self.set_absolute(x, y, empty_cell());
            }
        }
        let ghost pre = *self;
        let ghost w = pre.width as int;
        let ghost h = pre.height as int;
        let mut a: i32 = -radius;
        while a <= radius
            invariant
                self.inv(),
                pre.inv(),
                0 <= radius <= 46340,
                -radius <= a <= radius + 1,
                SandApi::same_frame(&pre, self),
                self.cloned_cells == pre.cloned_cells,
                self.rng == pre.rng,
                self.grid().len() == pre.grid().len(),
                w == pre.width as int,
                h == pre.height as int,
                forall|px: int, py: int|
                    g_in_bounds(w, h, px, py) ==> (#[trigger] self.grid()[g_index(w, px, py)])
                        == erase_point(
                        pre.grid()[g_index(w, px, py)],
                        px,
                        py,
                        x as int,
                        y as int,
                        radius as int,
                        sweep_visited(px, py, x as int, y as int, radius as int, a as int, -radius as int),
                    ),
            decreases radius + 1 - a,
        {
            let mut b: i32 = -radius;
            while b <= radius
                invariant
                    self.inv(),
                    pre.inv(),
                    0 <= radius <= 46340,
                    -radius <= a <= radius,
                    -radius <= b <= radius + 1,
                    SandApi::same_frame(&pre, self),
                    self.cloned_cells == pre.cloned_cells,
                    self.rng == pre.rng,
                    self.grid().len() == pre.grid().len(),
                    w == pre.width as int,
                    h == pre.height as int,
                    forall|px: int, py: int|
                        g_in_bounds(w, h, px, py) ==> (#[trigger] self.grid()[g_index(w, px, py)])
                            == erase_point(
                            pre.grid()[g_index(w, px, py)],
                            px,
                            py,
                            x as int,
                            y as int,
                            radius as int,
                            sweep_visited(px, py, x as int, y as int, radius as int, a as int, b as int),
                        ),
                decreases radius + 1 - b,
            {
                proof {
                    lemma_square_bound(a as int, 46340);
                    lemma_square_bound(b as int, 46340);
                    lemma_square_bound(radius as int, 46340);
                }
                let nx: i64 = x as i64 + a as i64;
                let ny: i64 = y as i64 + b as i64;
                let ghost mid = *self;
                if 0 <= nx && nx < self.width as i64 && 0 <= ny && ny < self.height as i64 {
                    let dist2: i64 = (a as i64) * (a as i64) + (b as i64) * (b as i64);
                    let r2: i64 = (radius as i64) * (radius as i64);
                    let c = match self.map.retrieve(nx as i32, ny as i32) {
                        Ok(c) => c,
                        Err(e) => return Err(e),
                    };
                    if !matches!(c.species, Species::Border) && dist2 <= r2 {
                        let _ = self.map.set_point(nx as i32, ny as i32, empty_cell());
                    }
                }
                proof {
                    lemma_erase_step(
                        pre.grid(),
                        mid.grid(),
                        self.grid(),
                        w,
                        h,
                        x as int,
                        y as int,
                        radius as int,
                        a as int,
                        b as int,
                    );
                }
                b = b + 1;
            }
            proof {
                assert forall|px: int, py: int| g_in_bounds(w, h, px, py) implies (
                #[trigger] self.grid()[g_index(w, px, py)]) == erase_point(
                    pre.grid()[g_index(w, px, py)],
                    px,
                    py,
                    x as int,
                    y as int,
                    radius as int,
                    sweep_visited(
                        px,
                        py,
                        x as int,
                        y as int,
                        radius as int,
                        a as int + 1,
                        -radius as int,
                    ),
                ) by {
                    if px - x == a && (py - y < -radius || py - y > radius) {
                        lemma_outside_box_outside_disc(px, py, x as int, y as int, radius as int);
                    }
                }
            }
            a = a + 1;
        }
        proof {
            assert forall|px: int, py: int| g_in_bounds(w, h, px, py) implies (
            #[trigger] self.grid()[g_index(w, px, py)]) == erase_point(
                pre.grid()[g_index(w, px, py)],
                px,
                py,
                x as int,
                y as int,
                radius as int,
                true,
            ) by {
                if px - x < -radius || px - x > radius {
                    lemma_outside_box_outside_disc(px, py, x as int, y as int, radius as int);
                }
            }
        }
        Ok(())
    }
}

/// The part of the brush/erase disc's bounding box already visited by the
/// two nested sweep loops, when the outer offset is `a` and the inner offset
/// is `b`: all columns strictly left of `a`, plus the rows strictly above `b`
/// in column `a` itself.
pub open spec fn sweep_visited(
    px: int,
    py: int,
    cx: int,
    cy: int,
    radius: int,
    a: int,
    b: int,
) -> bool {
    ||| (cx - radius <= px && px - cx < a)
    ||| (px - cx == a && cy - radius <= py && py - cy < b)
}

/// What a point looks like mid-brush: once visited, an exactly-Empty cell in
/// the disc carries the painted species, heat and clock (the grain is fresh);
/// anything else is untouched.
pub open spec fn brush_point_ok(
    pre: Cell,
    cur: Cell,
    cell: Cell,
    px: int,
    py: int,
    cx: int,
    cy: int,
    radius: int,
    visited: bool,
) -> bool {
    if visited && in_disc(px, py, cx, cy, radius) && pre == spec_empty() {
        cur.species == cell.species && cur.heat == cell.heat && cur.clock == cell.clock
    } else {
        cur == pre
    }
}

/// What a point looks like mid-erase: once visited, a non-Border cell in the
/// disc is the default Empty cell; anything else is untouched.
pub open spec fn erase_point(
    pre: Cell,
    px: int,
    py: int,
    cx: int,
    cy: int,
    radius: int,
    visited: bool,
) -> Cell {
    if visited && in_disc(px, py, cx, cy, radius) && pre.species != Species::Border {
        spec_empty()
    } else {
        pre
    }
}

/// The square of a value bounded by `m` in magnitude is at most `m * m`.
pub proof fn lemma_square_bound(v: int, m: int)
    requires
        0 <= m,
        -m <= v <= m,
    ensures
        0 <= v * v <= m * m,
{
    assert(0 <= v * v <= m * m) by (nonlinear_arith)
        requires
            0 <= m,
            -m <= v <= m,
    ;
}

/// One brush-loop step extends the visited region by the single point
/// `(cx + a, cy + b)`, painted with `paint` when it was exactly Empty and in
/// the disc.
proof fn lemma_brush_step(
    pre: Seq<Cell>,
    mid: Seq<Cell>,
    post: Seq<Cell>,
    cell: Cell,
    paint: Cell,
    w: int,
    h: int,
    cx: int,
    cy: int,
    radius: int,
    a: int,
    b: int,
)
    requires
        1 <= w,
        1 <= h,
        0 <= radius,
        -radius <= a <= radius,
        -radius <= b <= radius,
        pre.len() == w * h,
        mid.len() == w * h,
        post.len() == w * h,
        paint.species == cell.species,
        paint.heat == cell.heat,
        paint.clock == cell.clock,
        forall|px: int, py: int|
            g_in_bounds(w, h, px, py) ==> brush_point_ok(
                pre[g_index(w, px, py)],
                #[trigger] mid[g_index(w, px, py)],
                cell,
                px,
                py,
                cx,
                cy,
                radius,
                sweep_visited(px, py, cx, cy, radius, a, b),
            ),
        ({
            let px = cx + a;
            let py = cy + b;
            if g_in_bounds(w, h, px, py) && in_disc(px, py, cx, cy, radius) && mid[g_index(
                w,
                px,
                py,
            )] == spec_empty() {
                post == mid.update(g_index(w, px, py), paint)
            } else {
                post == mid
            }
        }),
    ensures
        forall|px: int, py: int|
            g_in_bounds(w, h, px, py) ==> brush_point_ok(
                pre[g_index(w, px, py)],
                #[trigger] post[g_index(w, px, py)],
                cell,
                px,
                py,
                cx,
                cy,
                radius,
                sweep_visited(px, py, cx, cy, radius, a, b + 1),
            ),
{
    assert forall|px: int, py: int| g_in_bounds(w, h, px, py) implies brush_point_ok(
        pre[g_index(w, px, py)],
        #[trigger] post[g_index(w, px, py)],
        cell,
        px,
        py,
        cx,
        cy,
        radius,
        sweep_visited(px, py, cx, cy, radius, a, b + 1),
    ) by {
        lemma_index_bounds(w, h, px, py);
        if g_in_bounds(w, h, cx + a, cy + b) {
            lemma_index_bounds(w, h, cx + a, cy + b);
            if g_index(w, px, py) == g_index(w, cx + a, cy + b) {
                lemma_index_injective(w, px, py, cx + a, cy + b);
            }
        }
    }
}

/// One erase-loop step extends the visited region by the single point
/// `(cx + a, cy + b)`.
proof fn lemma_erase_step(
    pre: Seq<Cell>,
    mid: Seq<Cell>,
    post: Seq<Cell>,
    w: int,
    h: int,
    cx: int,
    cy: int,
    radius: int,
    a: int,
    b: int,
)
    requires
        1 <= w,
        1 <= h,
        0 <= radius,
        -radius <= a <= radius,
        -radius <= b <= radius,
        pre.len() == w * h,
        mid.len() == w * h,
        post.len() == w * h,
        forall|px: int, py: int|
            g_in_bounds(w, h, px, py) ==> (#[trigger] mid[g_index(w, px, py)]) == erase_point(
                pre[g_index(w, px, py)],
                px,
                py,
                cx,
                cy,
                radius,
                sweep_visited(px, py, cx, cy, radius, a, b),
            ),
        ({
            let px = cx + a;
            let py = cy + b;
            if g_in_bounds(w, h, px, py) && in_disc(px, py, cx, cy, radius) && mid[g_index(
                w,
                px,
                py,
            )].species != Species::Border {
                post == mid.update(g_index(w, px, py), spec_empty())
            } else {
                post == mid
            }
        }),
    ensures
        forall|px: int, py: int|
            g_in_bounds(w, h, px, py) ==> (#[trigger] post[g_index(w, px, py)]) == erase_point(
                pre[g_index(w, px, py)],
                px,
                py,
                cx,
                cy,
                radius,
                sweep_visited(px, py, cx, cy, radius, a, b + 1),
            ),
{
    assert forall|px: int, py: int| g_in_bounds(w, h, px, py) implies (#[trigger] post[g_index(
        w,
        px,
        py,
    )]) == erase_point(
        pre[g_index(w, px, py)],
        px,
        py,
        cx,
        cy,
        radius,
        sweep_visited(px, py, cx, cy, radius, a, b + 1),
    ) by {
        lemma_index_bounds(w, h, px, py);
        if g_in_bounds(w, h, cx + a, cy + b) {
            lemma_index_bounds(w, h, cx + a, cy + b);
            if g_index(w, px, py) == g_index(w, cx + a, cy + b) {
                lemma_index_injective(w, px, py, cx + a, cy + b);
            }
        }
    }
}

/// Clamps `v` into `[0, hi - 1]` (64-bit, so cursor-plus-offset arithmetic
/// cannot overflow).
fn clamp_exec_i64(v: i64, hi: i64) -> (r: i64)
    requires
        1 <= hi,
    ensures
        r == clamp_to(v as int, hi as int),
        0 <= r < hi,
{
    if v < 0 {
        0
    } else if v > hi - 1 {
        hi - 1
    } else {
        v
    }
}

} // verus!
