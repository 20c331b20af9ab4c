//! The per-species update rules. Each rule receives the already-clocked
//! current cell and the cursor-relative API, performs zero or more grid
//! mutations through it, and reports success (grid access is infallible by
//! construction: reads clamp, writes drop silently).
//!
//! Probabilistic decisions draw from the instance's randomness source; a
//! rule's contract therefore states what holds of every draw: the frame that
//! is preserved, how far from the cursor writes may land, and — where the
//! rule is a decision tree over swaps — the exact set of possible outcomes.

use vstd::prelude::*;
use crate::Error;
use crate::api::{
    SandApi, Neighbor, g_swap, g_set_guarded, g_at, g_index, g_in_bounds, borders_kept,
    unchanged_outside, neighbor_dx, neighbor_dy,
};
use crate::cell::{Cell, Species, spec_empty, empty_cell, heat_add, heat_sub, MAX_WETNESS,
    MAX_WATER_GRASS_HEIGHT};

verus! {

/// The frame every rule preserves: the instance stays well formed, its
/// dimensions, cursor and flags are untouched, the clone registry is
/// untouched, and every Border cell keeps its species.
pub open spec fn rule_frame(pre: SandApi, post: SandApi) -> bool {
    &&& post.inv()
    &&& SandApi::same_frame(&pre, &post)
    &&& post.cloned_cells == pre.cloned_cells
    &&& post.grid().len() == pre.grid().len()
    &&& borders_kept(pre.grid(), post.grid())
}

/// As `rule_frame`, but the clone registry may change (only the Clone rule
/// registers species).
pub open spec fn rule_frame_clone(pre: SandApi, post: SandApi) -> bool {
    &&& post.inv()
    &&& SandApi::same_frame(&pre, &post)
    &&& post.grid().len() == pre.grid().len()
    &&& borders_kept(pre.grid(), post.grid())
}

/// A movement target a liquid or powder may displace: empty space or a gas.
pub open spec fn spec_can_swap(c: Cell) -> bool {
    c.species == Species::Empty || c.spec_is_gas()
}

/// Whether the cell can be displaced by falling powder: a fluid, but not
/// Lava (powder floats on lava).
pub open spec fn fluid_not_lava(c: Cell) -> bool {
    c.spec_is_fluid() && c.species != Species::Lava
}

/// A movement target a liquid may displace: empty space or a gas.
fn can_swap(api: &SandApi, dx: i32, dy: i32) -> (r: bool)
    requires
        api.inv(),
    ensures
        r == spec_can_swap(api.at(api.x + dx, api.y + dy)),
{
    if api.is_empty(dx, dy) {
        return true;
    }
    let c = match api.get(dx, dy) {
        Ok(c) => c,
        Err(_) => return false,
    };
    c.is_gas()
}

/// The restricted-fall (coarse gravity) step as a grid function: the cursor
/// cell sinks one step exactly when the cell below reads as a fluid.
pub open spec fn coarse_step(g: Seq<Cell>, w: int, h: int, x: int, y: int, cell: Cell) -> Seq<
    Cell,
> {
    if g_at(g, w, h, x, y + 1).spec_is_fluid() {
        g_swap(g, w, h, x, y, 0, 1, cell)
    } else {
        g
    }
}

/// Restricted fall (coarse gravity): the cell sinks one step only into
/// fluid-occupied space directly below; otherwise it stays put. The contract
/// is exact: the grid either swaps cursor and below, or is unchanged.
pub fn update_coarse(api: &mut SandApi, cell: Cell) -> (r: Result<(), Error>)
    requires
        old(api).inv(),
    ensures
        r is Ok,
        rule_frame(*old(api), *final(api)),
        final(api).rng == old(api).rng,
        final(api).grid() == coarse_step(
            old(api).grid(),
            old(api).width as int,
            old(api).height as int,
            old(api).x as int,
            old(api).y as int,
            cell,
        ),
{
    let below = api.get(0, 1)?;
    if below.is_fluid() {
        api.swap(0, 1, cell)?;
    }
    Ok(())
}

/// The possible outcomes of a powder tick: the cell stays (settling
/// friction or nowhere to go), falls two cells through empty space, or sinks
/// one step into non-Lava fluid below or diagonally below.
pub open spec fn powder_outcome_from(
    g: Seq<Cell>,
    g2: Seq<Cell>,
    w: int,
    h: int,
    x: int,
    y: int,
    cell: Cell,
) -> bool {
    ||| g2 == g
    ||| (g_at(g, w, h, x, y + 1).species == Species::Empty && g_at(g, w, h, x, y + 2).species
        == Species::Empty && g2 == g_swap(g, w, h, x, y, 0, 2, cell))
    ||| (fluid_not_lava(g_at(g, w, h, x, y + 1)) && g2 == g_swap(g, w, h, x, y, 0, 1, cell))
    ||| (exists|d: int|
        (d == -1 || d == 0 || d == 1) && fluid_not_lava(#[trigger] g_at(g, w, h, x + d, y + 1))
            && g2 == g_swap(g, w, h, x, y, d, 1, cell))
}

/// The powder tick's outcomes, relative to the instance's own cursor.
pub open spec fn powder_outcome(pre: SandApi, post: SandApi, cell: Cell) -> bool {
    powder_outcome_from(
        pre.grid(),
        post.grid(),
        pre.width as int,
        pre.height as int,
        pre.x as int,
        pre.y as int,
        cell,
    )
}

/// Powder motion (Sand, Salt): a random per-tick chance to stay put (settling
/// friction); otherwise fall two cells straight down when both are empty,
/// else sink one step into non-Lava fluid below or diagonally below, with a
/// randomized diagonal. The contract enumerates the possible outcomes.
pub fn update_powder(api: &mut SandApi, cell: Cell) -> (r: Result<(), Error>)
    requires
        old(api).inv(),
    ensures
        r is Ok,
        rule_frame(*old(api), *final(api)),
        unchanged_outside(
            old(api).grid(),
            final(api).grid(),
            old(api).width as int,
            old(api).height as int,
            old(api).x as int,
            old(api).y as int,
            2,
        ),
        powder_outcome(*old(api), *final(api), cell),
{
    let ghost pre = *api;
    let fall_probability = api.rand_below(100);
    if fall_probability < 10 {
        return Ok(());  // settling friction: stay in place this tick
    }
    let pick = api.rand_below(3);
    let dx: i32 = if pick == 0 {
        1
    } else if pick == 1 {
        0
    } else {
        -1
    };

    if api.is_empty(0, 1) && api.is_empty(0, 2) {
        api.swap(0, 2, cell)?;
        proof {
            lemma_swap_local(pre.grid(), final_grid_of(api), pre, 0, 2, cell, 2);
        }
        return Ok(());
    }

    let below = api.get(0, 1)?;
    if below.is_fluid() && !matches!(below.species, Species::Lava) {
        api.swap(0, 1, cell)?;
        proof {
            lemma_swap_local(pre.grid(), final_grid_of(api), pre, 0, 1, cell, 2);
        }
        return Ok(());
    }

    let alternate = api.get(dx, 1)?;
    if alternate.is_fluid() && !matches!(alternate.species, Species::Lava) {
        api.swap(dx, 1, cell)?;
        proof {
            lemma_swap_local(pre.grid(), final_grid_of(api), pre, dx as int, 1, cell, 2);
            assert(fluid_not_lava(
                g_at(
                    pre.grid(),
                    pre.width as int,
                    pre.height as int,
                    pre.x + dx,
                    pre.y + 1,
                ),
            ) && final_grid_of(api) == g_swap(
                pre.grid(),
                pre.width as int,
                pre.height as int,
                pre.x as int,
                pre.y as int,
                dx as int,
                1,
                cell,
            ));
        }
        return Ok(());
    }
    Ok(())
}

/// The grid of a borrowed instance (spec shorthand usable mid-body).
pub open spec fn final_grid_of(api: &SandApi) -> Seq<Cell> {
    api.grid()
}

/// A swap whose target offset lies within `rad` of the cursor changes no cell
/// farther than `rad` from the cursor.
pub proof fn lemma_swap_local(
    pre_g: Seq<Cell>,
    post_g: Seq<Cell>,
    pre: SandApi,
    dx: int,
    dy: int,
    cell: Cell,
    rad: int,
)
    requires
        pre.inv(),
        pre_g == pre.grid(),
        -rad <= dx <= rad,
        -rad <= dy <= rad,
        0 <= rad,
        post_g == g_swap(
            pre.grid(),
            pre.width as int,
            pre.height as int,
            pre.x as int,
            pre.y as int,
            dx,
            dy,
            cell,
        ),
    ensures
        unchanged_outside(
            pre.grid(),
            post_g,
            pre.width as int,
            pre.height as int,
            pre.x as int,
            pre.y as int,
            rad,
        ),
{
    let g = pre.grid();
    let w = pre.width as int;
    let h = pre.height as int;
    let x = pre.x as int;
    let y = pre.y as int;
    let other = g_at(g, w, h, x + dx, y + dy);
    let mid = g_set_guarded(g, w, h, x, y, other);
    crate::api::lemma_set_guarded_frame(g, w, h, x, y, other);
    crate::api::lemma_set_guarded_frame(mid, w, h, x + dx, y + dy, cell);
}

/// A guarded write whose target offset lies within `rad` of the cursor
/// changes no cell farther than `rad` from the cursor.
pub proof fn lemma_set_local(
    pre_g: Seq<Cell>,
    post_g: Seq<Cell>,
    pre: SandApi,
    dx: int,
    dy: int,
    cell: Cell,
    rad: int,
)
    requires
        pre.inv(),
        pre_g == pre.grid(),
        -rad <= dx <= rad,
        -rad <= dy <= rad,
        0 <= rad,
        post_g == g_set_guarded(
            pre.grid(),
            pre.width as int,
            pre.height as int,
            pre.x + dx,
            pre.y + dy,
            cell,
        ),
    ensures
        unchanged_outside(
            pre.grid(),
            post_g,
            pre.width as int,
            pre.height as int,
            pre.x as int,
            pre.y as int,
            rad,
        ),
{
    crate::api::lemma_set_guarded_frame(
        pre.grid(),
        pre.width as int,
        pre.height as int,
        pre.x + dx,
        pre.y + dy,
        cell,
    );
}

/// Unconstrained gas diffusion: one random Moore step into empty space or
/// another gas cell. The contract enumerates the possible outcomes.
pub fn update_gas(api: &mut SandApi, cell: Cell) -> (r: Result<(), Error>)
    requires
        old(api).inv(),
    ensures
        r is Ok,
        rule_frame(*old(api), *final(api)),
        unchanged_outside(
            old(api).grid(),
            final(api).grid(),
            old(api).width as int,
            old(api).height as int,
            old(api).x as int,
            old(api).y as int,
            1,
        ),
        ({
            let g = old(api).grid();
            let w = old(api).width as int;
            let h = old(api).height as int;
            let x = old(api).x as int;
            let y = old(api).y as int;
            ||| final(api).grid() == g
            ||| (exists|ddx: int, ddy: int|
                -1 <= ddx <= 1 && -1 <= ddy <= 1 && (g_at(g, w, h, x + ddx, y + ddy).spec_is_gas()
                    || g_at(g, w, h, x + ddx, y + ddy).species == Species::Empty) && final(api).grid() == g_swap(g, w, h, x, y, ddx, ddy, cell))
        }),
{
    let ghost pre = *api;
    let p1 = api.rand_below(3);
    let p2 = api.rand_below(3);
    let dx: i32 = if p1 == 0 {
        -1
    } else if p1 == 1 {
        0
    } else {
        1
    };
    let dy: i32 = if p2 == 0 {
        -1
    } else if p2 == 1 {
        0
    } else {
        1
    };
    let target = api.get(dx, dy)?;
    if target.is_gas() || api.is_empty(dx, dy) {
        api.swap(dx, dy, cell)?;
        proof {
            lemma_swap_local(pre.grid(), final_grid_of(api), pre, dx as int, dy as int, cell, 1);
            assert((g_at(
                pre.grid(),
                pre.width as int,
                pre.height as int,
                pre.x + dx,
                pre.y + dy,
            ).spec_is_gas() || g_at(
                pre.grid(),
                pre.width as int,
                pre.height as int,
                pre.x + dx,
                pre.y + dy,
            ).species == Species::Empty) && final_grid_of(api) == g_swap(
                pre.grid(),
                pre.width as int,
                pre.height as int,
                pre.x as int,
                pre.y as int,
                dx as int,
                dy as int,
                cell,
            ));
        }
    }
    Ok(())
}

/// Ice: melts to Water once its heat rises above the freezing point;
/// otherwise immobile. The contract is exact.
pub fn update_ice(api: &mut SandApi, cell: Cell) -> (r: Result<(), Error>)
    requires
        old(api).inv(),
    ensures
        r is Ok,
        rule_frame(*old(api), *final(api)),
        final(api).rng == old(api).rng,
        final(api).grid() == (if cell.heat > 0 {
            g_set_guarded(
                old(api).grid(),
                old(api).width as int,
                old(api).height as int,
                old(api).x as int,
                old(api).y as int,
                cell.spec_with_species(Species::Water),
            )
        } else {
            old(api).grid()
        }),
{
    let mut cell = cell;
    if cell.heat > 0 {
        cell.species = Species::Water;
        api.set(0, 0, cell)?;
    }
    Ok(())
}

/// Distinct scan indices address distinct Moore offsets.
pub proof fn lemma_neighbor_offsets_distinct(j: int, k: int)
    requires
        0 <= j < 8,
        0 <= k < 8,
        j != k,
    ensures
        neighbor_dx(j) != neighbor_dx(k) || neighbor_dy(j) != neighbor_dy(k),
{
}

/// Whether `x` occurs in the sequence `s`.
pub open spec fn element_of(x: Neighbor, s: Seq<Neighbor>) -> bool {
    exists|j: int| 0 <= j < s.len() && s[j] == x
}

/// Chaining two locality bounds with the same center and radius, and the
/// Border-preservation facts that come with them.
pub proof fn lemma_local_trans(
    g0: Seq<Cell>,
    g1: Seq<Cell>,
    g2: Seq<Cell>,
    w: int,
    h: int,
    cx: int,
    cy: int,
    rad: int,
)
    requires
        unchanged_outside(g0, g1, w, h, cx, cy, rad),
        unchanged_outside(g1, g2, w, h, cx, cy, rad),
        borders_kept(g0, g1),
        borders_kept(g1, g2),
    ensures
        unchanged_outside(g0, g2, w, h, cx, cy, rad),
        borders_kept(g0, g2),
{
    assert forall|i: int|
        0 <= i < g0.len() && g0[i].species == Species::Border implies g2[i].species
        == Species::Border by {
        assert(g1[i].species == Species::Border);
    }
}

/// Fisher-Yates shuffle of a neighbor list, drawing from the instance's
/// randomness source. Every element of the result is an element of the input.
fn shuffle_neighbors(api: &mut SandApi, v: &mut Vec<Neighbor>)
    requires
        old(api).inv(),
        old(v)@.len() <= 8,
    ensures
        final(api).inv(),
        SandApi::only_rng_differs(old(api), final(api)),
        final(v)@.len() == old(v)@.len(),
        forall|k: int|
            0 <= k < final(v)@.len() ==> element_of(#[trigger] final(v)@[k], old(v)@),
{
    let ghost pre = *api;
    let ghost v0 = v@;
    let n = v.len();
    let mut i: usize = n;
    while i > 1
        invariant
            api.inv(),
            SandApi::only_rng_differs(&pre, api),
            i <= n,
            n <= 8,
            v@.len() == n,
            forall|k: int| 0 <= k < v@.len() ==> element_of(#[trigger] v@[k], v0),
        decreases i,
    {
        i = i - 1;
        let j = api.rand_below((i as u32) + 1) as usize;
        let a = v[i];
        let b = v[j];
        let ghost vmid = v@;
        let slot_i = &mut v[i];
        *slot_i = b;
        let slot_j = &mut v[j];
        *slot_j = a;
        proof {
            assert forall|k: int| 0 <= k < v@.len() implies element_of(#[trigger] v@[k], v0) by {
                if k == i {
                    assert(v@[k] == vmid[j as int]);
                } else if k == j {
                    assert(v@[k] == vmid[i as int]);
                } else {
                    assert(v@[k] == vmid[k]);
                }
            }
        }
    }
}

/// The wash-away step's possible results: the grid unchanged, or one
/// at-or-below-level destroyable neighbor of the cursor restored to Empty.
pub open spec fn liquid_washed(g0: Seq<Cell>, g1: Seq<Cell>, w: int, h: int, x: int, y: int) -> bool {
    ||| g1 == g0
    ||| exists|k: int|
        0 <= k < 8 && neighbor_dy(k) >= 0 && (#[trigger] g_at(
            g0,
            w,
            h,
            x + neighbor_dx(k),
            y + neighbor_dy(k),
        )).spec_liquid_destroyable() && g1 == g_set_guarded(
            g0,
            w,
            h,
            x + neighbor_dx(k),
            y + neighbor_dy(k),
            spec_empty(),
        )
}

/// The movement step's possible results: the cell stays, trades places with
/// an adjacent empty-or-gas cell at or below its level, or (mixing) trades
/// places with an adjacent liquid.
pub open spec fn liquid_moved(g1: Seq<Cell>, g2: Seq<Cell>, w: int, h: int, x: int, y: int, cell: Cell) -> bool {
    ||| g2 == g1
    ||| exists|ddx: int, ddy: int|
        -1 <= ddx <= 1 && 0 <= ddy <= 1 && spec_can_swap(
            #[trigger] g_at(g1, w, h, x + ddx, y + ddy),
        ) && g2 == g_swap(g1, w, h, x, y, ddx, ddy, cell)
    ||| exists|k: int|
        0 <= k < 8 && (#[trigger] g_at(
            g1,
            w,
            h,
            x + neighbor_dx(k),
            y + neighbor_dy(k),
        )).spec_is_liquid() && g2 == g_swap(g1, w, h, x, y, neighbor_dx(k), neighbor_dy(k), cell)
}

/// A liquid tick is one wash-away step followed by one movement step; when
/// the cell directly below is open (empty or gas) after the wash-away, the
/// move is forced: the cell sinks straight down.
pub open spec fn liquid_outcome_grid(pre: SandApi, g2: Seq<Cell>, cell: Cell) -> bool {
    exists|g1: Seq<Cell>|
        #[trigger] liquid_washed(
            pre.grid(),
            g1,
            pre.width as int,
            pre.height as int,
            pre.x as int,
            pre.y as int,
        ) && liquid_moved(
            g1,
            g2,
            pre.width as int,
            pre.height as int,
            pre.x as int,
            pre.y as int,
            cell,
        ) && (spec_can_swap(g_at(g1, pre.width as int, pre.height as int, pre.x as int, pre.y + 1))
            ==> g2 == g_swap(
            g1,
            pre.width as int,
            pre.height as int,
            pre.x as int,
            pre.y as int,
            0,
            1,
            cell,
        ))
}

/// A liquid tick is one wash-away step followed by one movement step.
pub open spec fn liquid_outcome(pre: SandApi, post: SandApi, cell: Cell) -> bool {
    liquid_outcome_grid(pre, post.grid(), cell)
}

/// Liquid motion (Water, Acid, Lava, SaltWater): wash away one random
/// adjacent piece of growth at or below the cursor's level, then move toward
/// the lowest open neighbor with a randomized left/right bias — straight
/// down, then diagonal, then lateral, then the mirrored diagonal and lateral
/// — displacing only empty space or gas; failing all of that, a small chance
/// of trading places with an adjacent liquid (mixing). The contract
/// enumerates the possible outcomes: one optional wash-away write followed
/// by one optional move.
pub fn update_liquid(api: &mut SandApi, cell: Cell) -> (r: Result<(), Error>)
    requires
        old(api).inv(),
    ensures
        r is Ok,
        rule_frame(*old(api), *final(api)),
        unchanged_outside(
            old(api).grid(),
            final(api).grid(),
            old(api).width as int,
            old(api).height as int,
            old(api).x as int,
            old(api).y as int,
            1,
        ),
        liquid_outcome(*old(api), *final(api), cell),
{
    let ghost pre = *api;
    let ghost w = pre.width as int;
    let ghost h = pre.height as int;
    let ghost cx = pre.x as int;
    let ghost cy = pre.y as int;

    let pick = api.rand_below(3);
    let dx: i32 = if pick == 0 {
        1
    } else if pick == 1 {
        0
    } else {
        -1
    };

    let neighbors = api.neighbors()?;
    let k = api.rand_below(8) as usize;
    let chosen = neighbors[k];
    if chosen.cell.liquid_destroyable() && chosen.dy >= 0 {
        let ghost mid = *api;
        api.set(chosen.dx, chosen.dy, empty_cell())?;
        proof {
            lemma_set_local(
                mid.grid(),
                final_grid_of(api),
                mid,
                chosen.dx as int,
                chosen.dy as int,
                spec_empty(),
                1,
            );
            lemma_local_trans(pre.grid(), mid.grid(), final_grid_of(api), w, h, cx, cy, 1);
            assert(neighbors@[k as int].cell == g_at(
                pre.grid(),
                w,
                h,
                cx + neighbor_dx(k as int),
                cy + neighbor_dy(k as int),
            ));
            assert(liquid_washed(pre.grid(), final_grid_of(api), w, h, cx, cy));
        }
    }

    let ghost mid1 = *api;
    proof {
        assert(liquid_washed(pre.grid(), mid1.grid(), w, h, cx, cy));
    }
    if can_swap(api, 0, 1) {
        api.swap(0, 1, cell)?;
        proof {
            lemma_swap_local(mid1.grid(), final_grid_of(api), mid1, 0, 1, cell, 1);
            lemma_local_trans(pre.grid(), mid1.grid(), final_grid_of(api), w, h, cx, cy, 1);
            assert(liquid_moved(mid1.grid(), final_grid_of(api), w, h, cx, cy, cell));
        }
        return Ok(());
    }
    if can_swap(api, dx, 1) {
        api.swap(dx, 1, cell)?;
        proof {
            lemma_swap_local(mid1.grid(), final_grid_of(api), mid1, dx as int, 1, cell, 1);
            lemma_local_trans(pre.grid(), mid1.grid(), final_grid_of(api), w, h, cx, cy, 1);
            assert(liquid_moved(mid1.grid(), final_grid_of(api), w, h, cx, cy, cell));
        }
        return Ok(());
    }
    if can_swap(api, dx, 0) {
        api.swap(dx, 0, cell)?;
        proof {
            lemma_swap_local(mid1.grid(), final_grid_of(api), mid1, dx as int, 0, cell, 1);
            lemma_local_trans(pre.grid(), mid1.grid(), final_grid_of(api), w, h, cx, cy, 1);
            assert(liquid_moved(mid1.grid(), final_grid_of(api), w, h, cx, cy, cell));
        }
        return Ok(());
    }
    if can_swap(api, -dx, 1) {
        api.swap(-dx, 1, cell)?;
        proof {
            lemma_swap_local(mid1.grid(), final_grid_of(api), mid1, -dx as int, 1, cell, 1);
            lemma_local_trans(pre.grid(), mid1.grid(), final_grid_of(api), w, h, cx, cy, 1);
            assert(liquid_moved(mid1.grid(), final_grid_of(api), w, h, cx, cy, cell));
        }
        return Ok(());
    }
    if can_swap(api, -dx, 0) {
        api.swap(-dx, 0, cell)?;
        proof {
            lemma_swap_local(mid1.grid(), final_grid_of(api), mid1, -dx as int, 0, cell, 1);
            lemma_local_trans(pre.grid(), mid1.grid(), final_grid_of(api), w, h, cx, cy, 1);
            assert(liquid_moved(mid1.grid(), final_grid_of(api), w, h, cx, cy, cell));
        }
        return Ok(());
    }

    // mixing: occasionally trade places with a random adjacent liquid
    let swap_probability = api.rand_below(100);
    if swap_probability < 10 {
        let fresh = api.neighbors()?;
        let mut pool: Vec<Neighbor> = Vec::new();
        let mut t: usize = 0;
        while t < 8
            invariant
                t <= 8,
                pool@.len() == t,
                fresh@.len() == 8,
                forall|q: int| 0 <= q < pool@.len() ==> element_of(#[trigger] pool@[q], fresh@),
            decreases 8 - t,
        {
            pool.push(fresh[t]);
            t = t + 1;
        }
        shuffle_neighbors(api, &mut pool);
        let mut q: usize = 0;
        while q < pool.len()
            invariant
                api.inv(),
                pre.inv(),
                mid1.inv(),
                pre == *old(api),
                q <= pool@.len(),
                rule_frame(pre, *api),
                api.grid() == mid1.grid(),
                mid1.width == pre.width,
                mid1.height == pre.height,
                mid1.x == pre.x,
                mid1.y == pre.y,
                liquid_washed(pre.grid(), mid1.grid(), w, h, cx, cy),
                !spec_can_swap(g_at(mid1.grid(), w, h, cx, cy + 1)),
                unchanged_outside(pre.grid(), api.grid(), w, h, cx, cy, 1),
                w == pre.width as int,
                h == pre.height as int,
                cx == pre.x as int,
                cy == pre.y as int,
                forall|q2: int| 0 <= q2 < pool@.len() ==> element_of(#[trigger] pool@[q2], fresh@),
                forall|j: int|
                    0 <= j < 8 ==> (#[trigger] fresh@[j]).dx == neighbor_dx(j) && fresh@[j].dy
                        == neighbor_dy(j) && fresh@[j].cell == g_at(
                        mid1.grid(),
                        w,
                        h,
                        cx + neighbor_dx(j),
                        cy + neighbor_dy(j),
                    ),
            decreases pool@.len() - q,
        {
            let n = pool[q];
            proof {
                assert(element_of(pool@[q as int], fresh@));
                let j = choose|j: int| 0 <= j < fresh@.len() && fresh@[j] == pool@[q as int];
                assert(-1 <= n.dx as int <= 1 && -1 <= n.dy as int <= 1);
            }
            if n.cell.is_liquid() {
                let ghost mid2 = *api;
                api.swap(n.dx, n.dy, cell)?;
                proof {
                    lemma_swap_local(
                        mid2.grid(),
                        final_grid_of(api),
                        mid2,
                        n.dx as int,
                        n.dy as int,
                        cell,
                        1,
                    );
                    lemma_local_trans(
                        pre.grid(),
                        mid2.grid(),
                        final_grid_of(api),
                        w,
                        h,
                        cx,
                        cy,
                        1,
                    );
                    let j = choose|j: int| 0 <= j < fresh@.len() && fresh@[j] == pool@[q as int];
                    assert(g_at(
                        mid1.grid(),
                        w,
                        h,
                        cx + neighbor_dx(j),
                        cy + neighbor_dy(j),
                    ).spec_is_liquid());
                    assert(final_grid_of(api) == g_swap(
                        mid1.grid(),
                        w,
                        h,
                        cx,
                        cy,
                        neighbor_dx(j),
                        neighbor_dy(j),
                        cell,
                    ));
                    assert(liquid_moved(mid1.grid(), final_grid_of(api), w, h, cx, cy, cell));
                }
                return Ok(());
            }
            q = q + 1;
        }
    }
    proof {
        assert(liquid_moved(mid1.grid(), final_grid_of(api), w, h, cx, cy, cell));
    }
    Ok(())
}

/// One attempt of Water's ride-beneath-a-surface move in the direction
/// `dxv`: slide diagonally under an overhang, squeeze along a covered
/// channel, or cling beneath a ceiling. Returns whether the attempt settled
/// the cell's move for this tick; `false` leaves the grid untouched.
fn water_ride(api: &mut SandApi, cell: Cell, dxv: i32) -> (r: Result<bool, Error>)
    requires
        old(api).inv(),
        dxv == 1 || dxv == -1,
    ensures
        r is Ok,
        rule_frame(*old(api), *final(api)),
        unchanged_outside(
            old(api).grid(),
            final(api).grid(),
            old(api).width as int,
            old(api).height as int,
            old(api).x as int,
            old(api).y as int,
            1,
        ),
        r == Ok::<bool, Error>(false) ==> final(api).grid() == old(api).grid(),
        r == Ok::<bool, Error>(true) ==> ({
            ||| (old(api).at(old(api).x as int, old(api).y - 1).spec_is_solid() && old(api).at(
                old(api).x + dxv,
                old(api).y as int,
            ).species == Species::Empty && final(api).grid() == old(api).grid())
            ||| exists|ddy: int|
                0 <= ddy <= 1 && old(api).at(old(api).x + dxv, old(api).y + ddy).species
                    == Species::Empty && final(api).grid() == g_swap(
                    old(api).grid(),
                    old(api).width as int,
                    old(api).height as int,
                    old(api).x as int,
                    old(api).y as int,
                    dxv as int,
                    ddy,
                    cell,
                )
        }),
{
    let ghost pre = *api;
    let ghost w = pre.width as int;
    let ghost h = pre.height as int;
    let ghost cx = pre.x as int;
    let ghost cy = pre.y as int;
    let side = api.get(dxv, 0)?;
    let above = api.get(0, -1)?;
    if side.is_solid() && !above.is_solid() && api.is_empty(dxv, 1) {
        api.swap(dxv, 1, cell)?;
        proof {
            lemma_swap_local(pre.grid(), final_grid_of(api), pre, dxv as int, 1, cell, 1);
            assert(g_at(pre.grid(), w, h, cx + dxv as int, cy + 1).species == Species::Empty
                && final_grid_of(api) == g_swap(pre.grid(), w, h, cx, cy, dxv as int, 1, cell));
        }
        return Ok(true);
    }
    let far = api.get(dxv * 2, 0)?;
    let far_up = api.get(dxv * 2, -1)?;
    let back = api.get(-1, 0)?;
    if far.is_solid() && far_up.is_solid() && api.is_empty(dxv, 0) && back.is_solid() {
        api.swap(dxv, 0, cell)?;
        proof {
            lemma_swap_local(pre.grid(), final_grid_of(api), pre, dxv as int, 0, cell, 1);
            assert(g_at(pre.grid(), w, h, cx + dxv as int, cy + 0).species == Species::Empty
                && final_grid_of(api) == g_swap(pre.grid(), w, h, cx, cy, dxv as int, 0, cell));
        }
        return Ok(true);
    }
    if above.is_solid() && api.is_empty(dxv, 0) {
        if api.rand_chance(40, 100) {
            return Ok(true);  // cling beneath the ceiling this tick
        }
    }
    Ok(false)
}

/// Whether the cursor can cling beneath a ceiling: a solid directly above
/// and an open cell to one side (the only way temperate water holds still
/// before the liquid step takes over).
pub open spec fn water_can_cling(g: Seq<Cell>, w: int, h: int, x: int, y: int) -> bool {
    exists|d: int|
        (d == 1 || d == -1) && g_at(g, w, h, x, y - 1).spec_is_solid() && (#[trigger] g_at(
            g,
            w,
            h,
            x + d,
            y,
        )).species == Species::Empty
}

/// The possible outcomes of a temperate Water cell's tick: it clings beneath
/// a ceiling (holding still requires a solid above and an open side), slides
/// into an adjacent empty cell while riding beneath a surface, or moves as a
/// liquid (wash-away plus one move, with the forced straight-down sink).
pub open spec fn water_temperate_outcome(pre: SandApi, post: SandApi, cell: Cell) -> bool {
    let g = pre.grid();
    let w = pre.width as int;
    let h = pre.height as int;
    let x = pre.x as int;
    let y = pre.y as int;
    ||| (water_can_cling(g, w, h, x, y) && post.grid() == g)
    ||| exists|ddx: int, ddy: int|
        (ddx == 1 || ddx == -1) && 0 <= ddy <= 1 && (#[trigger] g_at(
            g,
            w,
            h,
            x + ddx,
            y + ddy,
        )).species == Species::Empty && post.grid() == g_swap(g, w, h, x, y, ddx, ddy, cell)
    ||| liquid_outcome(pre, post, cell)
}

/// Water: boils to Steam at or above the boil threshold and freezes to Ice at
/// or below the freezing point (both exact, before any movement); otherwise
/// tries to ride beneath an overhanging solid, then moves as a liquid.
pub fn update_water(api: &mut SandApi, cell: Cell) -> (r: Result<(), Error>)
    requires
        old(api).inv(),
    ensures
        r is Ok,
        rule_frame(*old(api), *final(api)),
        unchanged_outside(
            old(api).grid(),
            final(api).grid(),
            old(api).width as int,
            old(api).height as int,
            old(api).x as int,
            old(api).y as int,
            1,
        ),
        cell.heat >= 100 ==> final(api).grid() == g_set_guarded(
            old(api).grid(),
            old(api).width as int,
            old(api).height as int,
            old(api).x as int,
            old(api).y as int,
            cell.spec_with_species(Species::Steam),
        ),
        cell.heat >= 100 ==> final(api).rng == old(api).rng,
        cell.heat <= 0 ==> final(api).grid() == g_set_guarded(
            old(api).grid(),
            old(api).width as int,
            old(api).height as int,
            old(api).x as int,
            old(api).y as int,
            cell.spec_with_species(Species::Ice),
        ),
        (0 < cell.heat && cell.heat < 100) ==> water_temperate_outcome(
            *old(api),
            *final(api),
            cell,
        ),
{
    let ghost pre = *api;
    let ghost w = pre.width as int;
    let ghost h = pre.height as int;
    let ghost cx = pre.x as int;
    let ghost cy = pre.y as int;
    let mut cell = cell;
    if cell.heat >= 100 {
        cell.species = Species::Steam;
        api.set(0, 0, cell)?;
        proof {
            lemma_set_local(pre.grid(), final_grid_of(api), pre, 0, 0, cell, 1);
        }
        return Ok(());
    }
    if cell.heat <= 0 {
        cell.species = Species::Ice;
        api.set(0, 0, cell)?;
        proof {
            lemma_set_local(pre.grid(), final_grid_of(api), pre, 0, 0, cell, 1);
        }
        return Ok(());
    }
    let flip = api.rand_below(2);
    let first: i32 = if flip == 0 {
        1
    } else {
        -1
    };
    let ghost mid0 = *api;
    let done = water_ride(api, cell, first)?;
    proof {
        lemma_local_trans(pre.grid(), mid0.grid(), final_grid_of(api), w, h, cx, cy, 1);
    }
    if done {
        proof {
            assert(mid0.grid() == pre.grid());
            assert(water_temperate_outcome(pre, *api, cell));
        }
        return Ok(());
    }
    let ghost mid1 = *api;
    let done2 = water_ride(api, cell, -first)?;
    proof {
        lemma_local_trans(pre.grid(), mid1.grid(), final_grid_of(api), w, h, cx, cy, 1);
    }
    if done2 {
        proof {
            assert(mid1.grid() == pre.grid());
            assert(water_temperate_outcome(pre, *api, cell));
        }
        return Ok(());
    }
    let ghost mid2 = *api;
    let res = update_liquid(api, cell);
    proof {
        lemma_local_trans(pre.grid(), mid2.grid(), final_grid_of(api), w, h, cx, cy, 1);
        // the failed ride attempts left the grid as it was, so the liquid
        // outcome relative to the intermediate state is one relative to the
        // original state too
        let g1 = choose|g1: Seq<Cell>|
            liquid_washed(mid2.grid(), g1, w, h, cx, cy) && liquid_moved(
                g1,
                final_grid_of(api),
                w,
                h,
                cx,
                cy,
                cell,
            );
        assert(liquid_washed(pre.grid(), g1, w, h, cx, cy));
        assert(liquid_outcome(pre, *api, cell));
    }
    res
}

/// What the corrode phase may do to each cell, pointwise: leave it alone,
/// eat a corrodable cell away to Empty, or consume the acid at the cursor.
pub open spec fn acid_corroded(g1: Seq<Cell>, g2: Seq<Cell>, w: int, h: int, cx: int, cy: int) -> bool {
    &&& g2.len() == g1.len()
    &&& forall|px: int, py: int|
        g_in_bounds(w, h, px, py) ==> {
            let a = g1[g_index(w, px, py)];
            let b = (#[trigger] g2[g_index(w, px, py)]);
            ||| b == a
            ||| (a.spec_is_corrodable() && b == spec_empty())
            ||| (px == cx && py == cy && b == spec_empty())
        }
}

/// Acid: moves as a liquid, then probabilistically corrodes adjacent
/// corrodable material to nothing, sometimes consuming itself in the
/// process. The contract pins the outcome: one liquid step, then per-cell
/// either no change, a corrodable cell eaten to Empty, or the cursor
/// consumed.
pub fn update_acid(api: &mut SandApi, cell: Cell) -> (r: Result<(), Error>)
    requires
        old(api).inv(),
    ensures
        r is Ok,
        rule_frame(*old(api), *final(api)),
        unchanged_outside(
            old(api).grid(),
            final(api).grid(),
            old(api).width as int,
            old(api).height as int,
            old(api).x as int,
            old(api).y as int,
            1,
        ),
        exists|gmid: Seq<Cell>|
            #[trigger] liquid_outcome_grid(*old(api), gmid, cell) && acid_corroded(
                gmid,
                final(api).grid(),
                old(api).width as int,
                old(api).height as int,
                old(api).x as int,
                old(api).y as int,
            ),
{
    let ghost pre = *api;
    let ghost w = pre.width as int;
    let ghost h = pre.height as int;
    let ghost cx = pre.x as int;
    let ghost cy = pre.y as int;
    update_liquid(api, cell)?;
    let ghost gmid = api.grid();
    let neighbors = api.neighbors()?;
    let mut k: usize = 0;
    while k < 8
        invariant
            api.inv(),
            pre.inv(),
            pre == *old(api),
            k <= 8,
            rule_frame(pre, *api),
            unchanged_outside(pre.grid(), api.grid(), w, h, cx, cy, 1),
            w == pre.width as int,
            h == pre.height as int,
            cx == pre.x as int,
            cy == pre.y as int,
            gmid.len() == pre.grid().len(),
            acid_corroded(gmid, api.grid(), w, h, cx, cy),
            neighbors@.len() == 8,
            forall|j: int|
                0 <= j < 8 ==> (#[trigger] neighbors@[j]).dx == neighbor_dx(j)
                    && neighbors@[j].dy == neighbor_dy(j) && neighbors@[j].cell == g_at(
                    gmid,
                    w,
                    h,
                    cx + neighbor_dx(j),
                    cy + neighbor_dy(j),
                ),
        decreases 8 - k,
    {
        let n = neighbors[k];
        proof {
            assert(-1 <= n.dx as int <= 1 && -1 <= n.dy as int <= 1);
        }
        let roll = api.rand_below(100);
        if roll < 3 && n.cell.is_corrodable() {
            let ghost mid = *api;
            api.set(n.dx, n.dy, empty_cell())?;
            proof {
                lemma_set_local(
                    mid.grid(),
                    final_grid_of(api),
                    mid,
                    n.dx as int,
                    n.dy as int,
                    spec_empty(),
                    1,
                );
                lemma_local_trans(pre.grid(), mid.grid(), final_grid_of(api), w, h, cx, cy, 1);
                lemma_acid_corrode_step(
                    gmid,
                    mid.grid(),
                    final_grid_of(api),
                    w,
                    h,
                    cx,
                    cy,
                    cx + n.dx as int,
                    cy + n.dy as int,
                );
            }
            let roll2 = api.rand_below(100);
            if roll2 < 30 {
                let ghost mid2 = *api;
                api.set(0, 0, empty_cell())?;
                proof {
                    lemma_set_local(mid2.grid(), final_grid_of(api), mid2, 0, 0, spec_empty(), 1);
                    lemma_local_trans(
                        pre.grid(),
                        mid2.grid(),
                        final_grid_of(api),
                        w,
                        h,
                        cx,
                        cy,
                        1,
                    );
                    lemma_acid_corrode_step(
                        gmid,
                        mid2.grid(),
                        final_grid_of(api),
                        w,
                        h,
                        cx,
                        cy,
                        cx,
                        cy,
                    );
                }
            }
        }
        k = k + 1;
    }
    Ok(())
}

/// One corrode write (of the default Empty cell) at a target whose pre-phase
/// cell was corrodable — or at the cursor itself — preserves the pointwise
/// corrode characterization.
proof fn lemma_acid_corrode_step(
    g0: Seq<Cell>,
    g1: Seq<Cell>,
    g2: Seq<Cell>,
    w: int,
    h: int,
    cx: int,
    cy: int,
    tx: int,
    ty: int,
)
    requires
        1 <= w,
        1 <= h,
        g0.len() == w * h,
        g1.len() == w * h,
        acid_corroded(g0, g1, w, h, cx, cy),
        g2 == g_set_guarded(g1, w, h, tx, ty, spec_empty()),
        g_in_bounds(w, h, tx, ty) ==> (g_at(g0, w, h, tx, ty).spec_is_corrodable() || (tx == cx
            && ty == cy)),
    ensures
        acid_corroded(g0, g2, w, h, cx, cy),
{
    crate::api::lemma_set_guarded_frame(g1, w, h, tx, ty, spec_empty());
    assert forall|px: int, py: int| g_in_bounds(w, h, px, py) implies {
        let a = g0[g_index(w, px, py)];
        let b = (#[trigger] g2[g_index(w, px, py)]);
        ||| b == a
        ||| (a.spec_is_corrodable() && b == spec_empty())
        ||| (px == cx && py == cy && b == spec_empty())
    } by {
        crate::map2d::lemma_index_bounds(w, h, px, py);
        if g_in_bounds(w, h, tx, ty) {
            crate::map2d::lemma_index_bounds(w, h, tx, ty);
            if g_index(w, px, py) == g_index(w, tx, ty) {
                crate::map2d::lemma_index_injective(w, px, py, tx, ty);
            }
        }
    }
}

/// SaltWater: boils at or above one unit over Water's boil threshold, leaving
/// Salt behind and releasing Steam into the cell above (both exact);
/// otherwise moves as a liquid.
pub fn update_salt_water(api: &mut SandApi, cell: Cell) -> (r: Result<(), Error>)
    requires
        old(api).inv(),
    ensures
        r is Ok,
        rule_frame(*old(api), *final(api)),
        unchanged_outside(
            old(api).grid(),
            final(api).grid(),
            old(api).width as int,
            old(api).height as int,
            old(api).x as int,
            old(api).y as int,
            1,
        ),
        cell.heat >= 101 ==> final(api).grid() == g_set_guarded(
            g_set_guarded(
                old(api).grid(),
                old(api).width as int,
                old(api).height as int,
                old(api).x as int,
                old(api).y - 1,
                cell.spec_with_species(Species::Steam),
            ),
            old(api).width as int,
            old(api).height as int,
            old(api).x as int,
            old(api).y as int,
            cell.spec_with_species(Species::Salt),
        ),
        cell.heat < 101 ==> liquid_outcome(*old(api), *final(api), cell),
{
    let ghost pre = *api;
    let ghost w = pre.width as int;
    let ghost h = pre.height as int;
    let ghost cx = pre.x as int;
    let ghost cy = pre.y as int;
    let mut cell = cell;
    if cell.heat >= 101 {
        cell.species = Species::Steam;
        api.set(0, -1, cell)?;
        let ghost mid = *api;
        cell.species = Species::Salt;
        api.set(0, 0, cell)?;
        proof {
            lemma_set_local(
                pre.grid(),
                mid.grid(),
                pre,
                0,
                -1,
                cell.spec_with_species(Species::Steam),
                1,
            );
            lemma_set_local(mid.grid(), final_grid_of(api), mid, 0, 0, cell, 1);
            lemma_local_trans(pre.grid(), mid.grid(), final_grid_of(api), w, h, cx, cy, 1);
        }
        return Ok(());
    }
    update_liquid(api, cell)
}

/// The possible outcomes of a Salt tick: it dissolves into one adjacent
/// Water cell (the Water vanishes, the cursor cell becomes SaltWater), or it
/// moves as a powder.
pub open spec fn salt_outcome(pre: SandApi, post: SandApi, cell: Cell) -> bool {
    let g = pre.grid();
    let w = pre.width as int;
    let h = pre.height as int;
    let x = pre.x as int;
    let y = pre.y as int;
    ||| exists|k: int|
        0 <= k < 8 && (#[trigger] g_at(g, w, h, x + neighbor_dx(k), y + neighbor_dy(k))).species
            == Species::Water && post.grid() == g_set_guarded(
            g_set_guarded(g, w, h, x + neighbor_dx(k), y + neighbor_dy(k), spec_empty()),
            w,
            h,
            x,
            y,
            cell.spec_with_species(Species::SaltWater),
        )
    ||| powder_outcome(pre, post, cell)
}

/// Salt: may dissolve into a random adjacent Water cell, becoming SaltWater
/// and consuming the Water; otherwise falls as a powder.
pub fn update_salt(api: &mut SandApi, cell: Cell) -> (r: Result<(), Error>)
    requires
        old(api).inv(),
    ensures
        r is Ok,
        rule_frame(*old(api), *final(api)),
        unchanged_outside(
            old(api).grid(),
            final(api).grid(),
            old(api).width as int,
            old(api).height as int,
            old(api).x as int,
            old(api).y as int,
            2,
        ),
        salt_outcome(*old(api), *final(api), cell),
{
    let ghost pre = *api;
    let ghost w = pre.width as int;
    let ghost h = pre.height as int;
    let ghost cx = pre.x as int;
    let ghost cy = pre.y as int;
    let mut cur = cell;
    let neighbors = api.neighbors()?;
    let mut pool: Vec<Neighbor> = Vec::new();
    let mut t: usize = 0;
    while t < 8
        invariant
            t <= 8,
            pool@.len() == t,
            neighbors@.len() == 8,
            forall|q: int| 0 <= q < pool@.len() ==> element_of(#[trigger] pool@[q], neighbors@),
        decreases 8 - t,
    {
        pool.push(neighbors[t]);
        t = t + 1;
    }
    shuffle_neighbors(api, &mut pool);
    let mut q: usize = 0;
    while q < pool.len()
        invariant
            api.inv(),
            pre.inv(),
            pre == *old(api),
            cur == cell,
            q <= pool@.len(),
            rule_frame(pre, *api),
            api.grid() == pre.grid(),
            w == pre.width as int,
            h == pre.height as int,
            cx == pre.x as int,
            cy == pre.y as int,
            forall|q2: int| 0 <= q2 < pool@.len() ==> element_of(#[trigger] pool@[q2], neighbors@),
            forall|j: int|
                0 <= j < 8 ==> (#[trigger] neighbors@[j]).dx == neighbor_dx(j)
                    && neighbors@[j].dy == neighbor_dy(j) && neighbors@[j].cell == g_at(
                    pre.grid(),
                    w,
                    h,
                    cx + neighbor_dx(j),
                    cy + neighbor_dy(j),
                ),
        decreases pool@.len() - q,
    {
        let n = pool[q];
        proof {
            assert(element_of(pool@[q as int], neighbors@));
            let j = choose|j: int| 0 <= j < neighbors@.len() && neighbors@[j] == pool@[q as int];
            assert(-1 <= n.dx as int <= 1 && -1 <= n.dy as int <= 1);
        }
        if matches!(n.cell.species, Species::Water) {
            let roll = api.rand_below(100);
            if roll < 5 {
                let ghost mid1 = *api;
                cur.species = Species::SaltWater;
                api.set(n.dx, n.dy, empty_cell())?;
                let ghost mid2 = *api;
                api.set(0, 0, cur)?;
                proof {
                    lemma_set_local(
                        mid1.grid(),
                        mid2.grid(),
                        mid1,
                        n.dx as int,
                        n.dy as int,
                        spec_empty(),
                        2,
                    );
                    lemma_set_local(mid2.grid(), final_grid_of(api), mid2, 0, 0, cur, 2);
                    lemma_local_trans(
                        mid1.grid(),
                        mid2.grid(),
                        final_grid_of(api),
                        w,
                        h,
                        cx,
                        cy,
                        2,
                    );
                    assert(mid1.grid() == pre.grid());
                    let j = choose|j: int|
                        0 <= j < neighbors@.len() && neighbors@[j] == pool@[q as int];
                    assert(g_at(
                        pre.grid(),
                        w,
                        h,
                        cx + neighbor_dx(j),
                        cy + neighbor_dy(j),
                    ).species == Species::Water);
                    assert(final_grid_of(api) == g_set_guarded(
                        g_set_guarded(
                            pre.grid(),
                            w,
                            h,
                            cx + neighbor_dx(j),
                            cy + neighbor_dy(j),
                            spec_empty(),
                        ),
                        w,
                        h,
                        cx,
                        cy,
                        cur,
                    ));
                    assert(cur == cell.spec_with_species(Species::SaltWater));
                    assert(salt_outcome(pre, *api, cell));
                }
                return Ok(());
            }
        }
        q = q + 1;
    }
    let ghost mid3 = *api;
    let res = update_powder(api, cur);
    proof {
        assert(mid3.grid() == pre.grid());
        assert(powder_outcome(pre, *api, cell));
    }
    res
}

/// What the absorption phase may do to each cell, pointwise: leave it
/// alone, consume an upward Water neighbor to nothing, or turn the cursor
/// into a fresh fully-dry Mud cell.
pub open spec fn sand_absorbed(
    g: Seq<Cell>,
    g1: Seq<Cell>,
    w: int,
    h: int,
    x: int,
    y: int,
) -> bool {
    &&& g1.len() == g.len()
    &&& forall|qx: int, qy: int|
        g_in_bounds(w, h, qx, qy) ==> {
            let a = g[g_index(w, qx, qy)];
            let b = (#[trigger] g1[g_index(w, qx, qy)]);
            ||| b == a
            ||| (a.species == Species::Water && qy < y && b == spec_empty())
            ||| (qx == x && qy == y && b.species == Species::Mud(0) && !b.clock && b.heat == 20)
        }
}

/// The Sand rule's outcomes: an absorption phase (upward Water consumed,
/// the cursor turned to fresh Mud) followed by exactly the powder movement.
pub open spec fn sand_outcome(pre: SandApi, post: SandApi, cell: Cell) -> bool {
    exists|g1: Seq<Cell>|
        #[trigger] sand_absorbed(
            pre.grid(),
            g1,
            pre.width as int,
            pre.height as int,
            pre.x as int,
            pre.y as int,
        ) && powder_outcome_from(
            g1,
            post.grid(),
            pre.width as int,
            pre.height as int,
            pre.x as int,
            pre.y as int,
            cell,
        )
}

/// Sand: a per-tick chance to stay put; may absorb an adjacent upward Water
/// cell and turn into Mud; the movement that follows is exactly the powder
/// rule's.
pub fn update_sand(api: &mut SandApi, cell: Cell) -> (r: Result<(), Error>)
    requires
        old(api).inv(),
    ensures
        r is Ok,
        rule_frame(*old(api), *final(api)),
        unchanged_outside(
            old(api).grid(),
            final(api).grid(),
            old(api).width as int,
            old(api).height as int,
            old(api).x as int,
            old(api).y as int,
            2,
        ),
        sand_outcome(*old(api), *final(api), cell),
{
    let ghost pre = *api;
    let ghost w = pre.width as int;
    let ghost h = pre.height as int;
    let ghost cx = pre.x as int;
    let ghost cy = pre.y as int;
    let fall_probability = api.rand_below(100);
    if fall_probability < 10 {
        proof {
            assert(sand_absorbed(pre.grid(), final_grid_of(api), w, h, cx, cy));
            assert(powder_outcome_from(
                final_grid_of(api),
                final_grid_of(api),
                w,
                h,
                cx,
                cy,
                cell,
            ));
        }
        return Ok(());  // settling friction: stay in place this tick
    }
    let neighbors = api.neighbors()?;
    let mut k: usize = 0;
    while k < 8
        invariant
            api.inv(),
            pre.inv(),
            pre == *old(api),
            k <= 8,
            rule_frame(pre, *api),
            unchanged_outside(pre.grid(), api.grid(), w, h, cx, cy, 2),
            sand_absorbed(pre.grid(), api.grid(), w, h, cx, cy),
            w == pre.width as int,
            h == pre.height as int,
            cx == pre.x as int,
            cy == pre.y as int,
            neighbors@.len() == 8,
            forall|j: int|
                0 <= j < 8 ==> (#[trigger] neighbors@[j]).dx == neighbor_dx(j)
                    && neighbors@[j].dy == neighbor_dy(j) && neighbors@[j].cell == g_at(
                    pre.grid(),
                    w,
                    h,
                    cx + neighbor_dx(j),
                    cy + neighbor_dy(j),
                ),
        decreases 8 - k,
    {
        let n = neighbors[k];
        if matches!(n.cell.species, Species::Water) {
            let absorb_probability = api.rand_below(100);
            if absorb_probability < 10 && n.dy < 0 {
                let ghost mid = *api;
                api.set(n.dx, n.dy, empty_cell())?;
                let ghost mid2 = *api;
                let m = Cell::mud();
                api.set(0, 0, m)?;
                proof {
                    lemma_set_local(
                        mid.grid(),
                        mid2.grid(),
                        mid,
                        n.dx as int,
                        n.dy as int,
                        spec_empty(),
                        2,
                    );
                    lemma_local_trans(pre.grid(), mid.grid(), mid2.grid(), w, h, cx, cy, 2);
                    lemma_set_local(mid2.grid(), final_grid_of(api), mid2, 0, 0, m, 2);
                    lemma_local_trans(pre.grid(), mid2.grid(), final_grid_of(api), w, h, cx, cy, 2);
                    lemma_sand_absorb_step(
                        pre.grid(),
                        mid.grid(),
                        mid2.grid(),
                        w,
                        h,
                        cx,
                        cy,
                        cx + n.dx as int,
                        cy + n.dy as int,
                        spec_empty(),
                    );
                    lemma_sand_absorb_step(
                        pre.grid(),
                        mid2.grid(),
                        final_grid_of(api),
                        w,
                        h,
                        cx,
                        cy,
                        cx,
                        cy,
                        m,
                    );
                }
            }
        }
        k = k + 1;
    }
    let ghost mid3 = *api;
    let res = update_powder(api, cell);
    proof {
        lemma_local_trans(pre.grid(), mid3.grid(), final_grid_of(api), w, h, cx, cy, 2);
        assert(sand_absorbed(pre.grid(), mid3.grid(), w, h, cx, cy));
        assert(powder_outcome_from(mid3.grid(), final_grid_of(api), w, h, cx, cy, cell));
    }
    res
}

/// One absorption write — an upward Water neighbor emptied, or the cursor
/// turned to fresh Mud — preserves the pointwise absorption
/// characterization.
proof fn lemma_sand_absorb_step(
    g0: Seq<Cell>,
    g1: Seq<Cell>,
    g2: Seq<Cell>,
    w: int,
    h: int,
    x: int,
    y: int,
    tx: int,
    ty: int,
    c: Cell,
)
    requires
        1 <= w,
        1 <= h,
        g0.len() == w * h,
        g1.len() == w * h,
        sand_absorbed(g0, g1, w, h, x, y),
        g2 == g_set_guarded(g1, w, h, tx, ty, c),
        g_in_bounds(w, h, tx, ty) ==> ((c == spec_empty() && g0[g_index(w, tx, ty)].species
            == Species::Water && ty < y) || (tx == x && ty == y && c.species == Species::Mud(0)
            && !c.clock && c.heat == 20)),
    ensures
        sand_absorbed(g0, g2, w, h, x, y),
{
    crate::api::lemma_set_guarded_frame(g1, w, h, tx, ty, c);
    assert forall|qx: int, qy: int| g_in_bounds(w, h, qx, qy) implies {
        let a = g0[g_index(w, qx, qy)];
        let b = (#[trigger] g2[g_index(w, qx, qy)]);
        ||| b == a
        ||| (a.species == Species::Water && qy < y && b == spec_empty())
        ||| (qx == x && qy == y && b.species == Species::Mud(0) && !b.clock && b.heat == 20)
    } by {
        crate::map2d::lemma_index_bounds(w, h, qx, qy);
        if g_in_bounds(w, h, tx, ty) {
            crate::map2d::lemma_index_bounds(w, h, tx, ty);
            if g_index(w, qx, qy) == g_index(w, tx, ty) {
                crate::map2d::lemma_index_injective(w, qx, qy, tx, ty);
            }
        }
    }
}

/// A locality bound holds for every larger radius.
pub proof fn lemma_local_widen(
    g0: Seq<Cell>,
    g1: Seq<Cell>,
    w: int,
    h: int,
    cx: int,
    cy: int,
    r1: int,
    r2: int,
)
    requires
        unchanged_outside(g0, g1, w, h, cx, cy, r1),
        r1 <= r2,
    ensures
        unchanged_outside(g0, g1, w, h, cx, cy, r2),
{
}

/// The restricted-fall rule writes only the cursor and the cell below it.
pub proof fn lemma_coarse_local(pre: SandApi, post_g: Seq<Cell>, cell: Cell, rad: int)
    requires
        pre.inv(),
        1 <= rad,
        post_g == coarse_step(
            pre.grid(),
            pre.width as int,
            pre.height as int,
            pre.x as int,
            pre.y as int,
            cell,
        ),
    ensures
        unchanged_outside(
            pre.grid(),
            post_g,
            pre.width as int,
            pre.height as int,
            pre.x as int,
            pre.y as int,
            rad,
        ),
{
    if pre.at(pre.x as int, pre.y + 1).spec_is_fluid() {
        lemma_swap_local(pre.grid(), post_g, pre, 0, 1, cell, rad);
    }
}

/// The possible outcomes of a hot Steam cell's tick: it decays to nothing
/// in place, trades places with an adjacent empty-or-gas cell (possibly
/// having lost heat first), or holds still.
pub open spec fn steam_hot_outcome(pre: SandApi, post: SandApi, cell: Cell) -> bool {
    let g = pre.grid();
    let w = pre.width as int;
    let h = pre.height as int;
    let x = pre.x as int;
    let y = pre.y as int;
    ||| post.grid() == g
    ||| post.grid() == g_set_guarded(g, w, h, x, y, spec_empty())
    ||| exists|ddx: int, ddy: int|
        -1 <= ddx <= 1 && -1 <= ddy <= 1 && spec_can_swap(
            #[trigger] g_at(g, w, h, x + ddx, y + ddy),
        ) && (post.grid() == g_swap(g, w, h, x, y, ddx, ddy, cell) || post.grid() == g_swap(
            g,
            w,
            h,
            x,
            y,
            ddx,
            ddy,
            (Cell {
                species: cell.species,
                clock: cell.clock,
                heat: crate::cell::sat_heat(cell.heat as int - 10),
                grain: cell.grain,
            }),
        ))
}

/// Steam: condenses to Water in place once its heat drops below the condense
/// threshold (exact); while hot it may rapidly decay to nothing, and
/// otherwise diffuses upward or diagonally with heat-dependent movement
/// likelihood, loses heat gradually, and falls back to unconstrained gas
/// diffusion when no clear upward path exists.
pub fn update_steam(api: &mut SandApi, cell: Cell) -> (r: Result<(), Error>)
    requires
        old(api).inv(),
    ensures
        r is Ok,
        rule_frame(*old(api), *final(api)),
        unchanged_outside(
            old(api).grid(),
            final(api).grid(),
            old(api).width as int,
            old(api).height as int,
            old(api).x as int,
            old(api).y as int,
            1,
        ),
        cell.heat < 100 ==> final(api).grid() == g_set_guarded(
            old(api).grid(),
            old(api).width as int,
            old(api).height as int,
            old(api).x as int,
            old(api).y as int,
            cell.spec_with_species(Species::Water),
        ),
        cell.heat < 100 ==> final(api).rng == old(api).rng,
        cell.heat >= 100 ==> steam_hot_outcome(*old(api), *final(api), cell),
{
    let ghost pre = *api;
    let ghost w = pre.width as int;
    let ghost h = pre.height as int;
    let ghost cx = pre.x as int;
    let ghost cy = pre.y as int;
    let mut cell = cell;

    // condensation below the threshold: one tick suffices
    if cell.heat < 100 {
        cell.species = Species::Water;
        api.set(0, 0, cell)?;
        proof {
            lemma_set_local(pre.grid(), final_grid_of(api), pre, 0, 0, cell, 1);
        }
        return Ok(());
    }

    let pick = api.rand_below(4);
    let dx: i32 = if pick == 0 {
        1
    } else if pick == 3 {
        -1
    } else {
        0
    };

    // rapid random decay to nothing
    if api.rand_below(1000) < 5 {
        let ghost mid = *api;
        api.set(0, 0, empty_cell())?;
        proof {
            lemma_set_local(mid.grid(), final_grid_of(api), mid, 0, 0, spec_empty(), 1);
            lemma_local_trans(pre.grid(), mid.grid(), final_grid_of(api), w, h, cx, cy, 1);
        }
        return Ok(());
    }

    // heat-dependent drift: the cooler the steam, the likelier a lazy step
    let draw = api.rand_below(199) as i64 - 99;
    if draw < 170 - cell.heat as i64 {
        let pick2 = api.rand_below(8);
        let dy: i32 = if pick2 == 0 {
            1
        } else if pick2 >= 6 {
            -1
        } else {
            0
        };
        if api.is_empty(dx, dy) {
            let ghost mid = *api;
            api.swap(dx, dy, cell)?;
            proof {
                lemma_swap_local(mid.grid(), final_grid_of(api), mid, dx as int, dy as int, cell, 1);
                lemma_local_trans(pre.grid(), mid.grid(), final_grid_of(api), w, h, cx, cy, 1);
                assert(spec_can_swap(g_at(pre.grid(), w, h, cx + dx as int, cy + dy as int)));
                assert(final_grid_of(api) == g_swap(
                    pre.grid(),
                    w,
                    h,
                    cx,
                    cy,
                    dx as int,
                    dy as int,
                    cell,
                ));
            }
        }
        return Ok(());
    }

    let up = api.get(dx, -1)?;
    if api.is_empty(dx, -1) || up.is_gas() {
        let ghost mid = *api;
        api.swap(dx, -1, cell)?;
        proof {
            lemma_swap_local(mid.grid(), final_grid_of(api), mid, dx as int, -1, cell, 1);
            lemma_local_trans(pre.grid(), mid.grid(), final_grid_of(api), w, h, cx, cy, 1);
            assert(spec_can_swap(g_at(pre.grid(), w, h, cx + dx as int, cy - 1)));
            assert(final_grid_of(api) == g_swap(pre.grid(), w, h, cx, cy, dx as int, -1, cell));
        }
        return Ok(());
    }

    if api.rand_below(100) < 50 {
        cell.heat = heat_sub(cell.heat, 10);
    }
    let ghost mid = *api;
    let res = update_gas(api, cell);
    proof {
        lemma_local_trans(pre.grid(), mid.grid(), final_grid_of(api), w, h, cx, cy, 1);
        if final_grid_of(api) != mid.grid() {
            let (gdx, gdy) = choose|ddx: int, ddy: int|
                -1 <= ddx <= 1 && -1 <= ddy <= 1 && (g_at(
                    mid.grid(),
                    mid.width as int,
                    mid.height as int,
                    mid.x + ddx,
                    mid.y + ddy,
                ).spec_is_gas() || g_at(
                    mid.grid(),
                    mid.width as int,
                    mid.height as int,
                    mid.x + ddx,
                    mid.y + ddy,
                ).species == Species::Empty) && final_grid_of(api) == g_swap(
                    mid.grid(),
                    mid.width as int,
                    mid.height as int,
                    mid.x as int,
                    mid.y as int,
                    ddx,
                    ddy,
                    cell,
                );
            assert(spec_can_swap(g_at(pre.grid(), w, h, cx + gdx, cy + gdy)));
            assert(final_grid_of(api) == g_swap(pre.grid(), w, h, cx, cy, gdx, gdy, cell));
        }
    }
    res
}

/// The heat a burning cursor hands upward in one radiation write: 20 from
/// Fire, 22 from anything else (the dispatcher only passes Fire and
/// BlueFire); a BlueFire below its own threshold may have demoted to Fire
/// first, so either amount is possible for it.
pub open spec fn fire_boost_ok(c0: Cell, d: int) -> bool {
    ||| (d == 20 && (c0.species == Species::Fire || (c0.species == Species::BlueFire && c0.heat
        < 2600)))
    ||| (d == 22 && c0.species != Species::Fire)
}

/// What a burning cursor (heat at or above the ignition floor) may do to
/// each in-bounds neighbor: Border cells are untouched; a non-flammable,
/// non-Empty cell directly above that is cooler than the fire is warmed by
/// exactly the radiation amount (and by nothing anywhere else); flammable
/// growth is possibly radiated and possibly ignited to Fire at heat 800.
/// Nothing is said of Empty neighbors (the fire itself may move into one).
pub open spec fn fire_neighbors_ok(
    g: Seq<Cell>,
    post: Seq<Cell>,
    w: int,
    h: int,
    x: int,
    y: int,
    c0: Cell,
) -> bool {
    forall|k: int|
        0 <= k < 8 && g_in_bounds(w, h, x + neighbor_dx(k), y + neighbor_dy(k)) ==> {
            let a = g[g_index(w, x + neighbor_dx(k), y + neighbor_dy(k))];
            let b = (#[trigger] post[g_index(w, x + neighbor_dx(k), y + neighbor_dy(k))]);
            if a.species == Species::Border {
                b == a
            } else if a.spec_is_flammable() {
                ||| b == a
                ||| (neighbor_dy(k) == -1 && a.heat < c0.heat && exists|d: int|
                    #[trigger] fire_boost_ok(c0, d) && b == crate::cell::spec_with_heat(
                        a,
                        crate::cell::sat_heat(a.heat + d),
                    ))
                ||| b == (Cell { species: Species::Fire, clock: a.clock, heat: 800, grain: a.grain })
            } else if a.species != Species::Empty {
                if neighbor_dy(k) == -1 && a.heat < c0.heat {
                    exists|d: int|
                        #[trigger] fire_boost_ok(c0, d) && b == crate::cell::spec_with_heat(
                            a,
                            crate::cell::sat_heat(a.heat + d),
                        )
                } else {
                    b == a
                }
            } else {
                true
            }
        }
}

/// Fire and BlueFire: decay to nothing below the ignition floor (exact),
/// radiate heat into the three cells above (exact for everything but
/// flammable or empty cells), ignite adjacent flammable growth, go out under
/// a dousing or solid cell, and otherwise drift upward with horizontal
/// jitter, losing heat as they move; BlueFire cools into ordinary Fire below
/// its own threshold.
#[verifier::rlimit(100)]
pub fn update_fire(api: &mut SandApi, cell: Cell) -> (r: Result<(), Error>)
    requires
        old(api).inv(),
    ensures
        r is Ok,
        rule_frame(*old(api), *final(api)),
        unchanged_outside(
            old(api).grid(),
            final(api).grid(),
            old(api).width as int,
            old(api).height as int,
            old(api).x as int,
            old(api).y as int,
            1,
        ),
        cell.heat < 600 ==> final(api).grid() == g_set_guarded(
            old(api).grid(),
            old(api).width as int,
            old(api).height as int,
            old(api).x as int,
            old(api).y as int,
            spec_empty(),
        ),
        cell.heat >= 600 ==> fire_neighbors_ok(
            old(api).grid(),
            final(api).grid(),
            old(api).width as int,
            old(api).height as int,
            old(api).x as int,
            old(api).y as int,
            cell,
        ),
{
    let ghost pre = *api;
    let ghost w = pre.width as int;
    let ghost h = pre.height as int;
    let ghost cx = pre.x as int;
    let ghost cy = pre.y as int;
    let mut cur = cell;
    let pick = api.rand_below(4);
    let mut dx: i32 = if pick == 0 {
        1
    } else if pick == 3 {
        -1
    } else {
        0
    };

    if matches!(cur.species, Species::BlueFire) && cur.heat < 2600 {
        if api.rand_chance(2, 100) {
            cur.species = Species::Fire;
        }
    }

    if cur.heat < 600 {
        let ghost mid = *api;
        api.set(0, 0, empty_cell())?;
        proof {
            lemma_set_local(mid.grid(), final_grid_of(api), mid, 0, 0, spec_empty(), 1);
            lemma_local_trans(pre.grid(), mid.grid(), final_grid_of(api), w, h, cx, cy, 1);
        }
        return Ok(());
    }

    // radiate heat into the three cells directly above
    let boost: i16 = if matches!(cur.species, Species::Fire) {
        20
    } else {
        22
    };
    proof {
        assert(fire_boost_ok(cell, boost as int));
    }
    let mut i: i32 = -1;
    while i <= 1
        invariant
            api.inv(),
            pre.inv(),
            pre == *old(api),
            -1 <= i <= 2,
            rule_frame(pre, *api),
            unchanged_outside(pre.grid(), api.grid(), w, h, cx, cy, 1),
            w == pre.width as int,
            h == pre.height as int,
            cx == pre.x as int,
            cy == pre.y as int,
            cur.heat == cell.heat,
            fire_boost_ok(cell, boost as int),
            forall|qx: int, qy: int|
                g_in_bounds(w, h, qx, qy) ==> {
                    let a = pre.grid()[g_index(w, qx, qy)];
                    let b = (#[trigger] api.grid()[g_index(w, qx, qy)]);
                    if qy == cy - 1 && cx - 1 <= qx < cx + i && a.species != Species::Empty
                        && a.species != Species::Border && a.heat < cell.heat {
                        b == crate::cell::spec_with_heat(
                            a,
                            crate::cell::sat_heat(a.heat + boost as int),
                        )
                    } else {
                        b == a
                    }
                },
        decreases 2 - i,
    {
        if !api.is_empty(i, -1) {
            let mut nb = api.get(i, -1)?;
            if nb.heat < cur.heat {
                nb.heat = crate::cell::heat_add(nb.heat, boost);
            }
            let ghost mid = *api;
            api.set(i, -1, nb)?;
            proof {
                lemma_set_local(mid.grid(), final_grid_of(api), mid, i as int, -1, nb, 1);
                lemma_local_trans(pre.grid(), mid.grid(), final_grid_of(api), w, h, cx, cy, 1);
                crate::api::lemma_set_guarded_frame(mid.grid(), w, h, cx + i as int, cy - 1, nb);
                assert forall|qx: int, qy: int| g_in_bounds(w, h, qx, qy) implies {
                    let a = pre.grid()[g_index(w, qx, qy)];
                    let b = (#[trigger] final_grid_of(api)[g_index(w, qx, qy)]);
                    if qy == cy - 1 && cx - 1 <= qx < cx + i + 1 && a.species != Species::Empty
                        && a.species != Species::Border && a.heat < cell.heat {
                        b == crate::cell::spec_with_heat(
                            a,
                            crate::cell::sat_heat(a.heat + boost as int),
                        )
                    } else {
                        b == a
                    }
                } by {
                    crate::map2d::lemma_index_bounds(w, h, qx, qy);
                    if g_in_bounds(w, h, cx + i as int, cy - 1) {
                        crate::map2d::lemma_index_bounds(w, h, cx + i as int, cy - 1);
                        if g_index(w, qx, qy) == g_index(w, cx + i as int, cy - 1) {
                            crate::map2d::lemma_index_injective(w, qx, qy, cx + i as int, cy - 1);
                        }
                    }
                }
            }
        } else {
            proof {
                assert forall|qx: int, qy: int| g_in_bounds(w, h, qx, qy) implies {
                    let a = pre.grid()[g_index(w, qx, qy)];
                    let b = (#[trigger] api.grid()[g_index(w, qx, qy)]);
                    if qy == cy - 1 && cx - 1 <= qx < cx + i + 1 && a.species != Species::Empty
                        && a.species != Species::Border && a.heat < cell.heat {
                        b == crate::cell::spec_with_heat(
                            a,
                            crate::cell::sat_heat(a.heat + boost as int),
                        )
                    } else {
                        b == a
                    }
                } by {
                    crate::map2d::lemma_index_bounds(w, h, qx, qy);
                }
            }
        }
        i = i + 1;
    }
    let ghost g_rad = *api;

    // ignite adjacent flammable growth
    let neighbors = api.neighbors()?;
    let mut k: usize = 0;
    while k < 8
        invariant
            api.inv(),
            pre.inv(),
            g_rad.inv(),
            pre == *old(api),
            k <= 8,
            rule_frame(pre, *api),
            rule_frame(pre, g_rad),
            unchanged_outside(pre.grid(), api.grid(), w, h, cx, cy, 1),
            w == pre.width as int,
            h == pre.height as int,
            cx == pre.x as int,
            cy == pre.y as int,
            g_rad.width == pre.width,
            g_rad.height == pre.height,
            g_rad.x == pre.x,
            g_rad.y == pre.y,
            neighbors@.len() == 8,
            forall|j: int|
                0 <= j < 8 ==> (#[trigger] neighbors@[j]).dx == neighbor_dx(j)
                    && neighbors@[j].dy == neighbor_dy(j) && neighbors@[j].cell == g_at(
                    g_rad.grid(),
                    w,
                    h,
                    cx + neighbor_dx(j),
                    cy + neighbor_dy(j),
                ),
            forall|qx: int, qy: int|
                g_in_bounds(w, h, qx, qy) ==> {
                    let a = g_rad.grid()[g_index(w, qx, qy)];
                    let b = (#[trigger] api.grid()[g_index(w, qx, qy)]);
                    ||| b == a
                    ||| (a.spec_is_flammable() && b == (Cell {
                        species: Species::Fire,
                        clock: a.clock,
                        heat: 800,
                        grain: a.grain,
                    }))
                },
        decreases 8 - k,
    {
        let n = neighbors[k];
        if n.cell.is_flammable() {
            if api.rand_chance(20, 100) {
                let mut nb = n.cell;
                nb.species = Species::Fire;
                nb.heat = 800;
                let ghost mid = *api;
                api.set(n.dx, n.dy, nb)?;
                proof {
                    lemma_set_local(mid.grid(), final_grid_of(api), mid, n.dx as int, n.dy as int, nb, 1);
                    lemma_local_trans(pre.grid(), mid.grid(), final_grid_of(api), w, h, cx, cy, 1);
                    crate::api::lemma_set_guarded_frame(
                        mid.grid(),
                        w,
                        h,
                        cx + n.dx as int,
                        cy + n.dy as int,
                        nb,
                    );
                    assert forall|qx: int, qy: int| g_in_bounds(w, h, qx, qy) implies {
                        let a = g_rad.grid()[g_index(w, qx, qy)];
                        let b = (#[trigger] final_grid_of(api)[g_index(w, qx, qy)]);
                        ||| b == a
                        ||| (a.spec_is_flammable() && b == (Cell {
                            species: Species::Fire,
                            clock: a.clock,
                            heat: 800,
                            grain: a.grain,
                        }))
                    } by {
                        crate::map2d::lemma_index_bounds(w, h, qx, qy);
                        if g_in_bounds(w, h, cx + n.dx as int, cy + n.dy as int) {
                            crate::map2d::lemma_index_bounds(
                                w,
                                h,
                                cx + n.dx as int,
                                cy + n.dy as int,
                            );
                            if g_index(w, qx, qy) == g_index(w, cx + n.dx as int, cy + n.dy as int) {
                                crate::map2d::lemma_index_injective(
                                    w,
                                    qx,
                                    qy,
                                    cx + n.dx as int,
                                    cy + n.dy as int,
                                );
                            }
                        }
                    }
                }
            }
        }
        k = k + 1;
    }
    let ghost g_ign = *api;
    proof {
        lemma_fire_compose(pre.grid(), g_rad.grid(), g_ign.grid(), w, h, cx, cy, cell, boost as int);
    }

    // a dousing cell directly above puts the fire out; a solid may smother it
    let above = api.get(0, -1)?;
    let mut doused = false;
    if above.douses_fire() {
        if api.rand_chance(40, 100) {
            doused = true;
        }
    }
    if !doused && above.is_solid() {
        if api.rand_chance(20, 100) {
            doused = true;
        }
    }
    if doused {
        let ghost mid = *api;
        api.set(0, 0, empty_cell())?;
        proof {
            lemma_set_local(mid.grid(), final_grid_of(api), mid, 0, 0, spec_empty(), 1);
            lemma_local_trans(pre.grid(), mid.grid(), final_grid_of(api), w, h, cx, cy, 1);
            crate::api::lemma_set_guarded_frame(mid.grid(), w, h, cx, cy, spec_empty());
            lemma_fire_nonneighbor_write(
                pre.grid(),
                g_ign.grid(),
                mid.grid(),
                final_grid_of(api),
                w,
                h,
                cx,
                cy,
                cell,
                cx,
                cy,
            );
        }
        return Ok(());
    }

    // drift upward or sideways, losing heat while moving
    let mut dy: i32 = 0;
    let mut moved = false;
    if api.is_empty(dx, -1) {
        dy = -1;
        moved = true;
    } else if api.is_empty(dx, 0) {
        moved = true;
    } else if api.rand_chance(1, 100) {
        let ghost mid = *api;
        api.set(0, 0, empty_cell())?;
        proof {
            lemma_set_local(mid.grid(), final_grid_of(api), mid, 0, 0, spec_empty(), 1);
            lemma_local_trans(pre.grid(), mid.grid(), final_grid_of(api), w, h, cx, cy, 1);
            crate::api::lemma_set_guarded_frame(mid.grid(), w, h, cx, cy, spec_empty());
            lemma_fire_nonneighbor_write(
                pre.grid(),
                g_ign.grid(),
                mid.grid(),
                final_grid_of(api),
                w,
                h,
                cx,
                cy,
                cell,
                cx,
                cy,
            );
        }
        return Ok(());
    } else {
        dx = 0;
    }

    let cools = api.rand_chance(50, 100);
    if cools && moved {
        let loss: i16 = if cur.heat <= 800 {
            16
        } else {
            120
        };
        cur.heat = crate::cell::heat_sub(cur.heat, loss);
    }
    let ghost mid = *api;
    api.swap(dx, dy, cur)?;
    proof {
        lemma_swap_local(mid.grid(), final_grid_of(api), mid, dx as int, dy as int, cur, 1);
        lemma_local_trans(pre.grid(), mid.grid(), final_grid_of(api), w, h, cx, cy, 1);
        // the swap touches the cursor and a target that currently reads
        // Empty; every claimed neighbor still holds its claimed value
        let other = g_at(mid.grid(), w, h, cx + dx as int, cy + dy as int);
        if other.species == Species::Border {
            lemma_fire_nonneighbor_write(
                pre.grid(),
                g_ign.grid(),
                mid.grid(),
                final_grid_of(api),
                w,
                h,
                cx,
                cy,
                cell,
                cx,
                cy,
            );
        } else {
            let gsw = g_set_guarded(mid.grid(), w, h, cx, cy, other);
            crate::api::lemma_set_guarded_frame(mid.grid(), w, h, cx, cy, other);
            lemma_fire_nonneighbor_write(
                pre.grid(),
                g_ign.grid(),
                mid.grid(),
                gsw,
                w,
                h,
                cx,
                cy,
                cell,
                cx,
                cy,
            );
            crate::api::lemma_set_guarded_frame(gsw, w, h, cx + dx as int, cy + dy as int, cur);
            if g_in_bounds(w, h, cx + dx as int, cy + dy as int) && !(dx == 0 && dy == 0) {
                crate::map2d::lemma_index_bounds(w, h, cx + dx as int, cy + dy as int);
                if g_in_bounds(w, h, cx, cy) {
                    crate::map2d::lemma_index_bounds(w, h, cx, cy);
                    if g_index(w, cx + dx as int, cy + dy as int) == g_index(w, cx, cy) {
                        crate::map2d::lemma_index_injective(
                            w,
                            cx + dx as int,
                            cy + dy as int,
                            cx,
                            cy,
                        );
                    }
                }
                assert(gsw[g_index(w, cx + dx as int, cy + dy as int)].species == Species::Empty);
            }
            lemma_fire_nonneighbor_write(
                pre.grid(),
                gsw,
                gsw,
                final_grid_of(api),
                w,
                h,
                cx,
                cy,
                cell,
                cx + dx as int,
                cy + dy as int,
            );
        }
    }
    Ok(())
}

/// Radiation then ignition compose into the full neighbor characterization.
proof fn lemma_fire_compose(
    g0: Seq<Cell>,
    g1: Seq<Cell>,
    g2: Seq<Cell>,
    w: int,
    h: int,
    x: int,
    y: int,
    cell: Cell,
    boost: int,
)
    requires
        1 <= w,
        1 <= h,
        g0.len() == w * h,
        g1.len() == g0.len(),
        g2.len() == g0.len(),
        fire_boost_ok(cell, boost),
        forall|qx: int, qy: int|
            g_in_bounds(w, h, qx, qy) ==> {
                let a = g0[g_index(w, qx, qy)];
                let b = (#[trigger] g1[g_index(w, qx, qy)]);
                if qy == y - 1 && x - 1 <= qx < x + 2 && a.species != Species::Empty && a.species
                    != Species::Border && a.heat < cell.heat {
                    b == crate::cell::spec_with_heat(
                        a,
                        crate::cell::sat_heat(a.heat + boost),
                    )
                } else {
                    b == a
                }
            },
        forall|qx: int, qy: int|
            g_in_bounds(w, h, qx, qy) ==> {
                let a = g1[g_index(w, qx, qy)];
                let b = (#[trigger] g2[g_index(w, qx, qy)]);
                ||| b == a
                ||| (a.spec_is_flammable() && b == (Cell {
                    species: Species::Fire,
                    clock: a.clock,
                    heat: 800,
                    grain: a.grain,
                }))
            },
    ensures
        fire_neighbors_ok(g0, g2, w, h, x, y, cell),
{
    assert forall|k: int|
        0 <= k < 8 && g_in_bounds(w, h, x + neighbor_dx(k), y + neighbor_dy(k)) implies {
        let a = g0[g_index(w, x + neighbor_dx(k), y + neighbor_dy(k))];
        let b = (#[trigger] g2[g_index(w, x + neighbor_dx(k), y + neighbor_dy(k))]);
        if a.species == Species::Border {
            b == a
        } else if a.spec_is_flammable() {
            ||| b == a
            ||| (neighbor_dy(k) == -1 && a.heat < cell.heat && exists|d: int|
                #[trigger] fire_boost_ok(cell, d) && b == crate::cell::spec_with_heat(
                    a,
                    crate::cell::sat_heat(a.heat + d),
                ))
            ||| b == (Cell { species: Species::Fire, clock: a.clock, heat: 800, grain: a.grain })
        } else if a.species != Species::Empty {
            if neighbor_dy(k) == -1 && a.heat < cell.heat {
                exists|d: int|
                    #[trigger] fire_boost_ok(cell, d) && b == crate::cell::spec_with_heat(
                        a,
                        crate::cell::sat_heat(a.heat + d),
                    )
            } else {
                b == a
            }
        } else {
            true
        }
    } by {
        crate::map2d::lemma_index_bounds(w, h, x + neighbor_dx(k), y + neighbor_dy(k));
        let a = g0[g_index(w, x + neighbor_dx(k), y + neighbor_dy(k))];
        let m = g1[g_index(w, x + neighbor_dx(k), y + neighbor_dy(k))];
        if a.species != Species::Border && !a.spec_is_flammable() && a.species != Species::Empty
            && neighbor_dy(k) == -1 && a.heat < cell.heat {
            assert(m == crate::cell::spec_with_heat(
                a,
                crate::cell::sat_heat(a.heat + boost),
            ));
            assert(fire_boost_ok(cell, boost));
        }
        if a.spec_is_flammable() && neighbor_dy(k) == -1 && a.heat < cell.heat && m != a {
            assert(fire_boost_ok(cell, boost));
        }
    }
}

/// A guarded write at the cursor, or at a cell that currently reads Empty,
/// leaves every neighbor's fire characterization intact: the claimed
/// neighbors are never Empty and never the cursor.
proof fn lemma_fire_nonneighbor_write(
    g0: Seq<Cell>,
    g_claim: Seq<Cell>,
    g_before: Seq<Cell>,
    g_after: Seq<Cell>,
    w: int,
    h: int,
    x: int,
    y: int,
    cell: Cell,
    tx: int,
    ty: int,
)
    requires
        1 <= w,
        1 <= h,
        g0.len() == w * h,
        g_claim.len() == g0.len(),
        g_before.len() == g0.len(),
        g_after.len() == g0.len(),
        fire_neighbors_ok(g0, g_claim, w, h, x, y, cell),
        forall|qx: int, qy: int|
            g_in_bounds(w, h, qx, qy) && !(qx == x && qy == y) && !(qx == tx && qy == ty) ==> (
            #[trigger] g_before[g_index(w, qx, qy)]) == g_claim[g_index(w, qx, qy)],
        forall|qx: int, qy: int|
            g_in_bounds(w, h, qx, qy) && !(qx == tx && qy == ty) ==> (#[trigger] g_after[g_index(
                w,
                qx,
                qy,
            )]) == g_before[g_index(w, qx, qy)],
        (tx == x && ty == y) || (g_in_bounds(w, h, tx, ty) ==> g_claim[g_index(
            w,
            tx,
            ty,
        )].species == Species::Empty),
    ensures
        fire_neighbors_ok(g0, g_after, w, h, x, y, cell),
{
    assert forall|k: int|
        0 <= k < 8 && g_in_bounds(w, h, x + neighbor_dx(k), y + neighbor_dy(k)) implies {
        let a = g0[g_index(w, x + neighbor_dx(k), y + neighbor_dy(k))];
        let b = (#[trigger] g_after[g_index(w, x + neighbor_dx(k), y + neighbor_dy(k))]);
        if a.species == Species::Border {
            b == a
        } else if a.spec_is_flammable() {
            ||| b == a
            ||| (neighbor_dy(k) == -1 && a.heat < cell.heat && exists|d: int|
                #[trigger] fire_boost_ok(cell, d) && b == crate::cell::spec_with_heat(
                    a,
                    crate::cell::sat_heat(a.heat + d),
                ))
            ||| b == (Cell { species: Species::Fire, clock: a.clock, heat: 800, grain: a.grain })
        } else if a.species != Species::Empty {
            if neighbor_dy(k) == -1 && a.heat < cell.heat {
                exists|d: int|
                    #[trigger] fire_boost_ok(cell, d) && b == crate::cell::spec_with_heat(
                        a,
                        crate::cell::sat_heat(a.heat + d),
                    )
            } else {
                b == a
            }
        } else {
            true
        }
    } by {
        crate::map2d::lemma_index_bounds(w, h, x + neighbor_dx(k), y + neighbor_dy(k));
        assert(neighbor_dx(k) != 0 || neighbor_dy(k) != 0);
        let a = g0[g_index(w, x + neighbor_dx(k), y + neighbor_dy(k))];
        if x + neighbor_dx(k) == tx && y + neighbor_dy(k) == ty {
            // the write target reads Empty in the claimed grid, so its
            // pre-tick species was Empty too and nothing is claimed of it
            assert(a.species == Species::Empty);
        }
    }
}

/// The exact value a radiated neighbor takes: warmed by 30, but never past
/// the lava's heat at that moment.
pub open spec fn lava_warmed(a: Cell, hk: i16) -> Cell {
    if crate::cell::sat_heat(a.heat + 30) > hk {
        crate::cell::spec_with_heat(a, hk)
    } else {
        crate::cell::spec_with_heat(a, crate::cell::sat_heat(a.heat + 30))
    }
}

/// The radiation sweep, exactly: scanning the eight neighbors in order, each
/// one whose (clamped) read is cooler than the lava's current heat and not
/// exactly the default Empty cell is warmed to min(its heat + 30, the lava's
/// current heat) — Border cells excepted, whose writes drop — and costs the
/// lava five units; `hs` is the lava's heat before each scan step, ending in
/// its heat after the sweep.
pub open spec fn lava_trace_ok(
    g: Seq<Cell>,
    post: Seq<Cell>,
    w: int,
    h: int,
    x: int,
    y: int,
    hs: Seq<i16>,
) -> bool {
    &&& hs.len() == 9
    &&& forall|k: int|
        0 <= k < 8 ==> {
            let a = g_at(g, w, h, x + neighbor_dx(k), y + neighbor_dy(k));
            &&& (#[trigger] hs[k + 1]) == (if a.heat < hs[k] && a != spec_empty() {
                crate::cell::sat_heat(hs[k] - 5)
            } else {
                hs[k]
            })
            &&& (g_in_bounds(w, h, x + neighbor_dx(k), y + neighbor_dy(k)) ==> {
                let b = post[g_index(w, x + neighbor_dx(k), y + neighbor_dy(k))];
                if a.heat < hs[k] && a != spec_empty() && a.species != Species::Border {
                    b == lava_warmed(a, hs[k])
                } else {
                    b == a
                }
            })
        }
}

/// The movement phase of the Lava rule: mostly liquid motion (with the
/// forced straight-down sink), occasionally powder motion.
pub open spec fn lava_moved(
    gmid: Seq<Cell>,
    g2: Seq<Cell>,
    w: int,
    h: int,
    x: int,
    y: int,
    c2: Cell,
) -> bool {
    ||| (exists|g1: Seq<Cell>|
        #[trigger] liquid_washed(gmid, g1, w, h, x, y) && liquid_moved(g1, g2, w, h, x, y, c2))
    ||| powder_outcome_from(gmid, g2, w, h, x, y, c2)
}

/// The Lava rule's outcomes: an exact Stone conversion below the cooling
/// threshold, or the exact radiation sweep followed by liquid-or-powder
/// movement of the cooled lava.
pub open spec fn lava_outcome(pre: SandApi, post: SandApi, cell: Cell) -> bool {
    let g = pre.grid();
    let w = pre.width as int;
    let h = pre.height as int;
    let x = pre.x as int;
    let y = pre.y as int;
    ||| (cell.heat < 1600 && post.grid() == g_set_guarded(
        g,
        w,
        h,
        x,
        y,
        cell.spec_with_species(Species::Stone),
    ))
    ||| exists|gmid: Seq<Cell>, hs: Seq<i16>|
        (#[trigger] lava_trace_ok(g, gmid, w, h, x, y, hs)) && hs[0] == cell.heat && lava_moved(
            gmid,
            post.grid(),
            w,
            h,
            x,
            y,
            crate::cell::spec_with_heat(cell, hs[8]),
        )
}

/// One radiation step: the neighbor write (dropped on Border) and the
/// cursor's own heat write extend the per-step characterization by one scan
/// index.
#[verifier::spinoff_prover]
proof fn lemma_lava_rad_step(
    g0: Seq<Cell>,
    g1: Seq<Cell>,
    g2: Seq<Cell>,
    g3: Seq<Cell>,
    w: int,
    h: int,
    x: int,
    y: int,
    k: int,
    hs: Seq<i16>,
    nb: Cell,
    curc: Cell,
)
    requires
        1 <= w,
        1 <= h,
        g0.len() == w * h,
        g1.len() == w * h,
        0 <= k < 8,
        hs.len() == k + 2,
        forall|j: int|
            0 <= j < k && g_in_bounds(w, h, x + neighbor_dx(j), y + neighbor_dy(j)) ==> {
                let a = g_at(g0, w, h, x + neighbor_dx(j), y + neighbor_dy(j));
                let b = (#[trigger] g1[g_index(w, x + neighbor_dx(j), y + neighbor_dy(j))]);
                if a.heat < hs[j] && a != spec_empty() && a.species != Species::Border {
                    b == lava_warmed(a, hs[j])
                } else {
                    b == a
                }
            },
        ({
            let a = g_at(g0, w, h, x + neighbor_dx(k), y + neighbor_dy(k));
            a.heat < hs[k] && a != spec_empty() && nb == lava_warmed(a, hs[k])
        }),
        g_in_bounds(w, h, x + neighbor_dx(k), y + neighbor_dy(k)) ==> g1[g_index(
            w,
            x + neighbor_dx(k),
            y + neighbor_dy(k),
        )] == g_at(g0, w, h, x + neighbor_dx(k), y + neighbor_dy(k)),
        g2 == g_set_guarded(g1, w, h, x + neighbor_dx(k), y + neighbor_dy(k), nb),
        g3 == g_set_guarded(g2, w, h, x, y, curc),
    ensures
        forall|j: int|
            0 <= j < k + 1 && g_in_bounds(w, h, x + neighbor_dx(j), y + neighbor_dy(j)) ==> {
                let a = g_at(g0, w, h, x + neighbor_dx(j), y + neighbor_dy(j));
                let b = (#[trigger] g3[g_index(w, x + neighbor_dx(j), y + neighbor_dy(j))]);
                if a.heat < hs[j] && a != spec_empty() && a.species != Species::Border {
                    b == lava_warmed(a, hs[j])
                } else {
                    b == a
                }
            },
        g3.len() == g0.len(),
        forall|j: int|
            0 <= j < 8 && g_in_bounds(w, h, x + neighbor_dx(j), y + neighbor_dy(j)) && j > k
                ==> (#[trigger] g3[g_index(w, x + neighbor_dx(j), y + neighbor_dy(j))])
                == g1[g_index(w, x + neighbor_dx(j), y + neighbor_dy(j))],
{
    lemma_set_guarded_frame_pair(g1, g2, g3, w, h, x, y, k, nb, curc);
    assert forall|j: int|
        0 <= j < k + 1 && g_in_bounds(w, h, x + neighbor_dx(j), y + neighbor_dy(j)) implies {
        let a = g_at(g0, w, h, x + neighbor_dx(j), y + neighbor_dy(j));
        let b = (#[trigger] g3[g_index(w, x + neighbor_dx(j), y + neighbor_dy(j))]);
        if a.heat < hs[j] && a != spec_empty() && a.species != Species::Border {
            b == lava_warmed(a, hs[j])
        } else {
            b == a
        }
    } by {
        crate::map2d::lemma_index_bounds(w, h, x + neighbor_dx(j), y + neighbor_dy(j));
        assert(neighbor_dx(j) != 0 || neighbor_dy(j) != 0);
        if j < k {
            lemma_neighbor_offsets_distinct(j, k);
        }
    }
    assert forall|j: int|
        0 <= j < 8 && g_in_bounds(w, h, x + neighbor_dx(j), y + neighbor_dy(j)) && j > k implies (
    #[trigger] g3[g_index(w, x + neighbor_dx(j), y + neighbor_dy(j))]) == g1[g_index(
        w,
        x + neighbor_dx(j),
        y + neighbor_dy(j),
    )] by {
        crate::map2d::lemma_index_bounds(w, h, x + neighbor_dx(j), y + neighbor_dy(j));
        assert(neighbor_dx(j) != 0 || neighbor_dy(j) != 0);
        lemma_neighbor_offsets_distinct(j, k);
    }
}

/// Frame reasoning shared by the radiation step: the two writes touch only
/// the scanned neighbor and the cursor.
proof fn lemma_set_guarded_frame_pair(
    g1: Seq<Cell>,
    g2: Seq<Cell>,
    g3: Seq<Cell>,
    w: int,
    h: int,
    x: int,
    y: int,
    k: int,
    nb: Cell,
    curc: Cell,
)
    requires
        1 <= w,
        1 <= h,
        g1.len() == w * h,
        0 <= k < 8,
        g2 == g_set_guarded(g1, w, h, x + neighbor_dx(k), y + neighbor_dy(k), nb),
        g3 == g_set_guarded(g2, w, h, x, y, curc),
    ensures
        g3.len() == g1.len(),
        forall|qx: int, qy: int|
            g_in_bounds(w, h, qx, qy) && !(qx == x + neighbor_dx(k) && qy == y + neighbor_dy(k))
                && !(qx == x && qy == y) ==> (#[trigger] g3[g_index(w, qx, qy)]) == g1[g_index(
                w,
                qx,
                qy,
            )],
        g_in_bounds(w, h, x + neighbor_dx(k), y + neighbor_dy(k)) && g1[g_index(
            w,
            x + neighbor_dx(k),
            y + neighbor_dy(k),
        )].species != Species::Border ==> (#[trigger] g3[g_index(
            w,
            x + neighbor_dx(k),
            y + neighbor_dy(k),
        )]) == nb,
        g_in_bounds(w, h, x + neighbor_dx(k), y + neighbor_dy(k)) && g1[g_index(
            w,
            x + neighbor_dx(k),
            y + neighbor_dy(k),
        )].species == Species::Border ==> (#[trigger] g3[g_index(
            w,
            x + neighbor_dx(k),
            y + neighbor_dy(k),
        )]) == g1[g_index(w, x + neighbor_dx(k), y + neighbor_dy(k))],
{
    crate::api::lemma_set_guarded_frame(g1, w, h, x + neighbor_dx(k), y + neighbor_dy(k), nb);
    crate::api::lemma_set_guarded_frame(g2, w, h, x, y, curc);
    assert(neighbor_dx(k) != 0 || neighbor_dy(k) != 0);
    if g_in_bounds(w, h, x + neighbor_dx(k), y + neighbor_dy(k)) {
        crate::map2d::lemma_index_bounds(w, h, x + neighbor_dx(k), y + neighbor_dy(k));
    }
}

/// Lava: cools into Stone below its threshold (exact write); otherwise
/// radiates heat exactly — each cooler, non-default-Empty neighbor warmed to
/// min(its heat + 30, the lava's current heat) while the lava loses five per
/// warmed neighbor — and then moves with mostly-liquid, occasionally-powder
/// motion at its reduced heat.
#[verifier::rlimit(100)]
pub fn update_lava(api: &mut SandApi, cell: Cell) -> (r: Result<(), Error>)
    requires
        old(api).inv(),
    ensures
        r is Ok,
        rule_frame(*old(api), *final(api)),
        unchanged_outside(
            old(api).grid(),
            final(api).grid(),
            old(api).width as int,
            old(api).height as int,
            old(api).x as int,
            old(api).y as int,
            2,
        ),
        lava_outcome(*old(api), *final(api), cell),
{
    let ghost pre = *api;
    let ghost w = pre.width as int;
    let ghost h = pre.height as int;
    let ghost cx = pre.x as int;
    let ghost cy = pre.y as int;
    let mut cur = cell;
    if cur.heat < 1600 {
        if api.rand_below(100) < 1 {
            cur.species = Species::Stone;
            let ghost mid = *api;
            api.set(0, 0, cur)?;
            proof {
                lemma_set_local(mid.grid(), final_grid_of(api), mid, 0, 0, cur, 2);
                lemma_local_trans(pre.grid(), mid.grid(), final_grid_of(api), w, h, cx, cy, 2);
            }
            return Ok(());
        }
    }
    let neighbors = api.neighbors()?;
    let ghost mut hs: Seq<i16> = seq![cell.heat];
    let mut k: usize = 0;
    while k < 8
        invariant
            api.inv(),
            pre.inv(),
            pre == *old(api),
            k <= 8,
            rule_frame(pre, *api),
            unchanged_outside(pre.grid(), api.grid(), w, h, cx, cy, 2),
            w == pre.width as int,
            h == pre.height as int,
            cx == pre.x as int,
            cy == pre.y as int,
            cur.species == cell.species,
            cur.clock == cell.clock,
            cur.grain == cell.grain,
            hs.len() == k + 1,
            hs[0] == cell.heat,
            hs[k as int] == cur.heat,
            forall|j: int|
                0 <= j < k ==> {
                    let a = g_at(pre.grid(), w, h, cx + neighbor_dx(j), cy + neighbor_dy(j));
                    (#[trigger] hs[j + 1]) == (if a.heat < hs[j] && a != spec_empty() {
                        crate::cell::sat_heat(hs[j] - 5)
                    } else {
                        hs[j]
                    })
                },
            forall|j: int|
                0 <= j < k && g_in_bounds(w, h, cx + neighbor_dx(j), cy + neighbor_dy(j)) ==> {
                    let a = g_at(pre.grid(), w, h, cx + neighbor_dx(j), cy + neighbor_dy(j));
                    let b = (#[trigger] api.grid()[g_index(
                        w,
                        cx + neighbor_dx(j),
                        cy + neighbor_dy(j),
                    )]);
                    if a.heat < hs[j] && a != spec_empty() && a.species != Species::Border {
                        b == lava_warmed(a, hs[j])
                    } else {
                        b == a
                    }
                },
            forall|j: int|
                k <= j < 8 && g_in_bounds(w, h, cx + neighbor_dx(j), cy + neighbor_dy(j)) ==> (
                #[trigger] api.grid()[g_index(w, cx + neighbor_dx(j), cy + neighbor_dy(j))])
                    == g_at(pre.grid(), w, h, cx + neighbor_dx(j), cy + neighbor_dy(j)),
            neighbors@.len() == 8,
            forall|j: int|
                0 <= j < 8 ==> (#[trigger] neighbors@[j]).dx == neighbor_dx(j)
                    && neighbors@[j].dy == neighbor_dy(j) && neighbors@[j].cell == g_at(
                    pre.grid(),
                    w,
                    h,
                    cx + neighbor_dx(j),
                    cy + neighbor_dy(j),
                ),
        decreases 8 - k,
    {
        let n = neighbors[k];
        if n.cell.heat < cur.heat && !(n.cell == empty_cell()) {
            let mut nb = n.cell;
            let warmed = heat_add(nb.heat, 30);
            nb.heat = if warmed > cur.heat {
                cur.heat
            } else {
                warmed
            };
            proof {
                assert(nb == lava_warmed(n.cell, hs[k as int]));
            }
            cur.heat = heat_sub(cur.heat, 5);
            let ghost mid = *api;
            api.set(n.dx, n.dy, nb)?;
            let ghost mid2 = *api;
            api.set(0, 0, cur)?;
            proof {
                lemma_set_local(mid.grid(), mid2.grid(), mid, n.dx as int, n.dy as int, nb, 2);
                lemma_local_trans(pre.grid(), mid.grid(), mid2.grid(), w, h, cx, cy, 2);
                lemma_set_local(mid2.grid(), final_grid_of(api), mid2, 0, 0, cur, 2);
                lemma_local_trans(pre.grid(), mid2.grid(), final_grid_of(api), w, h, cx, cy, 2);
                lemma_lava_rad_step(
                    pre.grid(),
                    mid.grid(),
                    mid2.grid(),
                    final_grid_of(api),
                    w,
                    h,
                    cx,
                    cy,
                    k as int,
                    hs.push(crate::cell::sat_heat(hs[k as int] - 5)),
                    nb,
                    cur,
                );
                hs = hs.push(crate::cell::sat_heat(hs[k as int] - 5));
            }
        } else {
            proof {
                hs = hs.push(hs[k as int]);
            }
        }
        k = k + 1;
    }
    let ghost gmid = *api;
    proof {
        assert(lava_trace_ok(pre.grid(), gmid.grid(), w, h, cx, cy, hs));
        assert(cur == crate::cell::spec_with_heat(cell, hs[8]));
    }
    if api.rand_below(100) < 40 {
        let ghost mid = *api;
        let res = update_liquid(api, cur);
        proof {
            lemma_local_widen(mid.grid(), final_grid_of(api), w, h, cx, cy, 1, 2);
            lemma_local_trans(pre.grid(), mid.grid(), final_grid_of(api), w, h, cx, cy, 2);
            let g1 = choose|g1: Seq<Cell>|
                liquid_washed(mid.grid(), g1, w, h, cx, cy) && liquid_moved(
                    g1,
                    final_grid_of(api),
                    w,
                    h,
                    cx,
                    cy,
                    cur,
                );
            assert(liquid_washed(gmid.grid(), g1, w, h, cx, cy));
            assert(lava_moved(gmid.grid(), final_grid_of(api), w, h, cx, cy, cur));
        }
        res
    } else {
        let ghost mid = *api;
        let res = update_powder(api, cur);
        proof {
            lemma_local_trans(pre.grid(), mid.grid(), final_grid_of(api), w, h, cx, cy, 2);
            assert(powder_outcome_from(gmid.grid(), final_grid_of(api), w, h, cx, cy, cur));
            assert(lava_moved(gmid.grid(), final_grid_of(api), w, h, cx, cy, cur));
        }
        res
    }
}

/// Sheltered Mud: some neighbor is Empty or Soil, and none is Water — the
/// condition under which wet Mud settles into Soil.
pub open spec fn mud_sheltered(g: Seq<Cell>, w: int, h: int, x: int, y: int) -> bool {
    &&& exists|k: int|
        0 <= k < 8 && ((#[trigger] g_at(g, w, h, x + neighbor_dx(k), y + neighbor_dy(k))).species
            == Species::Empty || g_at(g, w, h, x + neighbor_dx(k), y + neighbor_dy(k)).species
            == Species::Soil)
    &&& forall|k: int|
        0 <= k < 8 ==> (#[trigger] g_at(g, w, h, x + neighbor_dx(k), y + neighbor_dy(k))).species
            != Species::Water
}

/// The wetness-exchange phase stays within one cell of the cursor.
pub open spec fn mud_exchange_bounded(
    g: Seq<Cell>,
    g1: Seq<Cell>,
    w: int,
    h: int,
    x: int,
    y: int,
) -> bool {
    g1.len() == g.len() && unchanged_outside(g, g1, w, h, x, y, 1)
}

/// The legal single writes of the Mud exchange phase, as (target, value)
/// shapes over the pre-exchange grid: a WaterGrass sprout directly above;
/// an at-or-below Sand neighbor turned to fresh dry Mud; an at-or-below
/// orthogonal Mud neighbor below the wetness cap incremented by one; a Water
/// neighbor consumed; an at-or-below Empty neighbor turned to fresh Water;
/// or the cursor itself rewritten as Mud (never past the cap when it started
/// within it) or as Soil (only with some Empty neighbor to overflow into).
pub open spec fn mud_write_ok(
    g: Seq<Cell>,
    w: int,
    h: int,
    x: int,
    y: int,
    cell: Cell,
    tx: int,
    ty: int,
    c: Cell,
) -> bool {
    ||| (tx == x && ty == y - 1 && c.species == Species::WaterGrass(0) && !c.clock && c.heat
        == 20)
    ||| (!(tx == x && ty == y) && ty >= y && g[g_index(w, tx, ty)].species == Species::Sand
        && c.species == Species::Mud(0) && !c.clock && c.heat == 20)
    ||| ({
        &&& !(tx == x && ty == y)
        &&& ty >= y
        &&& (tx == x || ty == y)
        &&& g[g_index(w, tx, ty)].species matches Species::Mud(nw) && nw < MAX_WETNESS && c
            == g[g_index(w, tx, ty)].spec_with_species(Species::Mud((nw + 1) as u8))
    })
    ||| (g[g_index(w, tx, ty)].species == Species::Water && c == spec_empty())
    ||| (!(tx == x && ty == y) && ty >= y && g[g_index(w, tx, ty)].species == Species::Empty
        && c.species == Species::Water && !c.clock && c.heat == 20)
    ||| (tx == x && ty == y && c.clock == cell.clock && c.heat == cell.heat && c.grain
        == cell.grain && ((c.species matches Species::Mud(wv) && (match cell.species {
        Species::Mud(w0) => w0 <= MAX_WETNESS ==> wv <= MAX_WETNESS,
        _ => true,
    })) || (c.species == Species::Soil && exists|k: int|
        0 <= k < 8 && (#[trigger] g_at(g, w, h, x + neighbor_dx(k), y + neighbor_dy(k))).species
            == Species::Empty)))
}

/// What the Mud exchange phase may do to each cell, pointwise: leave it
/// alone, or perform one of the legal writes of `mud_write_ok` at it.
pub open spec fn mud_exchanged(
    g: Seq<Cell>,
    g1: Seq<Cell>,
    w: int,
    h: int,
    x: int,
    y: int,
    cell: Cell,
) -> bool {
    &&& g1.len() == g.len()
    &&& forall|qx: int, qy: int|
        g_in_bounds(w, h, qx, qy) ==> {
            let a = g[g_index(w, qx, qy)];
            let b = (#[trigger] g1[g_index(w, qx, qy)]);
            b == a || mud_write_ok(g, w, h, x, y, cell, qx, qy, b)
        }
}

/// One exchange-phase write of a legal shape preserves the pointwise
/// characterization.
proof fn lemma_mud_exchange_step(
    g0: Seq<Cell>,
    g1: Seq<Cell>,
    g2: Seq<Cell>,
    w: int,
    h: int,
    x: int,
    y: int,
    cell: Cell,
    tx: int,
    ty: int,
    c: Cell,
)
    requires
        1 <= w,
        1 <= h,
        g0.len() == w * h,
        g1.len() == w * h,
        mud_exchanged(g0, g1, w, h, x, y, cell),
        g2 == g_set_guarded(g1, w, h, tx, ty, c),
        g_in_bounds(w, h, tx, ty) ==> mud_write_ok(g0, w, h, x, y, cell, tx, ty, c),
    ensures
        mud_exchanged(g0, g2, w, h, x, y, cell),
{
    crate::api::lemma_set_guarded_frame(g1, w, h, tx, ty, c);
    assert forall|qx: int, qy: int| g_in_bounds(w, h, qx, qy) implies {
        let a = g0[g_index(w, qx, qy)];
        let b = (#[trigger] g2[g_index(w, qx, qy)]);
        b == a || mud_write_ok(g0, w, h, x, y, cell, qx, qy, b)
    } by {
        crate::map2d::lemma_index_bounds(w, h, qx, qy);
        if g_in_bounds(w, h, tx, ty) {
            crate::map2d::lemma_index_bounds(w, h, tx, ty);
            if g_index(w, qx, qy) == g_index(w, tx, ty) {
                crate::map2d::lemma_index_injective(w, qx, qy, tx, ty);
            }
        }
    }
}

/// Mud: dries toward Sand under high heat, converts to Soil when wet and
/// sheltered, exchanges wetness with neighboring Sand, Mud, Water and Empty
/// cells, rarely sprouts WaterGrass near Water, and falls only into
/// The Mud rule's outcomes: the cell fully dries to Sand (exact write,
/// exact conditions); settles into Soil while wet and sheltered (exact
/// conditions); or exchanges wetness — each changed cell one of the legal
/// exchange writes — and then falls exactly by the restricted-fall rule.
pub open spec fn mud_outcome(pre: SandApi, post: SandApi, cell: Cell) -> bool {
    let g = pre.grid();
    let w = pre.width as int;
    let h = pre.height as int;
    let x = pre.x as int;
    let y = pre.y as int;
    ||| ((cell.species matches Species::Mud(w0) && cell.heat > 100 && w0 <= 1)
        && post.grid() == g_set_guarded(g, w, h, x, y, cell.spec_with_species(Species::Sand)))
    ||| ((cell.species matches Species::Mud(w0) && 1 <= w0 < MAX_WETNESS) && mud_sheltered(
        g,
        w,
        h,
        x,
        y,
    ) && exists|sc: Cell|
        sc.species == Species::Soil && !sc.clock && sc.heat == 20 && post.grid()
            == #[trigger] g_set_guarded(g, w, h, x, y, sc))
    ||| exists|g1: Seq<Cell>|
        (#[trigger] mud_exchange_bounded(g, g1, w, h, x, y)) && mud_exchanged(
            g,
            g1,
            w,
            h,
            x,
            y,
            cell,
        ) && exists|c2: Cell|
            c2.clock == cell.clock && c2.heat == cell.heat && c2.grain == cell.grain
                && post.grid() == #[trigger] coarse_step(g1, w, h, x, y, c2)
}

/// Mud: dries toward Sand under high heat, settles into Soil while wet and
/// sheltered, exchanges wetness with its neighbors, and falls only into
/// fluid-occupied space below.
pub fn update_mud(api: &mut SandApi, cell: Cell) -> (r: Result<(), Error>)
    requires
        old(api).inv(),
    ensures
        r is Ok,
        rule_frame(*old(api), *final(api)),
        unchanged_outside(
            old(api).grid(),
            final(api).grid(),
            old(api).width as int,
            old(api).height as int,
            old(api).x as int,
            old(api).y as int,
            1,
        ),
        mud_outcome(*old(api), *final(api), cell),
{
    let ghost pre = *api;
    let ghost w = pre.width as int;
    let ghost h = pre.height as int;
    let ghost cx = pre.x as int;
    let ghost cy = pre.y as int;
    let mut cur = cell;

    let neighbors = api.neighbors()?;
    let mut pool: Vec<Neighbor> = Vec::new();
    let mut t: usize = 0;
    while t < 8
        invariant
            t <= 8,
            pool@.len() == t,
            neighbors@.len() == 8,
            forall|q: int| 0 <= q < pool@.len() ==> element_of(#[trigger] pool@[q], neighbors@),
        decreases 8 - t,
    {
        pool.push(neighbors[t]);
        t = t + 1;
    }
    shuffle_neighbors(api, &mut pool);

    if let Species::Mud(wetness) = cur.species {
        // dry toward Sand under high heat
        if cur.heat > 100 {
            if api.rand_chance(20, 100) {
                if wetness > 1 {
                    cur.species = Species::Mud(wetness - 1);
                } else {
                    cur.species = Species::Sand;
                    let ghost mid = *api;
                    api.set(0, 0, cur)?;
                    proof {
                        lemma_set_local(mid.grid(), final_grid_of(api), mid, 0, 0, cur, 1);
                        lemma_local_trans(pre.grid(), mid.grid(), final_grid_of(api), w, h, cx, cy, 1);
                        assert(cur == cell.spec_with_species(Species::Sand));
                    }
                    return Ok(());
                }
            }
        }
        // settle into Soil when wet, sheltered, and away from Water
        if wetness >= 1 && wetness < MAX_WETNESS {
            if api.rand_below(100) < 9 {
                let mut any_open = false;
                let mut any_water = false;
                let mut q: usize = 0;
                while q < 8
                    invariant
                        q <= 8,
                        neighbors@.len() == 8,
                        forall|j: int|
                            0 <= j < 8 ==> (#[trigger] neighbors@[j]).dx == neighbor_dx(j)
                                && neighbors@[j].dy == neighbor_dy(j) && neighbors@[j].cell
                                == g_at(
                                pre.grid(),
                                w,
                                h,
                                cx + neighbor_dx(j),
                                cy + neighbor_dy(j),
                            ),
                        any_open ==> exists|j: int|
                            0 <= j < 8 && ((#[trigger] neighbors@[j]).cell.species
                                == Species::Empty || neighbors@[j].cell.species == Species::Soil),
                        !any_water ==> forall|j: int|
                            0 <= j < q ==> (#[trigger] neighbors@[j]).cell.species
                                != Species::Water,
                    decreases 8 - q,
                {
                    let n = neighbors[q];
                    if matches!(n.cell.species, Species::Empty) || matches!(
                        n.cell.species,
                        Species::Soil,
                    ) {
                        any_open = true;
                    }
                    if matches!(n.cell.species, Species::Water) {
                        any_water = true;
                    }
                    q = q + 1;
                }
                if any_open && !any_water {
                    let sc = Cell::new(Species::Soil);
                    let ghost mid = *api;
                    api.set(0, 0, sc)?;
                    proof {
                        lemma_set_local(mid.grid(), final_grid_of(api), mid, 0, 0, sc, 1);
                        lemma_local_trans(pre.grid(), mid.grid(), final_grid_of(api), w, h, cx, cy, 1);
                        let j0 = choose|j: int|
                            0 <= j < 8 && (neighbors@[j].cell.species == Species::Empty
                                || neighbors@[j].cell.species == Species::Soil);
                        assert(g_at(
                            pre.grid(),
                            w,
                            h,
                            cx + neighbor_dx(j0),
                            cy + neighbor_dy(j0),
                        ).species == Species::Empty || g_at(
                            pre.grid(),
                            w,
                            h,
                            cx + neighbor_dx(j0),
                            cy + neighbor_dy(j0),
                        ).species == Species::Soil);
                        assert forall|k2: int| 0 <= k2 < 8 implies (#[trigger] g_at(
                            pre.grid(),
                            w,
                            h,
                            cx + neighbor_dx(k2),
                            cy + neighbor_dy(k2),
                        )).species != Species::Water by {
                            assert(neighbors@[k2].cell.species != Species::Water);
                        }
                        assert(mud_sheltered(pre.grid(), w, h, cx, cy));
                    }
                    return Ok(());
                }
            }
        }
    }

    // probabilistic wetness exchange with each (shuffled) neighbor
    let mut q: usize = 0;
    while q < pool.len()
        invariant
            api.inv(),
            pre.inv(),
            pre == *old(api),
            q <= pool@.len(),
            cur.clock == cell.clock,
            cur.heat == cell.heat,
            cur.grain == cell.grain,
            match cell.species {
                Species::Mud(w0) => w0 <= MAX_WETNESS ==> (match cur.species {
                    Species::Mud(wv) => wv <= MAX_WETNESS,
                    _ => true,
                }),
                _ => true,
            },
            rule_frame(pre, *api),
            unchanged_outside(pre.grid(), api.grid(), w, h, cx, cy, 1),
            mud_exchanged(pre.grid(), api.grid(), w, h, cx, cy, cell),
            w == pre.width as int,
            h == pre.height as int,
            cx == pre.x as int,
            cy == pre.y as int,
            forall|q2: int| 0 <= q2 < pool@.len() ==> element_of(#[trigger] pool@[q2], neighbors@),
            forall|j: int|
                0 <= j < 8 ==> (#[trigger] neighbors@[j]).dx == neighbor_dx(j)
                    && neighbors@[j].dy == neighbor_dy(j) && neighbors@[j].cell == g_at(
                    pre.grid(),
                    w,
                    h,
                    cx + neighbor_dx(j),
                    cy + neighbor_dy(j),
                ),
        decreases pool@.len() - q,
    {
        let n = pool[q];
        proof {
            assert(element_of(pool@[q as int], neighbors@));
            let j = choose|j: int| 0 <= j < neighbors@.len() && neighbors@[j] == pool@[q as int];
            assert(-1 <= n.dx as int <= 1 && -1 <= n.dy as int <= 1);
            assert(n.cell == g_at(pre.grid(), w, h, cx + n.dx as int, cy + n.dy as int));
        }
        let absorb = api.rand_below(100);
        if absorb <= 15 {
            if let Species::Mud(own) = cur.species {
                match n.cell.species {
                    Species::Sand => {
                        if own >= 1 && n.dy >= 0 {
                            let mc = Cell::mud();
                            let ghost mid = *api;
                            api.set(n.dx, n.dy, mc)?;
                            proof {
                                lemma_set_local(mid.grid(), final_grid_of(api), mid, n.dx as int, n.dy as int, mc, 1);
                                lemma_local_trans(pre.grid(), mid.grid(), final_grid_of(api), w, h, cx, cy, 1);
                                lemma_mud_exchange_step(pre.grid(), mid.grid(), final_grid_of(api), w, h, cx, cy, cell, cx + n.dx as int, cy + n.dy as int, mc);
                            }
                            cur.species = Species::Mud(own - 1);
                            let ghost mid2 = *api;
                            api.set(0, 0, cur)?;
                            proof {
                                lemma_set_local(mid2.grid(), final_grid_of(api), mid2, 0, 0, cur, 1);
                                lemma_local_trans(pre.grid(), mid2.grid(), final_grid_of(api), w, h, cx, cy, 1);
                                lemma_mud_exchange_step(pre.grid(), mid2.grid(), final_grid_of(api), w, h, cx, cy, cell, cx, cy, cur);
                            }
                        }
                    }
                    Species::Mud(neighbor_wetness) => {
                        if neighbor_wetness < MAX_WETNESS && own >= 1 && n.dy >= 0 && n.dy != n.dx
                            && n.dy != -n.dx {
                            if api.rand_below(100) < 20 {
                                let mut nb = n.cell;
                                nb.species = Species::Mud(neighbor_wetness + 1);
                                let ghost mid = *api;
                                api.set(n.dx, n.dy, nb)?;
                                proof {
                                    lemma_set_local(mid.grid(), final_grid_of(api), mid, n.dx as int, n.dy as int, nb, 1);
                                    lemma_local_trans(pre.grid(), mid.grid(), final_grid_of(api), w, h, cx, cy, 1);
                                    lemma_mud_exchange_step(pre.grid(), mid.grid(), final_grid_of(api), w, h, cx, cy, cell, cx + n.dx as int, cy + n.dy as int, nb);
                                }
                                cur.species = Species::Mud(own - 1);
                                let ghost mid2 = *api;
                                api.set(0, 0, cur)?;
                                proof {
                                    lemma_set_local(mid2.grid(), final_grid_of(api), mid2, 0, 0, cur, 1);
                                    lemma_local_trans(pre.grid(), mid2.grid(), final_grid_of(api), w, h, cx, cy, 1);
                                    lemma_mud_exchange_step(pre.grid(), mid2.grid(), final_grid_of(api), w, h, cx, cy, cell, cx, cy, cur);
                                }
                            }
                        }
                    }
                    Species::Water => {
                        let mut absorbed = false;
                        if own < MAX_WETNESS {
                            if api.rand_chance(20, 100) {
                                absorbed = true;
                                if api.rand_chance(2, 100) {
                                    let ghost mid = *api;
                                    api.set(n.dx, n.dy, empty_cell())?;
                                    proof {
                                        lemma_set_local(mid.grid(), final_grid_of(api), mid, n.dx as int, n.dy as int, spec_empty(), 1);
                                        lemma_local_trans(pre.grid(), mid.grid(), final_grid_of(api), w, h, cx, cy, 1);
                                        lemma_mud_exchange_step(pre.grid(), mid.grid(), final_grid_of(api), w, h, cx, cy, cell, cx + n.dx as int, cy + n.dy as int, spec_empty());
                                    }
                                }
                                cur.species = Species::Mud(own + 1);
                                let ghost mid2 = *api;
                                api.set(0, 0, cur)?;
                                proof {
                                    lemma_set_local(mid2.grid(), final_grid_of(api), mid2, 0, 0, cur, 1);
                                    lemma_local_trans(pre.grid(), mid2.grid(), final_grid_of(api), w, h, cx, cy, 1);
                                    lemma_mud_exchange_step(pre.grid(), mid2.grid(), final_grid_of(api), w, h, cx, cy, cell, cx, cy, cur);
                                }
                            }
                        }
                        if !absorbed && n.dy == -1 {
                            if api.rand_below(1000) < 30 {
                                let left = api.get(-1, -1)?;
                                let right = api.get(1, -1)?;
                                if !(left.species == Species::WaterGrass(0)) && !(right.species
                                    == Species::WaterGrass(0)) {
                                    let wg = Cell::water_grass();
                                    let ghost mid = *api;
                                    api.set(0, -1, wg)?;
                                    proof {
                                        lemma_set_local(mid.grid(), final_grid_of(api), mid, 0, -1, wg, 1);
                                        lemma_local_trans(pre.grid(), mid.grid(), final_grid_of(api), w, h, cx, cy, 1);
                                        lemma_mud_exchange_step(pre.grid(), mid.grid(), final_grid_of(api), w, h, cx, cy, cell, cx, cy - 1, wg);
                                    }
                                }
                            }
                        }
                    }
                    Species::Empty => {
                        if own >= 1 && n.dy >= 0 {
                            if api.rand_below(100) < 10 {
                                cur.species = Species::Mud(own - 1);
                                let wc = Cell::new(Species::Water);
                                let ghost mid = *api;
                                api.set(n.dx, n.dy, wc)?;
                                proof {
                                    lemma_set_local(mid.grid(), final_grid_of(api), mid, n.dx as int, n.dy as int, wc, 1);
                                    lemma_local_trans(pre.grid(), mid.grid(), final_grid_of(api), w, h, cx, cy, 1);
                                    lemma_mud_exchange_step(pre.grid(), mid.grid(), final_grid_of(api), w, h, cx, cy, cell, cx + n.dx as int, cy + n.dy as int, wc);
                                }
                                let ghost mid2 = *api;
                                api.set(0, 0, cur)?;
                                proof {
                                    lemma_set_local(mid2.grid(), final_grid_of(api), mid2, 0, 0, cur, 1);
                                    lemma_local_trans(pre.grid(), mid2.grid(), final_grid_of(api), w, h, cx, cy, 1);
                                    lemma_mud_exchange_step(pre.grid(), mid2.grid(), final_grid_of(api), w, h, cx, cy, cell, cx, cy, cur);
                                }
                            }
                        }
                        if own == MAX_WETNESS {
                            cur.species = Species::Soil;
                            let ghost mid = *api;
                            api.set(0, 0, cur)?;
                            proof {
                                lemma_set_local(mid.grid(), final_grid_of(api), mid, 0, 0, cur, 1);
                                lemma_local_trans(pre.grid(), mid.grid(), final_grid_of(api), w, h, cx, cy, 1);
                                // this arm saw an Empty neighbor: the Soil
                                // overflow has somewhere to go
                                assert(g_at(pre.grid(), w, h, cx + n.dx as int, cy + n.dy as int).species == Species::Empty);
                                let j = choose|j: int|
                                    0 <= j < neighbors@.len() && neighbors@[j] == pool@[q as int];
                                assert(g_at(
                                    pre.grid(),
                                    w,
                                    h,
                                    cx + neighbor_dx(j),
                                    cy + neighbor_dy(j),
                                ).species == Species::Empty);
                                lemma_mud_exchange_step(pre.grid(), mid.grid(), final_grid_of(api), w, h, cx, cy, cell, cx, cy, cur);
                            }
                        }
                    }
                    _ => {}
                }
            }
        }
        q = q + 1;
    }
    let ghost mid = *api;
    let res = update_coarse(api, cur);
    proof {
        lemma_coarse_local(mid, final_grid_of(api), cur, 1);
        lemma_local_trans(pre.grid(), mid.grid(), final_grid_of(api), w, h, cx, cy, 1);
        assert(mud_exchange_bounded(pre.grid(), mid.grid(), w, h, cx, cy));
        assert(mud_exchanged(pre.grid(), mid.grid(), w, h, cx, cy, cell));
        assert(final_grid_of(api) == coarse_step(mid.grid(), w, h, cx, cy, cur));
    }
    res
}

/// The sprout phase of the Soil rule: rarely, a fresh Grass cell appears in
/// the Empty cell above.
pub open spec fn soil_sprouted(g1: Seq<Cell>, g2: Seq<Cell>, w: int, h: int, x: int, y: int) -> bool {
    ||| g2 == g1
    ||| (g_at(g1, w, h, x, y - 1).species == Species::Empty && exists|gc: Cell|
        gc.species == Species::Grass && !gc.clock && gc.heat == 20 && g2 == #[trigger] g_set_guarded(
            g1,
            w,
            h,
            x,
            y - 1,
            gc,
        ))
}

/// What the absorb phase of the Soil rule may do to each cell, pointwise:
/// leave it alone; consume an upward Water neighbor (the cursor then turns
/// to fresh Mud); or halve an over-saturated Mud neighbor's wetness, the
/// cursor taking the other half.
pub open spec fn soil_tended(g2: Seq<Cell>, g3: Seq<Cell>, w: int, h: int, x: int, y: int) -> bool {
    &&& g3.len() == g2.len()
    &&& forall|qx: int, qy: int|
        g_in_bounds(w, h, qx, qy) ==> {
            let a = g2[g_index(w, qx, qy)];
            let b = (#[trigger] g3[g_index(w, qx, qy)]);
            ||| b == a
            ||| (a.species == Species::Water && qy < y && b == spec_empty())
            ||| (a.species matches Species::Mud(wv) && wv >= MAX_WETNESS && b.species
                == Species::Mud((wv / 2) as u8) && !b.clock && b.heat == 20)
            ||| (qx == x && qy == y && (b.species matches Species::Mud(_)) && !b.clock && b.heat
                == 20)
        }
}

/// The Soil rule's outcomes: the exact restricted fall, then the rare Grass
/// sprout above, then the pointwise absorb phase.
pub open spec fn soil_outcome(pre: SandApi, post: SandApi, cell: Cell) -> bool {
    exists|g2: Seq<Cell>|
        #[trigger] soil_sprouted(
            coarse_step(
                pre.grid(),
                pre.width as int,
                pre.height as int,
                pre.x as int,
                pre.y as int,
                cell,
            ),
            g2,
            pre.width as int,
            pre.height as int,
            pre.x as int,
            pre.y as int,
        ) && soil_tended(
            g2,
            post.grid(),
            pre.width as int,
            pre.height as int,
            pre.x as int,
            pre.y as int,
        )
}

/// Soil: falls only into fluid below (exact), rarely sprouts Grass above,
/// absorbs adjacent upward Water into Mud, and halves an over-saturated
/// neighboring Mud cell's wetness on contact. The contract chains the three
/// phases.
pub fn update_soil(api: &mut SandApi, cell: Cell) -> (r: Result<(), Error>)
    requires
        old(api).inv(),
    ensures
        r is Ok,
        rule_frame(*old(api), *final(api)),
        unchanged_outside(
            old(api).grid(),
            final(api).grid(),
            old(api).width as int,
            old(api).height as int,
            old(api).x as int,
            old(api).y as int,
            1,
        ),
        soil_outcome(*old(api), *final(api), cell),
{
    let ghost pre = *api;
    let ghost w = pre.width as int;
    let ghost h = pre.height as int;
    let ghost cx = pre.x as int;
    let ghost cy = pre.y as int;
    update_coarse(api, cell)?;
    let ghost g1 = *api;
    proof {
        lemma_coarse_local(pre, g1.grid(), cell, 1);
    }
    if api.is_empty(0, -1) {
        if api.rand_below(100) < 1 {
            let gc = Cell::new(Species::Grass);
            let ghost mid = *api;
            api.set(0, -1, gc)?;
            proof {
                lemma_set_local(mid.grid(), final_grid_of(api), mid, 0, -1, gc, 1);
                lemma_local_trans(pre.grid(), mid.grid(), final_grid_of(api), w, h, cx, cy, 1);
            }
        }
    }
    let ghost g2 = *api;
    proof {
        assert(soil_sprouted(g1.grid(), g2.grid(), w, h, cx, cy));
    }
    let neighbors = api.neighbors()?;
    let absorb_probability = api.rand_below(1000);
    let mut k: usize = 0;
    while k < 8
        invariant
            api.inv(),
            pre.inv(),
            g2.inv(),
            pre == *old(api),
            k <= 8,
            rule_frame(pre, *api),
            unchanged_outside(pre.grid(), api.grid(), w, h, cx, cy, 1),
            soil_tended(g2.grid(), api.grid(), w, h, cx, cy),
            g2.grid().len() == pre.grid().len(),
            w == pre.width as int,
            h == pre.height as int,
            cx == pre.x as int,
            cy == pre.y as int,
            neighbors@.len() == 8,
            forall|j: int|
                0 <= j < 8 ==> (#[trigger] neighbors@[j]).dx == neighbor_dx(j)
                    && neighbors@[j].dy == neighbor_dy(j) && neighbors@[j].cell == g_at(
                    g2.grid(),
                    w,
                    h,
                    cx + neighbor_dx(j),
                    cy + neighbor_dy(j),
                ),
        decreases 8 - k,
    {
        let n = neighbors[k];
        match n.cell.species {
            Species::Water => {
                if absorb_probability < 55 && n.dy < 0 {
                    let ghost mid = *api;
                    api.set(n.dx, n.dy, empty_cell())?;
                    proof {
                        lemma_set_local(mid.grid(), final_grid_of(api), mid, n.dx as int, n.dy as int, spec_empty(), 1);
                        lemma_local_trans(pre.grid(), mid.grid(), final_grid_of(api), w, h, cx, cy, 1);
                        lemma_soil_tend_step(
                            g2.grid(),
                            mid.grid(),
                            final_grid_of(api),
                            w,
                            h,
                            cx,
                            cy,
                            cx + n.dx as int,
                            cy + n.dy as int,
                            spec_empty(),
                        );
                    }
                    let mc = Cell::mud();
                    let ghost mid2 = *api;
                    api.set(0, 0, mc)?;
                    proof {
                        lemma_set_local(mid2.grid(), final_grid_of(api), mid2, 0, 0, mc, 1);
                        lemma_local_trans(pre.grid(), mid2.grid(), final_grid_of(api), w, h, cx, cy, 1);
                        lemma_soil_tend_step(
                            g2.grid(),
                            mid2.grid(),
                            final_grid_of(api),
                            w,
                            h,
                            cx,
                            cy,
                            cx,
                            cy,
                            mc,
                        );
                    }
                }
            }
            Species::Mud(wetness) => {
                if wetness >= MAX_WETNESS && absorb_probability < 10 {
                    let c1 = Cell::new(Species::Mud(wetness / 2));
                    let ghost mid = *api;
                    api.set(n.dx, n.dy, c1)?;
                    proof {
                        lemma_set_local(mid.grid(), final_grid_of(api), mid, n.dx as int, n.dy as int, c1, 1);
                        lemma_local_trans(pre.grid(), mid.grid(), final_grid_of(api), w, h, cx, cy, 1);
                        lemma_soil_tend_step(
                            g2.grid(),
                            mid.grid(),
                            final_grid_of(api),
                            w,
                            h,
                            cx,
                            cy,
                            cx + n.dx as int,
                            cy + n.dy as int,
                            c1,
                        );
                    }
                    let c2 = Cell::new(Species::Mud(wetness / 2));
                    let ghost mid2 = *api;
                    api.set(0, 0, c2)?;
                    proof {
                        lemma_set_local(mid2.grid(), final_grid_of(api), mid2, 0, 0, c2, 1);
                        lemma_local_trans(pre.grid(), mid2.grid(), final_grid_of(api), w, h, cx, cy, 1);
                        lemma_soil_tend_step(
                            g2.grid(),
                            mid2.grid(),
                            final_grid_of(api),
                            w,
                            h,
                            cx,
                            cy,
                            cx,
                            cy,
                            c2,
                        );
                    }
                }
            }
            _ => {}
        }
        k = k + 1;
    }
    Ok(())
}

/// One absorb-phase write — an upward Water consumed, a Mud halved, or the
/// cursor turned to Mud — preserves the pointwise characterization.
proof fn lemma_soil_tend_step(
    g0: Seq<Cell>,
    g1: Seq<Cell>,
    g2: Seq<Cell>,
    w: int,
    h: int,
    x: int,
    y: int,
    tx: int,
    ty: int,
    c: Cell,
)
    requires
        1 <= w,
        1 <= h,
        g0.len() == w * h,
        g1.len() == w * h,
        soil_tended(g0, g1, w, h, x, y),
        g2 == g_set_guarded(g1, w, h, tx, ty, c),
        g_in_bounds(w, h, tx, ty) ==> {
            ||| (c == spec_empty() && g0[g_index(w, tx, ty)].species == Species::Water && ty < y)
            ||| (g0[g_index(w, tx, ty)].species matches Species::Mud(wv) && wv >= MAX_WETNESS
                && c.species == Species::Mud((wv / 2) as u8) && !c.clock && c.heat == 20)
            ||| (tx == x && ty == y && (c.species matches Species::Mud(_)) && !c.clock && c.heat
                == 20)
        },
    ensures
        soil_tended(g0, g2, w, h, x, y),
{
    crate::api::lemma_set_guarded_frame(g1, w, h, tx, ty, c);
    assert forall|qx: int, qy: int| g_in_bounds(w, h, qx, qy) implies {
        let a = g0[g_index(w, qx, qy)];
        let b = (#[trigger] g2[g_index(w, qx, qy)]);
        ||| b == a
        ||| (a.species == Species::Water && qy < y && b == spec_empty())
        ||| (a.species matches Species::Mud(wv) && wv >= MAX_WETNESS && b.species == Species::Mud(
            (wv / 2) as u8,
        ) && !b.clock && b.heat == 20)
        ||| (qx == x && qy == y && (b.species matches Species::Mud(_)) && !b.clock && b.heat == 20)
    } by {
        crate::map2d::lemma_index_bounds(w, h, qx, qy);
        if g_in_bounds(w, h, tx, ty) {
            crate::map2d::lemma_index_bounds(w, h, tx, ty);
            if g_index(w, qx, qy) == g_index(w, tx, ty) {
                crate::map2d::lemma_index_injective(w, qx, qy, tx, ty);
            }
        }
    }
}

/// The death-or-growth phase of the Grass rule: unsupported grass may die;
/// otherwise, with the cell above Empty, growth is certain — a fresh Grass
/// or (rarely) GrassTip cell appears above; with the cell above occupied,
/// nothing happens.
pub open spec fn grass_phase(g: Seq<Cell>, g1: Seq<Cell>, w: int, h: int, x: int, y: int) -> bool {
    let rooted = g_at(g, w, h, x, y + 1).species == Species::Soil || g_at(
        g,
        w,
        h,
        x,
        y + 1,
    ).species == Species::Grass;
    let above_empty = g_at(g, w, h, x, y - 1).species == Species::Empty;
    ||| (!rooted && g1 == g_set_guarded(g, w, h, x, y, spec_empty()))
    ||| (above_empty && exists|sc: Cell|
        (sc.species == Species::Grass || sc.species == Species::GrassTip) && !sc.clock && sc.heat
            == 20 && g1 == #[trigger] g_set_guarded(g, w, h, x, y - 1, sc))
    ||| (!above_empty && g1 == g)
}

/// Grass: dies probabilistically when its support below is neither Soil nor
/// Grass; otherwise grows Grass (commonly) or a GrassTip (rarely) into the
/// empty cell above — growth is certain while supported with room above —
/// then falls only into fluid below. Supported grass (Soil or Grass below)
/// never moves or dies: its cell is untouched.
pub fn update_grass(api: &mut SandApi, cell: Cell) -> (r: Result<(), Error>)
    requires
        old(api).inv(),
    ensures
        r is Ok,
        rule_frame(*old(api), *final(api)),
        unchanged_outside(
            old(api).grid(),
            final(api).grid(),
            old(api).width as int,
            old(api).height as int,
            old(api).x as int,
            old(api).y as int,
            1,
        ),
        exists|g1: Seq<Cell>|
            #[trigger] grass_phase(
                old(api).grid(),
                g1,
                old(api).width as int,
                old(api).height as int,
                old(api).x as int,
                old(api).y as int,
            ) && final(api).grid() == coarse_step(
                g1,
                old(api).width as int,
                old(api).height as int,
                old(api).x as int,
                old(api).y as int,
                cell,
            ),
        ({
            let w = old(api).width as int;
            let h = old(api).height as int;
            let x = old(api).x as int;
            let y = old(api).y as int;
            let support = old(api).at(x, y + 1).species;
            ((support == Species::Soil || support == Species::Grass) && g_in_bounds(w, h, x, y))
                ==> final(api).grid()[g_index(w, x, y)] == old(api).grid()[g_index(w, x, y)]
        }),
{
    let ghost pre = *api;
    let ghost w = pre.width as int;
    let ghost h = pre.height as int;
    let ghost cx = pre.x as int;
    let ghost cy = pre.y as int;
    let root = api.get(0, 1)?.species;
    let rooted = matches!(root, Species::Soil) || matches!(root, Species::Grass);
    let mut died = false;
    if !rooted {
        if api.rand_chance(2, 100) {
            let ghost mid = *api;
            api.set(0, 0, empty_cell())?;
            proof {
                lemma_set_local(mid.grid(), final_grid_of(api), mid, 0, 0, spec_empty(), 1);
                lemma_local_trans(pre.grid(), mid.grid(), final_grid_of(api), w, h, cx, cy, 1);
            }
            died = true;
        }
    }
    if !died {
        if api.is_empty(0, -1) {
            let sprout = if api.rand_below(100) < 75 {
                Cell::new(Species::Grass)
            } else {
                Cell::new(Species::GrassTip)
            };
            let ghost mid = *api;
            api.set(0, -1, sprout)?;
            proof {
                lemma_set_local(mid.grid(), final_grid_of(api), mid, 0, -1, sprout, 1);
                lemma_local_trans(pre.grid(), mid.grid(), final_grid_of(api), w, h, cx, cy, 1);
                assert(grass_phase(pre.grid(), final_grid_of(api), w, h, cx, cy));
            }
        }
    }
    let ghost g1 = *api;
    proof {
        assert(grass_phase(pre.grid(), g1.grid(), w, h, cx, cy));
    }
    let res = update_coarse(api, cell);
    proof {
        lemma_coarse_local(g1, final_grid_of(api), cell, 1);
        lemma_local_trans(pre.grid(), g1.grid(), final_grid_of(api), w, h, cx, cy, 1);
        let support = g_at(pre.grid(), w, h, cx, cy + 1).species;
        if (support == Species::Soil || support == Species::Grass) && g_in_bounds(w, h, cx, cy) {
            crate::map2d::lemma_index_bounds(w, h, cx, cy);
            // the only possible write so far was the sprout above the cursor
            if g_in_bounds(w, h, cx, cy - 1) {
                crate::map2d::lemma_index_bounds(w, h, cx, cy - 1);
                if g_index(w, cx, cy) == g_index(w, cx, cy - 1) {
                    crate::map2d::lemma_index_injective(w, cx, cy, cx, cy - 1);
                }
            }
            assert(g1.grid()[g_index(w, cx, cy)] == pre.grid()[g_index(w, cx, cy)]);
            // the sprout also left the support cell alone, so the restricted
            // fall saw a non-fluid cell below and did nothing
            let sy = crate::map2d::clamp_to(cy + 1, h);
            crate::map2d::lemma_index_bounds(w, h, cx, sy);
            if g_in_bounds(w, h, cx, cy - 1) {
                if g_index(w, cx, sy) == g_index(w, cx, cy - 1) {
                    crate::map2d::lemma_index_injective(w, cx, sy, cx, cy - 1);
                }
            }
            assert(g1.at(cx, cy + 1).species == support);
            assert(final_grid_of(api) == g1.grid());
        }
    }
    res
}

/// The bloom phase of the GrassTip rule: rarely, the tip turns into a fresh
/// Flower cell in place.
pub open spec fn tip_bloom(g1: Seq<Cell>, g2: Seq<Cell>, w: int, h: int, x: int, y: int) -> bool {
    ||| g2 == g1
    ||| exists|fc: Cell|
        fc.species is Flower && !fc.clock && fc.heat == 20 && g2 == #[trigger] g_set_guarded(
            g1,
            w,
            h,
            x,
            y,
            fc,
        )
}

/// The regress phase of the GrassTip rule: unsupported, the tip may vanish
/// (over another tip) or fall back to plain Grass.
pub open spec fn tip_regress(
    g2: Seq<Cell>,
    g3: Seq<Cell>,
    w: int,
    h: int,
    x: int,
    y: int,
    cell: Cell,
) -> bool {
    let root = g_at(g2, w, h, x, y + 1).species;
    let rooted = root == Species::Soil || root == Species::Grass;
    ||| g3 == g2
    ||| (!rooted && root == Species::GrassTip && g3 == g_set_guarded(g2, w, h, x, y, spec_empty()))
    ||| (!rooted && root != Species::GrassTip && g3 == g_set_guarded(
        g2,
        w,
        h,
        x,
        y,
        cell.spec_with_species(Species::Grass),
    ))
}

/// GrassTip: falls only into fluid below (exact), very rarely blooms into a
/// Flower, and when unsupported either regresses to Grass or vanishes. The
/// contract chains the three phases.
pub fn update_grass_tip(api: &mut SandApi, cell: Cell) -> (r: Result<(), Error>)
    requires
        old(api).inv(),
    ensures
        r is Ok,
        rule_frame(*old(api), *final(api)),
        unchanged_outside(
            old(api).grid(),
            final(api).grid(),
            old(api).width as int,
            old(api).height as int,
            old(api).x as int,
            old(api).y as int,
            1,
        ),
        exists|g2: Seq<Cell>|
            #[trigger] tip_bloom(
                coarse_step(
                    old(api).grid(),
                    old(api).width as int,
                    old(api).height as int,
                    old(api).x as int,
                    old(api).y as int,
                    cell,
                ),
                g2,
                old(api).width as int,
                old(api).height as int,
                old(api).x as int,
                old(api).y as int,
            ) && tip_regress(
                g2,
                final(api).grid(),
                old(api).width as int,
                old(api).height as int,
                old(api).x as int,
                old(api).y as int,
                cell,
            ),
{
    let ghost pre = *api;
    let ghost w = pre.width as int;
    let ghost h = pre.height as int;
    let ghost cx = pre.x as int;
    let ghost cy = pre.y as int;
    let mut cur = cell;
    update_coarse(api, cur)?;
    let ghost g1 = *api;
    proof {
        lemma_coarse_local(pre, g1.grid(), cur, 1);
    }
    if api.rand_below(1000) < 1 {
        let f = Cell::flower();
        let ghost mid = *api;
        api.set(0, 0, f)?;
        proof {
            lemma_set_local(mid.grid(), final_grid_of(api), mid, 0, 0, f, 1);
            lemma_local_trans(pre.grid(), mid.grid(), final_grid_of(api), w, h, cx, cy, 1);
        }
    }
    let ghost g2 = *api;
    proof {
        assert(tip_bloom(g1.grid(), g2.grid(), w, h, cx, cy));
    }
    let root = api.get(0, 1)?.species;
    let rooted = matches!(root, Species::Soil) || matches!(root, Species::Grass);
    if !rooted {
        if api.rand_chance(50, 100) {
            if matches!(root, Species::GrassTip) {
                let ghost mid = *api;
                api.set(0, 0, empty_cell())?;
                proof {
                    lemma_set_local(mid.grid(), final_grid_of(api), mid, 0, 0, spec_empty(), 1);
                    lemma_local_trans(pre.grid(), mid.grid(), final_grid_of(api), w, h, cx, cy, 1);
                }
            } else {
                cur.species = Species::Grass;
                let ghost mid = *api;
                api.set(0, 0, cur)?;
                proof {
                    lemma_set_local(mid.grid(), final_grid_of(api), mid, 0, 0, cur, 1);
                    lemma_local_trans(pre.grid(), mid.grid(), final_grid_of(api), w, h, cx, cy, 1);
                }
            }
        }
    }
    proof {
        assert(tip_regress(g2.grid(), final_grid_of(api), w, h, cx, cy, cell));
    }
    Ok(())
}

/// The Flower rule's spread step: out of Grass, with an exactly-Empty
/// two-wide opening above, three same-colored copies appear diagonally and
/// two cells up; otherwise nothing.
pub open spec fn flower_spread_step(
    g: Seq<Cell>,
    w: int,
    h: int,
    x: int,
    y: int,
    cell: Cell,
) -> Seq<Cell> {
    if g_at(g, w, h, x, y + 1).species == Species::Grass && g_at(g, w, h, x + 1, y - 1)
        == spec_empty() && g_at(g, w, h, x, y - 1) == spec_empty() && g_at(g, w, h, x - 1, y - 1)
        == spec_empty() && g_at(g, w, h, x, y - 2) == spec_empty() {
        g_set_guarded(
            g_set_guarded(g_set_guarded(g, w, h, x + 1, y - 1, cell), w, h, x - 1, y - 1, cell),
            w,
            h,
            x,
            y - 2,
            cell,
        )
    } else {
        g
    }
}

/// Whether the cursor cell is held in place by a same-colored Flower on a
/// lower diagonal.
pub open spec fn flower_rests(g: Seq<Cell>, w: int, h: int, x: int, y: int) -> bool {
    match g_at(g, w, h, x, y).species {
        Species::Flower(c) => g_at(g, w, h, x - 1, y + 1).species == Species::Flower(c) || g_at(
            g,
            w,
            h,
            x + 1,
            y + 1,
        ).species == Species::Flower(c),
        _ => false,
    }
}

/// Flower: growing out of Grass, spreads three same-colored copies into an
/// empty two-wide opening above (deterministic); stays put while diagonally
/// supported by a same-colored Flower; otherwise falls only into fluid
/// below. The rule draws no randomness: the contract is exact.
pub fn update_flower(api: &mut SandApi, cell: Cell) -> (r: Result<(), Error>)
    requires
        old(api).inv(),
    ensures
        r is Ok,
        rule_frame(*old(api), *final(api)),
        unchanged_outside(
            old(api).grid(),
            final(api).grid(),
            old(api).width as int,
            old(api).height as int,
            old(api).x as int,
            old(api).y as int,
            2,
        ),
        final(api).grid() == ({
            let w = old(api).width as int;
            let h = old(api).height as int;
            let x = old(api).x as int;
            let y = old(api).y as int;
            let g1 = flower_spread_step(old(api).grid(), w, h, x, y, cell);
            if flower_rests(g1, w, h, x, y) {
                g1
            } else {
                coarse_step(g1, w, h, x, y, cell)
            }
        }),
{
    let ghost pre = *api;
    let ghost w = pre.width as int;
    let ghost h = pre.height as int;
    let ghost cx = pre.x as int;
    let ghost cy = pre.y as int;
    let below = api.get(0, 1)?;
    if matches!(below.species, Species::Grass) {
        let up_right = api.get(1, -1)?;
        let up = api.get(0, -1)?;
        let up_left = api.get(-1, -1)?;
        let up_two = api.get(0, -2)?;
        if up_right == empty_cell() && up == empty_cell() && up_left == empty_cell() && up_two
            == empty_cell() {
            let ghost mid1 = *api;
            api.set(1, -1, cell)?;
            proof {
                lemma_set_local(mid1.grid(), final_grid_of(api), mid1, 1, -1, cell, 2);
                lemma_local_trans(pre.grid(), mid1.grid(), final_grid_of(api), w, h, cx, cy, 2);
            }
            let ghost mid2 = *api;
            api.set(-1, -1, cell)?;
            proof {
                lemma_set_local(mid2.grid(), final_grid_of(api), mid2, -1, -1, cell, 2);
                lemma_local_trans(pre.grid(), mid2.grid(), final_grid_of(api), w, h, cx, cy, 2);
            }
            let ghost mid3 = *api;
            api.set(0, -2, cell)?;
            proof {
                lemma_set_local(mid3.grid(), final_grid_of(api), mid3, 0, -2, cell, 2);
                lemma_local_trans(pre.grid(), mid3.grid(), final_grid_of(api), w, h, cx, cy, 2);
            }
        }
    }
    let ghost g1 = *api;
    proof {
        assert(g1.grid() == flower_spread_step(pre.grid(), w, h, cx, cy, cell));
    }
    let current = api.get(0, 0)?;
    if let Species::Flower(color) = current.species {
        let down_left = api.get(-1, 1)?;
        let down_right = api.get(1, 1)?;
        if down_left.species == Species::Flower(color) || down_right.species == Species::Flower(
            color,
        ) {
            proof {
                assert(flower_rests(g1.grid(), w, h, cx, cy));
            }
            return Ok(());
        }
    }
    proof {
        assert(!flower_rests(g1.grid(), w, h, cx, cy));
    }
    let res = update_coarse(api, cell);
    proof {
        lemma_coarse_local(g1, final_grid_of(api), cell, 2);
        lemma_local_trans(pre.grid(), g1.grid(), final_grid_of(api), w, h, cx, cy, 2);
    }
    res
}

/// A cell WaterGrass can rest on.
pub open spec fn wg_support(s: Species) -> bool {
    matches!(s, Species::WaterGrass(_) | Species::Mud(_))
}

/// No Moore neighbor of the cursor is Water.
pub open spec fn wg_no_water(g: Seq<Cell>, w: int, h: int, x: int, y: int) -> bool {
    forall|k: int|
        0 <= k < 8 ==> (#[trigger] g_at(g, w, h, x + neighbor_dx(k), y + neighbor_dy(k))).species
            != Species::Water
}

/// Some Moore neighbor of the cursor is exactly the default Empty cell.
pub open spec fn wg_any_open(g: Seq<Cell>, w: int, h: int, x: int, y: int) -> bool {
    exists|k: int|
        0 <= k < 8 && #[trigger] g_at(g, w, h, x + neighbor_dx(k), y + neighbor_dy(k))
            == spec_empty()
}

/// Every below-row neighbor is WaterGrass or Mud: only then does the cell
/// rest instead of falling.
pub open spec fn wg_resting(g: Seq<Cell>, w: int, h: int, x: int, y: int) -> bool {
    forall|k: int|
        0 <= k < 8 && neighbor_dy(k) > 0 ==> wg_support(
            (#[trigger] g_at(g, w, h, x + neighbor_dx(k), y + neighbor_dy(k))).species,
        )
}

/// The growth phase of the WaterGrass rule: only while all four horizontal
/// and upper-diagonal neighbors are Water and the height cap is not reached,
/// the incremented cell may appear on one or both upper diagonals.
pub open spec fn water_grass_growth(
    g1: Seq<Cell>,
    g3: Seq<Cell>,
    w: int,
    h: int,
    x: int,
    y: int,
    cell: Cell,
) -> bool {
    let surrounded = g_at(g1, w, h, x + 1, y - 1).species == Species::Water && g_at(
        g1,
        w,
        h,
        x - 1,
        y - 1,
    ).species == Species::Water && g_at(g1, w, h, x, y - 1).species == Species::Water && g_at(
        g1,
        w,
        h,
        x + 1,
        y,
    ).species == Species::Water && g_at(g1, w, h, x - 1, y).species == Species::Water;
    let growing = surrounded && (match cell.species {
        Species::WaterGrass(hh) => hh < MAX_WATER_GRASS_HEIGHT,
        _ => false,
    });
    if growing {
        let c2 = cell.spec_with_species(cell.species.spec_incr());
        ||| g3 == g1
        ||| exists|d: int|
            (d == -1 || d == 0 || d == 1) && {
                ||| g3 == #[trigger] g_set_guarded(g1, w, h, x + d, y - 1, c2)
                ||| g3 == g_set_guarded(g1, w, h, x - d, y - 1, c2)
                ||| g3 == g_set_guarded(
                    g_set_guarded(g1, w, h, x + d, y - 1, c2),
                    w,
                    h,
                    x - d,
                    y - 1,
                    c2,
                )
            }
    } else {
        g3 == g1
    }
}

/// WaterGrass: reverts to Mud when no Water neighbor remains, dissolves into
/// Water when some neighbor is open space, falls (exactly the restricted
/// fall) unless every cell below is also WaterGrass or Mud, and grows upward
/// only while surrounded by Water, up to the height cap.
#[verifier::rlimit(100)]
#[verifier::spinoff_prover]
pub fn update_water_grass(api: &mut SandApi, cell: Cell) -> (r: Result<(), Error>)
    requires
        old(api).inv(),
    ensures
        r is Ok,
        rule_frame(*old(api), *final(api)),
        unchanged_outside(
            old(api).grid(),
            final(api).grid(),
            old(api).width as int,
            old(api).height as int,
            old(api).x as int,
            old(api).y as int,
            1,
        ),
        ({
            let g = old(api).grid();
            let w = old(api).width as int;
            let h = old(api).height as int;
            let x = old(api).x as int;
            let y = old(api).y as int;
            ||| (wg_no_water(g, w, h, x, y) && exists|mc: Cell|
                mc.species == Species::Mud(0) && !mc.clock && mc.heat == 20 && final(api).grid()
                    == #[trigger] g_set_guarded(g, w, h, x, y, mc))
            ||| (wg_any_open(g, w, h, x, y) && exists|wc: Cell|
                wc.species == Species::Water && !wc.clock && wc.heat == 20 && final(api).grid()
                    == #[trigger] g_set_guarded(g, w, h, x, y, wc))
            ||| exists|g1s: Seq<Cell>|
                (#[trigger] water_grass_growth(g1s, final(api).grid(), w, h, x, y, cell)) && g1s
                    == (if wg_resting(g, w, h, x, y) {
                    g
                } else {
                    coarse_step(g, w, h, x, y, cell)
                })
        }),
{
    let ghost pre = *api;
    let ghost w = pre.width as int;
    let ghost h = pre.height as int;
    let ghost cx = pre.x as int;
    let ghost cy = pre.y as int;
    let mut cur = cell;
    let pick = api.rand_below(3);
    let dx: i32 = if pick == 0 {
        1
    } else if pick == 1 {
        0
    } else {
        -1
    };

    let neighbors = api.neighbors()?;
    let mut any_water = false;
    let mut any_open = false;
    let mut resting = true;
    let mut k: usize = 0;
    while k < 8
        invariant
            k <= 8,
            neighbors@.len() == 8,
            forall|j: int|
                0 <= j < 8 ==> (#[trigger] neighbors@[j]).dx == neighbor_dx(j)
                    && neighbors@[j].dy == neighbor_dy(j) && neighbors@[j].cell == g_at(
                    pre.grid(),
                    w,
                    h,
                    cx + neighbor_dx(j),
                    cy + neighbor_dy(j),
                ),
            !any_water ==> forall|j: int|
                0 <= j < k ==> (#[trigger] neighbors@[j]).cell.species != Species::Water,
            any_open ==> exists|j: int|
                0 <= j < 8 && (#[trigger] neighbors@[j]).cell == spec_empty(),
            resting ==> forall|j: int|
                0 <= j < k && neighbor_dy(j) > 0 ==> wg_support(
                    (#[trigger] neighbors@[j]).cell.species,
                ),
            !resting ==> exists|j: int|
                0 <= j < 8 && neighbor_dy(j) > 0 && !wg_support(
                    (#[trigger] neighbors@[j]).cell.species,
                ),
        decreases 8 - k,
    {
        let n = neighbors[k];
        if matches!(n.cell.species, Species::Water) {
            any_water = true;
        }
        if n.cell == empty_cell() {
            any_open = true;
        }
        if n.dy > 0 && !matches!(n.cell.species, Species::WaterGrass(_) | Species::Mud(_)) {
            resting = false;
        }
        k = k + 1;
    }

    if !any_water {
        if api.rand_below(100) < 1 {
            let mc = Cell::mud();
            let ghost mid = *api;
            api.set(0, 0, mc)?;
            proof {
                lemma_set_local(mid.grid(), final_grid_of(api), mid, 0, 0, mc, 1);
                lemma_local_trans(pre.grid(), mid.grid(), final_grid_of(api), w, h, cx, cy, 1);
                assert forall|k2: int| 0 <= k2 < 8 implies (#[trigger] g_at(
                    pre.grid(),
                    w,
                    h,
                    cx + neighbor_dx(k2),
                    cy + neighbor_dy(k2),
                )).species != Species::Water by {
                    assert(neighbors@[k2].cell.species != Species::Water);
                }
                assert(wg_no_water(pre.grid(), w, h, cx, cy));
            }
            return Ok(());
        }
    }

    if any_open {
        if api.rand_below(100) < 1 {
            let wc = Cell::new(Species::Water);
            let ghost mid = *api;
            api.set(0, 0, wc)?;
            proof {
                lemma_set_local(mid.grid(), final_grid_of(api), mid, 0, 0, wc, 1);
                lemma_local_trans(pre.grid(), mid.grid(), final_grid_of(api), w, h, cx, cy, 1);
                let j = choose|j: int| 0 <= j < 8 && neighbors@[j].cell == spec_empty();
                assert(g_at(pre.grid(), w, h, cx + neighbor_dx(j), cy + neighbor_dy(j))
                    == spec_empty());
                assert(wg_any_open(pre.grid(), w, h, cx, cy));
            }
            return Ok(());
        }
    }

    proof {
        if resting {
            assert forall|k2: int| 0 <= k2 < 8 && neighbor_dy(k2) > 0 implies wg_support(
                (#[trigger] g_at(
                    pre.grid(),
                    w,
                    h,
                    cx + neighbor_dx(k2),
                    cy + neighbor_dy(k2),
                )).species,
            ) by {
                assert(wg_support(neighbors@[k2].cell.species));
            }
            assert(wg_resting(pre.grid(), w, h, cx, cy));
        } else {
            let j = choose|j: int|
                0 <= j < 8 && neighbor_dy(j) > 0 && !wg_support(neighbors@[j].cell.species);
            assert(!wg_support(
                g_at(pre.grid(), w, h, cx + neighbor_dx(j), cy + neighbor_dy(j)).species,
            ));
            assert(!wg_resting(pre.grid(), w, h, cx, cy));
        }
    }
    if !resting {
        let ghost mid = *api;
        update_coarse(api, cur)?;
        proof {
            lemma_coarse_local(mid, final_grid_of(api), cur, 1);
            lemma_local_trans(pre.grid(), mid.grid(), final_grid_of(api), w, h, cx, cy, 1);
        }
    }
    let ghost g1 = *api;

    let up_right = api.get(1, -1)?;
    let up_left = api.get(-1, -1)?;
    let up = api.get(0, -1)?;
    let right = api.get(1, 0)?;
    let left = api.get(-1, 0)?;
    if matches!(up_right.species, Species::Water) && matches!(up_left.species, Species::Water)
        && matches!(up.species, Species::Water) && matches!(right.species, Species::Water)
        && matches!(left.species, Species::Water) {
        if let Species::WaterGrass(height) = cur.species {
            if height < MAX_WATER_GRASS_HEIGHT {
                cur.species.incr();
                if api.rand_chance(50, 100) {
                    let ghost mid = *api;
                    api.set(dx, -1, cur)?;
                    proof {
                        lemma_set_local(mid.grid(), final_grid_of(api), mid, dx as int, -1, cur, 1);
                        lemma_local_trans(pre.grid(), mid.grid(), final_grid_of(api), w, h, cx, cy, 1);
                    }
                }
                if api.rand_chance(20, 100) {
                    let ghost mid = *api;
                    api.set(-dx, -1, cur)?;
                    proof {
                        lemma_set_local(mid.grid(), final_grid_of(api), mid, -dx as int, -1, cur, 1);
                        lemma_local_trans(pre.grid(), mid.grid(), final_grid_of(api), w, h, cx, cy, 1);
                    }
                }
            }
        }
    }
    proof {
        assert(water_grass_growth(g1.grid(), final_grid_of(api), w, h, cx, cy, cell));
    }
    Ok(())
}


/// A cell an unbound Clone may register: anything but another Clone, empty
/// space or the Border.
pub open spec fn clone_eligible(c: Cell) -> bool {
    !matches!(c.species, Species::Clone(_) | Species::Empty | Species::Border)
}

/// The first index (in neighbor order) at or after `k` whose cell an unbound
/// Clone may register; 8 when there is none.
pub open spec fn first_eligible_from(
    g: Seq<Cell>,
    w: int,
    h: int,
    cx: int,
    cy: int,
    k: int,
) -> int
    decreases 8 - k when k <= 8
{
    if k >= 8 {
        8
    } else if clone_eligible(g_at(g, w, h, cx + neighbor_dx(k), cy + neighbor_dy(k))) {
        k
    } else {
        first_eligible_from(g, w, h, cx, cy, k + 1)
    }
}

/// The species of the first eligible neighbor.
pub open spec fn first_eligible_species(g: Seq<Cell>, w: int, h: int, cx: int, cy: int) -> Species {
    let k = first_eligible_from(g, w, h, cx, cy, 0);
    g_at(g, w, h, cx + neighbor_dx(k), cy + neighbor_dy(k)).species
}

/// The registry can accept one more entry: it is below its ceiling or has a
/// free slot.
pub open spec fn zone_has_room(s: Seq<Option<Species>>) -> bool {
    s.len() < crate::zone::ZONE_CAPACITY as int || exists|j: int| 0 <= j < s.len() && s[j] is None
}

/// When no neighbor before `k` is eligible, the scan from 0 and the scan
/// from `k` agree.
proof fn lemma_first_eligible(g: Seq<Cell>, w: int, h: int, cx: int, cy: int, k: int)
    requires
        0 <= k <= 8,
        forall|j: int|
            0 <= j < k ==> !clone_eligible(
                g_at(g, w, h, cx + neighbor_dx(j), cy + neighbor_dy(j)),
            ),
    ensures
        first_eligible_from(g, w, h, cx, cy, 0) == first_eligible_from(g, w, h, cx, cy, k),
    decreases k,
{
    if k > 0 {
        lemma_first_eligible(g, w, h, cx, cy, k - 1);
    }
}

/// The lowest-index eligible neighbor, scanning in neighbor order.
fn find_eligible(neighbors: &[Neighbor; 8]) -> (r: Option<usize>)
    ensures
        match r {
            Some(k) => k < 8 && clone_eligible(neighbors@[k as int].cell) && forall|j: int|
                0 <= j < k ==> !clone_eligible(neighbors@[j].cell),
            None => forall|j: int| 0 <= j < 8 ==> !clone_eligible(neighbors@[j].cell),
        },
{
    let mut k: usize = 0;
    while k < 8
        invariant
            k <= 8,
            forall|j: int| 0 <= j < k ==> !clone_eligible(neighbors@[j].cell),
        decreases 8 - k,
    {
        let n = neighbors[k];
        if !matches!(n.cell.species, Species::Clone(_) | Species::Empty | Species::Border) {
            return Some(k);
        }
        k = k + 1;
    }
    None
}

/// What an unbound Clone cell's tick guarantees: when some neighbor is
/// eligible, the registry has room, and the cursor cell is a writable
/// in-bounds cell, then afterwards some identifier resolves to the first
/// eligible neighbor's species and the cursor cell is bound to it.
pub open spec fn clone_registration_ok(pre: SandApi, post: SandApi, cell: Cell) -> bool {
    let g = pre.grid();
    let w = pre.width as int;
    let h = pre.height as int;
    let x = pre.x as int;
    let y = pre.y as int;
    (cell.species == Species::Clone(None::<u16>) && first_eligible_from(g, w, h, x, y, 0) < 8
        && zone_has_room(pre.cloned_cells.slots()) && g_in_bounds(w, h, x, y) && g[g_index(
        w,
        x,
        y,
    )].species != Species::Border) ==> exists|id: u16|
        {
            &&& (id as int) < post.cloned_cells.slots().len()
            &&& (#[trigger] post.cloned_cells.slots()[id as int]) == Some(
                first_eligible_species(g, w, h, x, y),
            )
            &&& post.grid()[g_index(w, x, y)].species == Species::Clone(Some(id))
        }
}

/// What a bound Clone cell may do to each neighbor: leave it alone, stamp a
/// fresh copy of the registered species into an exactly-Empty cell, or bind
/// an adjacent unbound Clone to the same identifier.
pub open spec fn clone_stamped(
    g: Seq<Cell>,
    post: Seq<Cell>,
    w: int,
    h: int,
    x: int,
    y: int,
    sp: Species,
    bound: Species,
) -> bool {
    forall|k: int|
        0 <= k < 8 && g_in_bounds(w, h, x + neighbor_dx(k), y + neighbor_dy(k)) ==> {
            let a = g[g_index(w, x + neighbor_dx(k), y + neighbor_dy(k))];
            let b = (#[trigger] post[g_index(w, x + neighbor_dx(k), y + neighbor_dy(k))]);
            ||| b == a
            ||| (a == spec_empty() && b.species == sp && !b.clock && b.heat
                == sp.spec_starting_temp())
            ||| (a.species == Species::Clone(None::<u16>) && b == a.spec_with_species(bound))
        }
}

/// What a bound Clone cell's tick guarantees: with a live registry slot, the
/// cursor cell adopts the registered species' ambient heat (exact), each
/// neighbor is at most stamped or bound as `clone_stamped` says, and the
/// registry itself is untouched; with a dangling identifier nothing happens
/// beyond the cursor being written back unchanged.
pub open spec fn clone_bound_ok(pre: SandApi, post: SandApi, cell: Cell) -> bool {
    let g = pre.grid();
    let w = pre.width as int;
    let h = pre.height as int;
    let x = pre.x as int;
    let y = pre.y as int;
    match cell.species {
        Species::Clone(Some(id)) => if (id as int) < pre.cloned_cells.slots().len()
            && pre.cloned_cells.slots()[id as int] is Some {
            let sp = pre.cloned_cells.slots()[id as int]->0;
            &&& ((g_in_bounds(w, h, x, y) && g[g_index(w, x, y)].species != Species::Border)
                ==> post.grid()[g_index(w, x, y)] == crate::cell::spec_with_heat(
                cell,
                sp.spec_starting_temp(),
            ))
            &&& clone_stamped(g, post.grid(), w, h, x, y, sp, cell.species)
        } else {
            post.grid() == g_set_guarded(g, w, h, x, y, cell)
        },
        _ => true,
    }
}

/// Clone: an unbound Clone cell scans its neighbors in order for the first
/// cell it may copy, registers that species in the clone registry, and binds
/// itself to the returned identifier. A bound Clone adopts the registered
/// species' ambient heat, probabilistically stamps copies of it into
/// adjacent empty cells, and probabilistically binds adjacent unbound Clone
/// cells to the same identifier. A Clone bound to a dangling identifier
/// leaves its neighbors alone.
#[verifier::rlimit(60)]
pub fn update_clone(api: &mut SandApi, cell: Cell) -> (r: Result<(), Error>)
    requires
        old(api).inv(),
    ensures
        r is Ok,
        rule_frame_clone(*old(api), *final(api)),
        unchanged_outside(
            old(api).grid(),
            final(api).grid(),
            old(api).width as int,
            old(api).height as int,
            old(api).x as int,
            old(api).y as int,
            1,
        ),
        forall|j: int|
            0 <= j < old(api).cloned_cells.slots().len() && old(api).cloned_cells.slots()[j]
                is Some ==> j < final(api).cloned_cells.slots().len()
                && final(api).cloned_cells.slots()[j] == old(api).cloned_cells.slots()[j],
        cell.species != Species::Clone(None::<u16>) ==> final(api).cloned_cells.slots()
            == old(api).cloned_cells.slots(),
        clone_registration_ok(*old(api), *final(api), cell),
        clone_bound_ok(*old(api), *final(api), cell),
{
    let ghost pre = *api;
    let ghost w = pre.width as int;
    let ghost h = pre.height as int;
    let ghost cx = pre.x as int;
    let ghost cy = pre.y as int;
    let mut cur = cell;
    let neighbors = api.neighbors()?;
    if let Species::Clone(contents) = cur.species {
        if contents.is_none() {
            match find_eligible(&neighbors) {
                Some(k) => {
                    proof {
                        assert forall|j: int| 0 <= j < k implies !clone_eligible(
                            g_at(pre.grid(), w, h, cx + neighbor_dx(j), cy + neighbor_dy(j)),
                        ) by {
                            assert(neighbors@[j].cell == g_at(
                                pre.grid(),
                                w,
                                h,
                                cx + neighbor_dx(j),
                                cy + neighbor_dy(j),
                            ));
                        }
                        lemma_first_eligible(pre.grid(), w, h, cx, cy, k as int);
                    }
                    let n = neighbors[k];
                    let id_opt = api.store_cloned_cell(n.cell.species);
                    cur.species = Species::Clone(id_opt);
                    let ghost mid = *api;
                    api.set(0, 0, cur)?;
                    proof {
                        lemma_set_local(mid.grid(), final_grid_of(api), mid, 0, 0, cur, 1);
                        lemma_local_trans(pre.grid(), mid.grid(), final_grid_of(api), w, h, cx, cy, 1);
                    }
                    let ghost mid2 = *api;
                    api.set(0, 0, cur)?;
                    proof {
                        lemma_set_local(mid2.grid(), final_grid_of(api), mid2, 0, 0, cur, 1);
                        lemma_local_trans(pre.grid(), mid2.grid(), final_grid_of(api), w, h, cx, cy, 1);
                        let g = pre.grid();
                        if g_in_bounds(w, h, cx, cy) && g[g_index(w, cx, cy)].species
                            != Species::Border && zone_has_room(pre.cloned_cells.slots()) {
                            crate::map2d::lemma_index_bounds(w, h, cx, cy);
                            match id_opt {
                                Some(idv) => {
                                    assert((idv as int) < api.cloned_cells.slots().len());
                                    assert(api.cloned_cells.slots()[idv as int] == Some(
                                        first_eligible_species(g, w, h, cx, cy),
                                    ));
                                    assert(api.grid()[g_index(w, cx, cy)].species
                                        == Species::Clone(Some(idv)));
                                }
                                None => {
                                    if pre.cloned_cells.slots().len() >= crate::zone::ZONE_CAPACITY
                                        as int {
                                        let j0 = choose|j: int|
                                            0 <= j < pre.cloned_cells.slots().len()
                                                && pre.cloned_cells.slots()[j] is None;
                                        assert(pre.cloned_cells.slots()[j0] is Some);
                                    }
                                    assert(false);
                                }
                            }
                        }
                    }
                    return Ok(());
                }
                None => {
                    proof {
                        assert forall|j: int| 0 <= j < 8 implies !clone_eligible(
                            g_at(pre.grid(), w, h, cx + neighbor_dx(j), cy + neighbor_dy(j)),
                        ) by {
                            assert(neighbors@[j].cell == g_at(
                                pre.grid(),
                                w,
                                h,
                                cx + neighbor_dx(j),
                                cy + neighbor_dy(j),
                            ));
                        }
                        lemma_first_eligible(pre.grid(), w, h, cx, cy, 8);
                    }
                    let ghost mid = *api;
                    api.set(0, 0, cur)?;
                    proof {
                        lemma_set_local(mid.grid(), final_grid_of(api), mid, 0, 0, cur, 1);
                        lemma_local_trans(pre.grid(), mid.grid(), final_grid_of(api), w, h, cx, cy, 1);
                    }
                    return Ok(());
                }
            }
        }
        if let Some(id) = contents {
            match api.get_cloned_cell(id) {
                Some(cloned) => {
                    cur.heat = cloned.species.starting_temp();
                    let mut k: usize = 0;
                    while k < 8
                        invariant
                            api.inv(),
                            pre.inv(),
                            pre == *old(api),
                            k <= 8,
                            rule_frame(pre, *api),
                            unchanged_outside(pre.grid(), api.grid(), w, h, cx, cy, 1),
                            w == pre.width as int,
                            h == pre.height as int,
                            cx == pre.x as int,
                            cy == pre.y as int,
                            cur == crate::cell::spec_with_heat(
                                cell,
                                cloned.species.spec_starting_temp(),
                            ),
                            cloned.species == pre.cloned_cells.slots()[id as int]->0,
                            !cloned.clock,
                            cloned.heat == cloned.species.spec_starting_temp(),
                            cell.species == Species::Clone(Some(id)),
                            (id as int) < pre.cloned_cells.slots().len(),
                            pre.cloned_cells.slots()[id as int] is Some,
                            clone_stamped(
                                pre.grid(),
                                api.grid(),
                                w,
                                h,
                                cx,
                                cy,
                                cloned.species,
                                cell.species,
                            ),
                            g_in_bounds(w, h, cx, cy) ==> api.grid()[g_index(w, cx, cy)]
                                == pre.grid()[g_index(w, cx, cy)],
                            neighbors@.len() == 8,
                            forall|j: int|
                                0 <= j < 8 ==> (#[trigger] neighbors@[j]).dx == neighbor_dx(j)
                                    && neighbors@[j].dy == neighbor_dy(j) && neighbors@[j].cell
                                    == g_at(
                                    pre.grid(),
                                    w,
                                    h,
                                    cx + neighbor_dx(j),
                                    cy + neighbor_dy(j),
                                ),
                        decreases 8 - k,
                    {
                        let n = neighbors[k];
                        if n.cell == empty_cell() {
                            if api.rand_chance(5, 100) {
                                let ghost mid = *api;
                                api.set(n.dx, n.dy, cloned)?;
                                proof {
                                    lemma_set_local(mid.grid(), final_grid_of(api), mid, n.dx as int, n.dy as int, cloned, 1);
                                    lemma_local_trans(pre.grid(), mid.grid(), final_grid_of(api), w, h, cx, cy, 1);
                                    assert(neighbor_dx(k as int) != 0 || neighbor_dy(k as int)
                                        != 0);
                                    lemma_clone_stamp_step(
                                        pre.grid(),
                                        mid.grid(),
                                        final_grid_of(api),
                                        w,
                                        h,
                                        cx,
                                        cy,
                                        cx + n.dx as int,
                                        cy + n.dy as int,
                                        cloned,
                                        cloned.species,
                                        cell.species,
                                    );
                                }
                            }
                        } else if matches!(n.cell.species, Species::Clone(None::<u16>)) {
                            if api.rand_chance(10, 100) {
                                let mut nb = n.cell;
                                nb.species = cur.species;
                                let ghost mid = *api;
                                api.set(n.dx, n.dy, nb)?;
                                proof {
                                    lemma_set_local(mid.grid(), final_grid_of(api), mid, n.dx as int, n.dy as int, nb, 1);
                                    lemma_local_trans(pre.grid(), mid.grid(), final_grid_of(api), w, h, cx, cy, 1);
                                    assert(neighbor_dx(k as int) != 0 || neighbor_dy(k as int)
                                        != 0);
                                    lemma_clone_stamp_step(
                                        pre.grid(),
                                        mid.grid(),
                                        final_grid_of(api),
                                        w,
                                        h,
                                        cx,
                                        cy,
                                        cx + n.dx as int,
                                        cy + n.dy as int,
                                        nb,
                                        cloned.species,
                                        cell.species,
                                    );
                                }
                            }
                        }
                        k = k + 1;
                    }
                    let ghost mid_end = *api;
                    api.set(0, 0, cur)?;
                    proof {
                        lemma_set_local(mid_end.grid(), final_grid_of(api), mid_end, 0, 0, cur, 1);
                        lemma_local_trans(pre.grid(), mid_end.grid(), final_grid_of(api), w, h, cx, cy, 1);
                        assert forall|k2: int|
                            0 <= k2 < 8 && g_in_bounds(
                                w,
                                h,
                                cx + neighbor_dx(k2),
                                cy + neighbor_dy(k2),
                            ) implies {
                            let a = pre.grid()[g_index(w, cx + neighbor_dx(k2), cy + neighbor_dy(
                                k2,
                            ))];
                            let b = (#[trigger] final_grid_of(api)[g_index(
                                w,
                                cx + neighbor_dx(k2),
                                cy + neighbor_dy(k2),
                            )]);
                            ||| b == a
                            ||| (a == spec_empty() && b.species == cloned.species && !b.clock
                                && b.heat == cloned.species.spec_starting_temp())
                            ||| (a.species == Species::Clone(None::<u16>) && b
                                == a.spec_with_species(cell.species))
                        } by {
                            crate::map2d::lemma_index_bounds(
                                w,
                                h,
                                cx + neighbor_dx(k2),
                                cy + neighbor_dy(k2),
                            );
                            if g_in_bounds(w, h, cx, cy) {
                                crate::map2d::lemma_index_bounds(w, h, cx, cy);
                                if g_index(w, cx + neighbor_dx(k2), cy + neighbor_dy(k2))
                                    == g_index(w, cx, cy) {
                                    crate::map2d::lemma_index_injective(
                                        w,
                                        cx + neighbor_dx(k2),
                                        cy + neighbor_dy(k2),
                                        cx,
                                        cy,
                                    );
                                }
                            }
                        }
                        assert(clone_stamped(
                            pre.grid(),
                            final_grid_of(api),
                            w,
                            h,
                            cx,
                            cy,
                            cloned.species,
                            cell.species,
                        ));
                        if g_in_bounds(w, h, cx, cy) && pre.grid()[g_index(w, cx, cy)].species
                            != Species::Border {
                            crate::map2d::lemma_index_bounds(w, h, cx, cy);
                            assert(mid_end.grid()[g_index(w, cx, cy)] == pre.grid()[g_index(
                                w,
                                cx,
                                cy,
                            )]);
                            assert(final_grid_of(api)[g_index(w, cx, cy)] == cur);
                        }
                        assert(clone_bound_ok(pre, *api, cell));
                    }
                    return Ok(());
                }
                None => {}
            }
        }
    }
    let ghost mid_end = *api;
    api.set(0, 0, cur)?;
    proof {
        lemma_set_local(mid_end.grid(), final_grid_of(api), mid_end, 0, 0, cur, 1);
        lemma_local_trans(pre.grid(), mid_end.grid(), final_grid_of(api), w, h, cx, cy, 1);
    }
    Ok(())
}

/// One stamping write — a fresh copy into an exactly-Empty neighbor, or an
/// unbound Clone bound to the cursor's identifier — preserves the pointwise
/// stamping characterization and the cursor cell.
proof fn lemma_clone_stamp_step(
    g0: Seq<Cell>,
    g1: Seq<Cell>,
    g2: Seq<Cell>,
    w: int,
    h: int,
    x: int,
    y: int,
    tx: int,
    ty: int,
    c: Cell,
    sp: Species,
    bound: Species,
)
    requires
        1 <= w,
        1 <= h,
        g0.len() == w * h,
        g1.len() == w * h,
        clone_stamped(g0, g1, w, h, x, y, sp, bound),
        g2 == g_set_guarded(g1, w, h, tx, ty, c),
        !(tx == x && ty == y),
        g_in_bounds(w, h, tx, ty) ==> ((g0[g_index(w, tx, ty)] == spec_empty() && c.species == sp
            && !c.clock && c.heat == sp.spec_starting_temp()) || (g0[g_index(w, tx, ty)].species
            == Species::Clone(None::<u16>) && c == g0[g_index(w, tx, ty)].spec_with_species(
            bound,
        ))),
    ensures
        clone_stamped(g0, g2, w, h, x, y, sp, bound),
        g_in_bounds(w, h, x, y) ==> g2[g_index(w, x, y)] == g1[g_index(w, x, y)],
{
    crate::api::lemma_set_guarded_frame(g1, w, h, tx, ty, c);
    assert forall|k: int|
        0 <= k < 8 && g_in_bounds(w, h, x + neighbor_dx(k), y + neighbor_dy(k)) implies {
        let a = g0[g_index(w, x + neighbor_dx(k), y + neighbor_dy(k))];
        let b = (#[trigger] g2[g_index(w, x + neighbor_dx(k), y + neighbor_dy(k))]);
        ||| b == a
        ||| (a == spec_empty() && b.species == sp && !b.clock && b.heat == sp.spec_starting_temp())
        ||| (a.species == Species::Clone(None::<u16>) && b == a.spec_with_species(bound))
    } by {
        crate::map2d::lemma_index_bounds(w, h, x + neighbor_dx(k), y + neighbor_dy(k));
        if g_in_bounds(w, h, tx, ty) {
            crate::map2d::lemma_index_bounds(w, h, tx, ty);
            if g_index(w, x + neighbor_dx(k), y + neighbor_dy(k)) == g_index(w, tx, ty) {
                crate::map2d::lemma_index_injective(
                    w,
                    x + neighbor_dx(k),
                    y + neighbor_dy(k),
                    tx,
                    ty,
                );
            }
        }
    }
    if g_in_bounds(w, h, x, y) {
        crate::map2d::lemma_index_bounds(w, h, x, y);
        if g_in_bounds(w, h, tx, ty) {
            crate::map2d::lemma_index_bounds(w, h, tx, ty);
            if g_index(w, x, y) == g_index(w, tx, ty) {
                crate::map2d::lemma_index_injective(w, x, y, tx, ty);
            }
        }
    }
}

} // verus!

