use vstd::prelude::*;

use crate::building::apply_all_spec;
use crate::building::apply_rule_spec;
use crate::building::ledger_fits_i32;
use crate::building::lemma_apply_all_len;
use crate::building::to_int_seq;
use crate::building::Building;
use crate::building::UpdateRule;
use crate::errors::GameError;
use crate::grid::adjacent;
use crate::grid::passable;
use crate::grid::Coord;
use crate::grid::Tile;
use crate::grid::TileGrid;
use crate::path::find_route;
use crate::path::is_route;
use crate::resources::covers_spec;
use crate::resources::Resources;

verus! {

/// The footprint of `b` fits inside the grid extent.
pub open spec fn footprint_in_grid_spec(map: TileGrid, b: Building) -> bool {
    (b.dimxy.x > 0 && b.dimxy.y > 0) ==> (0 <= b.topleft.x && b.topleft.x + b.dimxy.x <= map.width
        && 0 <= b.topleft.y && b.topleft.y + b.dimxy.y <= map.height)
}

/// The cell `(x, y)` lies in the footprint of `b`.
pub open spec fn in_footprint(b: Building, x: int, y: int) -> bool {
    b.topleft.x <= x < b.topleft.x + b.dimxy.x && b.topleft.y <= y < b.topleft.y + b.dimxy.y
}

/// Some footprint cell of `b` carries a blocked tile. Road tiles are
/// blocked, so a footprint over a road collides too.
pub open spec fn footprint_blocked_spec(map: TileGrid, b: Building) -> bool {
    exists|x: int, y: int|
        in_footprint(b, x, y) && map.in_bounds_xy(x, y) && (#[trigger] map.tile_at_xy(
            x,
            y,
        )).blocked
}

/// A building cannot be placed: its footprint leaves the grid or collides
/// with a blocked tile.
pub open spec fn is_blocked_spec(map: TileGrid, b: Building) -> bool {
    !footprint_in_grid_spec(map, b) || footprint_blocked_spec(map, b)
}

/// The cells of `p`, in order, that lie in the grid of `map` and are not
/// yet road: exactly the cells a road-building pass marks and charges for.
pub open spec fn non_road_cells(map: TileGrid, p: Seq<Coord>) -> Seq<Coord> {
    p.filter(|c: Coord| map.in_bounds(c) && !map.tile_at(c).road)
}

proof fn lemma_non_road_cells_empty(map: TileGrid)
    ensures
        non_road_cells(map, Seq::<Coord>::empty()) == Seq::<Coord>::empty(),
{
    reveal(Seq::<Coord>::filter);
}

proof fn lemma_non_road_cells_push(map: TileGrid, p: Seq<Coord>, c: Coord)
    ensures
        non_road_cells(map, p.push(c)) == (if map.in_bounds(c) && !map.tile_at(c).road {
            non_road_cells(map, p).push(c)
        } else {
            non_road_cells(map, p)
        }),
{
    reveal(Seq::<Coord>::filter);
    assert(p.push(c).drop_last() =~= p);
    assert(p.push(c).last() == c);
}

/// The world orchestrator: the tile grid, the placed buildings, the
/// archetype catalog, the ledger, and the per-tile road cost.
pub struct Game {
    pub map: TileGrid,
    pub buildings: Vec<Building>,
    pub buildingtypes: Vec<Building>,
    pub resources: Resources,
    pub road_cost: Resources,
}

impl Game {
    /// The grid is well formed, ledgers agree on the slot count, every cost
    /// is non-negative, and every catalogued or placed building is valid.
    pub open spec fn wf(self) -> bool {
        &&& self.map.wf()
        &&& self.road_cost@.len() == self.resources@.len()
        &&& forall|i: int| 0 <= i < self.road_cost@.len() ==> self.road_cost@[i] >= 0
        &&& forall|k: int| 0 <= k < self.buildingtypes@.len()
            ==> (#[trigger] self.buildingtypes@[k]).wf(self.resources@.len() as int)
        &&& forall|k: int| 0 <= k < self.buildings@.len()
            ==> (#[trigger] self.buildings@[k]).wf(self.resources@.len() as int)
    }

    /// Construct a world over `map` with an all-zero ledger. The archetype
    /// list must agree with the declared building-type count: a mismatch is
    /// a fatal configuration error and construction is refused.
    pub fn new(
        buildingtypes: Vec<Building>,
        num_building_types: usize,
        map: TileGrid,
        num_resources: usize,
        road_cost: Resources,
    ) -> (r: Result<Game, GameError>)
        requires
            map.wf(),
            road_cost@.len() == num_resources,
            forall|i: int| 0 <= i < road_cost@.len() ==> road_cost@[i] >= 0,
            forall|k: int| 0 <= k < buildingtypes@.len()
                ==> (#[trigger] buildingtypes@[k]).wf(num_resources as int),
        ensures
            buildingtypes@.len() != num_building_types ==> r == Err::<Game, GameError>(
                GameError::CatalogMismatch,
            ),
            buildingtypes@.len() == num_building_types ==> (r matches Ok(g) && {
                &&& g.wf()
                &&& g.map == map
                &&& g.buildingtypes == buildingtypes
                &&& g.buildings@.len() == 0
                &&& g.resources@.len() == num_resources
                &&& forall|i: int| 0 <= i < num_resources ==> g.resources@[i] == 0
                &&& g.road_cost == road_cost
            }),
    {
        if buildingtypes.len() != num_building_types {
            return Err(GameError::CatalogMismatch);
        }
        let mut balances: Vec<i32> = Vec::new();
        while balances.len() < num_resources
            invariant
                balances@.len() <= num_resources,
                forall|i: int| 0 <= i < balances@.len() ==> balances@[i] == 0,
            decreases num_resources - balances@.len(),
        {
            balances.push(0);
        }
        Ok(Game {
            map,
            buildings: Vec::new(),
            buildingtypes,
            resources: Resources(balances),
            road_cost,
        })
    }

    /// The tile at `c`, or `None` outside the grid extent.
    pub fn tile(&self, c: Coord) -> (r: Option<Tile>)
        requires
            self.wf(),
        ensures
            self.map.in_bounds(c) ==> r == Some(self.map.tile_at(c)),
            !self.map.in_bounds(c) ==> r is None,
    {
        self.map.get(c)
    }

    /// A read-only snapshot of one ledger slot.
    pub fn resource(&self, kind: usize) -> (r: Result<i32, GameError>)
        ensures
            kind < self.resources@.len() ==> r == Ok::<i32, GameError>(
                self.resources@[kind as int],
            ),
            kind >= self.resources@.len() ==> r == Err::<i32, GameError>(
                GameError::InvalidResourceIndex,
            ),
    {
        self.resources.get(kind)
    }

    /// True when `newobj` cannot be placed: some footprint cell lies
    /// outside the grid or carries a blocked tile (buildings and roads
    /// both block placement).
    pub fn is_blocked(&self, newobj: &Building) -> (r: bool)
        requires
            self.wf(),
            0 <= newobj.dimxy.x,
            0 <= newobj.dimxy.y,
        ensures
            r == is_blocked_spec(self.map, *newobj),
    {
        let dx = newobj.dimxy.x;
        let dy = newobj.dimxy.y;
        if dx == 0 || dy == 0 {
            proof {
                assert(!footprint_blocked_spec(self.map, *newobj));
            }
            return false;
        }
        let tlx = newobj.topleft.x;
        let tly = newobj.topleft.y;
        if !(0 <= tlx && (tlx as i64) + (dx as i64) <= self.map.width as i64 && 0 <= tly
            && (tly as i64) + (dy as i64) <= self.map.height as i64) {
            return true;
        }
        let x_end: i32 = tlx + dx;
        let y_end: i32 = tly + dy;
        let mut x: i32 = tlx;
        while x < x_end
            invariant
                self.wf(),
                0 < newobj.dimxy.x,
                0 < newobj.dimxy.y,
                tlx == newobj.topleft.x,
                tly == newobj.topleft.y,
                x_end == tlx + newobj.dimxy.x,
                y_end == tly + newobj.dimxy.y,
                footprint_in_grid_spec(self.map, *newobj),
                tlx <= x <= x_end,
                forall|xx: int, yy: int|
                    tlx <= xx < x && tly <= yy < y_end
                        ==> !(#[trigger] self.map.tile_at_xy(xx, yy)).blocked,
            decreases x_end - x,
        {
            let mut y: i32 = tly;
            while y < y_end
                invariant
                    self.wf(),
                    0 < newobj.dimxy.x,
                    0 < newobj.dimxy.y,
                    tlx == newobj.topleft.x,
                    tly == newobj.topleft.y,
                    x_end == tlx + newobj.dimxy.x,
                    y_end == tly + newobj.dimxy.y,
                    footprint_in_grid_spec(self.map, *newobj),
                    tlx <= x < x_end,
                    tly <= y <= y_end,
                    forall|xx: int, yy: int|
                        tlx <= xx < x && tly <= yy < y_end
                            ==> !(#[trigger] self.map.tile_at_xy(xx, yy)).blocked,
                    forall|yy: int|
                        tly <= yy < y ==> !(#[trigger] self.map.tile_at_xy(x as int, yy)).blocked,
                decreases y_end - y,
            {
                let t = self.map.get(Coord::new(x, y));
                if let Some(tt) = t {
                    if tt.blocked {
                        proof {
                            assert(in_footprint(*newobj, x as int, y as int));
                            assert(self.map.tile_at_xy(x as int, y as int).blocked);
                        }
                        return true;
                    }
                } else {
                    proof {
                        assert(false);
                    }
                }
                y += 1;
            }
            x += 1;
        }
        proof {
            assert forall|xx: int, yy: int|
                in_footprint(*newobj, xx, yy)
                    implies !(#[trigger] self.map.tile_at_xy(xx, yy)).blocked by {}
        }
        false
    }

    /// The ledger covers the building's cost.
    pub fn can_pay_for(&self, newobj: &Building) -> (r: bool)
        ensures
            r == covers_spec(self.resources@, newobj.cost@),
    {
        self.resources.covers(&newobj.cost)
    }

    /// Mark every footprint cell of `newobj` as a building tile.
    fn block(&mut self, newobj: &Building)
        requires
            old(self).wf(),
            0 <= newobj.dimxy.x,
            0 <= newobj.dimxy.y,
            footprint_in_grid_spec(old(self).map, *newobj),
        ensures
            final(self).wf(),
            final(self).map.width == old(self).map.width,
            final(self).map.height == old(self).map.height,
            forall|xx: int, yy: int|
                old(self).map.in_bounds_xy(xx, yy)
                    ==> final(self).map.tile_at_xy(xx, yy) == (if in_footprint(*newobj, xx, yy) {
                        Tile { blocked: true, road: false }
                    } else {
                        old(self).map.tile_at_xy(xx, yy)
                    }),
            final(self).buildings == old(self).buildings,
            final(self).buildingtypes == old(self).buildingtypes,
            final(self).resources == old(self).resources,
            final(self).road_cost == old(self).road_cost,
    {
        let dx = newobj.dimxy.x;
        let dy = newobj.dimxy.y;
        if dx == 0 || dy == 0 {
            return ;
        }
        let tlx = newobj.topleft.x;
        let tly = newobj.topleft.y;
        let x_end: i32 = tlx + dx;
        let y_end: i32 = tly + dy;
        let mut x: i32 = tlx;
        while x < x_end
            invariant
                self.wf(),
                0 < newobj.dimxy.x,
                0 < newobj.dimxy.y,
                tlx == newobj.topleft.x,
                tly == newobj.topleft.y,
                x_end == tlx + newobj.dimxy.x,
                y_end == tly + newobj.dimxy.y,
                footprint_in_grid_spec(old(self).map, *newobj),
                tlx <= x <= x_end,
                self.map.width == old(self).map.width,
                self.map.height == old(self).map.height,
                forall|xx: int, yy: int|
                    old(self).map.in_bounds_xy(xx, yy)
                        ==> self.map.tile_at_xy(xx, yy) == (if in_footprint(*newobj, xx, yy) && xx
                            < x {
                            Tile { blocked: true, road: false }
                        } else {
                            old(self).map.tile_at_xy(xx, yy)
                        }),
                self.buildings == old(self).buildings,
                self.buildingtypes == old(self).buildingtypes,
                self.resources == old(self).resources,
                self.road_cost == old(self).road_cost,
            decreases x_end - x,
        {
            let mut y: i32 = tly;
            while y < y_end
                invariant
                    self.wf(),
                    0 < newobj.dimxy.x,
                    0 < newobj.dimxy.y,
                    tlx == newobj.topleft.x,
                    tly == newobj.topleft.y,
                    x_end == tlx + newobj.dimxy.x,
                    y_end == tly + newobj.dimxy.y,
                    footprint_in_grid_spec(old(self).map, *newobj),
                    tlx <= x < x_end,
                    tly <= y <= y_end,
                    self.map.width == old(self).map.width,
                    self.map.height == old(self).map.height,
                    forall|xx: int, yy: int|
                        old(self).map.in_bounds_xy(xx, yy)
                            ==> self.map.tile_at_xy(xx, yy) == (if in_footprint(*newobj, xx, yy)
                                && (xx < x || (xx == x && yy < y)) {
                                Tile { blocked: true, road: false }
                            } else {
                                old(self).map.tile_at_xy(xx, yy)
                            }),
                    self.buildings == old(self).buildings,
                    self.buildingtypes == old(self).buildingtypes,
                    self.resources == old(self).resources,
                    self.road_cost == old(self).road_cost,
                decreases y_end - y,
            {
                self.map.set(Coord::new(x, y), Tile::wall());
                y += 1;
            }
            x += 1;
        }
    }

    /// The archetype at `u`, re-anchored at `topleft`.
    fn get_building_to_build(&self, u: usize, topleft: Coord) -> (b: Building)
        requires
            u < self.buildingtypes@.len(),
        ensures
            b.btype == self.buildingtypes@[u as int].btype,
            b.topleft == topleft,
            b.dimxy == self.buildingtypes@[u as int].dimxy,
            b.cost@ == self.buildingtypes@[u as int].cost@,
            b.update_rule == self.buildingtypes@[u as int].update_rule,
    {
        self.buildingtypes[u].duplicate().new_token(topleft)
    }

    /// Commit a placement whose checks have already passed: wall the
    /// footprint, pay the cost, append the building. Both checks are
    /// read-only and happen strictly before any mutation, so a rejected
    /// command never mutates and no rollback is needed.
    fn add(&mut self, newobj: Building)
        requires
            old(self).wf(),
            newobj.wf(old(self).resources@.len() as int),
            footprint_in_grid_spec(old(self).map, newobj),
            covers_spec(old(self).resources@, newobj.cost@),
        ensures
            final(self).wf(),
            final(self).map.width == old(self).map.width,
            final(self).map.height == old(self).map.height,
            forall|xx: int, yy: int|
                old(self).map.in_bounds_xy(xx, yy)
                    ==> final(self).map.tile_at_xy(xx, yy) == (if in_footprint(newobj, xx, yy) {
                        Tile { blocked: true, road: false }
                    } else {
                        old(self).map.tile_at_xy(xx, yy)
                    }),
            final(self).resources@.len() == old(self).resources@.len(),
            forall|i: int| 0 <= i < old(self).resources@.len()
                ==> final(self).resources@[i] == old(self).resources@[i] - newobj.cost@[i],
            final(self).buildings@ == old(self).buildings@.push(newobj),
            final(self).buildingtypes == old(self).buildingtypes,
            final(self).road_cost == old(self).road_cost,
    {
        self.block(&newobj);
        let paid = self.resources.substract(&newobj.cost);
        self.resources = paid;
        self.buildings.push(newobj);
    }

    /// Validate and commit a building placement: `OutOfBounds` when the
    /// footprint leaves the grid, else `TileBlocked` on any collision, else
    /// `InsufficientResources` when the ledger does not cover the cost;
    /// otherwise the footprint is walled, the cost paid, and the placed
    /// building appended and returned. A rejected command changes nothing.
    pub fn place_building(&mut self, archetype_id: usize, topleft: Coord) -> (r: Result<
        Building,
        GameError,
    >)
        requires
            old(self).wf(),
            archetype_id < old(self).buildingtypes@.len(),
        ensures
            final(self).wf(),
            ({
                let bt = old(self).buildingtypes@[archetype_id as int];
                let token = Building {
                    btype: bt.btype,
                    topleft,
                    dimxy: bt.dimxy,
                    cost: bt.cost,
                    update_rule: bt.update_rule,
                };
                match r {
                    Err(e) => {
                        &&& *final(self) == *old(self)
                        &&& (e == GameError::OutOfBounds <==> !footprint_in_grid_spec(
                            old(self).map,
                            token,
                        ))
                        &&& (e == GameError::TileBlocked <==> footprint_in_grid_spec(
                            old(self).map,
                            token,
                        ) && footprint_blocked_spec(old(self).map, token))
                        &&& (e == GameError::InsufficientResources <==> footprint_in_grid_spec(
                            old(self).map,
                            token,
                        ) && !footprint_blocked_spec(old(self).map, token) && !covers_spec(
                            old(self).resources@,
                            bt.cost@,
                        ))
                        &&& (e == GameError::OutOfBounds || e == GameError::TileBlocked || e
                            == GameError::InsufficientResources)
                    },
                    Ok(pb) => {
                        &&& footprint_in_grid_spec(old(self).map, token)
                        &&& !footprint_blocked_spec(old(self).map, token)
                        &&& covers_spec(old(self).resources@, bt.cost@)
                        &&& pb.btype == bt.btype
                        &&& pb.topleft == topleft
                        &&& pb.dimxy == bt.dimxy
                        &&& pb.cost@ == bt.cost@
                        &&& pb.update_rule == bt.update_rule
                        &&& final(self).map.width == old(self).map.width
                        &&& final(self).map.height == old(self).map.height
                        &&& forall|xx: int, yy: int|
                            old(self).map.in_bounds_xy(xx, yy)
                                ==> final(self).map.tile_at_xy(xx, yy) == (if in_footprint(
                                token,
                                xx,
                                yy,
                            ) {
                                Tile { blocked: true, road: false }
                            } else {
                                old(self).map.tile_at_xy(xx, yy)
                            })
                        &&& final(self).resources@.len() == old(self).resources@.len()
                        &&& forall|i: int| 0 <= i < old(self).resources@.len()
                            ==> final(self).resources@[i] == old(self).resources@[i] - bt.cost@[i]
                        &&& final(self).buildings@.len() == old(self).buildings@.len() + 1
                        &&& ({
                            let added = final(self).buildings@[old(self).buildings@.len() as int];
                            added.btype == bt.btype && added.topleft == topleft && added.dimxy
                                == bt.dimxy && added.cost@ == bt.cost@ && added.update_rule
                                == bt.update_rule
                        })
                        &&& forall|k: int| 0 <= k < old(self).buildings@.len()
                            ==> final(self).buildings@[k] == old(self).buildings@[k]
                        &&& final(self).buildingtypes == old(self).buildingtypes
                        &&& final(self).road_cost == old(self).road_cost
                    },
                }
            }),
    {
        let b = self.get_building_to_build(archetype_id, topleft);
        let dx = b.dimxy.x;
        let dy = b.dimxy.y;
        let in_grid: bool = if dx == 0 || dy == 0 {
            true
        } else {
            let tlx = b.topleft.x;
            let tly = b.topleft.y;
            0 <= tlx && (tlx as i64) + (dx as i64) <= self.map.width as i64 && 0 <= tly && (
            tly as i64) + (dy as i64) <= self.map.height as i64
        };
        if !in_grid {
            return Err(GameError::OutOfBounds);
        }
        if self.is_blocked(&b) {
            return Err(GameError::TileBlocked);
        }
        if !self.can_pay_for(&b) {
            return Err(GameError::InsufficientResources);
        }
        let placed = b.duplicate();
        self.add(b);
        Ok(placed)
    }

    /// Apply every placed building's update rule once for tick `i`, in
    /// placement order.
    pub fn update_buildings(&mut self, i: i32)
        requires
            old(self).wf(),
            i >= 0,
            forall|k: int| 0 <= k <= old(self).buildings@.len() ==> ledger_fits_i32(
                apply_all_spec(
                    old(self).buildings@.take(k),
                    to_int_seq(old(self).resources@),
                    i as int,
                ),
            ),
        ensures
            final(self).wf(),
            to_int_seq(final(self).resources@) == apply_all_spec(
                old(self).buildings@,
                to_int_seq(old(self).resources@),
                i as int,
            ),
            final(self).resources@.len() == old(self).resources@.len(),
            final(self).map == old(self).map,
            final(self).buildings == old(self).buildings,
            final(self).buildingtypes == old(self).buildingtypes,
            final(self).road_cost == old(self).road_cost,
    {
        let ghost led0 = to_int_seq(old(self).resources@);
        let n = self.buildings.len();
        let mut k: usize = 0;
        while k < n
            invariant
                self.wf(),
                i >= 0,
                0 <= k <= n,
                n == self.buildings@.len(),
                self.map == old(self).map,
                self.buildings == old(self).buildings,
                self.buildingtypes == old(self).buildingtypes,
                self.road_cost == old(self).road_cost,
                led0 == to_int_seq(old(self).resources@),
                self.resources@.len() == old(self).resources@.len(),
                forall|t: int| 0 <= t <= old(self).buildings@.len() ==> ledger_fits_i32(
                    apply_all_spec(old(self).buildings@.take(t), led0, i as int),
                ),
                to_int_seq(self.resources@) == apply_all_spec(
                    old(self).buildings@.take(k as int),
                    led0,
                    i as int,
                ),
            decreases n - k,
        {
            let rule = self.buildings[k].update_rule;
            let ghost cur = to_int_seq(self.resources@);
            let ghost next = apply_all_spec(
                old(self).buildings@.take(k as int + 1),
                led0,
                i as int,
            );
            proof {
                assert(old(self).buildings@.take(k as int + 1).drop_last() =~= old(
                    self,
                ).buildings@.take(k as int));
                assert(old(self).buildings@.take(k as int + 1).last() == old(self).buildings@[
                    k as int]);
                assert(next == apply_rule_spec(rule, cur, i as int));
                assert(ledger_fits_i32(next));
                lemma_apply_all_len(old(self).buildings@.take(k as int), led0, i as int);
                assert(self.buildings@[k as int].wf(self.resources@.len() as int));
                match rule {
                    UpdateRule::Produce { period, kind, amount } => {
                        if i as int % (period as int) == 0 {
                            assert(next[kind as int] == cur[kind as int] + amount);
                            assert(cur[kind as int] == self.resources@[kind as int]);
                        }
                    },
                    UpdateRule::Idle => {},
                }
            }
            rule.apply(&mut self.resources, i);
            k += 1;
        }
        proof {
            assert(old(self).buildings@.take(n as int) =~= old(self).buildings@);
        }
    }

    /// Lay one road tile and pay the configured per-tile cost. The ledger
    /// is charged unconditionally: road building is deliberately not
    /// affordability-checked.
    fn add_road(&mut self, coord: Coord)
        requires
            old(self).wf(),
            old(self).map.in_bounds(coord),
            forall|i: int| #![trigger old(self).resources@[i]] 0 <= i < old(self).resources@.len()
                ==> i32::MIN <= old(self).resources@[i] - old(self).road_cost@[i] <= i32::MAX,
        ensures
            final(self).wf(),
            final(self).map.width == old(self).map.width,
            final(self).map.height == old(self).map.height,
            forall|xx: int, yy: int|
                old(self).map.in_bounds_xy(xx, yy)
                    ==> final(self).map.tile_at_xy(xx, yy) == (if xx == coord.x as int && yy
                        == coord.y as int {
                        Tile { blocked: true, road: true }
                    } else {
                        old(self).map.tile_at_xy(xx, yy)
                    }),
            final(self).resources@.len() == old(self).resources@.len(),
            forall|i: int| 0 <= i < old(self).resources@.len()
                ==> final(self).resources@[i] == old(self).resources@[i] - old(
                self,
            ).road_cost@[i],
            final(self).buildings == old(self).buildings,
            final(self).buildingtypes == old(self).buildingtypes,
            final(self).road_cost == old(self).road_cost,
    {
        self.map.set(coord, Tile::road());
        let paid = self.resources.substract(&self.road_cost);
        self.resources = paid;
    }

    /// Plan a route from `start` to `goal` and turn it into road: every
    /// route cell that is not already a road is marked road (and blocked)
    /// and the per-tile road cost is charged for it, in route order. The
    /// newly added cells are returned: exactly the in-grid, not-yet-road
    /// cells of one minimum-length route, in route order. Cost is charged
    /// per tile actually added, never validated as a lump sum, so the
    /// ledger may go negative.
    pub fn build_road(&mut self, start: Coord, goal: Coord) -> (r: Result<Vec<Coord>, GameError>)
        requires
            old(self).wf(),
            forall|i: int| 0 <= i < old(self).resources@.len() ==> old(self).resources@[i] - (old(
                self,
            ).map.area() + 1) * old(self).road_cost@[i] >= i32::MIN,
        ensures
            final(self).wf(),
            (r matches Err(e) ==> e == GameError::NoRouteFound && *final(self) == *old(self)),
            (start != goal && !adjacent(start, goal) && (forall|c: Coord|
                adjacent(c, goal) ==> !(old(self).map.in_bounds(c) && passable(
                    old(self).map.tile_at(c),
                )))) ==> r == Err::<Vec<Coord>, GameError>(GameError::NoRouteFound),
            (exists|q: Seq<Coord>|
                (#[trigger] is_route(old(self).map, q, start, goal)) && q.len() <= old(
                    self,
                ).map.area() + 1) ==> r is Ok,
            (match r {
                Ok(added) => {
                    &&& exists|p: Seq<Coord>|
                        {
                            &&& #[trigger] is_route(old(self).map, p, start, goal)
                            &&& p.no_duplicates()
                            &&& (forall|q: Seq<Coord>|
                                #[trigger] is_route(old(self).map, q, start, goal) ==> p.len()
                                    <= q.len())
                            &&& added@ == non_road_cells(old(self).map, p)
                        }
                    &&& added@.no_duplicates()
                    &&& added@.len() <= old(self).map.area() + 1
                    &&& forall|t: int| 0 <= t < added@.len() ==> old(self).map.in_bounds(
                        #[trigger] added@[t],
                    ) && !old(self).map.tile_at(added@[t]).road
                    &&& final(self).map.width == old(self).map.width
                    &&& final(self).map.height == old(self).map.height
                    &&& forall|xx: int, yy: int|
                        old(self).map.in_bounds_xy(xx, yy)
                            ==> final(self).map.tile_at_xy(xx, yy) == (if (exists|t: int|
                            0 <= t < added@.len() && (#[trigger] added@[t]).x == xx && added@[t].y
                                == yy) {
                                Tile { blocked: true, road: true }
                            } else {
                                old(self).map.tile_at_xy(xx, yy)
                            })
                    &&& final(self).resources@.len() == old(self).resources@.len()
                    &&& forall|i: int| 0 <= i < old(self).resources@.len()
                        ==> final(self).resources@[i] == old(self).resources@[i] - added@.len()
                            * old(self).road_cost@[i]
                    &&& final(self).buildings == old(self).buildings
                    &&& final(self).buildingtypes == old(self).buildingtypes
                    &&& final(self).road_cost == old(self).road_cost
                },
                Err(_) => true,
            }),
    {
        let route_opt = find_route(&self.map, start, goal);
        match route_opt {
            None => Err(GameError::NoRouteFound),
            Some(route) => {
                let ghost old_res = self.resources@;
                let ghost area = self.map.area();
                let mut added: Vec<Coord> = Vec::new();
                let mut j: usize = 0;
                proof {
                    lemma_non_road_cells_empty(old(self).map);
                    assert(route@.take(0) =~= Seq::<Coord>::empty());
                }
                while j < route.len()
                    invariant
                        self.wf(),
                        0 <= j <= route@.len(),
                        is_route(old(self).map, route@, start, goal),
                        route@.no_duplicates(),
                        route@.len() <= area + 1,
                        forall|q: Seq<Coord>|
                            #[trigger] is_route(old(self).map, q, start, goal) ==> route@.len()
                                <= q.len(),
                        added@ == non_road_cells(old(self).map, route@.take(j as int)),
                        area == old(self).map.area(),
                        old_res == old(self).resources@,
                        forall|t: int| 0 <= t < route@.len() ==> old(self).map.in_bounds(
                            #[trigger] route@[t],
                        ) || route@[t] == start,
                        forall|i: int| 0 <= i < old_res.len() ==> old_res[i] - (area + 1) * old(
                            self,
                        ).road_cost@[i] >= i32::MIN,
                        added@.len() <= j,
                        added@.no_duplicates(),
                        forall|t: int| #![trigger added@[t]] 0 <= t < added@.len()
                            ==> exists|jj: int| 0 <= jj < j && added@[t] == route@[jj],
                        forall|t: int| 0 <= t < added@.len() ==> old(self).map.in_bounds(
                            #[trigger] added@[t],
                        ) && !old(self).map.tile_at(added@[t]).road,
                        self.map.width == old(self).map.width,
                        self.map.height == old(self).map.height,
                        forall|xx: int, yy: int|
                            old(self).map.in_bounds_xy(xx, yy)
                                ==> self.map.tile_at_xy(xx, yy) == (if (exists|t: int|
                                0 <= t < added@.len() && (#[trigger] added@[t]).x == xx
                                    && added@[t].y == yy) {
                                    Tile { blocked: true, road: true }
                                } else {
                                    old(self).map.tile_at_xy(xx, yy)
                                }),
                        self.resources@.len() == old_res.len(),
                        forall|i: int| 0 <= i < old_res.len()
                            ==> self.resources@[i] == old_res[i] - added@.len() * old(
                            self,
                        ).road_cost@[i],
                        self.buildings == old(self).buildings,
                        self.buildingtypes == old(self).buildingtypes,
                        self.road_cost == old(self).road_cost,
                    decreases route@.len() - j,
                {
                    let c = route[j];
                    proof {
                        // c was not added before: route cells are distinct
                        if exists|t0: int| 0 <= t0 < added@.len() && added@[t0] == c {
                            let t0 = choose|t0: int| 0 <= t0 < added@.len() && added@[t0] == c;
                            let jj = choose|jj: int| 0 <= jj < j && added@[t0] == route@[jj];
                            assert(route@[jj] == route@[j as int]);
                            assert(false);
                        }
                        // so the tile at c still reads as the original map had it
                        if old(self).map.in_bounds(c) {
                            assert(self.map.tile_at(c) == old(self).map.tile_at(c));
                        }
                    }
                    let t = self.map.get(c);
                    if let Some(tt) = t {
                        if !tt.road {
                            let ghost cnt = added@.len() as int;
                            proof {
                                // charging one more tile stays within the machine bounds
                                assert forall|i: int|
                                    #![trigger self.resources@[i]]
                                    0 <= i < self.resources@.len()
                                    implies i32::MIN <= self.resources@[i] - self.road_cost@[i]
                                        <= i32::MAX by {
                                    let rc = self.road_cost@[i] as int;
                                    assert((cnt + 1) * rc <= (area + 1) * rc && 0 <= cnt * rc
                                        && (cnt + 1) * rc == cnt * rc + rc) by (nonlinear_arith)
                                        requires
                                            0 <= cnt,
                                            cnt + 1 <= area + 1,
                                            0 <= rc,
                                    ;
                                }
                            }
                            let ghost added_prev = added@;
                            let ghost map_prev = self.map;
                            self.add_road(c);
                            added.push(c);
                            proof {
                                assert forall|i: int| 0 <= i < old_res.len()
                                    implies self.resources@[i] == old_res[i] - added@.len() * old(
                                    self,
                                ).road_cost@[i] by {
                                    let rc = old(self).road_cost@[i] as int;
                                    assert((cnt + 1) * rc == cnt * rc + rc) by (nonlinear_arith);
                                }
                                assert forall|xx: int, yy: int|
                                    old(self).map.in_bounds_xy(xx, yy)
                                        implies self.map.tile_at_xy(xx, yy) == (if (exists|t0: int|
                                        0 <= t0 < added@.len() && (#[trigger] added@[t0]).x == xx
                                            && added@[t0].y == yy) {
                                        Tile { blocked: true, road: true }
                                    } else {
                                        old(self).map.tile_at_xy(xx, yy)
                                    }) by {
                                    if xx == c.x as int && yy == c.y as int {
                                        assert(added@[added@.len() - 1] == c);
                                    } else {
                                        assert(self.map.tile_at_xy(xx, yy) == map_prev.tile_at_xy(
                                            xx,
                                            yy,
                                        ));
                                        if exists|t0: int|
                                            0 <= t0 < added@.len() && (#[trigger] added@[t0]).x
                                                == xx && added@[t0].y == yy {
                                            let t0 = choose|t0: int|
                                                0 <= t0 < added@.len() && (#[trigger] added@[t0]).x
                                                    == xx && added@[t0].y == yy;
                                            assert(added@[t0] != c);
                                            assert(t0 < added@.len() - 1);
                                            assert(added_prev[t0] == added@[t0]);
                                            assert(map_prev.tile_at_xy(xx, yy) == (Tile {
                                                blocked: true,
                                                road: true,
                                            }));
                                        } else {
                                            assert forall|t0: int|
                                                0 <= t0 < added_prev.len()
                                                    implies !((#[trigger] added_prev[t0]).x == xx
                                                    && added_prev[t0].y == yy) by {
                                                assert(added@[t0] == added_prev[t0]);
                                            }
                                            assert(map_prev.tile_at_xy(xx, yy) == old(
                                                self,
                                            ).map.tile_at_xy(xx, yy));
                                        }
                                    }
                                }
                            }
                        }
                    }
                    proof {
                        lemma_non_road_cells_push(old(self).map, route@.take(j as int), c);
                        assert(route@.take(j as int).push(c) =~= route@.take(j as int + 1));
                        assert(added@ == non_road_cells(old(self).map, route@.take(j as int + 1)));
                    }
                    j += 1;
                }
                proof {
                    assert(route@.take(route@.len() as int) =~= route@);
                    assert(added@ == non_road_cells(old(self).map, route@));
                    assert(is_route(old(self).map, route@, start, goal));
                }
                Ok(added)
            },
        }
    }
}

/// A road-marked tile is traversable by the pathfinder whatever its blocked
/// flag says; and when it is blocked - as constructed roads are - any
/// building footprint that covers it is rejected.
pub proof fn lemma_road_passable_yet_blocks(map: TileGrid, b: Building, x: int, y: int)
    requires
        map.in_bounds_xy(x, y),
        map.tile_at_xy(x, y).road,
        in_footprint(b, x, y),
    ensures
        passable(map.tile_at_xy(x, y)),
        map.tile_at_xy(x, y).blocked ==> is_blocked_spec(map, b),
{
}

} // verus!
