use vstd::prelude::*;

use crate::grid::adjacent;
use crate::grid::dist1;
use crate::grid::lemma_distinct_coords_bound;
use crate::grid::manhattan;
use crate::grid::passable;
use crate::grid::Coord;
use crate::grid::TileGrid;

verus! {

/// An entry of the search priority queue: a node keyed by its f-score
/// (cost so far plus heuristic estimate). The queue may hold stale
/// duplicates; popped entries are validated against the score table.
pub struct PQItem<N> {
    pub fscore: i64,
    pub node: N,
}

impl<N> PQItem<N> {
    pub fn new(node: N, fscore: i64) -> (r: PQItem<N>)
        ensures
            r.fscore == fscore,
            r.node == node,
    {
        PQItem { fscore, node }
    }
}

/// Per-node search state: cost so far `g`, priority `f`, and the
/// predecessor on the best route found so far (`None` for the start node).
#[derive(Clone, Copy, PartialEq, Eq, Structural, Debug)]
pub struct SearchEntry {
    pub coord: Coord,
    pub g: i64,
    pub f: i64,
    pub parent: Option<Coord>,
}

/// The pathfinder's score and predecessor table, keyed by node.
pub struct SearchTable {
    pub entries: Vec<SearchEntry>,
}

/// First entry with the given key, scanning from the front.
pub open spec fn spec_find(s: Seq<SearchEntry>, c: Coord) -> Option<SearchEntry>
    decreases s.len(),
{
    if s.len() == 0 {
        None
    } else if s[0].coord == c {
        Some(s[0])
    } else {
        spec_find(s.skip(1), c)
    }
}

/// The keys of a table, in entry order.
pub open spec fn table_keys(s: Seq<SearchEntry>) -> Seq<Coord> {
    s.map_values(|e: SearchEntry| e.coord)
}

/// If the first `i` entries do not hold the key, the lookup is decided by
/// the remainder.
proof fn lemma_find_skip(s: Seq<SearchEntry>, c: Coord, i: int)
    requires
        0 <= i <= s.len(),
        forall|j: int| 0 <= j < i ==> s[j].coord != c,
    ensures
        spec_find(s, c) == spec_find(s.skip(i), c),
    decreases i,
{
    if i > 0 {
        lemma_find_skip(s.skip(1), c, i - 1);
        assert(s.skip(1).skip(i - 1) =~= s.skip(i));
    } else {
        assert(s.skip(0) =~= s);
    }
}

/// A lookup misses exactly when no entry holds the key.
proof fn lemma_find_none_iff(s: Seq<SearchEntry>, c: Coord)
    ensures
        spec_find(s, c) is None <==> (forall|j: int| 0 <= j < s.len() ==> s[j].coord != c),
    decreases s.len(),
{
    if s.len() > 0 {
        lemma_find_none_iff(s.skip(1), c);
        if s[0].coord != c {
            assert forall|j: int| 0 <= j < s.len() && spec_find(s, c) is None
                implies s[j].coord != c by {
                if j > 0 {
                    assert(s.skip(1)[j - 1] == s[j]);
                }
            }
        }
    }
}

/// Overwriting the first entry that holds a key changes exactly that key's
/// lookup.
proof fn lemma_find_update(s: Seq<SearchEntry>, i: int, e: SearchEntry)
    requires
        0 <= i < s.len(),
        s[i].coord == e.coord,
        forall|j: int| 0 <= j < i ==> s[j].coord != e.coord,
    ensures
        forall|d: Coord| #[trigger] spec_find(s.update(i, e), d) == (if d == e.coord {
            Some(e)
        } else {
            spec_find(s, d)
        }),
    decreases i,
{
    let t = s.update(i, e);
    if i == 0 {
        assert forall|d: Coord| #[trigger] spec_find(t, d) == (if d == e.coord {
            Some(e)
        } else {
            spec_find(s, d)
        }) by {
            assert(t[0] == e);
            if d != e.coord {
                assert(t.skip(1) =~= s.skip(1));
            }
        }
    } else {
        lemma_find_update(s.skip(1), i - 1, e);
        let u = s.skip(1).update(i - 1, e);
        assert forall|d: Coord| #[trigger] spec_find(t, d) == (if d == e.coord {
            Some(e)
        } else {
            spec_find(s, d)
        }) by {
            assert(t[0] == s[0]);
            assert(t.skip(1) =~= u);
            assert(spec_find(u, d) == (if d == e.coord {
                Some(e)
            } else {
                spec_find(s.skip(1), d)
            }));
            if d == s[0].coord {
                assert(spec_find(t, d) == Some(s[0]));
                assert(spec_find(s, d) == Some(s[0]));
            } else {
                assert(spec_find(t, d) == spec_find(u, d));
                assert(spec_find(s, d) == spec_find(s.skip(1), d));
            }
        }
    }
}

/// Appending an entry under a fresh key changes exactly that key's lookup.
proof fn lemma_find_push(s: Seq<SearchEntry>, e: SearchEntry)
    requires
        forall|j: int| 0 <= j < s.len() ==> s[j].coord != e.coord,
    ensures
        forall|d: Coord| #[trigger] spec_find(s.push(e), d) == (if d == e.coord {
            Some(e)
        } else {
            spec_find(s, d)
        }),
    decreases s.len(),
{
    let t = s.push(e);
    if s.len() == 0 {
        assert forall|d: Coord| #[trigger] spec_find(t, d) == (if d == e.coord {
            Some(e)
        } else {
            spec_find(s, d)
        }) by {
            assert(t[0] == e);
            if d != e.coord {
                assert(spec_find(t, d) == spec_find(t.skip(1), d));
                assert(t.skip(1) =~= Seq::<SearchEntry>::empty());
            }
        }
    } else {
        assert forall|j: int| 0 <= j < s.skip(1).len() implies s.skip(1)[j].coord != e.coord by {
            assert(s.skip(1)[j] == s[j + 1]);
        }
        lemma_find_push(s.skip(1), e);
        let u = s.skip(1).push(e);
        assert forall|d: Coord| #[trigger] spec_find(t, d) == (if d == e.coord {
            Some(e)
        } else {
            spec_find(s, d)
        }) by {
            assert(t[0] == s[0]);
            assert(t.skip(1) =~= u);
            assert(spec_find(u, d) == (if d == e.coord {
                Some(e)
            } else {
                spec_find(s.skip(1), d)
            }));
            if d == s[0].coord {
                assert(spec_find(t, d) == Some(s[0]));
                assert(spec_find(s, d) == Some(s[0]));
            } else {
                assert(spec_find(t, d) == spec_find(u, d));
                assert(spec_find(s, d) == spec_find(s.skip(1), d));
            }
        }
    }
}

impl SearchTable {
    pub fn new() -> (t: SearchTable)
        ensures
            t.entries@.len() == 0,
            forall|d: Coord| #[trigger] spec_find(t.entries@, d) is None,
    {
        let t = SearchTable { entries: Vec::new() };
        proof {
            assert forall|d: Coord| #[trigger] spec_find(t.entries@, d) is None by {
                lemma_find_none_iff(t.entries@, d);
            }
        }
        t
    }

    /// Index of the first entry holding `c`, if any.
    fn find_index(&self, c: Coord) -> (r: Option<usize>)
        ensures
            (match r {
                Some(i) => {
                    &&& i < self.entries@.len()
                    &&& self.entries@[i as int].coord == c
                    &&& forall|j: int| 0 <= j < i ==> self.entries@[j].coord != c
                    &&& spec_find(self.entries@, c) == Some(self.entries@[i as int])
                },
                None => {
                    &&& forall|j: int| 0 <= j < self.entries@.len()
                        ==> self.entries@[j].coord != c
                    &&& spec_find(self.entries@, c) is None
                },
            }),
    {
        let mut i: usize = 0;
        while i < self.entries.len()
            invariant
                0 <= i <= self.entries@.len(),
                forall|j: int| 0 <= j < i ==> self.entries@[j].coord != c,
            decreases self.entries@.len() - i,
        {
            if self.entries[i].coord.x == c.x && self.entries[i].coord.y == c.y {
                proof {
                    assert(self.entries@[i as int].coord == c);
                    lemma_find_skip(self.entries@, c, i as int);
                    assert(self.entries@.skip(i as int)[0] == self.entries@[i as int]);
                }
                return Some(i);
            }
            i += 1;
        }
        proof {
            lemma_find_none_iff(self.entries@, c);
        }
        None
    }

    /// The entry for `c`, if one exists.
    pub fn get(&self, c: Coord) -> (r: Option<SearchEntry>)
        ensures
            r == spec_find(self.entries@, c),
    {
        match self.find_index(c) {
            Some(i) => Some(self.entries[i]),
            None => None,
        }
    }

    /// Record `e` for its key, overwriting the key's previous entry if any.
    pub fn put(&mut self, e: SearchEntry)
        requires
            table_keys(old(self).entries@).no_duplicates(),
        ensures
            table_keys(final(self).entries@).no_duplicates(),
            forall|d: Coord| #[trigger] spec_find(final(self).entries@, d) == (if d == e.coord {
                Some(e)
            } else {
                spec_find(old(self).entries@, d)
            }),
            (match spec_find(old(self).entries@, e.coord) {
                Some(_) => {
                    &&& final(self).entries@.len() == old(self).entries@.len()
                    &&& table_keys(final(self).entries@) == table_keys(old(self).entries@)
                    &&& exists|i: int|
                        0 <= i < old(self).entries@.len() && old(self).entries@[i].coord == e.coord
                            && final(self).entries@ == old(self).entries@.update(i, e)
                },
                None => {
                    &&& final(self).entries@.len() == old(self).entries@.len() + 1
                    &&& table_keys(final(self).entries@) == table_keys(old(self).entries@).push(
                        e.coord,
                    )
                    &&& final(self).entries@ == old(self).entries@.push(e)
                },
            }),
    {
        let ghost s = self.entries@;
        match self.find_index(e.coord) {
            Some(i) => {
                self.entries[i] = e;
                proof {
                    lemma_find_update(s, i as int, e);
                    assert(table_keys(self.entries@) =~= table_keys(s));
                }
            },
            None => {
                self.entries.push(e);
                proof {
                    lemma_find_push(s, e);
                    assert(table_keys(self.entries@) =~= table_keys(s).push(e.coord));
                    let keys = table_keys(self.entries@);
                    assert forall|i: int, j: int| 0 <= i < j < keys.len() implies keys[i]
                        != keys[j] by {
                        if j == keys.len() - 1 {
                            assert(keys[i] == s[i].coord);
                        }
                    }
                }
            },
        }
    }

    pub fn len(&self) -> (n: usize)
        ensures
            n == self.entries@.len(),
    {
        self.entries.len()
    }
}

/// Pop an item with the smallest f-score; ties go to the earliest item.
fn pop_min(pq: &mut Vec<PQItem<Coord>>) -> (r: PQItem<Coord>)
    requires
        old(pq)@.len() > 0,
    ensures
        final(pq)@.len() == old(pq)@.len() - 1,
        exists|j: int|
            0 <= j < old(pq)@.len() && old(pq)@[j] == r && final(pq)@ == old(pq)@.update(
                j,
                old(pq)@.last(),
            ).drop_last(),
        forall|i: int| 0 <= i < final(pq)@.len() ==> r.fscore <= #[trigger] final(pq)@[i].fscore,
{
    let mut best: usize = 0;
    let mut i: usize = 1;
    while i < pq.len()
        invariant
            0 <= best < i <= pq@.len(),
            forall|t: int| 0 <= t < i ==> pq@[best as int].fscore <= #[trigger] pq@[t].fscore,
        decreases pq@.len() - i,
    {
        if pq[i].fscore < pq[best].fscore {
            best = i;
        }
        i += 1;
    }
    let r = pq.swap_remove(best);
    proof {
        let j = best as int;
        assert(old(pq)@[j] == r);
        assert(pq@ == old(pq)@.update(j, old(pq)@.last()).drop_last());
        assert forall|t: int| 0 <= t < pq@.len() implies r.fscore <= #[trigger] pq@[t].fscore by {
            if t != j {
                assert(pq@[t] == old(pq)@[t]);
            } else {
                assert(pq@[t] == old(pq)@[old(pq)@.len() - 1]);
            }
        }
    }
    r
}

/// A route as the pathfinder reports it: ordered goal-first, start-last,
/// consecutive positions one orthogonal step apart, and every position but
/// the trailing start on an in-grid passable tile. (The start cell itself is
/// never inspected: a search may begin anywhere.)
pub open spec fn is_route(g: TileGrid, p: Seq<Coord>, start: Coord, goal: Coord) -> bool {
    &&& p.len() >= 1
    &&& p[0] == goal
    &&& p[p.len() - 1] == start
    &&& forall|i: int| 0 <= i < p.len() - 1 ==> adjacent(#[trigger] p[i], p[i + 1])
    &&& forall|i: int| 0 <= i < p.len() - 1
        ==> g.in_bounds(#[trigger] p[i]) && passable(g.tile_at(p[i]))
}

/// Every recorded predecessor exists in the table with a strictly smaller
/// cost, and costs are non-negative; walking predecessors therefore
/// terminates.
pub open spec fn parents_wf(t: SearchTable) -> bool {
    forall|c: Coord|
        #![trigger spec_find(t.entries@, c)]
        match spec_find(t.entries@, c) {
            Some(e) => e.g >= 0 && match e.parent {
                Some(p) => match spec_find(t.entries@, p) {
                    Some(pe) => pe.g < e.g,
                    None => false,
                },
                None => true,
            },
            None => true,
        }
}

/// The table records `b` as the predecessor of `a`.
pub open spec fn chain_step(t: SearchTable, a: Coord, b: Coord) -> bool {
    match spec_find(t.entries@, a) {
        Some(e) => e.parent == Some(b),
        None => false,
    }
}

/// The walk from `c` can go no further: `c` is unknown to the table or has
/// no recorded predecessor.
pub open spec fn chain_end(t: SearchTable, c: Coord) -> bool {
    match spec_find(t.entries@, c) {
        Some(e) => e.parent is None,
        None => true,
    }
}

/// Steps left before the predecessor walk from `c` must stop.
pub open spec fn chain_rank(t: SearchTable, c: Coord) -> int {
    match spec_find(t.entries@, c) {
        Some(e) => e.g + 1,
        None => 0,
    }
}

/// Walk the recorded predecessors backward from `goal`; the result starts at
/// `goal` and ends at the first position with no recorded predecessor.
pub fn reconstruct_path(table: &SearchTable, goal: Coord) -> (p: Vec<Coord>)
    requires
        parents_wf(*table),
    ensures
        p@.len() >= 1,
        p@[0] == goal,
        forall|i: int| 0 <= i < p@.len() - 1 ==> chain_step(*table, #[trigger] p@[i], p@[i + 1]),
        chain_end(*table, p@[p@.len() - 1]),
{
    let mut p: Vec<Coord> = Vec::new();
    p.push(goal);
    let mut current = goal;
    loop
        invariant
            parents_wf(*table),
            p@.len() >= 1,
            p@[0] == goal,
            p@[p@.len() - 1] == current,
            forall|i: int| 0 <= i < p@.len() - 1
                ==> chain_step(*table, #[trigger] p@[i], p@[i + 1]),
        ensures
            p@.len() >= 1,
            p@[0] == goal,
            forall|i: int| 0 <= i < p@.len() - 1
                ==> chain_step(*table, #[trigger] p@[i], p@[i + 1]),
            chain_end(*table, p@[p@.len() - 1]),
        decreases chain_rank(*table, current),
    {
        match table.get(current) {
            None => { break ; },
            Some(e) => {
                match e.parent {
                    None => { break ; },
                    Some(prev) => {
                        p.push(prev);
                        current = prev;
                    },
                }
            },
        }
    }
    p
}

/// Costs decrease by at least one per step along a predecessor chain, so
/// chain positions exist in the table and are pairwise distinct.
proof fn lemma_chain_g(t: SearchTable, p: Seq<Coord>, i: int, j: int)
    requires
        parents_wf(t),
        forall|k: int| 0 <= k < p.len() - 1 ==> chain_step(t, #[trigger] p[k], p[k + 1]),
        0 <= i < j < p.len(),
    ensures
        spec_find(t.entries@, p[i]) is Some,
        spec_find(t.entries@, p[j]) is Some,
        spec_find(t.entries@, p[j]).unwrap().g <= spec_find(t.entries@, p[i]).unwrap().g - (j - i),
    decreases j - i,
{
    if j == i + 1 {
        assert(chain_step(t, p[i], p[i + 1]));
    } else {
        lemma_chain_g(t, p, i, j - 1);
        assert(chain_step(t, p[j - 1], p[j]));
    }
}

/// A predecessor chain visits no position twice.
proof fn lemma_chain_distinct(t: SearchTable, p: Seq<Coord>)
    requires
        parents_wf(t),
        p.len() >= 1,
        forall|k: int| 0 <= k < p.len() - 1 ==> chain_step(t, #[trigger] p[k], p[k + 1]),
    ensures
        p.no_duplicates(),
{
    assert forall|i: int, j: int| 0 <= i < j < p.len() implies p[i] != p[j] by {
        lemma_chain_g(t, p, i, j);
    }
}

/// Any route needs at least as many edges as the Manhattan distance between
/// its endpoints: each step moves one orthogonal cell.
pub proof fn lemma_route_edges_at_least_manhattan(
    g: TileGrid,
    p: Seq<Coord>,
    start: Coord,
    goal: Coord,
)
    requires
        is_route(g, p, start, goal),
    ensures
        p.len() - 1 >= manhattan(start, goal),
    decreases p.len(),
{
    if p.len() == 1 {
    } else {
        let q = p.skip(1);
        assert forall|i: int| 0 <= i < q.len() - 1 implies adjacent(#[trigger] q[i], q[i + 1])
            && g.in_bounds(q[i]) && passable(g.tile_at(q[i])) by {
            assert(q[i] == p[i + 1]);
            assert(q[i + 1] == p[i + 2]);
        }
        assert(q[0] == p[1]);
        assert(q[q.len() - 1] == start);
        lemma_route_edges_at_least_manhattan(g, q, start, p[1]);
        assert(adjacent(p[0], p[1]));
    }
}

/// A goal whose four orthogonal neighbour cells are all impassable cannot be
/// reached by any route from a start elsewhere that is not itself one of
/// those neighbour cells.
pub proof fn lemma_enclosed_goal_unreachable(
    g: TileGrid,
    p: Seq<Coord>,
    start: Coord,
    goal: Coord,
)
    requires
        start != goal,
        !adjacent(start, goal),
        forall|c: Coord| adjacent(c, goal) ==> !(g.in_bounds(c) && passable(g.tile_at(c))),
    ensures
        !is_route(g, p, start, goal),
{
    if is_route(g, p, start, goal) {
        assert(p.len() >= 2);
        assert(adjacent(p[0], p[1]));
        assert(adjacent(p[1], goal));
        if p.len() == 2 {
            assert(p[1] == start);
            assert(adjacent(start, goal));
        } else {
            assert(g.in_bounds(p[1]) && passable(g.tile_at(p[1])));
        }
    }
}

/// A walk as the search explores it: ordered start-first, goal-last,
/// consecutive positions one orthogonal step apart, and every position but
/// the leading start on an in-grid passable tile. A route read backward.
spec fn is_walk(g: TileGrid, w: Seq<Coord>, start: Coord, goal: Coord) -> bool {
    &&& w.len() >= 1
    &&& w[0] == start
    &&& w[w.len() - 1] == goal
    &&& forall|i: int| 0 <= i < w.len() - 1 ==> adjacent(#[trigger] w[i], w[i + 1])
    &&& forall|i: int| 1 <= i < w.len()
        ==> g.in_bounds(#[trigger] w[i]) && passable(g.tile_at(w[i]))
}

/// A route read backward is a walk.
proof fn lemma_route_reversed_is_walk(g: TileGrid, p: Seq<Coord>, start: Coord, goal: Coord)
    requires
        is_route(g, p, start, goal),
    ensures
        is_walk(g, p.reverse(), start, goal),
        p.reverse().len() == p.len(),
{
    let w = p.reverse();
    assert(w[0] == p[p.len() - 1]);
    assert(w[w.len() - 1] == p[0]);
    assert forall|i: int| 0 <= i < w.len() - 1 implies adjacent(#[trigger] w[i], w[i + 1]) by {
        assert(w[i] == p[p.len() - 1 - i]);
        assert(w[i + 1] == p[p.len() - 2 - i]);
        assert(adjacent(p[p.len() - 2 - i], p[p.len() - 1 - i]));
    }
    assert forall|i: int| 1 <= i < w.len() implies g.in_bounds(#[trigger] w[i]) && passable(
        g.tile_at(w[i]),
    ) by {
        assert(w[i] == p[p.len() - 1 - i]);
    }
}

/// Each step of an adjacent sequence moves the Manhattan distance to the
/// final position by at most one.
proof fn lemma_adjacent_seq_manhattan(w: Seq<Coord>, i: int)
    requires
        forall|j: int| 0 <= j < w.len() - 1 ==> adjacent(#[trigger] w[j], w[j + 1]),
        0 <= i < w.len(),
    ensures
        manhattan(w[i], w[w.len() - 1]) <= w.len() - 1 - i,
    decreases w.len() - i,
{
    if i < w.len() - 1 {
        lemma_adjacent_seq_manhattan(w, i + 1);
        assert(adjacent(w[i], w[i + 1]));
    }
}

/// The queue holds an item for the given node.
spec fn pq_has(pq: Seq<PQItem<Coord>>, c: Coord) -> bool {
    exists|i: int| 0 <= i < pq.len() && (#[trigger] pq[i]).node == c
}

/// Open-set members are queued and scored.
#[verifier::opaque]
spec fn open_ok(s: Seq<SearchEntry>, open: Seq<Coord>, pq: Seq<PQItem<Coord>>) -> bool {
    &&& open.no_duplicates()
    &&& forall|c: Coord| #[trigger] open.contains(c) ==> pq_has(pq, c) && spec_find(s, c) is Some
}

/// An expanded node has offered neighbour `d` a cost one above its own,
/// unless the pruning bound already beat that offer.
spec fn expansion_clause(
    s: Seq<SearchEntry>,
    gs: i64,
    goal: Coord,
    e: SearchEntry,
    d: Coord,
) -> bool {
    match spec_find(s, d) {
        Some(de) => de.g <= e.g + 1 || gs <= e.g + 1 + manhattan(d, goal),
        None => gs <= e.g + 1 + manhattan(d, goal),
    }
}

/// Every non-open node except `skip` has made its offers to all of its
/// passable in-grid neighbours.
#[verifier::opaque]
spec fn expansion_ok_except(
    s: Seq<SearchEntry>,
    open: Seq<Coord>,
    gs: i64,
    map: TileGrid,
    goal: Coord,
    skip: Option<Coord>,
) -> bool {
    forall|c: Coord, d: Coord|
        #![trigger spec_find(s, c), spec_find(s, d)]
        match spec_find(s, c) {
            Some(e) => (Some(c) != skip && !open.contains(c) && adjacent(d, c) && map.in_bounds(d)
                && passable(map.tile_at(d))) ==> expansion_clause(s, gs, goal, e, d),
            None => true,
        }
}

/// The best known goal cost tracks the goal's table entry: never below it,
/// and equal to it once the goal is off the open set.
#[verifier::opaque]
spec fn goal_score_ok(s: Seq<SearchEntry>, open: Seq<Coord>, gs: i64, goal: Coord) -> bool {
    match spec_find(s, goal) {
        Some(e) => (gs < i64::MAX ==> e.g <= gs) && (!open.contains(goal) ==> gs <= e.g),
        None => gs == i64::MAX,
    }
}

/// Along any walk to the goal, some position is already scored no worse
/// than its distance from the start, unless the best goal cost already
/// beats the walk.
#[verifier::opaque]
spec fn walks_covered(
    s: Seq<SearchEntry>,
    gs: i64,
    map: TileGrid,
    start: Coord,
    goal: Coord,
) -> bool {
    forall|w: Seq<Coord>|
        (#[trigger] is_walk(map, w, start, goal)) ==> gs <= w.len() - 1 || (exists|m: int|
            #![trigger spec_find(s, w[m])]
            0 <= m < w.len() && (match spec_find(s, w[m]) {
                Some(e) => e.g <= m,
                None => false,
            }))
}

/// With the queue drained, following the expansion offers along a walk
/// drives the best goal cost below the walk's cost.
proof fn lemma_closed_walk(
    s: Seq<SearchEntry>,
    open: Seq<Coord>,
    pq: Seq<PQItem<Coord>>,
    gs: i64,
    map: TileGrid,
    start: Coord,
    goal: Coord,
    w: Seq<Coord>,
    m: int,
)
    requires
        open_ok(s, open, pq),
        expansion_ok_except(s, open, gs, map, goal, None::<Coord>),
        goal_score_ok(s, open, gs, goal),
        pq.len() == 0,
        is_walk(map, w, start, goal),
        0 <= m < w.len(),
        match spec_find(s, w[m]) {
            Some(e) => e.g <= m,
            None => false,
        },
    ensures
        gs <= w.len() - 1,
    decreases w.len() - m,
{
    reveal(open_ok);
    reveal(expansion_ok_except);
    reveal(goal_score_ok);
    let e = spec_find(s, w[m]).unwrap();
    assert(!open.contains(w[m]));
    if m == w.len() - 1 {
        assert(w[m] == goal);
        assert(gs <= e.g);
    } else {
        let d = w[m + 1];
        assert(adjacent(w[m], d));
        assert(adjacent(d, w[m]));
        assert(map.in_bounds(d) && passable(map.tile_at(d)));
        assert(expansion_clause(s, gs, goal, e, d));
        match spec_find(s, d) {
            Some(de) => {
                if de.g <= e.g + 1 {
                    lemma_closed_walk(s, open, pq, gs, map, start, goal, w, m + 1);
                } else {
                    lemma_adjacent_seq_manhattan(w, m + 1);
                }
            },
            None => {
                lemma_adjacent_seq_manhattan(w, m + 1);
            },
        }
    }
}

/// What the search records about one node, relative to the whole table:
/// scores are consistent (`f = g + h`), costs are non-negative and bounded
/// by the table size, the start node is the unique root, and every other
/// node is a passable in-grid cell whose predecessor is adjacent, known to
/// the table, and strictly cheaper.
spec fn entry_ok(s: Seq<SearchEntry>, map: TileGrid, start: Coord, goal: Coord, e: SearchEntry) -> bool {
    &&& 0 <= e.g <= s.len() - 1
    &&& e.f == e.g + manhattan(e.coord, goal)
    &&& (e.coord == start ==> e.parent is None && e.g == 0)
    &&& (e.coord != start ==> map.in_bounds(e.coord) && passable(map.tile_at(e.coord))
        && e.parent is Some)
    &&& match e.parent {
        Some(p) => p != e.coord && adjacent(e.coord, p) && match spec_find(s, p) {
            Some(pe) => pe.g < e.g,
            None => false,
        },
        None => true,
    }
}

/// The start node is known, and every table entry is well formed.
spec fn table_entries_ok(s: Seq<SearchEntry>, map: TileGrid, start: Coord, goal: Coord) -> bool {
    &&& spec_find(s, start) is Some
    &&& forall|c: Coord|
        #![trigger spec_find(s, c)]
        match spec_find(s, c) {
            Some(e) => e.coord == c && entry_ok(s, map, start, goal, e),
            None => true,
        }
}

/// Table keys are distinct cells of the grid (plus possibly the start), so
/// the table can never outgrow the grid.
spec fn table_region_ok(s: Seq<SearchEntry>, map: TileGrid, start: Coord) -> bool {
    &&& table_keys(s).no_duplicates()
    &&& s.len() <= map.area() + 1
    &&& forall|k: int| 0 <= k < s.len()
        ==> (map.in_bounds(#[trigger] table_keys(s)[k]) || table_keys(s)[k] == start)
}

/// Total of all f-scores; part of the search's termination measure.
spec fn sum_f(s: Seq<SearchEntry>) -> int
    decreases s.len(),
{
    if s.len() == 0 {
        0
    } else {
        sum_f(s.drop_last()) + s.last().f
    }
}

proof fn lemma_sum_f_nonneg(s: Seq<SearchEntry>)
    requires
        forall|k: int| 0 <= k < s.len() ==> (#[trigger] s[k]).f >= 0,
    ensures
        sum_f(s) >= 0,
    decreases s.len(),
{
    if s.len() > 0 {
        lemma_sum_f_nonneg(s.drop_last());
    }
}

proof fn lemma_sum_f_update(s: Seq<SearchEntry>, i: int, e: SearchEntry)
    requires
        0 <= i < s.len(),
    ensures
        sum_f(s.update(i, e)) == sum_f(s) - s[i].f + e.f,
    decreases s.len(),
{
    let t = s.update(i, e);
    if i == s.len() - 1 {
        assert(t.drop_last() =~= s.drop_last());
        assert(t.last() == e);
    } else {
        assert(t.drop_last() =~= s.drop_last().update(i, e));
        assert(t.last() == s.last());
        lemma_sum_f_update(s.drop_last(), i, e);
    }
}

proof fn lemma_sum_f_push(s: Seq<SearchEntry>, e: SearchEntry)
    ensures
        sum_f(s.push(e)) == sum_f(s) + e.f,
{
    assert(s.push(e).drop_last() =~= s);
    assert(s.push(e).last() == e);
}

/// With distinct keys, every entry is what lookup of its key returns.
proof fn lemma_find_index_nodup(s: Seq<SearchEntry>, k: int)
    requires
        table_keys(s).no_duplicates(),
        0 <= k < s.len(),
    ensures
        spec_find(s, s[k].coord) == Some(s[k]),
    decreases k,
{
    if k > 0 {
        assert(table_keys(s)[0] != table_keys(s)[k]);
        assert(s[0].coord != s[k].coord);
        let t = s.skip(1);
        assert(table_keys(t) =~= table_keys(s).skip(1));
        assert forall|i: int, j: int| 0 <= i < j < table_keys(t).len()
            implies table_keys(t)[i] != table_keys(t)[j] by {
            assert(table_keys(s)[i + 1] != table_keys(s)[j + 1]);
        }
        lemma_find_index_nodup(t, k - 1);
        assert(t[k - 1] == s[k]);
    }
}

/// After recording a well-formed improving entry, every table entry is
/// still well formed.
proof fn lemma_entries_ok_after_put(
    s0: Seq<SearchEntry>,
    s1: Seq<SearchEntry>,
    map: TileGrid,
    start: Coord,
    goal: Coord,
    ne: SearchEntry,
)
    requires
        table_entries_ok(s0, map, start, goal),
        forall|d: Coord| #[trigger] spec_find(s1, d) == (if d == ne.coord {
            Some(ne)
        } else {
            spec_find(s0, d)
        }),
        s1.len() >= s0.len(),
        ne.coord != start,
        map.in_bounds(ne.coord),
        passable(map.tile_at(ne.coord)),
        0 <= ne.g <= s1.len() - 1,
        ne.f == ne.g + manhattan(ne.coord, goal),
        match ne.parent {
            Some(p) => p != ne.coord && adjacent(ne.coord, p) && match spec_find(s0, p) {
                Some(pe) => pe.g < ne.g,
                None => false,
            },
            None => false,
        },
        match spec_find(s0, ne.coord) {
            Some(oe) => ne.g < oe.g,
            None => true,
        },
    ensures
        table_entries_ok(s1, map, start, goal),
{
    assert(spec_find(s1, start) == spec_find(s0, start));
    assert forall|c: Coord|
        match #[trigger] spec_find(s1, c) {
            Some(e) => e.coord == c && entry_ok(s1, map, start, goal, e),
            None => true,
        } by {
        if c == ne.coord {
            assert(spec_find(s1, c) == Some(ne));
            let p = ne.parent.unwrap();
            assert(spec_find(s1, p) == spec_find(s0, p));
        } else {
            match spec_find(s0, c) {
                Some(e) => {
                    assert(entry_ok(s0, map, start, goal, e));
                    match e.parent {
                        Some(p) => {
                            if p == ne.coord {
                                let oe = spec_find(s0, ne.coord).unwrap();
                                assert(spec_find(s1, p) == Some(ne));
                                assert(ne.g < oe.g < e.g);
                            } else {
                                assert(spec_find(s1, p) == spec_find(s0, p));
                            }
                        },
                        None => {},
                    }
                },
                None => {},
            }
        }
    }
}

/// Whether the list holds the given position.
fn contains_coord(v: &Vec<Coord>, c: Coord) -> (r: bool)
    ensures
        r == v@.contains(c),
{
    let mut i: usize = 0;
    while i < v.len()
        invariant
            0 <= i <= v@.len(),
            forall|j: int| 0 <= j < i ==> v@[j] != c,
        decreases v@.len() - i,
    {
        if v[i].x == c.x && v[i].y == c.y {
            proof {
                assert(v@[i as int] == c);
            }
            return true;
        }
        i += 1;
    }
    false
}

/// A well-formed table satisfies the walk's termination conditions.
proof fn lemma_inv_implies_parents_wf(table: SearchTable, map: TileGrid, start: Coord, goal: Coord)
    requires
        table_entries_ok(table.entries@, map, start, goal),
    ensures
        parents_wf(table),
{
    assert forall|c: Coord|
        #![trigger spec_find(table.entries@, c)]
        match spec_find(table.entries@, c) {
            Some(e) => e.g >= 0 && match e.parent {
                Some(p) => match spec_find(table.entries@, p) {
                    Some(pe) => pe.g < e.g,
                    None => false,
                },
                None => true,
            },
            None => true,
        } by {
        if spec_find(table.entries@, c) is Some {
            assert(entry_ok(
                table.entries@,
                map,
                start,
                goal,
                spec_find(table.entries@, c).unwrap(),
            ));
        }
    }
}

/// The predecessor walk can only stop at the start node.
proof fn lemma_chain_last_is_start(
    table: SearchTable,
    map: TileGrid,
    start: Coord,
    goal: Coord,
    pp: Seq<Coord>,
)
    requires
        table_entries_ok(table.entries@, map, start, goal),
        spec_find(table.entries@, goal) is Some,
        pp.len() >= 1,
        pp[0] == goal,
        forall|i: int| 0 <= i < pp.len() - 1 ==> chain_step(table, #[trigger] pp[i], pp[i + 1]),
        chain_end(table, pp[pp.len() - 1]),
    ensures
        pp[pp.len() - 1] == start,
{
    let last = pp.len() - 1;
    if pp.len() >= 2 {
        assert(chain_step(table, pp[last - 1], pp[last]));
        let pe = spec_find(table.entries@, pp[last - 1]).unwrap();
        assert(entry_ok(table.entries@, map, start, goal, pe));
        let le = spec_find(table.entries@, pp[last]).unwrap();
        assert(entry_ok(table.entries@, map, start, goal, le));
        assert(le.parent is None);
    } else {
        let ge = spec_find(table.entries@, goal).unwrap();
        assert(entry_ok(table.entries@, map, start, goal, ge));
        assert(ge.parent is None);
    }
}

/// Every step of the walk is one orthogonal move, and every position but
/// the trailing start is a passable in-grid cell.
proof fn lemma_chain_steps_valid(
    table: SearchTable,
    map: TileGrid,
    start: Coord,
    goal: Coord,
    pp: Seq<Coord>,
)
    requires
        table_entries_ok(table.entries@, map, start, goal),
        pp.len() >= 1,
        pp[pp.len() - 1] == start,
        pp.no_duplicates(),
        forall|i: int| 0 <= i < pp.len() - 1 ==> chain_step(table, #[trigger] pp[i], pp[i + 1]),
    ensures
        forall|i: int| 0 <= i < pp.len() - 1
            ==> adjacent(#[trigger] pp[i], pp[i + 1]) && map.in_bounds(pp[i]) && passable(
                map.tile_at(pp[i]),
            ),
{
    assert forall|i: int| 0 <= i < pp.len() - 1 implies adjacent(#[trigger] pp[i], pp[i + 1])
        && map.in_bounds(pp[i]) && passable(map.tile_at(pp[i])) by {
        assert(chain_step(table, pp[i], pp[i + 1]));
        let e = spec_find(table.entries@, pp[i]).unwrap();
        assert(entry_ok(table.entries@, map, start, goal, e));
        assert(pp[i] != pp[pp.len() - 1]);
    }
}

/// A completed predecessor walk from a goal known to a well-formed table is
/// a valid route back to the start, visits no cell twice, and stays on the
/// grid except possibly at the start.
proof fn lemma_route_from_chain(
    table: SearchTable,
    map: TileGrid,
    start: Coord,
    goal: Coord,
    pp: Seq<Coord>,
)
    requires
        table_entries_ok(table.entries@, map, start, goal),
        spec_find(table.entries@, goal) is Some,
        pp.len() >= 1,
        pp[0] == goal,
        forall|i: int| 0 <= i < pp.len() - 1 ==> chain_step(table, #[trigger] pp[i], pp[i + 1]),
        chain_end(table, pp[pp.len() - 1]),
    ensures
        is_route(map, pp, start, goal),
        pp.no_duplicates(),
        forall|i: int| 0 <= i < pp.len() ==> map.in_bounds(#[trigger] pp[i]) || pp[i] == start,
        start == goal ==> pp == seq![start],
{
    lemma_inv_implies_parents_wf(table, map, start, goal);
    let last = pp.len() - 1;
    lemma_chain_distinct(table, pp);
    lemma_chain_last_is_start(table, map, start, goal, pp);
    lemma_chain_steps_valid(table, map, start, goal, pp);
    assert(is_route(map, pp, start, goal));
    assert forall|i: int| 0 <= i < pp.len()
        implies map.in_bounds(#[trigger] pp[i]) || pp[i] == start by {
        if i == pp.len() - 1 {
            assert(pp[i] == start);
        }
    }
    if start == goal {
        let ge = spec_find(table.entries@, goal).unwrap();
        assert(entry_ok(table.entries@, map, start, goal, ge));
        if pp.len() >= 2 {
            assert(chain_step(table, pp[0], pp[1]));
            assert(false);
        }
        assert(pp =~= seq![start]);
    }
}

/// An obstacle-free grid always carries an L-shaped route of exactly
/// Manhattan length between two of its cells.
pub proof fn lemma_straight_route_exists(map: TileGrid, start: Coord, goal: Coord)
    requires
        map.wf(),
        map.in_bounds(start),
        map.in_bounds(goal),
        forall|x: int, y: int| map.in_bounds_xy(x, y) ==> passable(#[trigger] map.tile_at_xy(
            x,
            y,
        )),
    ensures
        exists|q: Seq<Coord>|
            (#[trigger] is_route(map, q, start, goal)) && q.len() == manhattan(start, goal) + 1,
{
    let dx = dist1(start.x as int, goal.x as int);
    let dy = dist1(start.y as int, goal.y as int);
    let q = Seq::new(
        (dx + dy + 1) as nat,
        |i: int|
            if i <= dx {
                Coord {
                    x: (if start.x >= goal.x {
                        goal.x + i
                    } else {
                        goal.x - i
                    }) as i32,
                    y: goal.y,
                }
            } else {
                Coord {
                    x: start.x,
                    y: (if start.y >= goal.y {
                        goal.y + (i - dx)
                    } else {
                        goal.y - (i - dx)
                    }) as i32,
                }
            },
    );
    assert(q[0] == goal);
    assert(q[q.len() - 1] == start);
    assert forall|i: int| 0 <= i < q.len() - 1 implies adjacent(#[trigger] q[i], q[i + 1]) by {}
    assert forall|i: int| 0 <= i < q.len() - 1 implies map.in_bounds(#[trigger] q[i]) && passable(
        map.tile_at(q[i]),
    ) by {
        assert(map.in_bounds_xy(q[i].x as int, q[i].y as int));
    }
    assert(is_route(map, q, start, goal));
    assert(q.len() == manhattan(start, goal) + 1);
}

/// On an obstacle-free grid, a cost-optimal route has exactly as many edges
/// as the Manhattan distance between start and goal. `find_route`'s
/// contract supplies both route validity and cost optimality, so the routes
/// it returns on such grids have exactly Manhattan-distance many edges.
pub proof fn lemma_open_grid_route_is_manhattan(
    map: TileGrid,
    start: Coord,
    goal: Coord,
    p: Seq<Coord>,
)
    requires
        map.wf(),
        map.in_bounds(start),
        map.in_bounds(goal),
        forall|x: int, y: int| map.in_bounds_xy(x, y) ==> passable(#[trigger] map.tile_at_xy(
            x,
            y,
        )),
        is_route(map, p, start, goal),
        forall|q: Seq<Coord>| (#[trigger] is_route(map, q, start, goal)) ==> p.len() <= q.len(),
    ensures
        p.len() - 1 == manhattan(start, goal),
{
    lemma_route_edges_at_least_manhattan(map, p, start, goal);
    lemma_straight_route_exists(map, start, goal);
    let q = choose|q: Seq<Coord>|
        (#[trigger] is_route(map, q, start, goal)) && q.len() == manhattan(start, goal) + 1;
    assert(p.len() <= q.len());
}

/// Cost-optimal routes between a fixed start and goal all have the same
/// cost: whatever route each call of the pathfinder happens to return, its
/// edge count is an invariant of the grid, start and goal alone.
pub proof fn lemma_optimal_routes_equal_cost(
    map: TileGrid,
    start: Coord,
    goal: Coord,
    p1: Seq<Coord>,
    p2: Seq<Coord>,
)
    requires
        is_route(map, p1, start, goal),
        is_route(map, p2, start, goal),
        forall|q: Seq<Coord>| (#[trigger] is_route(map, q, start, goal)) ==> p1.len() <= q.len(),
        forall|q: Seq<Coord>| (#[trigger] is_route(map, q, start, goal)) ==> p2.len() <= q.len(),
    ensures
        p1.len() == p2.len(),
{
}

/// Popping a node - dropping one of its queue items, closing it, and
/// possibly lowering the goal bound - preserves the search bookkeeping,
/// except that the popped node still owes its neighbours their offers.
#[verifier::rlimit(100)]
proof fn lemma_inv_after_pop(
    s: Seq<SearchEntry>,
    open0: Seq<Coord>,
    open1: Seq<Coord>,
    pq_head: Seq<PQItem<Coord>>,
    pq_now: Seq<PQItem<Coord>>,
    gs0: i64,
    gs1: i64,
    map: TileGrid,
    start: Coord,
    goal: Coord,
    current: Coord,
)
    requires
        open_ok(s, open0, pq_head),
        expansion_ok_except(s, open0, gs0, map, goal, None::<Coord>),
        goal_score_ok(s, open0, gs0, goal),
        walks_covered(s, gs0, map, start, goal),
        gs1 <= gs0,
        open1.no_duplicates(),
        forall|d: Coord| #[trigger] open1.contains(d) <==> (open0.contains(d) && d != current),
        exists|j: int|
            0 <= j < pq_head.len() && (#[trigger] pq_head[j]).node == current && pq_now
                == pq_head.update(j, pq_head.last()).drop_last(),
        (if current == goal {
            spec_find(s, goal) matches Some(e) && gs1 == e.g
        } else {
            gs1 == gs0
        }),
    ensures
        open_ok(s, open1, pq_now),
        expansion_ok_except(s, open1, gs1, map, goal, Some(current)),
        goal_score_ok(s, open1, gs1, goal),
        walks_covered(s, gs1, map, start, goal),
{
    reveal(open_ok);
    reveal(expansion_ok_except);
    reveal(goal_score_ok);
    reveal(walks_covered);
    let j = choose|j: int|
        0 <= j < pq_head.len() && (#[trigger] pq_head[j]).node == current && pq_now
            == pq_head.update(j, pq_head.last()).drop_last();
    assert forall|c: Coord| #[trigger] open1.contains(c) implies pq_has(pq_now, c) && spec_find(
        s,
        c,
    ) is Some by {
        assert(open0.contains(c) && c != current);
        let i1 = choose|i: int| 0 <= i < pq_head.len() && (#[trigger] pq_head[i]).node == c;
        assert(i1 != j);
        if i1 == pq_head.len() - 1 {
            assert(pq_now[j].node == c);
        } else {
            assert(pq_now[i1].node == c);
        }
    }
    assert forall|c: Coord, d: Coord|
        #![trigger spec_find(s, c), spec_find(s, d)]
        spec_find(s, c) is Some && Some(c) != Some(current) && !open1.contains(c) && adjacent(
            d,
            c,
        ) && map.in_bounds(d) && passable(map.tile_at(d)) implies expansion_clause(
        s,
        gs1,
        goal,
        spec_find(s, c).unwrap(),
        d,
    ) by {
        assert(!open0.contains(c));
        assert(expansion_clause(s, gs0, goal, spec_find(s, c).unwrap(), d));
    }
    assert(goal_score_ok(s, open1, gs1, goal)) by {
        if current != goal {
            if !open1.contains(goal) && open0.contains(goal) {
                assert(goal == current);
            }
        }
    }
}

/// Recording an improving entry for a node that is (or just became) open
/// preserves the search bookkeeping.
#[verifier::rlimit(100)]
proof fn lemma_inv_after_insert(
    t_pre: Seq<SearchEntry>,
    t_new: Seq<SearchEntry>,
    open_pre: Seq<Coord>,
    open_new: Seq<Coord>,
    pq_pre: Seq<PQItem<Coord>>,
    pq_new: Seq<PQItem<Coord>>,
    gs: i64,
    map: TileGrid,
    start: Coord,
    goal: Coord,
    current: Coord,
    n: Coord,
    ne: SearchEntry,
)
    requires
        open_ok(t_pre, open_pre, pq_pre),
        expansion_ok_except(t_pre, open_pre, gs, map, goal, Some(current)),
        goal_score_ok(t_pre, open_pre, gs, goal),
        walks_covered(t_pre, gs, map, start, goal),
        forall|d: Coord| #[trigger] spec_find(t_new, d) == (if d == n {
            Some(ne)
        } else {
            spec_find(t_pre, d)
        }),
        ne.coord == n,
        (match spec_find(t_pre, n) {
            Some(oe) => ne.g < oe.g,
            None => true,
        }),
        n == goal ==> (gs == i64::MAX || ne.g <= gs),
        open_new == open_pre.push(n),
        !open_pre.contains(n),
        pq_new.len() == pq_pre.len() + 1,
        forall|i: int| 0 <= i < pq_pre.len() ==> pq_new[i] == pq_pre[i],
        pq_new[pq_new.len() - 1].node == n,
    ensures
        open_ok(t_new, open_new, pq_new),
        expansion_ok_except(t_new, open_new, gs, map, goal, Some(current)),
        goal_score_ok(t_new, open_new, gs, goal),
        walks_covered(t_new, gs, map, start, goal),
{
    reveal(open_ok);
    reveal(expansion_ok_except);
    reveal(goal_score_ok);
    reveal(walks_covered);
    assert(open_new[open_new.len() - 1] == n);
    assert forall|a: int, b: int| 0 <= a < b < open_new.len() implies open_new[a]
        != open_new[b] by {
        if b == open_new.len() - 1 {
            assert(open_new[a] == open_pre[a]);
            if open_new[a] == n {
                assert(open_pre.contains(n));
            }
        }
    }
    assert forall|c: Coord| #[trigger] open_new.contains(c) implies pq_has(pq_new, c)
        && spec_find(t_new, c) is Some by {
        if c == n {
            assert(pq_new[pq_new.len() - 1].node == n);
        } else {
            let t = choose|t: int| 0 <= t < open_new.len() && open_new[t] == c;
            assert(open_pre[t] == c);
            assert(open_pre.contains(c));
            let i1 = choose|i: int|
                0 <= i < pq_pre.len() && (#[trigger] pq_pre[i]).node == c;
            assert(pq_new[i1].node == c);
        }
    }
    assert forall|c: Coord, d: Coord|
        #![trigger spec_find(t_new, c), spec_find(t_new, d)]
        spec_find(t_new, c) is Some && Some(c) != Some(current) && !open_new.contains(c)
            && adjacent(d, c) && map.in_bounds(d) && passable(map.tile_at(d))
            implies expansion_clause(t_new, gs, goal, spec_find(t_new, c).unwrap(), d) by {
        assert(c != n) by {
            if c == n {
                assert(open_new.contains(n));
            }
        }
        assert(!open_pre.contains(c)) by {
            if open_pre.contains(c) {
                let t = choose|t: int| 0 <= t < open_pre.len() && open_pre[t] == c;
                assert(open_new[t] == c);
            }
        }
        let e = spec_find(t_new, c).unwrap();
        assert(spec_find(t_pre, c) == Some(e));
        assert(expansion_clause(t_pre, gs, goal, e, d));
        if d == n {
            match spec_find(t_pre, n) {
                Some(oe) => {
                    assert(ne.g < oe.g);
                },
                None => {},
            }
        } else {
            assert(spec_find(t_new, d) == spec_find(t_pre, d));
        }
    }
    assert(goal_score_ok(t_new, open_new, gs, goal)) by {
        if n == goal {
            assert(open_new.contains(goal));
        } else {
            assert(spec_find(t_new, goal) == spec_find(t_pre, goal));
            if open_pre.contains(goal) {
                let t = choose|t: int| 0 <= t < open_pre.len() && open_pre[t] == goal;
                assert(open_new[t] == goal);
            }
        }
    }
    assert(walks_covered(t_new, gs, map, start, goal)) by {
        assert forall|w: Seq<Coord>| #[trigger] is_walk(map, w, start, goal)
            implies gs <= w.len() - 1 || (exists|m: int|
            #![trigger spec_find(t_new, w[m])]
            0 <= m < w.len() && (match spec_find(t_new, w[m]) {
                Some(e) => e.g <= m,
                None => false,
            })) by {
            if !(gs <= w.len() - 1) {
                let m = choose|m: int|
                    #![trigger spec_find(t_pre, w[m])]
                    0 <= m < w.len() && (match spec_find(t_pre, w[m]) {
                        Some(e) => e.g <= m,
                        None => false,
                    });
                assert(match spec_find(t_new, w[m]) {
                    Some(e) => e.g <= m,
                    None => false,
                });
            }
        }
    }
}

/// Re-scoring a node in place with a lower cost preserves the search
/// bookkeeping, provided a re-scored closed node was already beaten by the
/// goal bound.
#[verifier::rlimit(100)]
proof fn lemma_inv_after_update(
    t_pre: Seq<SearchEntry>,
    t_new: Seq<SearchEntry>,
    open: Seq<Coord>,
    pq: Seq<PQItem<Coord>>,
    gs: i64,
    map: TileGrid,
    start: Coord,
    goal: Coord,
    current: Coord,
    n: Coord,
    ne: SearchEntry,
)
    requires
        open_ok(t_pre, open, pq),
        expansion_ok_except(t_pre, open, gs, map, goal, Some(current)),
        goal_score_ok(t_pre, open, gs, goal),
        walks_covered(t_pre, gs, map, start, goal),
        forall|d: Coord| #[trigger] spec_find(t_new, d) == (if d == n {
            Some(ne)
        } else {
            spec_find(t_pre, d)
        }),
        ne.coord == n,
        (match spec_find(t_pre, n) {
            Some(oe) => ne.g < oe.g,
            None => false,
        }),
        !open.contains(n) ==> gs <= ne.g + manhattan(n, goal),
        n == goal ==> (open.contains(n) && (gs == i64::MAX || ne.g <= gs)),
    ensures
        open_ok(t_new, open, pq),
        expansion_ok_except(t_new, open, gs, map, goal, Some(current)),
        goal_score_ok(t_new, open, gs, goal),
        walks_covered(t_new, gs, map, start, goal),
{
    reveal(open_ok);
    reveal(expansion_ok_except);
    reveal(goal_score_ok);
    reveal(walks_covered);
    assert forall|c: Coord| #[trigger] open.contains(c) implies pq_has(pq, c) && spec_find(
        t_new,
        c,
    ) is Some by {
        assert(spec_find(t_pre, c) is Some);
    }
    assert forall|c: Coord, d: Coord|
        #![trigger spec_find(t_new, c), spec_find(t_new, d)]
        spec_find(t_new, c) is Some && Some(c) != Some(current) && !open.contains(c) && adjacent(
            d,
            c,
        ) && map.in_bounds(d) && passable(map.tile_at(d)) implies expansion_clause(
        t_new,
        gs,
        goal,
        spec_find(t_new, c).unwrap(),
        d,
    ) by {
        let e = spec_find(t_new, c).unwrap();
        if c == n {
            assert(gs <= ne.g + manhattan(n, goal));
            assert(manhattan(n, goal) <= 1 + manhattan(d, goal));
        } else {
            assert(spec_find(t_pre, c) == Some(e));
            assert(expansion_clause(t_pre, gs, goal, e, d));
            if d == n {
                let oe = spec_find(t_pre, n).unwrap();
                assert(ne.g < oe.g);
            } else {
                assert(spec_find(t_new, d) == spec_find(t_pre, d));
            }
        }
    }
    assert(goal_score_ok(t_new, open, gs, goal)) by {
        if n != goal {
            assert(spec_find(t_new, goal) == spec_find(t_pre, goal));
        }
    }
    assert(walks_covered(t_new, gs, map, start, goal)) by {
        assert forall|w: Seq<Coord>| #[trigger] is_walk(map, w, start, goal)
            implies gs <= w.len() - 1 || (exists|m: int|
            #![trigger spec_find(t_new, w[m])]
            0 <= m < w.len() && (match spec_find(t_new, w[m]) {
                Some(e) => e.g <= m,
                None => false,
            })) by {
            if !(gs <= w.len() - 1) {
                let m = choose|m: int|
                    #![trigger spec_find(t_pre, w[m])]
                    0 <= m < w.len() && (match spec_find(t_pre, w[m]) {
                        Some(e) => e.g <= m,
                        None => false,
                    });
                assert(match spec_find(t_new, w[m]) {
                    Some(e) => e.g <= m,
                    None => false,
                });
            }
        }
    }
}

/// Manhattan-distance heuristic: admissible and consistent on a
/// uniform-cost four-directional grid.
fn heuristic(a: Coord, b: Coord) -> (r: i64)
    ensures
        r == manhattan(a, b),
        0 <= r <= 0x2_0000_0000,
{
    let dx = a.x as i64 - b.x as i64;
    let adx = if dx < 0 {
        -dx
    } else {
        dx
    };
    let dy = a.y as i64 - b.y as i64;
    let ady = if dy < 0 {
        -dy
    } else {
        dy
    };
    adx + ady
}

/// Best-first search from `start` to `goal` over the grid's passable cells,
/// with unit edge cost and the Manhattan heuristic. Finding the goal does
/// not stop the search: it keeps refining until no queued node could still
/// beat the best known goal cost.
///
/// A returned route is ordered goal-first, start-last, moves one orthogonal
/// step at a time over passable in-grid cells, and never visits a cell
/// twice. The search is complete and optimal: whenever any route exists,
/// one is returned, and no route anywhere in the grid has fewer edges than
/// the returned one. A goal walled off behind impassable cells is reported
/// as unreachable.
#[verifier::rlimit(100)]
pub fn find_route(map: &TileGrid, start: Coord, goal: Coord) -> (r: Option<Vec<Coord>>)
    requires
        map.wf(),
    ensures
        (match r {
            Some(p) => {
                &&& is_route(*map, p@, start, goal)
                &&& p@.no_duplicates()
                &&& p@.len() - 1 >= manhattan(start, goal)
                &&& p@.len() <= map.area() + 1
                &&& forall|i: int| 0 <= i < p@.len()
                    ==> map.in_bounds(#[trigger] p@[i]) || p@[i] == start
            },
            None => true,
        }),
        start == goal ==> (r matches Some(p) && p@ == seq![start]),
        (start != goal && !adjacent(start, goal) && (forall|c: Coord|
            adjacent(c, goal) ==> !(map.in_bounds(c) && passable(map.tile_at(c))))) ==> r is None,
        forall|q: Seq<Coord>|
            (#[trigger] is_route(*map, q, start, goal)) && q.len() <= map.area() + 1 ==> r
                is Some,
        (r matches Some(p) ==> forall|q: Seq<Coord>|
            (#[trigger] is_route(*map, q, start, goal)) ==> p@.len() <= q.len()),
{
    proof {
        assert(map.area() <= 0x3fff_ffff_0000_0001 && map.area() >= 0) by (nonlinear_arith)
            requires
                0 <= map.width <= 0x7fff_ffff,
                0 <= map.height <= 0x7fff_ffff,
                map.area() == map.width * map.height,
        ;
    }
    let mut open_set: Vec<Coord> = Vec::new();
    open_set.push(start);

    let mut table = SearchTable::new();
    let start_h = heuristic(start, goal);
    table.put(SearchEntry { coord: start, g: 0, f: start_h, parent: None });

    let mut pq: Vec<PQItem<Coord>> = Vec::new();
    pq.push(PQItem::new(start, start_h));

    let mut goal_score: i64 = i64::MAX;

    proof {
        assert(table_keys(table.entries@)[0] == start);
        assert(pq@[0].node == start);
        lemma_sum_f_push(Seq::<SearchEntry>::empty(), table.entries@[0]);
        assert(table.entries@ =~= Seq::<SearchEntry>::empty().push(table.entries@[0]));
        reveal(open_ok);
        reveal(expansion_ok_except);
        reveal(goal_score_ok);
        reveal(walks_covered);
        assert(open_set@[0] == start);
        assert(open_set@.no_duplicates());
        assert forall|c: Coord| #[trigger] open_set@.contains(c) implies pq_has(pq@, c)
            && spec_find(table.entries@, c) is Some by {
            assert(c == start);
            assert(pq@[0].node == c);
        }
        assert(goal_score_ok(table.entries@, open_set@, goal_score, goal)) by {
            if start == goal {
                assert(open_set@.contains(goal));
            }
        }
        assert(walks_covered(table.entries@, goal_score, *map, start, goal)) by {
            assert forall|w: Seq<Coord>| #[trigger] is_walk(*map, w, start, goal)
                implies goal_score <= w.len() - 1 || (exists|m: int|
                #![trigger spec_find(table.entries@, w[m])]
                0 <= m < w.len() && (match spec_find(table.entries@, w[m]) {
                    Some(e) => e.g <= m,
                    None => false,
                })) by {
                assert(w[0] == start);
                assert(spec_find(table.entries@, w[0]) is Some);
                assert(spec_find(table.entries@, w[0]).unwrap().g <= 0);
            }
        }
        assert(expansion_ok_except(
            table.entries@,
            open_set@,
            goal_score,
            *map,
            goal,
            None::<Coord>,
        )) by {
            assert forall|c: Coord|
                spec_find(table.entries@, c) is Some implies #[trigger] open_set@.contains(c) by {
                assert(c == start);
                assert(open_set@[0] == start);
            }
        }
    }

    while pq.len() > 0
        invariant
            map.wf(),
            0 <= map.area() <= 0x3fff_ffff_0000_0001,
            table_entries_ok(table.entries@, *map, start, goal),
            table_region_ok(table.entries@, *map, start),
            sum_f(table.entries@) >= 0,
            forall|i: int| 0 <= i < pq@.len()
                ==> spec_find(table.entries@, (#[trigger] pq@[i]).node) is Some,
            goal_score == i64::MAX || (spec_find(table.entries@, goal) is Some && 0 <= goal_score
                < i64::MAX),
            start == goal ==> (goal_score == 0 || exists|i: int|
                0 <= i < pq@.len() && (#[trigger] pq@[i]).node == start),
            open_ok(table.entries@, open_set@, pq@),
            expansion_ok_except(table.entries@, open_set@, goal_score, *map, goal, None::<Coord>),
            goal_score_ok(table.entries@, open_set@, goal_score, goal),
            walks_covered(table.entries@, goal_score, *map, start, goal),
        decreases
                map.area() + 1 - table.entries@.len(),
                sum_f(table.entries@),
                pq@.len(),
    {
        let ghost pq_head = pq@;
        let item = pop_min(&mut pq);
        let current = item.node;
        let copt = table.get(current);
        proof {
            let j = choose|j: int|
                0 <= j < pq_head.len() && pq_head[j] == item && pq@ == pq_head.update(
                    j,
                    pq_head.last(),
                ).drop_last();
            assert(spec_find(table.entries@, pq_head[j].node) is Some);
            assert forall|i: int| 0 <= i < pq@.len()
                implies spec_find(table.entries@, (#[trigger] pq@[i]).node) is Some by {
                if i == j {
                    assert(pq@[i] == pq_head[pq_head.len() - 1]);
                } else {
                    assert(pq@[i] == pq_head[i]);
                }
            }
        }
        if let Some(centry) = copt {
            let current_g = centry.g;
            let ghost gs0 = goal_score;
            if current == goal {
                goal_score = current_g;
            }
            proof {
                // the best goal cost never rises
                assert(goal_score <= gs0) by {
                    reveal(goal_score_ok);
                    if current == goal {
                        assert(spec_find(table.entries@, goal) == Some(centry));
                        assert(entry_ok(table.entries@, *map, start, goal, centry));
                    }
                }
                // the start-item disjunct survives the pop
                if start == goal && goal_score != 0 {
                    let j = choose|j: int|
                        0 <= j < pq_head.len() && pq_head[j] == item && pq@ == pq_head.update(
                            j,
                            pq_head.last(),
                        ).drop_last();
                    assert(current != start);
                    let i0 = choose|i: int| 0 <= i < pq_head.len() && pq_head[i].node == start;
                    assert(i0 != j);
                    if i0 == pq_head.len() - 1 {
                        assert(pq@[j].node == start);
                    } else {
                        assert(pq@[i0].node == start);
                    }
                }
            }
            let ghost open0 = open_set@;
            proof {
                assert(open_set@.no_duplicates()) by {
                    reveal(open_ok);
                }
            }
            remove_coord(&mut open_set, current);
            let neighbours = map.neighbours(current);
            let ghost e0 = table.entries@;
            let ghost p0 = pq@.len();
            proof {
                let j0 = choose|j: int|
                    0 <= j < pq_head.len() && pq_head[j] == item && pq@ == pq_head.update(
                        j,
                        pq_head.last(),
                    ).drop_last();
                assert(pq_head[j0].node == current && pq@ == pq_head.update(
                    j0,
                    pq_head.last(),
                ).drop_last());
                if current == goal {
                    assert(spec_find(table.entries@, goal) == Some(centry));
                }
                lemma_inv_after_pop(
                    table.entries@,
                    open0,
                    open_set@,
                    pq_head,
                    pq@,
                    gs0,
                    goal_score,
                    *map,
                    start,
                    goal,
                    current,
                );
                // every passable neighbour of the current node awaits its offer
                assert forall|d: Coord|
                    #![trigger map.tile_at(d)]
                    adjacent(d, current) && map.in_bounds(d) && passable(map.tile_at(d))
                        implies (expansion_clause(table.entries@, goal_score, goal, centry, d)
                        || (exists|t: int|
                        #![trigger neighbours@[t]]
                        0 <= t < neighbours@.len() && neighbours@[t] == d)) by {
                    assert(neighbours@.contains(d));
                    let t = choose|t: int| 0 <= t < neighbours@.len() && neighbours@[t] == d;
                    assert(0 <= t < neighbours@.len() && neighbours@[t] == d);
                }
            }
            let mut k: usize = 0;
            while k < neighbours.len()
                invariant
                    map.wf(),
                    0 <= map.area() <= 0x3fff_ffff_0000_0001,
                    table_entries_ok(table.entries@, *map, start, goal),
                    table_region_ok(table.entries@, *map, start),
                    sum_f(table.entries@) >= 0,
                    forall|i: int| 0 <= i < pq@.len()
                        ==> spec_find(table.entries@, (#[trigger] pq@[i]).node) is Some,
                    goal_score == i64::MAX || (spec_find(table.entries@, goal) is Some && 0
                        <= goal_score < i64::MAX),
                    start == goal ==> (goal_score == 0 || exists|i: int|
                        0 <= i < pq@.len() && (#[trigger] pq@[i]).node == start),
                    0 <= k <= neighbours@.len(),
                    forall|t: int| 0 <= t < neighbours@.len()
                        ==> adjacent(#[trigger] neighbours@[t], current) && map.in_bounds(
                            neighbours@[t],
                        ) && passable(map.tile_at(neighbours@[t])),
                    spec_find(table.entries@, current) == Some(centry),
                    current_g == centry.g,
                    (table.entries@ == e0 && pq@.len() == p0) || (table.entries@.len() == e0.len()
                        && sum_f(table.entries@) < sum_f(e0)) || table.entries@.len() > e0.len(),
                    open_ok(table.entries@, open_set@, pq@),
                    expansion_ok_except(
                        table.entries@,
                        open_set@,
                        goal_score,
                        *map,
                        goal,
                        Some(current),
                    ),
                    goal_score_ok(table.entries@, open_set@, goal_score, goal),
                    walks_covered(table.entries@, goal_score, *map, start, goal),
                    forall|d: Coord|
                        #![trigger map.tile_at(d)]
                        adjacent(d, current) && map.in_bounds(d) && passable(map.tile_at(d))
                            ==> (expansion_clause(table.entries@, goal_score, goal, centry, d)
                            || (exists|t: int|
                            #![trigger neighbours@[t]]
                            k <= t < neighbours@.len() && neighbours@[t] == d)),
                decreases neighbours@.len() - k,
            {
                let n = neighbours[k];
                let tentative: i64 = current_g + 1;
                let h_n = heuristic(n, goal);
                let f: i64 = tentative + h_n;
                let n_entry = table.get(n);
                let interesting = match n_entry {
                    None => true,
                    Some(e) => f < e.f,
                };
                let in_open = contains_coord(&open_set, n);
                proof {
                    assert(n != current);
                    if n == start {
                        let se = spec_find(table.entries@, start).unwrap();
                        assert(se.g == 0 && se.f == manhattan(start, goal));
                    }
                }
                if !in_open && interesting && f < goal_score {
                    let ghost pq_before_push = pq@;
                    let ghost open_pre = open_set@;
                    open_set.push(n);
                    pq.push(PQItem::new(n, f));
                    let ghost t_pre = table.entries@;
                    let ghost pq_pre = pq@;
                    let ne = SearchEntry { coord: n, g: tentative, f, parent: Some(current) };
                    table.put(ne);
                    proof {
                        assert(n != start);
                        match spec_find(t_pre, n) {
                            Some(oe) => {
                                assert(oe.g + manhattan(n, goal) == oe.f);
                                assert(ne.g < oe.g);
                                let i = choose|i: int|
                                    0 <= i < t_pre.len() && t_pre[i].coord == n && table.entries@
                                        == t_pre.update(i, ne);
                                lemma_find_index_nodup(t_pre, i);
                                lemma_sum_f_update(t_pre, i, ne);
                            },
                            None => {
                                lemma_find_none_iff(t_pre, n);
                                lemma_distinct_coords_bound(
                                    table_keys(table.entries@),
                                    map.width as int,
                                    map.height as int,
                                    start,
                                );
                                lemma_sum_f_push(t_pre, ne);
                            },
                        }
                        lemma_entries_ok_after_put(t_pre, table.entries@, *map, start, goal, ne);
                        assert forall|t: int| 0 <= t < table.entries@.len()
                            implies (#[trigger] table.entries@[t]).f >= 0 by {
                            lemma_find_index_nodup(table.entries@, t);
                        }
                        lemma_sum_f_nonneg(table.entries@);
                        assert forall|i: int| 0 <= i < pq@.len()
                            implies spec_find(table.entries@, (#[trigger] pq@[i]).node)
                                is Some by {
                            if i < pq_pre.len() - 1 {
                                assert(pq@[i] == pq_pre[i]);
                            }
                        }
                        if start == goal && goal_score != 0 {
                            let i0 = choose|i: int|
                                0 <= i < pq_before_push.len() && pq_before_push[i].node == start;
                            assert(pq@[i0].node == start);
                        }
                        lemma_inv_after_insert(
                            t_pre,
                            table.entries@,
                            open_pre,
                            open_set@,
                            pq_before_push,
                            pq@,
                            goal_score,
                            *map,
                            start,
                            goal,
                            current,
                            n,
                            ne,
                        );
                        // the current node's pending offers
                        assert forall|d: Coord|
                            #![trigger map.tile_at(d)]
                            adjacent(d, current) && map.in_bounds(d) && passable(map.tile_at(d))
                                implies (expansion_clause(
                                table.entries@,
                                goal_score,
                                goal,
                                centry,
                                d,
                            ) || (exists|t: int|
                                #![trigger neighbours@[t]]
                                k + 1 <= t < neighbours@.len() && neighbours@[t] == d)) by {
                            if d == n {
                                assert(spec_find(table.entries@, n) == Some(ne));
                            } else {
                                assert(spec_find(table.entries@, d) == spec_find(t_pre, d));
                                if exists|t: int|
                                    #![trigger neighbours@[t]]
                                    k <= t < neighbours@.len() && neighbours@[t] == d {
                                    let t = choose|t: int|
                                        #![trigger neighbours@[t]]
                                        k <= t < neighbours@.len() && neighbours@[t] == d;
                                    assert(t != k);
                                    assert(k + 1 <= t < neighbours@.len() && neighbours@[t] == d);
                                }
                            }
                        }
                    }
                } else {
                    let old_g = match n_entry {
                        None => 0,
                        Some(e) => e.g,
                    };
                    if tentative < old_g {
                        let ghost t_pre = table.entries@;
                        let ne = SearchEntry { coord: n, g: tentative, f, parent: Some(current) };
                        table.put(ne);
                        proof {
                            assert(n != start);
                            let oe = spec_find(t_pre, n).unwrap();
                            assert(oe.g + manhattan(n, goal) == oe.f);
                            let i = choose|i: int|
                                0 <= i < t_pre.len() && t_pre[i].coord == n && table.entries@
                                    == t_pre.update(i, ne);
                            lemma_find_index_nodup(t_pre, i);
                            lemma_sum_f_update(t_pre, i, ne);
                            lemma_entries_ok_after_put(
                                t_pre,
                                table.entries@,
                                *map,
                                start,
                                goal,
                                ne,
                            );
                            assert forall|t: int| 0 <= t < table.entries@.len()
                                implies (#[trigger] table.entries@[t]).f >= 0 by {
                                lemma_find_index_nodup(table.entries@, t);
                            }
                            lemma_sum_f_nonneg(table.entries@);
                            // a closed node is improved only when the goal bound beat it
                            if !in_open {
                                assert(f >= goal_score);
                            }
                            if n == goal {
                                assert(manhattan(goal, goal) == 0);
                                if !in_open {
                                    assert(goal_score <= f);
                                    assert(false) by {
                                        reveal(goal_score_ok);
                                        assert(entry_ok(t_pre, *map, start, goal, centry));
                                    }
                                }
                                assert(open_set@.contains(goal));
                                assert(goal_score == i64::MAX || ne.g <= goal_score) by {
                                    reveal(goal_score_ok);
                                }
                            }
                            lemma_inv_after_update(
                                t_pre,
                                table.entries@,
                                open_set@,
                                pq@,
                                goal_score,
                                *map,
                                start,
                                goal,
                                current,
                                n,
                                ne,
                            );
                            assert forall|d: Coord|
                                #![trigger map.tile_at(d)]
                                adjacent(d, current) && map.in_bounds(d) && passable(
                                    map.tile_at(d),
                                ) implies (expansion_clause(
                                table.entries@,
                                goal_score,
                                goal,
                                centry,
                                d,
                            ) || (exists|t: int|
                                #![trigger neighbours@[t]]
                                k + 1 <= t < neighbours@.len() && neighbours@[t] == d)) by {
                                if d == n {
                                    assert(spec_find(table.entries@, n) == Some(ne));
                                } else {
                                    assert(spec_find(table.entries@, d) == spec_find(t_pre, d));
                                    if exists|t: int|
                                        #![trigger neighbours@[t]]
                                        k <= t < neighbours@.len() && neighbours@[t] == d {
                                        let t = choose|t: int|
                                            #![trigger neighbours@[t]]
                                            k <= t < neighbours@.len() && neighbours@[t] == d;
                                        assert(t != k);
                                        assert(k + 1 <= t < neighbours@.len() && neighbours@[t]
                                            == d);
                                    }
                                }
                            }
                        }
                    } else {
                        proof {
                            // nothing changed; only the current node's offer to `n`
                            // must be recorded as made
                            assert(expansion_clause(table.entries@, goal_score, goal, centry, n))
                                by {
                                match spec_find(table.entries@, n) {
                                    Some(e2) => {
                                        assert(e2.g == old_g);
                                    },
                                    None => {
                                        assert(!in_open) by {
                                            reveal(open_ok);
                                            if in_open {
                                                assert(spec_find(table.entries@, n) is Some);
                                            }
                                        }
                                        assert(f >= goal_score);
                                    },
                                }
                            }
                            assert forall|d: Coord|
                                #![trigger map.tile_at(d)]
                                adjacent(d, current) && map.in_bounds(d) && passable(
                                    map.tile_at(d),
                                ) implies (expansion_clause(
                                table.entries@,
                                goal_score,
                                goal,
                                centry,
                                d,
                            ) || (exists|t: int|
                                #![trigger neighbours@[t]]
                                k + 1 <= t < neighbours@.len() && neighbours@[t] == d)) by {
                                if d != n {
                                    if exists|t: int|
                                        #![trigger neighbours@[t]]
                                        k <= t < neighbours@.len() && neighbours@[t] == d {
                                        let t = choose|t: int|
                                            #![trigger neighbours@[t]]
                                            k <= t < neighbours@.len() && neighbours@[t] == d;
                                        assert(t != k);
                                        assert(k + 1 <= t < neighbours@.len() && neighbours@[t]
                                            == d);
                                    }
                                }
                            }
                        }
                    }
                }
                k += 1;
            }
            proof {
                reveal(expansion_ok_except);
                // the current node has now made all of its offers
                assert(expansion_ok_except(
                    table.entries@,
                    open_set@,
                    goal_score,
                    *map,
                    goal,
                    None::<Coord>,
                )) by {
                    assert forall|c: Coord, d: Coord|
                        #![trigger spec_find(table.entries@, c), spec_find(table.entries@, d)]
                        spec_find(table.entries@, c) is Some && !open_set@.contains(c) && adjacent(
                            d,
                            c,
                        ) && map.in_bounds(d) && passable(map.tile_at(d))
                            implies expansion_clause(
                        table.entries@,
                        goal_score,
                        goal,
                        spec_find(table.entries@, c).unwrap(),
                        d,
                    ) by {
                        if c == current {
                            assert(spec_find(table.entries@, current) == Some(centry));
                            assert(expansion_clause(table.entries@, goal_score, goal, centry, d));
                        }
                    }
                }
            }
        } else {
            proof {
                assert(false);
            }
        }
    }
    proof {
        reveal(walks_covered);
        // the queue is drained: the best goal cost beats every route
        assert forall|q: Seq<Coord>| #[trigger] is_route(*map, q, start, goal)
            implies goal_score <= q.len() - 1 by {
            lemma_route_reversed_is_walk(*map, q, start, goal);
            let w = q.reverse();
            if !(goal_score <= w.len() - 1) {
                let m = choose|m: int|
                    #![trigger spec_find(table.entries@, w[m])]
                    0 <= m < w.len() && (match spec_find(table.entries@, w[m]) {
                        Some(e) => e.g <= m,
                        None => false,
                    });
                lemma_closed_walk(
                    table.entries@,
                    open_set@,
                    pq@,
                    goal_score,
                    *map,
                    start,
                    goal,
                    w,
                    m,
                );
            }
        }
    }
    if goal_score == i64::MAX {
        None
    } else {
        proof {
            lemma_inv_implies_parents_wf(table, *map, start, goal);
        }
        let p = reconstruct_path(&table, goal);
        proof {
            lemma_route_from_chain(table, *map, start, goal, p@);
            lemma_route_edges_at_least_manhattan(*map, p@, start, goal);
            lemma_distinct_coords_bound(p@, map.width as int, map.height as int, start);
            if start != goal && !adjacent(start, goal) && (forall|c: Coord|
                adjacent(c, goal) ==> !(map.in_bounds(c) && passable(map.tile_at(c)))) {
                lemma_enclosed_goal_unreachable(*map, p@, start, goal);
            }
            // the returned route is optimal: its edge count is at most the
            // goal's recorded cost, which beats every route
            assert(p@.len() - 1 <= goal_score) by {
                reveal(goal_score_ok);
                let ge = spec_find(table.entries@, goal).unwrap();
                if p@.len() >= 2 {
                    lemma_chain_g(table, p@, 0, p@.len() - 1);
                    assert(spec_find(table.entries@, p@[p@.len() - 1]).unwrap().g >= 0);
                }
                assert(ge.g <= goal_score);
            }
        }
        Some(p)
    }
}

/// Drop the first occurrence of `c`, if any.
fn remove_coord(v: &mut Vec<Coord>, c: Coord)
    requires
        old(v)@.no_duplicates(),
    ensures
        final(v)@.no_duplicates(),
        forall|d: Coord| final(v)@.contains(d) <==> (old(v)@.contains(d) && d != c),
{
    let mut i: usize = 0;
    while i < v.len()
        invariant
            0 <= i <= v@.len(),
            v@ == old(v)@,
            v@.no_duplicates(),
            forall|j: int| 0 <= j < i ==> v@[j] != c,
        decreases v@.len() - i,
    {
        if v[i].x == c.x && v[i].y == c.y {
            proof {
                assert(v@[i as int] == c);
            }
            let _ = v.swap_remove(i);
            proof {
                assert forall|d: Coord| v@.contains(d) implies (old(v)@.contains(d) && d != c) by {
                    let t = choose|t: int| 0 <= t < v@.len() && v@[t] == d;
                    if t == i {
                        assert(old(v)@[old(v)@.len() - 1] == d);
                    } else {
                        assert(old(v)@[t] == d);
                    }
                }
                assert forall|d: Coord| old(v)@.contains(d) && d != c implies v@.contains(d) by {
                    let t = choose|t: int| 0 <= t < old(v)@.len() && old(v)@[t] == d;
                    if t == old(v)@.len() - 1 {
                        if t != i {
                            assert(v@[i as int] == d);
                        }
                    } else {
                        if t != i {
                            assert(v@[t] == d);
                        }
                    }
                }
                assert forall|a: int, b: int| 0 <= a < b < v@.len() implies v@[a] != v@[b] by {
                    let n = old(v)@.len() - 1;
                    assert(v@[a] == (if a == i { old(v)@[n] } else { old(v)@[a] }));
                    assert(v@[b] == (if b == i { old(v)@[n] } else { old(v)@[b] }));
                }
            }
            return ;
        }
        i += 1;
    }
    proof {
        assert forall|d: Coord| v@.contains(d) implies (old(v)@.contains(d) && d != c) by {
            let t = choose|t: int| 0 <= t < v@.len() && v@[t] == d;
        }
    }
}

} // verus!
