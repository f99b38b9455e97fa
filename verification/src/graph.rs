use vstd::prelude::*;

use crate::point::Point;
use crate::point::cardinal_adjacent;
use crate::point::east_of;
use crate::point::north_of;
use crate::point::south_of;
use crate::point::west_of;

verus! {

// ---------------------------------------------------------------------------
// The textual grid
// ---------------------------------------------------------------------------

/// The three cell symbols that can be walked on; every other character is a
/// wall.
pub open spec fn is_open_char(c: char) -> bool {
    c == '.' || c == 'S' || c == 'E'
}

/// A grid of rows of characters, as the mathematical view of `Vec<Vec<char>>`.
pub open spec fn grid_of(rows: Seq<Vec<char>>) -> Seq<Seq<char>> {
    rows.map_values(|r: Vec<char>| r@)
}

/// Cell (x, y) exists in the grid and can be walked on.
pub open spec fn traversable_at(g: Seq<Seq<char>>, x: int, y: int) -> bool {
    0 <= y < g.len() && 0 <= x < g[y].len() && is_open_char(g[y][x])
}

/// Cell (x, y) exists in the grid and is a wall.
pub open spec fn wall_at(g: Seq<Seq<char>>, x: int, y: int) -> bool {
    0 <= y < g.len() && 0 <= x < g[y].len() && !is_open_char(g[y][x])
}

/// How many of the first `x` characters of `row` equal `c`.
pub open spec fn count_in_row(row: Seq<char>, c: char, x: int) -> nat
    decreases x,
{
    if x <= 0 || x > row.len() {
        0
    } else {
        count_in_row(row, c, x - 1) + (if row[x - 1] == c {
            1nat
        } else {
            0nat
        })
    }
}

/// How many cells of the first `y` rows of the grid equal `c`.
pub open spec fn count_upto(g: Seq<Seq<char>>, c: char, y: int) -> nat
    decreases y,
{
    if y <= 0 || y > g.len() {
        0
    } else {
        count_upto(g, c, y - 1) + count_in_row(g[y - 1], c, g[y - 1].len() as int)
    }
}

/// How many cells of the whole grid equal `c`.
pub open spec fn count_char(g: Seq<Seq<char>>, c: char) -> nat {
    count_upto(g, c, g.len() as int)
}

/// The longest row length among the first `y` rows.
pub open spec fn max_row_len_upto(g: Seq<Seq<char>>, y: int) -> nat
    decreases y,
{
    if y <= 0 || y > g.len() {
        0
    } else {
        let prev = max_row_len_upto(g, y - 1);
        if g[y - 1].len() > prev {
            g[y - 1].len()
        } else {
            prev
        }
    }
}

/// The x bound of the grid: the length of its longest row.
pub open spec fn max_row_len(g: Seq<Seq<char>>) -> nat {
    max_row_len_upto(g, g.len() as int)
}

/// The reason a grid was rejected, checked in this order: an empty grid, a
/// duplicated or missing start marker, a duplicated or missing end marker.
pub open spec fn grid_fault(g: Seq<Seq<char>>) -> Option<MalformedGridError> {
    if g.len() == 0 {
        Some(MalformedGridError::EmptyGrid)
    } else if count_char(g, 'S') > 1 {
        Some(MalformedGridError::MultipleStart)
    } else if count_char(g, 'S') == 0 {
        Some(MalformedGridError::MissingStart)
    } else if count_char(g, 'E') > 1 {
        Some(MalformedGridError::MultipleEnd)
    } else if count_char(g, 'E') == 0 {
        Some(MalformedGridError::MissingEnd)
    } else {
        None
    }
}

/// The grid could not be turned into a graph: it is empty, or does not carry
/// exactly one start marker and exactly one end marker.
#[derive(Debug, Clone, Copy, PartialEq, Eq, Structural)]
pub enum MalformedGridError {
    EmptyGrid,
    MultipleStart,
    MissingStart,
    MultipleEnd,
    MissingEnd,
}

/// Path reconstruction was asked for before a successful shortest-path query:
/// the end cell has no recorded cost.
#[derive(Debug, Clone, Copy, PartialEq, Eq, Structural)]
pub struct UnreachableEndError;

// ---------------------------------------------------------------------------
// Paths over an adjacency structure
// ---------------------------------------------------------------------------

/// Every neighbor index stored in the adjacency rows is itself a valid node
/// index.
pub open spec fn wf_adjacency(adj: Seq<Seq<usize>>, n: int) -> bool {
    &&& adj.len() == n
    &&& forall|i: int, k: int|
        0 <= i < adj.len() && 0 <= k < adj[i].len() ==> (#[trigger] adj[i][k]) < n
}

/// Node `w` appears in the neighbor list of node `u`.
pub open spec fn has_edge(adj: Seq<Seq<usize>>, u: int, w: int) -> bool {
    &&& 0 <= u < adj.len()
    &&& exists|k: int| 0 <= k < adj[u].len() && (#[trigger] adj[u][k]) as int == w
}

/// A walk through the graph: a non-empty sequence of node indices in which
/// every consecutive pair is an edge.
pub open spec fn is_path(adj: Seq<Seq<usize>>, p: Seq<int>) -> bool {
    &&& p.len() >= 1
    &&& (forall|i: int| 0 <= i < p.len() ==> 0 <= #[trigger] p[i] < adj.len())
    &&& (forall|i: int| 0 <= i < p.len() - 1 ==> has_edge(adj, #[trigger] p[i], p[i + 1]))
}

/// A walk that starts at `s` and ends at `t`.
pub open spec fn connects(adj: Seq<Seq<usize>>, p: Seq<int>, s: int, t: int) -> bool {
    &&& is_path(adj, p)
    &&& p[0] == s
    &&& p[p.len() - 1] == t
}

/// Some walk of exactly `c` steps leads from `s` to `t`.
#[verifier::opaque]
pub open spec fn has_dist(adj: Seq<Seq<usize>>, s: int, t: int, c: nat) -> bool {
    exists|p: Seq<int>| connects(adj, p, s, t) && p.len() == c + 1
}

/// `c` is the true distance from `s` to `t`: some walk of `c` steps reaches
/// `t`, and no shorter walk does.
#[verifier::opaque]
pub open spec fn is_min_dist(adj: Seq<Seq<usize>>, s: int, t: int, c: nat) -> bool {
    &&& has_dist(adj, s, t, c)
    &&& forall|k: nat| k < c ==> !has_dist(adj, s, t, k)
}

/// Some walk leads from `s` to `t`.
pub open spec fn reachable(adj: Seq<Seq<usize>>, s: int, t: int) -> bool {
    exists|c: nat| has_dist(adj, s, t, c)
}

/// For a fixed graph there is exactly one true distance between two nodes:
/// any two costs that `is_min_dist` accepts are equal. With the engine's
/// contract this pins the cost: two runs over the same graph return the same
/// answer.
pub proof fn lemma_min_dist_unique(adj: Seq<Seq<usize>>, s: int, t: int, c1: nat, c2: nat)
    requires
        is_min_dist(adj, s, t, c1),
        is_min_dist(adj, s, t, c2),
    ensures
        c1 == c2,
{
    reveal(is_min_dist);
    if c1 < c2 {
        assert(has_dist(adj, s, t, c1));
        assert(!has_dist(adj, s, t, c1));
    }
    if c2 < c1 {
        assert(has_dist(adj, s, t, c2));
        assert(!has_dist(adj, s, t, c2));
    }
}

/// The degenerate query: when start and end are the same node, the true
/// distance is zero, so the engine owes `Some(0)` and the reconstructed
/// route is the single start cell.
pub proof fn lemma_degenerate_distance(adj: Seq<Seq<usize>>, s: int)
    requires
        0 <= s < adj.len(),
    ensures
        is_min_dist(adj, s, s, 0),
{
    reveal(is_min_dist);
    lemma_self_dist(adj, s);
}

/// The traversable cardinal neighbors of `p`, in the fixed order north, east,
/// south, west.
pub open spec fn spec_neighbors(nodes: Seq<Point>, p: Point) -> Seq<Point> {
    (if nodes.contains(north_of(p)) {
        seq![north_of(p)]
    } else {
        Seq::<Point>::empty()
    }) + (if nodes.contains(east_of(p)) {
        seq![east_of(p)]
    } else {
        Seq::<Point>::empty()
    }) + (if nodes.contains(south_of(p)) {
        seq![south_of(p)]
    } else {
        Seq::<Point>::empty()
    }) + (if nodes.contains(west_of(p)) {
        seq![west_of(p)]
    } else {
        Seq::<Point>::empty()
    })
}

// ---------------------------------------------------------------------------
// The graph
// ---------------------------------------------------------------------------

/// A parsed maze: the traversable cells, their cardinal adjacency, the wall
/// cells, the start and end cells, and per-query shortest-path state.
#[derive(Debug)]
pub struct Graph {
    /// Traversable coordinates, in row-major order.
    nodes: Vec<Point>,
    /// `adjacency[i]` lists the indices of the traversable cardinal neighbors
    /// of `nodes[i]`, in north, east, south, west order.
    adjacency: Vec<Vec<usize>>,
    /// Best known cost from start, per node; `None` means undiscovered.
    dist: Vec<Option<usize>>,
    /// The node from which each node was cheapest to reach.
    pred: Vec<Option<usize>>,
    /// Wall coordinates, for visualization consumers.
    walls: Vec<Point>,
    /// Index of the start cell in `nodes`.
    start: usize,
    /// Index of the end cell in `nodes`.
    end: usize,
    /// Half-open x range of the grid: the longest row length.
    x_bound: usize,
    /// Half-open y range of the grid: the number of rows.
    y_bound: usize,
}

impl Graph {
    /// The traversable coordinates, in row-major order.
    pub closed spec fn nodes_seq(&self) -> Seq<Point> {
        self.nodes@
    }

    /// The adjacency rows, parallel to `nodes_seq`.
    pub closed spec fn adj(&self) -> Seq<Seq<usize>> {
        self.adjacency@.map_values(|v: Vec<usize>| v@)
    }

    /// The best known cost per node.
    pub closed spec fn dists(&self) -> Seq<Option<usize>> {
        self.dist@
    }

    /// The recorded predecessor per node.
    pub closed spec fn preds(&self) -> Seq<Option<usize>> {
        self.pred@
    }

    /// The wall coordinates.
    pub closed spec fn walls_seq(&self) -> Seq<Point> {
        self.walls@
    }

    /// Index of the start cell.
    pub closed spec fn start_idx(&self) -> int {
        self.start as int
    }

    /// Index of the end cell.
    pub closed spec fn end_idx(&self) -> int {
        self.end as int
    }

    /// The x bound of the grid.
    pub closed spec fn x_bound_spec(&self) -> int {
        self.x_bound as int
    }

    /// The y bound of the grid.
    pub closed spec fn y_bound_spec(&self) -> int {
        self.y_bound as int
    }

    /// The number of traversable cells.
    pub open spec fn n(&self) -> int {
        self.nodes_seq().len() as int
    }

    /// The static part of the invariant: the node list, adjacency structure,
    /// and endpoints are mutually consistent. This part never changes after
    /// construction.
    pub open spec fn wf_static(&self) -> bool {
        &&& 0 <= self.start_idx() < self.n()
        &&& 0 <= self.end_idx() < self.n()
        &&& wf_adjacency(self.adj(), self.n())
        &&& self.nodes_seq().no_duplicates()
        &&& (forall|i: int, k: int|
            0 <= i < self.n() && 0 <= k < self.adj()[i].len() ==> cardinal_adjacent(
                self.nodes_seq()[i],
                self.nodes_seq()[#[trigger] self.adj()[i][k] as int],
            ))
        &&& (forall|i: int|
            0 <= i < self.n() ==> 0 <= (#[trigger] self.nodes_seq()[i]).x < self.x_bound_spec()
                && 0 <= self.nodes_seq()[i].y < self.y_bound_spec())
    }

    /// The per-query part of the invariant: costs and predecessors form a
    /// consistent backward chain toward the start cell.
    pub open spec fn wf_query(&self) -> bool {
        &&& self.dists().len() == self.n()
        &&& self.preds().len() == self.n()
        &&& (forall|v: int|
            0 <= v < self.n() && (#[trigger] self.dists()[v]) is Some ==> self.dists()[v]->Some_0
                <= self.n())
        &&& (forall|v: int|
            0 <= v < self.n() && (#[trigger] self.preds()[v]) is Some ==> {
                let u = self.preds()[v]->Some_0 as int;
                &&& 0 <= u < self.n()
                &&& self.dists()[v] is Some
                &&& self.dists()[u] is Some
                &&& self.dists()[v]->Some_0 == self.dists()[u]->Some_0 + 1
                &&& has_edge(self.adj(), u, v)
            })
        &&& (forall|v: int|
            0 <= v < self.n() && (#[trigger] self.dists()[v]) is Some && self.dists()[v]->Some_0
                >= 1 ==> self.preds()[v] is Some)
        &&& (forall|v: int|
            0 <= v < self.n() && (#[trigger] self.dists()[v]) is Some && self.dists()[v]->Some_0
                == 0 ==> v == self.start_idx() && self.preds()[v] is None)
        &&& (self.dists()[self.end_idx()] is Some ==> self.dists()[self.start_idx()] == Some(
            0usize,
        ))
    }

    /// The full invariant: every public method preserves it.
    pub open spec fn wf(&self) -> bool {
        self.wf_static() && self.wf_query()
    }

    /// The start coordinate.
    pub fn start_point(&self) -> (r: Point)
        requires
            self.wf(),
        ensures
            r == self.nodes_seq()[self.start_idx()],
    {
        self.nodes[self.start]
    }

    /// The end coordinate.
    pub fn end_point(&self) -> (r: Point)
        requires
            self.wf(),
        ensures
            r == self.nodes_seq()[self.end_idx()],
    {
        self.nodes[self.end]
    }

    /// The wall coordinates, for a visualization consumer.
    pub fn wall_points(&self) -> (r: &Vec<Point>)
        ensures
            r@ == self.walls_seq(),
    {
        &self.walls
    }

    /// The half-open coordinate bounds of the grid, x then y.
    pub fn bounds(&self) -> (r: (usize, usize))
        ensures
            r.0 == self.x_bound_spec(),
            r.1 == self.y_bound_spec(),
    {
        (self.x_bound, self.y_bound)
    }
}

impl Graph {
    /// Uniform-cost search (Dijkstra with unit edge weights) from the start
    /// cell. Returns the cost of a cheapest route to the end cell and leaves
    /// the cost and predecessor maps populated for reconstruction, or `None`
    /// when the end cell cannot be reached. The frontier may hold stale
    /// duplicate entries; a popped entry whose cost exceeds the recorded one
    /// is skipped. Ties between equal-cost entries go to the earliest-pushed
    /// entry. Each call starts a fresh query: costs and predecessors are
    /// re-initialized first.
    #[verifier::rlimit(100)]
    pub fn shortest_path(&mut self) -> (r: Option<usize>)
        requires
            old(self).wf(),
        ensures
            final(self).wf(),
            final(self).nodes_seq() == old(self).nodes_seq(),
            final(self).adj() == old(self).adj(),
            final(self).walls_seq() == old(self).walls_seq(),
            final(self).start_idx() == old(self).start_idx(),
            final(self).end_idx() == old(self).end_idx(),
            final(self).x_bound_spec() == old(self).x_bound_spec(),
            final(self).y_bound_spec() == old(self).y_bound_spec(),
            final(self).dists()[old(self).start_idx()] == Some(0usize),
            r matches Some(c) ==> is_min_dist(
                old(self).adj(),
                old(self).start_idx(),
                old(self).end_idx(),
                c as nat,
            ) && final(self).dists()[old(self).end_idx()] == Some(c),
            r is None ==> !reachable(old(self).adj(), old(self).start_idx(), old(self).end_idx())
                && final(self).dists()[old(self).end_idx()] is None,
            forall|v: int|
                0 <= v < old(self).n() && (#[trigger] final(self).dists()[v]) is Some ==> has_dist(
                    old(self).adj(),
                    old(self).start_idx(),
                    v,
                    final(self).dists()[v]->Some_0 as nat,
                ),
            r is None ==> (forall|v: int|
                0 <= v < old(self).n() ==> ((#[trigger] final(self).dists()[v]) is Some
                    <==> reachable(old(self).adj(), old(self).start_idx(), v))),
            r is None ==> (forall|v: int|
                0 <= v < old(self).n() && (#[trigger] final(self).dists()[v]) is Some
                    ==> is_min_dist(
                    old(self).adj(),
                    old(self).start_idx(),
                    v,
                    final(self).dists()[v]->Some_0 as nat,
                )),
            r matches Some(c) ==> (forall|v: int|
                0 <= v < old(self).n() && (#[trigger] final(self).dists()[v]) is Some
                    && final(self).dists()[v]->Some_0 < c ==> is_min_dist(
                    old(self).adj(),
                    old(self).start_idx(),
                    v,
                    final(self).dists()[v]->Some_0 as nat,
                )),
    {
        let ghost s = self.start as int;
        let ghost adj = self.adj();
        let n = self.nodes.len();
        // A fresh query: every cost unknown, no predecessors, start at zero.
        let fresh_dist = none_vec(n);
        let fresh_pred = none_vec(n);
        self.dist = fresh_dist;
        self.pred = fresh_pred;
        self.dist.set(self.start, Some(0));
        let mut frontier: Vec<(usize, usize)> = Vec::new();
        frontier.push((0, self.start));
        let ghost mut settled: Set<int> = Set::empty();
        proof {
            lemma_self_dist(adj, s);
            assert(frontier@[0] == (0usize, self.start));
            assert(frontier@.contains((0usize, self.start)));
            assert(dj_inv(adj, self.dists(), self.preds(), frontier@, settled, s));
        }
        while frontier.len() > 0
            invariant
                self.nodes@ == old(self).nodes@,
                self.adjacency@ == old(self).adjacency@,
                self.walls@ == old(self).walls@,
                self.start == old(self).start,
                self.end == old(self).end,
                self.x_bound == old(self).x_bound,
                self.y_bound == old(self).y_bound,
                old(self).wf_static(),
                s == self.start as int,
                adj == self.adj(),
                adj == old(self).adj(),
                n == self.nodes@.len(),
                adj.len() == n,
                (self.end as int) < n,
                dj_inv(adj, self.dists(), self.preds(), frontier@, settled, s),
                !settled.contains(self.end as int),
            decreases n - settled.len(), frontier@.len(),
        {
            // Pop a minimum-cost entry: scan for the first minimum.
            let mut mi: usize = 0;
            let mut k2: usize = 1;
            while k2 < frontier.len()
                invariant
                    frontier@.len() > 0,
                    (mi as int) < frontier@.len(),
                    1 <= k2 <= frontier@.len(),
                    forall|j: int|
                        0 <= j < k2 ==> frontier@[mi as int].0 <= (#[trigger] frontier@[j]).0,
                decreases frontier@.len() - k2,
            {
                if frontier[k2].0 < frontier[mi].0 {
                    mi = k2;
                }
                k2 += 1;
            }
            let ghost fr0 = frontier@;
            let entry = frontier.remove(mi);
            let cost = entry.0;
            let pos = entry.1;
            proof {
                assert(fr0[mi as int] == (cost, pos));
                assert(fr0.contains(fr0[mi as int]));
                assert((pos as int) < n);
                assert(self.dists()[pos as int] is Some);
            }
            if pos == self.end {
                proof {
                    // This pop is fresh: a cheaper fresh entry for the end
                    // cell would have been the minimum instead.
                    if self.dists()[pos as int]->Some_0 < cost {
                        assert(fr0.contains((self.dists()[pos as int]->Some_0, pos)));
                        let j = choose|j: int|
                            0 <= j < fr0.len() && #[trigger] fr0[j] == (
                            self.dists()[pos as int]->Some_0,
                            pos,
                            );
                        assert(cost <= fr0[j].0);
                        assert(false);
                    }
                    assert(self.dists()[pos as int] == Some(cost));
                    lemma_settle(adj, self.dists(), self.preds(), fr0, settled, s, pos as int, cost);
                    // Every cost recorded below the answer is already final.
                    assert forall|v: int|
                        0 <= v < n && (#[trigger] self.dists()[v]) is Some
                            && self.dists()[v]->Some_0 < cost implies is_min_dist(
                        adj,
                        s,
                        v,
                        self.dists()[v]->Some_0 as nat,
                    ) by {
                        if !settled.contains(v) {
                            assert(fr0.contains((self.dists()[v]->Some_0, v as usize)));
                            let j = choose|j: int|
                                0 <= j < fr0.len() && #[trigger] fr0[j] == (
                                self.dists()[v]->Some_0,
                                v as usize,
                                );
                            assert(cost <= fr0[j].0);
                            assert(false);
                        }
                    }
                    assert(self.nodes_seq() == old(self).nodes_seq());
                    assert(self.walls_seq() == old(self).walls_seq());
                    assert(self.wf_static());
                    assert(self.wf_query());
                }
                return Some(cost);
            }
            let dv = match self.dist[pos] {
                Some(d) => d,
                None => {
                    proof {
                        assert(false);
                    }
                    0
                },
            };
            if cost > dv {
                // A stale duplicate, superseded by an earlier relaxation.
                proof {
                    lemma_stale_pop(adj, self.dists(), self.preds(), fr0, settled, s, mi as int);
                }
            } else {
                proof {
                    assert(dv == cost);
                    assert(!settled.contains(pos as int));
                    lemma_settle(adj, self.dists(), self.preds(), fr0, settled, s, pos as int, cost);
                    lemma_settle_transition(
                        adj,
                        self.dists(),
                        self.preds(),
                        fr0,
                        settled,
                        s,
                        mi as int,
                    );
                    let settled_before = settled;
                    settled = settled.insert(pos as int);
                    assert(settled.remove(pos as int) =~= settled_before);
                }
                self.relax_neighbors(pos, cost, &mut frontier, Ghost(settled));
            }
        }
        proof {
            // The frontier is exhausted: everything discovered is settled
            // and carries its true distance; everything reachable was
            // discovered; the end cell is neither.
            assert forall|v: int|
                0 <= v < n && (#[trigger] self.dists()[v]) is Some implies settled.contains(
                v,
            ) by {
                if !settled.contains(v) {
                    assert(frontier@.contains((self.dists()[v]->Some_0, v as usize)));
                    assert(false);
                }
            }
            assert forall|t: int|
                0 <= t < n && reachable(old(self).adj(), old(self).start_idx(), t) implies settled
                .contains(t) by {
                assert(reachable(adj, s, t));
                let c = choose|c: nat| has_dist(adj, s, t, c);
                reveal(has_dist);
                let p = choose|p: Seq<int>| connects(adj, p, s, t) && p.len() == c + 1;
                lemma_path_covered(adj, self.dists(), self.preds(), frontier@, settled, s, p);
            }
            assert forall|v: int|
                0 <= v < old(self).n() implies ((#[trigger] self.dists()[v]) is Some
                <==> reachable(old(self).adj(), old(self).start_idx(), v)) by {
                if self.dists()[v] is Some {
                    assert(has_dist(adj, s, v, self.dists()[v]->Some_0 as nat));
                    assert(reachable(adj, s, v));
                    assert(reachable(old(self).adj(), old(self).start_idx(), v));
                } else {
                    if reachable(old(self).adj(), old(self).start_idx(), v) {
                        assert(settled.contains(v));
                        assert(self.dists()[v] is Some);
                        assert(false);
                    }
                }
            }
            assert(!reachable(old(self).adj(), old(self).start_idx(), self.end as int));
            assert(self.dists()[self.end as int] is None);
            assert(self.nodes_seq() == old(self).nodes_seq());
            assert(self.walls_seq() == old(self).walls_seq());
            assert(self.wf_static());
            assert(self.wf_query());
        }
        None
    }

    /// Follow the predecessor chain backward from the end cell until the
    /// start cell, collecting node indices. The recorded cost drops by
    /// exactly one per step, so the walk reaches cost zero, which only the
    /// start cell carries.
    fn walk_back(&self, c: usize) -> (rev: Vec<usize>)
        requires
            self.wf(),
            self.dists()[self.end_idx()] == Some(c),
        ensures
            rev@.len() == c + 1,
            rev@[0] as int == self.end_idx(),
            rev@[c as int] as int == self.start_idx(),
            forall|i: int| 0 <= i < rev@.len() ==> (#[trigger] rev@[i]) < self.n(),
            forall|i: int|
                0 <= i < rev@.len() - 1 ==> has_edge(
                    self.adj(),
                    rev@[i + 1] as int,
                    #[trigger] rev@[i] as int,
                ),
    {
        let mut rev: Vec<usize> = Vec::new();
        let mut v: usize = self.end;
        rev.push(v);
        while v != self.start
            invariant
                self.dists().len() == self.n(),
                self.preds().len() == self.n(),
                0 <= self.start_idx() < self.n(),
                forall|u: int|
                    0 <= u < self.n() && (#[trigger] self.preds()[u]) is Some ==> {
                        let w = self.preds()[u]->Some_0 as int;
                        &&& 0 <= w < self.n()
                        &&& self.dists()[u] is Some
                        &&& self.dists()[w] is Some
                        &&& self.dists()[u]->Some_0 == self.dists()[w]->Some_0 + 1
                        &&& has_edge(self.adj(), w, u)
                    },
                forall|u: int|
                    0 <= u < self.n() && (#[trigger] self.dists()[u]) is Some
                        && self.dists()[u]->Some_0 >= 1 ==> self.preds()[u] is Some,
                forall|u: int|
                    0 <= u < self.n() && (#[trigger] self.dists()[u]) is Some
                        && self.dists()[u]->Some_0 == 0 ==> u == self.start_idx(),
                (v as int) < self.n(),
                1 <= rev@.len() <= c + 1,
                rev@[0] as int == self.end_idx(),
                rev@[rev@.len() - 1] == v,
                forall|i: int| 0 <= i < rev@.len() ==> (#[trigger] rev@[i]) < self.n(),
                forall|i: int|
                    0 <= i < rev@.len() ==> self.dists()[#[trigger] rev@[i] as int] == Some(
                        (c - i) as usize,
                    ),
                forall|i: int|
                    0 <= i < rev@.len() - 1 ==> has_edge(
                        self.adj(),
                        rev@[i + 1] as int,
                        #[trigger] rev@[i] as int,
                    ),
            decreases c + 1 - rev@.len(),
        {
            match self.pred[v] {
                Some(u) => {
                    proof {
                        assert(self.dists()[v as int]->Some_0 == self.dists()[u as int]->Some_0
                            + 1);
                    }
                    v = u;
                    rev.push(v);
                },
                None => {
                    // The invariant rules this out: a cell with a positive
                    // recorded cost always has a predecessor.
                    proof {
                        assert(self.dists()[v as int]->Some_0 >= 1);
                        assert(false);
                    }
                    return rev;
                },
            }
        }
        proof {
            // The walk stopped at the start cell, whose recorded cost is 0,
            // so the chain has exactly c + 1 entries.
            assert(self.dists()[self.start_idx()] == Some(0usize));
            assert(rev@.len() == c + 1);
        }
        rev
    }

    /// Rebuild the cheapest route recorded by the last shortest-path query,
    /// as the ordered coordinates from the start cell to the end cell,
    /// inclusive. Fails when no query has succeeded yet: the end cell then
    /// has no recorded cost.
    pub fn show_path(&mut self) -> (r: Result<Vec<Point>, UnreachableEndError>)
        requires
            old(self).wf(),
        ensures
            *final(self) == *old(self),
            (r is Ok) <==> old(self).dists()[old(self).end_idx()] is Some,
            r matches Ok(p) ==> ({
                let c = old(self).dists()[old(self).end_idx()]->Some_0 as int;
                &&& p@.len() == c + 1
                &&& p@[0] == old(self).nodes_seq()[old(self).start_idx()]
                &&& p@[c] == old(self).nodes_seq()[old(self).end_idx()]
                &&& (forall|i: int| 0 <= i < c ==> cardinal_adjacent(#[trigger] p@[i], p@[i + 1]))
                &&& exists|q: Seq<int>|
                    connects(old(self).adj(), q, old(self).start_idx(), old(self).end_idx())
                        && q.len() == c + 1 && p@ =~= q.map_values(
                        |u: int| old(self).nodes_seq()[u],
                    )
            }),
    {
        let c = match self.dist[self.end] {
            None => {
                return Err(UnreachableEndError);
            },
            Some(c0) => c0,
        };
        let rev = self.walk_back(c);
        let path = indices_to_points(&self.nodes, &rev);
        proof {
            lemma_chain_to_path(*self, rev@, path@, c as int);
        }
        Ok(path)
    }
}

// ---------------------------------------------------------------------------
// The shortest-path engine's invariant and its lemmas
// ---------------------------------------------------------------------------

/// Every neighbor of every settled node has been relaxed: its recorded cost
/// is at most one more than the settled node's cost.
pub open spec fn settled_edges_ok(
    adj: Seq<Seq<usize>>,
    dist: Seq<Option<usize>>,
    settled: Set<int>,
) -> bool {
    forall|v: int, k: int|
        settled.contains(v) && 0 <= k < adj[v].len() ==> {
            let w = (#[trigger] adj[v][k]) as int;
            &&& dist[w] is Some
            &&& dist[w]->Some_0 <= dist[v]->Some_0 + 1
        }
}

/// The working-state invariant of the uniform-cost search: recorded costs are
/// real walk costs, settled nodes carry true distances with all their edges
/// relaxed, every discovered-but-unsettled node keeps a fresh frontier entry,
/// frontier entries never undercut a settled cost, entries of one node have
/// pairwise distinct costs, and predecessors record a relaxing edge from a
/// settled node.
pub open spec fn dj_inv(
    adj: Seq<Seq<usize>>,
    dist: Seq<Option<usize>>,
    pred: Seq<Option<usize>>,
    frontier: Seq<(usize, usize)>,
    settled: Set<int>,
    s: int,
) -> bool {
    &&& dj_inv_core(adj, dist, pred, frontier, settled, s)
    &&& settled_edges_ok(adj, dist, settled)
}

/// All of `dj_inv` except the settled-edges clause, which the relaxation
/// loop establishes one neighbor at a time for the node being settled.
pub open spec fn dj_inv_core(
    adj: Seq<Seq<usize>>,
    dist: Seq<Option<usize>>,
    pred: Seq<Option<usize>>,
    frontier: Seq<(usize, usize)>,
    settled: Set<int>,
    s: int,
) -> bool {
    let n = adj.len() as int;
    &&& wf_adjacency(adj, n)
    &&& dist.len() == n
    &&& pred.len() == n
    &&& 0 <= s < n
    &&& dist[s] == Some(0usize)
    &&& (forall|v: int|
        0 <= v < n && (#[trigger] dist[v]) is Some ==> has_dist(
            adj,
            s,
            v,
            dist[v]->Some_0 as nat,
        ) && dist[v]->Some_0 <= n)
    &&& (forall|j: int|
        0 <= j < frontier.len() ==> {
            let e = #[trigger] frontier[j];
            &&& (e.1 as int) < n
            &&& dist[e.1 as int] is Some
            &&& dist[e.1 as int]->Some_0 <= e.0
            &&& e.0 <= n
        })
    &&& settled.finite()
    &&& settled.len() <= n
    &&& (forall|v: int|
        #[trigger] settled.contains(v) ==> {
            &&& 0 <= v < n
            &&& dist[v] is Some
            &&& is_min_dist(adj, s, v, dist[v]->Some_0 as nat)
            &&& dist[v]->Some_0 < n
        })
    &&& (forall|v: int|
        0 <= v < n && (#[trigger] dist[v]) is Some && !settled.contains(v) ==> frontier.contains(
            (dist[v]->Some_0, v as usize),
        ))
    &&& (forall|j: int|
        0 <= j < frontier.len() && settled.contains((#[trigger] frontier[j]).1 as int)
            ==> frontier[j].0 > dist[frontier[j].1 as int]->Some_0)
    &&& (forall|v: int, j: int|
        #![trigger settled.contains(v), frontier[j]]
        settled.contains(v) && 0 <= j < frontier.len() ==> dist[v]->Some_0 <= frontier[j].0)
    &&& (forall|j1: int, j2: int|
        0 <= j1 < j2 < frontier.len() && (#[trigger] frontier[j1]).1 == (
        #[trigger] frontier[j2]).1 ==> frontier[j1].0 != frontier[j2].0)
    &&& (forall|v: int|
        0 <= v < n && (#[trigger] pred[v]) is Some ==> {
            let u = pred[v]->Some_0 as int;
            &&& 0 <= u < n
            &&& settled.contains(u)
            &&& dist[v] is Some
            &&& dist[u] is Some
            &&& dist[v]->Some_0 == dist[u]->Some_0 + 1
            &&& has_edge(adj, u, v)
        })
    &&& (forall|v: int|
        0 <= v < n && (#[trigger] dist[v]) is Some && dist[v]->Some_0 >= 1 ==> pred[v] is Some)
    &&& (forall|v: int|
        0 <= v < n && (#[trigger] dist[v]) is Some && dist[v]->Some_0 == 0 ==> v == s
            && pred[v] is None)
}

impl Graph {
    /// Relax every neighbor of the just-settled node `pos`: any neighbor that
    /// a route through `pos` reaches more cheaply gets the improved cost,
    /// `pos` as predecessor, and a fresh frontier entry. Costs already
    /// recorded only ever decrease here, never increase.
    #[verifier::rlimit(100)]
    fn relax_neighbors(
        &mut self,
        pos: usize,
        cost: usize,
        frontier: &mut Vec<(usize, usize)>,
        Ghost(settled): Ghost<Set<int>>,
    )
        requires
            (pos as int) < old(self).n(),
            old(self).adjacency@.len() == old(self).n(),
            dj_inv_core(
                old(self).adj(),
                old(self).dists(),
                old(self).preds(),
                old(frontier)@,
                settled,
                old(self).start_idx(),
            ),
            settled_edges_ok(old(self).adj(), old(self).dists(), settled.remove(pos as int)),
            settled.contains(pos as int),
            old(self).dists()[pos as int] == Some(cost),
            (cost as int) < old(self).n(),
            forall|u: int|
                #[trigger] settled.contains(u) ==> old(self).dists()[u]->Some_0 <= cost,
        ensures
            final(self).nodes_seq() == old(self).nodes_seq(),
            final(self).adj() == old(self).adj(),
            final(self).adjacency@ == old(self).adjacency@,
            final(self).walls_seq() == old(self).walls_seq(),
            final(self).start_idx() == old(self).start_idx(),
            final(self).end_idx() == old(self).end_idx(),
            final(self).x_bound_spec() == old(self).x_bound_spec(),
            final(self).y_bound_spec() == old(self).y_bound_spec(),
            dj_inv(
                final(self).adj(),
                final(self).dists(),
                final(self).preds(),
                final(frontier)@,
                settled,
                final(self).start_idx(),
            ),
            forall|u: int|
                #[trigger] settled.contains(u) ==> final(self).dists()[u] == old(self).dists()[u],
            forall|v: int|
                0 <= v < old(self).n() && (#[trigger] old(self).dists()[v]) is Some
                    ==> final(self).dists()[v] is Some && final(self).dists()[v]->Some_0
                    <= old(self).dists()[v]->Some_0,
    {
        let ghost s = self.start_idx();
        let ghost adj = self.adj();
        let n = self.nodes.len();
        let next_cost = cost + 1;
        let deg = self.adjacency[pos].len();
        let mut k: usize = 0;
        while k < deg
            invariant
                k <= deg,
                s == self.start_idx(),
                adj == self.adj(),
                n == self.nodes@.len(),
                adj.len() == n,
                (pos as int) < self.n(),
                deg == adj[pos as int].len(),
                next_cost == cost + 1,
                settled.contains(pos as int),
                (cost as int) < self.n(),
                self.nodes@ == old(self).nodes@,
                self.adjacency@ == old(self).adjacency@,
                self.walls@ == old(self).walls@,
                self.start == old(self).start,
                self.end == old(self).end,
                self.x_bound == old(self).x_bound,
                self.y_bound == old(self).y_bound,
                dj_inv_core(adj, self.dists(), self.preds(), frontier@, settled, s),
                settled_edges_ok(adj, self.dists(), settled.remove(pos as int)),
                self.dists()[pos as int] == Some(cost),
                forall|u: int|
                    #[trigger] settled.contains(u) ==> self.dists()[u]->Some_0 <= cost,
                forall|u: int|
                    #[trigger] settled.contains(u) ==> self.dists()[u] == old(self).dists()[u],
                forall|kk: int|
                    0 <= kk < k ==> {
                        let w = (#[trigger] adj[pos as int][kk]) as int;
                        &&& self.dists()[w] is Some
                        &&& self.dists()[w]->Some_0 <= cost + 1
                    },
                forall|v: int|
                    0 <= v < old(self).n() && (#[trigger] old(self).dists()[v]) is Some
                        ==> self.dists()[v] is Some && self.dists()[v]->Some_0
                        <= old(self).dists()[v]->Some_0,
            decreases deg - k,
        {
            let w = self.adjacency[pos][k];
            proof {
                assert(adj[pos as int] == self.adjacency@[pos as int]@);
                assert(adj[pos as int][k as int] == w);
                assert((w as int) < n);
            }
            let needs = match self.dist[w] {
                None => true,
                Some(dw) => next_cost < dw,
            };
            if needs {
                proof {
                    // A settled node's cost is at most `cost`, so it cannot
                    // be improved by `cost + 1`: `w` is unsettled.
                    assert(!settled.contains(w as int));
                    assert(has_dist(adj, s, pos as int, cost as nat));
                    assert(has_edge(adj, pos as int, w as int));
                    lemma_has_dist_step(adj, s, pos as int, w as int, cost as nat);
                }
                let ghost fr0 = frontier@;
                self.dist.set(w, Some(next_cost));
                self.pred.set(w, Some(pos));
                frontier.push((next_cost, w));
                proof {
                    lemma_push_contains(fr0, (next_cost, w));
                    assert forall|v: int|
                        0 <= v < adj.len() && (#[trigger] self.dists()[v]) is Some
                            && !settled.contains(v) implies frontier@.contains(
                        (self.dists()[v]->Some_0, v as usize),
                    ) by {
                        if v == w as int {
                            assert(frontier@[frontier@.len() - 1] == (next_cost, w));
                        }
                    }
                }
            }
            k += 1;
        }
        proof {
            assert(settled_edges_ok(adj, self.dists(), settled)) by {
                assert forall|v: int, kk: int|
                    settled.contains(v) && 0 <= kk < adj[v].len() implies {
                    let w = (#[trigger] adj[v][kk]) as int;
                    &&& self.dists()[w] is Some
                    &&& self.dists()[w]->Some_0 <= self.dists()[v]->Some_0 + 1
                } by {
                    if v != pos as int {
                        assert(settled.remove(pos as int).contains(v));
                    }
                }
            }
        }
    }
}

/// Extending a walk by one edge extends its cost by one.
proof fn lemma_has_dist_step(adj: Seq<Seq<usize>>, s: int, u: int, w: int, c: nat)
    requires
        has_dist(adj, s, u, c),
        has_edge(adj, u, w),
        0 <= w < adj.len(),
    ensures
        has_dist(adj, s, w, (c + 1) as nat),
{
    reveal(has_dist);
    let p = choose|p: Seq<int>| connects(adj, p, s, u) && p.len() == c + 1;
    let q = p.push(w);
    assert(q[q.len() - 1] == w);
    assert(q[0] == p[0]);
    assert forall|i: int| 0 <= i < q.len() - 1 implies has_edge(adj, #[trigger] q[i], q[i + 1]) by {
        if i < p.len() - 1 {
            assert(q[i] == p[i]);
            assert(q[i + 1] == p[i + 1]);
        } else {
            assert(q[i] == p[p.len() - 1]);
        }
    }
    assert(is_path(adj, q));
    assert(connects(adj, q, s, w) && q.len() == (c + 1) + 1);
}

/// Every node reaches itself by the trivial walk.
proof fn lemma_self_dist(adj: Seq<Seq<usize>>, s: int)
    requires
        0 <= s < adj.len(),
    ensures
        has_dist(adj, s, s, 0),
{
    reveal(has_dist);
    let p: Seq<int> = seq![s];
    assert(p.len() == 1);
    assert(p[0] == s);
    assert(is_path(adj, p));
    assert(connects(adj, p, s, s) && p.len() == 0 + 1);
}

/// Pigeonhole: a sequence over `[0, n)` that is longer than `n` repeats some
/// value.
proof fn lemma_dup_index(p: Seq<int>, n: int)
    requires
        n >= 0,
        p.len() > n,
        forall|i: int| 0 <= i < p.len() ==> 0 <= #[trigger] p[i] < n,
    ensures
        exists|i: int, j: int| 0 <= i < j < p.len() && p[i] == p[j],
{
    if p.no_duplicates() {
        p.unique_seq_to_set();
        vstd::set_lib::lemma_int_range(0, n);
        assert(p.to_set().subset_of(vstd::set_lib::set_int_range(0, n))) by {
            assert forall|e: int|
                p.to_set().contains(e) implies vstd::set_lib::set_int_range(0, n).contains(e) by {
                assert(p.contains(e));
                let i = choose|i: int| 0 <= i < p.len() && p[i] == e;
            }
        }
        vstd::set_lib::lemma_len_subset(p.to_set(), vstd::set_lib::set_int_range(0, n));
        assert(false);
    } else {
        let (i, j) = choose|i: int, j: int|
            0 <= i < p.len() && 0 <= j < p.len() && i != j && p[i] == p[j];
        if i < j {
            assert(0 <= i < j < p.len() && p[i] == p[j]);
        } else {
            assert(0 <= j < i < p.len() && p[j] == p[i]);
        }
    }
}

/// Any walk can be shortened to one that visits at most `n` nodes, by cutting
/// out the cycle between two visits of a repeated node.
proof fn lemma_path_shorten(adj: Seq<Seq<usize>>, p: Seq<int>, s: int, t: int)
    requires
        connects(adj, p, s, t),
    ensures
        exists|q: Seq<int>| connects(adj, q, s, t) && q.len() <= adj.len(),
    decreases p.len(),
{
    let n = adj.len() as int;
    if p.len() <= n {
        assert(connects(adj, p, s, t) && p.len() <= adj.len());
    } else {
        lemma_dup_index(p, n);
        let (i, j) = choose|i: int, j: int| 0 <= i < j < p.len() && p[i] == p[j];
        let q = p.subrange(0, i) + p.subrange(j, p.len() as int);
        assert(q.len() == i + p.len() - j);
        assert forall|ii: int| 0 <= ii < q.len() implies 0 <= #[trigger] q[ii] < adj.len() by {
            if ii < i {
                assert(q[ii] == p[ii]);
            } else {
                assert(q[ii] == p[j + ii - i]);
            }
        }
        assert(q[0] == s) by {
            if i > 0 {
                assert(q[0] == p[0]);
            } else {
                assert(q[0] == p[j]);
            }
        }
        assert(q[q.len() - 1] == p[p.len() - 1]);
        assert forall|ii: int| 0 <= ii < q.len() - 1 implies has_edge(
            adj,
            #[trigger] q[ii],
            q[ii + 1],
        ) by {
            if ii < i - 1 {
                assert(q[ii] == p[ii]);
                assert(q[ii + 1] == p[ii + 1]);
                assert(has_edge(adj, p[ii], p[ii + 1]));
            } else if ii == i - 1 {
                assert(q[ii] == p[i - 1]);
                assert(q[ii + 1] == p[j]);
                assert(p[j] == p[i]);
                assert(has_edge(adj, p[i - 1], p[i]));
            } else {
                assert(q[ii] == p[j + ii - i]);
                assert(q[ii + 1] == p[j + ii + 1 - i]);
                assert(has_edge(adj, p[j + ii - i], p[j + ii - i + 1]));
            }
        }
        assert(is_path(adj, q));
        assert(connects(adj, q, s, t));
        assert(q.len() < p.len());
        lemma_path_shorten(adj, q, s, t);
    }
}

/// A true distance is always below the node count: the cheapest walk visits
/// no node twice.
proof fn lemma_min_lt_n(adj: Seq<Seq<usize>>, s: int, t: int, c: nat)
    requires
        is_min_dist(adj, s, t, c),
        adj.len() >= 1,
    ensures
        c < adj.len(),
{
    reveal(has_dist);
    reveal(is_min_dist);
    let p = choose|p: Seq<int>| connects(adj, p, s, t) && p.len() == c + 1;
    lemma_path_shorten(adj, p, s, t);
    let q = choose|q: Seq<int>| connects(adj, q, s, t) && q.len() <= adj.len();
    assert(has_dist(adj, s, t, (q.len() - 1) as nat));
    if c >= adj.len() {
        assert(((q.len() - 1) as nat) < c);
        assert(!has_dist(adj, s, t, (q.len() - 1) as nat));
        assert(false);
    }
}

/// Every walk from the start either ends at a settled node within its cost,
/// or crosses the frontier at a fresh entry no costlier than the walk.
proof fn lemma_path_covered(
    adj: Seq<Seq<usize>>,
    dist: Seq<Option<usize>>,
    pred: Seq<Option<usize>>,
    frontier: Seq<(usize, usize)>,
    settled: Set<int>,
    s: int,
    p: Seq<int>,
)
    requires
        dj_inv(adj, dist, pred, frontier, settled, s),
        is_path(adj, p),
        p[0] == s,
    ensures
        ({
            let t = p[p.len() - 1];
            (settled.contains(t) && dist[t] is Some && dist[t]->Some_0 <= p.len() - 1) || (
            exists|j: int|
                0 <= j < frontier.len() && {
                    let e = #[trigger] frontier[j];
                    !settled.contains(e.1 as int) && e.0 == dist[e.1 as int]->Some_0 && e.0
                        <= p.len() - 1
                })
        }),
    decreases p.len(),
{
    let t = p[p.len() - 1];
    if p.len() == 1 {
        assert(t == s);
        if !settled.contains(s) {
            assert(frontier.contains((0usize, s as usize)));
            let j = choose|j: int|
                0 <= j < frontier.len() && #[trigger] frontier[j] == (0usize, s as usize);
            assert(0 <= j < frontier.len() && {
                let e = frontier[j];
                !settled.contains(e.1 as int) && e.0 == dist[e.1 as int]->Some_0 && e.0 <= p.len()
                    - 1
            });
        }
    } else {
        let q = p.drop_last();
        assert(q.len() == p.len() - 1);
        assert forall|ii: int| 0 <= ii < q.len() implies 0 <= #[trigger] q[ii] < adj.len() by {
            assert(q[ii] == p[ii]);
        }
        assert forall|ii: int| 0 <= ii < q.len() - 1 implies has_edge(
            adj,
            #[trigger] q[ii],
            q[ii + 1],
        ) by {
            assert(q[ii] == p[ii]);
            assert(q[ii + 1] == p[ii + 1]);
            assert(has_edge(adj, p[ii], p[ii + 1]));
        }
        assert(is_path(adj, q));
        assert(q[0] == s);
        lemma_path_covered(adj, dist, pred, frontier, settled, s, q);
        let u = q[q.len() - 1];
        assert(u == p[p.len() - 2]);
        if settled.contains(u) && dist[u] is Some && dist[u]->Some_0 <= q.len() - 1 {
            assert(has_edge(adj, u, t)) by {
                assert(has_edge(adj, p[p.len() - 2], p[p.len() - 1]));
            }
            let k = choose|k: int| 0 <= k < adj[u].len() && (#[trigger] adj[u][k]) as int == t;
            assert(dist[t] is Some && dist[t]->Some_0 <= dist[u]->Some_0 + 1);
            if !settled.contains(t) {
                assert(frontier.contains((dist[t]->Some_0, t as usize)));
                let j = choose|j: int|
                    0 <= j < frontier.len() && #[trigger] frontier[j] == (
                    dist[t]->Some_0,
                    t as usize,
                );
                assert(0 <= j < frontier.len() && {
                    let e = frontier[j];
                    !settled.contains(e.1 as int) && e.0 == dist[e.1 as int]->Some_0 && e.0
                        <= p.len() - 1
                });
            }
        }
    }
}

/// A node popped from the frontier at the frontier's minimum cost, matching
/// its recorded cost, carries its true distance.
proof fn lemma_settle(
    adj: Seq<Seq<usize>>,
    dist: Seq<Option<usize>>,
    pred: Seq<Option<usize>>,
    frontier: Seq<(usize, usize)>,
    settled: Set<int>,
    s: int,
    v: int,
    c: usize,
)
    requires
        dj_inv(adj, dist, pred, frontier, settled, s),
        0 <= v < adj.len(),
        dist[v] == Some(c),
        !settled.contains(v),
        forall|j: int| 0 <= j < frontier.len() ==> c <= (#[trigger] frontier[j]).0,
    ensures
        is_min_dist(adj, s, v, c as nat),
        c < adj.len(),
{
    assert(has_dist(adj, s, v, c as nat));
    assert forall|k: nat| k < c implies !has_dist(adj, s, v, k) by {
        reveal(has_dist);
        if has_dist(adj, s, v, k) {
            let p = choose|p: Seq<int>| connects(adj, p, s, v) && p.len() == k + 1;
            lemma_path_covered(adj, dist, pred, frontier, settled, s, p);
            assert(false);
        }
    }
    assert(is_min_dist(adj, s, v, c as nat)) by {
        reveal(is_min_dist);
    }
    lemma_min_lt_n(adj, s, v, c as nat);
}

/// Removing one entry keeps every other entry's membership.
proof fn lemma_remove_membership<A>(s: Seq<A>, i: int)
    requires
        0 <= i < s.len(),
    ensures
        forall|e: A| #[trigger] s.remove(i).contains(e) ==> s.contains(e),
        forall|e: A| s.contains(e) && e != s[i] ==> #[trigger] s.remove(i).contains(e),
{
    s.remove_ensures(i);
    assert forall|e: A| #[trigger] s.remove(i).contains(e) implies s.contains(e) by {
        let j = choose|j: int| 0 <= j < s.remove(i).len() && s.remove(i)[j] == e;
        if j < i {
            assert(s[j] == e);
        } else {
            assert(s[j + 1] == e);
        }
    }
    assert forall|e: A| s.contains(e) && e != s[i] implies #[trigger] s.remove(i).contains(e) by {
        let j = choose|j: int| 0 <= j < s.len() && s[j] == e;
        if j < i {
            assert(s.remove(i)[j] == e);
        } else {
            assert(s.remove(i)[j - 1] == e);
        }
    }
}

/// Popping a stale entry (one whose cost has since been improved on) keeps
/// the whole invariant, with nothing settled.
proof fn lemma_stale_pop(
    adj: Seq<Seq<usize>>,
    dist: Seq<Option<usize>>,
    pred: Seq<Option<usize>>,
    fr0: Seq<(usize, usize)>,
    settled: Set<int>,
    s: int,
    mi: int,
)
    requires
        dj_inv_core(adj, dist, pred, fr0, settled, s),
        0 <= mi < fr0.len(),
        fr0[mi].0 > dist[fr0[mi].1 as int]->Some_0,
    ensures
        dj_inv_core(adj, dist, pred, fr0.remove(mi), settled, s),
{
    fr0.remove_ensures(mi);
    lemma_remove_membership(fr0, mi);
    let fr1 = fr0.remove(mi);
    assert forall|j: int| 0 <= j < fr1.len() implies #[trigger] fr1[j] == (if j < mi {
        fr0[j]
    } else {
        fr0[j + 1]
    }) by {}
    assert forall|v: int|
        0 <= v < adj.len() && (#[trigger] dist[v]) is Some && !settled.contains(v) implies fr1
        .contains((dist[v]->Some_0, v as usize)) by {
        assert(fr0.contains((dist[v]->Some_0, v as usize)));
        assert((dist[v]->Some_0, v as usize) != fr0[mi]);
    }
    assert forall|j1: int, j2: int|
        0 <= j1 < j2 < fr1.len() && (#[trigger] fr1[j1]).1 == (#[trigger] fr1[j2]).1 implies
        fr1[j1].0 != fr1[j2].0 by {
        let i1 = if j1 < mi {
            j1
        } else {
            j1 + 1
        };
        let i2 = if j2 < mi {
            j2
        } else {
            j2 + 1
        };
        assert(fr1[j1] == fr0[i1]);
        assert(fr1[j2] == fr0[i2]);
    }
}

/// Settling the popped node: the entry matched the node's recorded cost and
/// was a minimum of the frontier, so the node moves into the settled set and
/// the whole invariant survives the pop.
proof fn lemma_settle_transition(
    adj: Seq<Seq<usize>>,
    dist: Seq<Option<usize>>,
    pred: Seq<Option<usize>>,
    fr0: Seq<(usize, usize)>,
    settled: Set<int>,
    s: int,
    mi: int,
)
    requires
        dj_inv_core(adj, dist, pred, fr0, settled, s),
        0 <= mi < fr0.len(),
        dist[fr0[mi].1 as int] == Some(fr0[mi].0),
        !settled.contains(fr0[mi].1 as int),
        is_min_dist(adj, s, fr0[mi].1 as int, fr0[mi].0 as nat),
        (fr0[mi].0 as int) < adj.len(),
        forall|j: int| 0 <= j < fr0.len() ==> fr0[mi].0 <= (#[trigger] fr0[j]).0,
    ensures
        dj_inv_core(adj, dist, pred, fr0.remove(mi), settled.insert(fr0[mi].1 as int), s),
{
    let pos = fr0[mi].1 as int;
    let c = fr0[mi].0;
    fr0.remove_ensures(mi);
    lemma_remove_membership(fr0, mi);
    let fr1 = fr0.remove(mi);
    let settled1 = settled.insert(pos);
    assert forall|j: int| 0 <= j < fr1.len() implies #[trigger] fr1[j] == (if j < mi {
        fr0[j]
    } else {
        fr0[j + 1]
    }) by {}
    // The settled set stays within the node indices, so its size stays
    // within the node count.
    vstd::set_lib::lemma_int_range(0, adj.len() as int);
    assert(settled1.subset_of(vstd::set_lib::set_int_range(0, adj.len() as int)));
    vstd::set_lib::lemma_len_subset(
        settled1,
        vstd::set_lib::set_int_range(0, adj.len() as int),
    );
    // Discovered, unsettled nodes other than `pos` keep their fresh entries.
    assert forall|v: int|
        0 <= v < adj.len() && (#[trigger] dist[v]) is Some && !settled1.contains(v) implies fr1
        .contains((dist[v]->Some_0, v as usize)) by {
        assert(fr0.contains((dist[v]->Some_0, v as usize)));
        assert((dist[v]->Some_0, v as usize) != fr0[mi]);
    }
    // Remaining entries of `pos` are stale: same node, different cost, and
    // no entry undercuts the popped minimum.
    assert forall|j: int|
        0 <= j < fr1.len() && settled1.contains((#[trigger] fr1[j]).1 as int) implies fr1[j].0
        > dist[fr1[j].1 as int]->Some_0 by {
        let i = if j < mi {
            j
        } else {
            j + 1
        };
        assert(fr1[j] == fr0[i]);
        if fr1[j].1 as int == pos {
            assert(fr0[i].0 != fr0[mi].0);
            assert(dist[pos]->Some_0 <= fr0[i].0);
        }
    }
    assert forall|v: int, j: int|
        #![trigger settled1.contains(v), fr1[j]]
        settled1.contains(v) && 0 <= j < fr1.len() implies dist[v]->Some_0 <= fr1[j].0 by {
        let i = if j < mi {
            j
        } else {
            j + 1
        };
        assert(fr1[j] == fr0[i]);
        if v == pos {
            assert(c <= fr0[i].0);
        } else {
            assert(settled.contains(v));
        }
    }
    assert forall|j1: int, j2: int|
        0 <= j1 < j2 < fr1.len() && (#[trigger] fr1[j1]).1 == (#[trigger] fr1[j2]).1 implies
        fr1[j1].0 != fr1[j2].0 by {
        let i1 = if j1 < mi {
            j1
        } else {
            j1 + 1
        };
        let i2 = if j2 < mi {
            j2
        } else {
            j2 + 1
        };
        assert(fr1[j1] == fr0[i1]);
        assert(fr1[j2] == fr0[i2]);
    }
}

/// Pushing onto a sequence keeps every element it already contained, and
/// makes it contain the pushed element.
proof fn lemma_push_contains<A>(s: Seq<A>, e: A)
    ensures
        forall|q: A| s.contains(q) ==> #[trigger] s.push(e).contains(q),
        s.push(e).contains(e),
{
    assert forall|q: A| s.contains(q) implies s.push(e).contains(q) by {
        let i = choose|i: int| 0 <= i < s.len() && s[i] == q;
        assert(s.push(e)[i] == q);
    }
    assert(s.push(e)[s.len() as int] == e);
}

/// A count saturated at two: the parser only needs to tell "none", "one",
/// and "more than one" marker cells apart.
pub open spec fn cap2(n: nat) -> nat {
    if n >= 2 {
        2
    } else {
        n
    }
}

impl Graph {
    /// Parse a rectangular character grid into a graph: classify every cell
    /// as traversable or wall, locate the start and end markers, record the
    /// coordinate bounds, and build the cardinal adjacency lists. Rejects an
    /// empty grid and a grid whose start or end marker is missing or
    /// duplicated.
    #[verifier::loop_isolation(false)]
    #[verifier::rlimit(100)]
    pub fn new(maze: &Vec<Vec<char>>) -> (r: Result<Graph, MalformedGridError>)
        requires
            maze@.len() <= i64::MAX,
            forall|y: int| 0 <= y < maze@.len() ==> (#[trigger] maze@[y]@.len()) <= i64::MAX,
        ensures
            (r is Err) <==> grid_fault(grid_of(maze@)) is Some,
            r matches Err(e) ==> Some(e) == grid_fault(grid_of(maze@)),
            r matches Ok(graph) ==> ({
                let g = grid_of(maze@);
                &&& graph.wf()
                &&& graph.n() >= 1
                &&& graph.y_bound_spec() == g.len()
                &&& graph.x_bound_spec() == max_row_len(g)
                &&& (forall|p: Point|
                    #[trigger] graph.nodes_seq().contains(p) <==> traversable_at(
                        g,
                        p.x as int,
                        p.y as int,
                    ))
                &&& (forall|p: Point|
                    #[trigger] graph.walls_seq().contains(p) <==> wall_at(
                        g,
                        p.x as int,
                        p.y as int,
                    ))
                &&& graph.walls_seq().no_duplicates()
                &&& g[graph.nodes_seq()[graph.start_idx()].y as int][graph.nodes_seq()[graph.start_idx()].x as int]
                    == 'S'
                &&& g[graph.nodes_seq()[graph.end_idx()].y as int][graph.nodes_seq()[graph.end_idx()].x as int]
                    == 'E'
                &&& (forall|i: int|
                    0 <= i < graph.n() ==> (#[trigger] graph.adj()[i]).map_values(
                        |k: usize| graph.nodes_seq()[k as int],
                    ) =~= spec_neighbors(graph.nodes_seq(), graph.nodes_seq()[i]))
                &&& (forall|v: int|
                    0 <= v < graph.n() ==> (#[trigger] graph.dists()[v]) is None
                        && graph.preds()[v] is None)
                &&& count_char(g, 'S') == 1
                &&& count_char(g, 'E') == 1
            }),
    {
        let ghost g = grid_of(maze@);
        proof {
            assert(g.len() == maze@.len());
            assert(forall|yy: int| 0 <= yy < g.len() ==> g[yy] == maze@[yy]@);
        }
        if maze.len() == 0 {
            return Err(MalformedGridError::EmptyGrid);
        }
        let y_bound = maze.len();
        let mut nodes: Vec<Point> = Vec::new();
        let mut walls: Vec<Point> = Vec::new();
        let mut s_cap: usize = 0;
        let mut e_cap: usize = 0;
        let mut s_idx: usize = 0;
        let mut e_idx: usize = 0;
        let mut x_bound: usize = 0;
        let mut y: usize = 0;
        while y < maze.len()
            invariant
                y <= maze@.len(),
                forall|k: int|
                    0 <= k < nodes@.len() ==> traversable_at(
                        g,
                        (#[trigger] nodes@[k]).x as int,
                        nodes@[k].y as int,
                    ) && 0 <= nodes@[k].y < y,
                forall|xx: int, yy: int|
                    0 <= yy < y && traversable_at(g, xx, yy) ==> nodes@.contains(
                        Point { x: xx as i64, y: yy as i64 },
                    ),
                forall|k1: int, k2: int|
                    0 <= k1 < k2 < nodes@.len() ==> lex_lt(
                        #[trigger] nodes@[k1],
                        #[trigger] nodes@[k2],
                    ),
                forall|k: int|
                    0 <= k < walls@.len() ==> wall_at(
                        g,
                        (#[trigger] walls@[k]).x as int,
                        walls@[k].y as int,
                    ) && 0 <= walls@[k].y < y,
                forall|xx: int, yy: int|
                    0 <= yy < y && wall_at(g, xx, yy) ==> walls@.contains(
                        Point { x: xx as i64, y: yy as i64 },
                    ),
                forall|k1: int, k2: int|
                    0 <= k1 < k2 < walls@.len() ==> lex_lt(
                        #[trigger] walls@[k1],
                        #[trigger] walls@[k2],
                    ),
                s_cap == cap2(count_upto(g, 'S', y as int)),
                e_cap == cap2(count_upto(g, 'E', y as int)),
                s_cap >= 1 ==> (s_idx as int) < nodes@.len()
                    && g[nodes@[s_idx as int].y as int][nodes@[s_idx as int].x as int] == 'S',
                e_cap >= 1 ==> (e_idx as int) < nodes@.len()
                    && g[nodes@[e_idx as int].y as int][nodes@[e_idx as int].x as int] == 'E',
                x_bound == max_row_len_upto(g, y as int),
            decreases maze@.len() - y,
        {
            let row_len = maze[y].len();
            let mut x: usize = 0;
            while x < row_len
                invariant
                    x <= row_len,
                    forall|k: int|
                        0 <= k < nodes@.len() ==> traversable_at(
                            g,
                            (#[trigger] nodes@[k]).x as int,
                            nodes@[k].y as int,
                        ) && 0 <= nodes@[k].y && (nodes@[k].y < y || (nodes@[k].y == y
                            && nodes@[k].x < x)),
                    forall|xx: int, yy: int|
                        0 <= yy && traversable_at(g, xx, yy) && (yy < y || (yy == y && xx < x))
                            ==> nodes@.contains(Point { x: xx as i64, y: yy as i64 }),
                    forall|k1: int, k2: int|
                        0 <= k1 < k2 < nodes@.len() ==> lex_lt(
                            #[trigger] nodes@[k1],
                            #[trigger] nodes@[k2],
                        ),
                    forall|k: int|
                        0 <= k < walls@.len() ==> wall_at(
                            g,
                            (#[trigger] walls@[k]).x as int,
                            walls@[k].y as int,
                        ) && 0 <= walls@[k].y && (walls@[k].y < y || (walls@[k].y == y
                            && walls@[k].x < x)),
                    forall|xx: int, yy: int|
                        0 <= yy && wall_at(g, xx, yy) && (yy < y || (yy == y && xx < x))
                            ==> walls@.contains(Point { x: xx as i64, y: yy as i64 }),
                    forall|k1: int, k2: int|
                        0 <= k1 < k2 < walls@.len() ==> lex_lt(
                            #[trigger] walls@[k1],
                            #[trigger] walls@[k2],
                        ),
                    s_cap == cap2(
                        count_upto(g, 'S', y as int) + count_in_row(g[y as int], 'S', x as int),
                    ),
                    e_cap == cap2(
                        count_upto(g, 'E', y as int) + count_in_row(g[y as int], 'E', x as int),
                    ),
                    s_cap >= 1 ==> (s_idx as int) < nodes@.len()
                        && g[nodes@[s_idx as int].y as int][nodes@[s_idx as int].x as int] == 'S',
                    e_cap >= 1 ==> (e_idx as int) < nodes@.len()
                        && g[nodes@[e_idx as int].y as int][nodes@[e_idx as int].x as int] == 'E',
                decreases row_len - x,
            {
                let ch = maze[y][x];
                let p = Point { x: x as i64, y: y as i64 };
                let ghost nodes0 = nodes@;
                let ghost walls0 = walls@;
                if ch == '.' || ch == 'S' || ch == 'E' {
                    if ch == 'S' {
                        if s_cap == 0 {
                            s_idx = nodes.len();
                        }
                        if s_cap < 2 {
                            s_cap = s_cap + 1;
                        }
                    }
                    if ch == 'E' {
                        if e_cap == 0 {
                            e_idx = nodes.len();
                        }
                        if e_cap < 2 {
                            e_cap = e_cap + 1;
                        }
                    }
                    nodes.push(p);
                    proof {
                        lemma_push_contains(nodes0, p);
                    }
                } else {
                    walls.push(p);
                    proof {
                        lemma_push_contains(walls0, p);
                    }
                }
                x += 1;
            }
            if row_len > x_bound {
                x_bound = row_len;
            }
            y += 1;
        }
        if s_cap > 1 {
            return Err(MalformedGridError::MultipleStart);
        }
        if s_cap == 0 {
            return Err(MalformedGridError::MissingStart);
        }
        if e_cap > 1 {
            return Err(MalformedGridError::MultipleEnd);
        }
        if e_cap == 0 {
            return Err(MalformedGridError::MissingEnd);
        }
        proof {
            lemma_lex_nodup(nodes@);
            lemma_lex_nodup(walls@);
            assert forall|k: int| 0 <= k < nodes@.len() implies 0 <= (
            #[trigger] nodes@[k]).x < x_bound && 0 <= nodes@[k].y < y_bound by {
                lemma_max_row_len_bound(g, nodes@[k].y as int);
            }
        }
        let adjacency = build_adjacency(&nodes);
        let n = nodes.len();
        let dist = none_vec(n);
        let pred = none_vec(n);
        let graph = Graph {
            nodes,
            adjacency,
            dist,
            pred,
            walls,
            start: s_idx,
            end: e_idx,
            x_bound,
            y_bound,
        };
        proof {
            assert(forall|i: int|
                0 <= i < graph.n() ==> #[trigger] graph.adj()[i] == graph.adjacency@[i]@);
            assert forall|i: int, k: int|
                0 <= i < graph.n() && 0 <= k < graph.adj()[i].len() implies cardinal_adjacent(
                graph.nodes_seq()[i],
                graph.nodes_seq()[#[trigger] graph.adj()[i][k] as int],
            ) by {
                lemma_spec_neighbors_cardinal(graph.nodes_seq(), graph.nodes_seq()[i]);
                assert(graph.adj()[i].map_values(|kk: usize| graph.nodes_seq()[kk as int])[k]
                    == graph.nodes_seq()[graph.adj()[i][k] as int]);
                assert(graph.nodes_seq()[graph.adj()[i][k] as int] == spec_neighbors(
                    graph.nodes_seq(),
                    graph.nodes_seq()[i],
                )[k]);
            }
            assert(graph.wf_static());
            assert(graph.wf_query());
        }
        Ok(graph)
    }
}

/// Row-major order on coordinates: by row, then by column.
pub open spec fn lex_lt(a: Point, b: Point) -> bool {
    a.y < b.y || (a.y == b.y && a.x < b.x)
}

/// A strictly increasing sequence of coordinates holds no duplicates.
proof fn lemma_lex_nodup(s: Seq<Point>)
    requires
        forall|k1: int, k2: int| 0 <= k1 < k2 < s.len() ==> lex_lt(#[trigger] s[k1], #[trigger] s[k2]),
    ensures
        s.no_duplicates(),
{
    assert forall|i: int, j: int| 0 <= i < s.len() && 0 <= j < s.len() && i != j implies s[i]
        != s[j] by {
        if i < j {
            assert(lex_lt(s[i], s[j]));
        } else {
            assert(lex_lt(s[j], s[i]));
        }
    }
}

/// The recorded maximum row length grows monotonically with the number of
/// rows considered.
proof fn lemma_max_row_len_monotone(g: Seq<Seq<char>>, a: int, b: int)
    requires
        0 <= a <= b <= g.len(),
    ensures
        max_row_len_upto(g, a) <= max_row_len_upto(g, b),
    decreases b,
{
    if a < b {
        lemma_max_row_len_monotone(g, a, b - 1);
    }
}

/// Every row is no longer than the longest row.
proof fn lemma_max_row_len_bound(g: Seq<Seq<char>>, y: int)
    requires
        0 <= y < g.len(),
    ensures
        g[y].len() <= max_row_len(g),
{
    assert(max_row_len_upto(g, y + 1) >= g[y].len());
    lemma_max_row_len_monotone(g, y + 1, g.len() as int);
}

/// Every neighbor listed by `spec_neighbors` is one cardinal step away from
/// its center cell.
proof fn lemma_spec_neighbors_cardinal(nodes: Seq<Point>, p: Point)
    requires
        0 <= p.x < i64::MAX,
        0 <= p.y < i64::MAX,
    ensures
        forall|k: int|
            0 <= k < spec_neighbors(nodes, p).len() ==> cardinal_adjacent(
                p,
                #[trigger] spec_neighbors(nodes, p)[k],
            ),
{
    assert(cardinal_adjacent(p, north_of(p)));
    assert(cardinal_adjacent(p, east_of(p)));
    assert(cardinal_adjacent(p, south_of(p)));
    assert(cardinal_adjacent(p, west_of(p)));
}

/// A vector of `n` empty cost or predecessor entries.
fn none_vec(n: usize) -> (r: Vec<Option<usize>>)
    ensures
        r@.len() == n,
        forall|v: int| 0 <= v < n ==> (#[trigger] r@[v]) is None,
{
    let mut r: Vec<Option<usize>> = Vec::new();
    let mut i: usize = 0;
    while i < n
        invariant
            i <= n,
            r@.len() == i,
            forall|v: int| 0 <= v < i ==> (#[trigger] r@[v]) is None,
        decreases n - i,
    {
        r.push(None);
        i += 1;
    }
    r
}

/// For every traversable cell, the indices of its traversable cardinal
/// neighbors, in north, east, south, west order.
#[verifier::loop_isolation(false)]
fn build_adjacency(nodes: &Vec<Point>) -> (adj: Vec<Vec<usize>>)
    requires
        forall|k: int|
            0 <= k < nodes@.len() ==> 0 <= (#[trigger] nodes@[k]).x < i64::MAX && 0
                <= nodes@[k].y < i64::MAX,
    ensures
        adj@.len() == nodes@.len(),
        forall|i: int, k: int|
            0 <= i < adj@.len() && 0 <= k < adj@[i]@.len() ==> (#[trigger] adj@[i]@[k])
                < nodes@.len(),
        forall|i: int|
            0 <= i < adj@.len() ==> (#[trigger] adj@[i]@).map_values(|k: usize| nodes@[k as int])
                =~= spec_neighbors(nodes@, nodes@[i]),
{
    let mut adj: Vec<Vec<usize>> = Vec::new();
    let n = nodes.len();
    let mut i: usize = 0;
    while i < n
        invariant
            i <= n,
            adj@.len() == i,
            forall|i2: int, k: int|
                0 <= i2 < adj@.len() && 0 <= k < adj@[i2]@.len() ==> (#[trigger] adj@[i2]@[k]) < n,
            forall|i2: int|
                0 <= i2 < adj@.len() ==> (#[trigger] adj@[i2]@).map_values(
                    |k: usize| nodes@[k as int],
                ) =~= spec_neighbors(nodes@, nodes@[i2]),
        decreases n - i,
    {
        let p = nodes[i];
        let mut row: Vec<usize> = Vec::new();
        let cn = Point { x: p.x, y: p.y - 1 };
        let ce = Point { x: p.x + 1, y: p.y };
        let cs = Point { x: p.x, y: p.y + 1 };
        let cw = Point { x: p.x - 1, y: p.y };
        proof {
            assert(cn == north_of(p));
            assert(ce == east_of(p));
            assert(cs == south_of(p));
            assert(cw == west_of(p));
        }
        if let Some(j) = find_node(nodes, cn) {
            row.push(j);
        }
        proof {
            assert(row@.map_values(|k: usize| nodes@[k as int]) =~= (if nodes@.contains(
                north_of(p),
            ) {
                seq![north_of(p)]
            } else {
                Seq::<Point>::empty()
            }));
        }
        let ghost r1 = row@;
        if let Some(j) = find_node(nodes, ce) {
            row.push(j);
        }
        proof {
            assert(row@.map_values(|k: usize| nodes@[k as int]) =~= r1.map_values(
                |k: usize| nodes@[k as int],
            ) + (if nodes@.contains(east_of(p)) {
                seq![east_of(p)]
            } else {
                Seq::<Point>::empty()
            }));
        }
        let ghost r2 = row@;
        if let Some(j) = find_node(nodes, cs) {
            row.push(j);
        }
        proof {
            assert(row@.map_values(|k: usize| nodes@[k as int]) =~= r2.map_values(
                |k: usize| nodes@[k as int],
            ) + (if nodes@.contains(south_of(p)) {
                seq![south_of(p)]
            } else {
                Seq::<Point>::empty()
            }));
        }
        let ghost r3 = row@;
        if let Some(j) = find_node(nodes, cw) {
            row.push(j);
        }
        proof {
            assert(row@.map_values(|k: usize| nodes@[k as int]) =~= r3.map_values(
                |k: usize| nodes@[k as int],
            ) + (if nodes@.contains(west_of(p)) {
                seq![west_of(p)]
            } else {
                Seq::<Point>::empty()
            }));
            assert(row@.map_values(|k: usize| nodes@[k as int]) =~= spec_neighbors(
                nodes@,
                nodes@[i as int],
            ));
        }
        adj.push(row);
        i += 1;
    }
    adj
}

/// A reversed predecessor chain, mapped to coordinates in forward order,
/// forms a valid route from the start cell to the end cell.
proof fn lemma_chain_to_path(g: Graph, grev: Seq<usize>, path: Seq<Point>, c: int)
    requires
        g.wf(),
        c >= 0,
        grev.len() == c + 1,
        grev[0] as int == g.end_idx(),
        grev[c] as int == g.start_idx(),
        forall|i: int| 0 <= i < grev.len() ==> (#[trigger] grev[i]) < g.n(),
        forall|i: int|
            0 <= i < grev.len() - 1 ==> has_edge(
                g.adj(),
                grev[i + 1] as int,
                #[trigger] grev[i] as int,
            ),
        path.len() == grev.len(),
        forall|j: int|
            0 <= j < path.len() ==> #[trigger] path[j] == g.nodes_seq()[grev[grev.len() - 1
                - j] as int],
    ensures
        path[0] == g.nodes_seq()[g.start_idx()],
        path[c] == g.nodes_seq()[g.end_idx()],
        forall|i: int| 0 <= i < c ==> cardinal_adjacent(#[trigger] path[i], path[i + 1]),
        exists|q: Seq<int>|
            connects(g.adj(), q, g.start_idx(), g.end_idx()) && q.len() == c + 1 && path =~= q
                .map_values(|u: int| g.nodes_seq()[u]),
{
    let q = Seq::new(grev.len(), |j: int| grev[grev.len() - 1 - j] as int);
    assert(connects(g.adj(), q, g.start_idx(), g.end_idx())) by {
        assert(q[0] == grev[grev.len() - 1] as int);
        assert forall|j: int| 0 <= j < q.len() - 1 implies has_edge(
            g.adj(),
            #[trigger] q[j],
            q[j + 1],
        ) by {
            let ii = grev.len() - 2 - j;
            assert(has_edge(g.adj(), grev[ii + 1] as int, grev[ii] as int));
        }
    }
    assert(path =~= q.map_values(|u: int| g.nodes_seq()[u]));
    assert forall|j: int| 0 <= j < c implies cardinal_adjacent(
        #[trigger] path[j],
        path[j + 1],
    ) by {
        assert(has_edge(g.adj(), q[j], q[j + 1]));
        let k = choose|k: int|
            0 <= k < g.adj()[q[j]].len() && (#[trigger] g.adj()[q[j]][k]) as int == q[j + 1];
        assert(cardinal_adjacent(g.nodes_seq()[q[j]], g.nodes_seq()[g.adj()[q[j]][k] as int]));
    }
}

/// Map a reversed chain of node indices to coordinates in forward order.
fn indices_to_points(nodes: &Vec<Point>, rev: &Vec<usize>) -> (path: Vec<Point>)
    requires
        forall|i: int| 0 <= i < rev@.len() ==> (#[trigger] rev@[i]) < nodes@.len(),
    ensures
        path@.len() == rev@.len(),
        forall|j: int|
            0 <= j < path@.len() ==> #[trigger] path@[j] == nodes@[rev@[rev@.len() - 1 - j] as int],
{
    let mut path: Vec<Point> = Vec::new();
    let mut i: usize = rev.len();
    while i > 0
        invariant
            forall|k: int| 0 <= k < rev@.len() ==> (#[trigger] rev@[k]) < nodes@.len(),
            i <= rev@.len(),
            path@.len() == rev@.len() - i,
            forall|j: int|
                0 <= j < path@.len() ==> #[trigger] path@[j] == nodes@[rev@[rev@.len() - 1
                    - j] as int],
        decreases i,
    {
        i -= 1;
        let u = rev[i];
        path.push(nodes[u]);
    }
    path
}

/// Index of `p` in the node list, by linear scan.
fn find_node(nodes: &Vec<Point>, p: Point) -> (r: Option<usize>)
    ensures
        match r {
            Some(j) => j < nodes@.len() && nodes@[j as int] == p,
            None => !nodes@.contains(p),
        },
{
    let mut j: usize = 0;
    while j < nodes.len()
        invariant
            j <= nodes@.len(),
            forall|k: int| 0 <= k < j ==> nodes@[k] != p,
        decreases nodes@.len() - j,
    {
        if nodes[j].x == p.x && nodes[j].y == p.y {
            return Some(j);
        }
        j += 1;
    }
    None
}

} // verus!
