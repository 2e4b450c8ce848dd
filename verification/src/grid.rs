//! The geometry of the grid and what it means for an assignment of tiles to
//! cells to be consistent with the tiles' borders.

use vstd::prelude::*;
use crate::boundary::{Boundary, Direction};

verus! {

/// How far a step in direction `d` moves along the x axis.
pub open spec fn delta_x(d: Direction) -> int {
    match d {
        Direction::NorthWest | Direction::West | Direction::SouthWest => -1,
        Direction::North | Direction::South => 0,
        Direction::NorthEast | Direction::East | Direction::SouthEast => 1,
    }
}

/// How far a step in direction `d` moves along the y axis; north is up, towards row 0.
pub open spec fn delta_y(d: Direction) -> int {
    match d {
        Direction::NorthWest | Direction::North | Direction::NorthEast => -1,
        Direction::West | Direction::East => 0,
        Direction::SouthWest | Direction::South | Direction::SouthEast => 1,
    }
}

/// Whether `(x, y)` is among `queue`.
pub open spec fn is_queued(queue: Seq<(usize, usize)>, x: int, y: int) -> bool {
    exists|i: int| 0 <= i < queue.len() && (#[trigger] queue[i]).0 == x && queue[i].1 == y
}

/// Every tile that `a` allows somewhere, `b` allows there too.
pub open spec fn flags_within(a: Seq<Seq<bool>>, b: Seq<Seq<bool>>) -> bool {
    &&& a.len() == b.len()
    &&& forall|i: int, t: int|
        0 <= i < a.len() && 0 <= t < a[i].len() && #[trigger] a[i][t] ==> t < b[i].len() && b[i][t]
}

/// The queue after `(x, y)` was added to it: unchanged where the cell was
/// waiting already.
pub open spec fn queue_add(queue: Seq<(usize, usize)>, x: usize, y: usize) -> Seq<(usize, usize)> {
    if is_queued(queue, x as int, y as int) {
        queue
    } else {
        queue.push((x, y))
    }
}

/// The cells that are waiting in `queue`, as a set.
pub open spec fn waiting_of(queue: Seq<(usize, usize)>) -> Set<(int, int)> {
    Set::new(|c: (int, int)| is_queued(queue, c.0, c.1))
}

/// Whether some tile that `source` allows fits tile `t` placed on its `d` side.
pub open spec fn supported(tiles: Seq<Boundary>, source: Seq<bool>, t: int, d: Direction) -> bool {
    exists|s: int|
        0 <= s < tiles.len() && 0 <= s < source.len() && #[trigger] source[s] && tiles[s].spec_fits(
            tiles[t],
            d,
        )
}

/// Whether a cell with these flags allows no tile at all.
pub open spec fn no_tile(row: Seq<bool>) -> bool {
    forall|t: int| 0 <= t < row.len() ==> !row[t]
}

/// A tile set laid out on a rectangle of cells, stored row by row.
pub struct Layout {
    pub tiles: Seq<Boundary>,
    pub width: nat,
    pub height: nat,
}

impl Layout {
    pub open spec fn in_bounds(self, x: int, y: int) -> bool {
        0 <= x < self.width && 0 <= y < self.height
    }

    /// Where the cell `(x, y)` stands in the row-major list of cells.
    pub open spec fn index(self, x: int, y: int) -> int {
        y * self.width + x
    }

    /// The cell next to `(x, y)` in direction `d`, if the grid has one.
    pub open spec fn neighbour(self, x: int, y: int, d: Direction) -> Option<(int, int)> {
        if self.in_bounds(x + delta_x(d), y + delta_y(d)) {
            Some((x + delta_x(d), y + delta_y(d)))
        } else {
            None
        }
    }

    /// Whether tile `t` connects towards the given side of the grid: side 0 is
    /// the north, 1 the east, 2 the south, 3 the west.  A corner connection
    /// counts for both sides that meet there.
    pub open spec fn side_needs(self, t: int, side: int) -> bool {
        let b = self.tiles[t]@;
        if side == 0 {
            b[Direction::North.index()] || b[Direction::NorthEast.index()]
                || b[Direction::NorthWest.index()]
        } else if side == 1 {
            b[Direction::East.index()] || b[Direction::NorthEast.index()]
                || b[Direction::SouthEast.index()]
        } else if side == 2 {
            b[Direction::South.index()] || b[Direction::SouthEast.index()]
                || b[Direction::SouthWest.index()]
        } else {
            b[Direction::West.index()] || b[Direction::NorthWest.index()]
                || b[Direction::SouthWest.index()]
        }
    }

    /// Whether the cell `(x, y)` lies on the given side of the grid.
    pub open spec fn on_side(self, x: int, y: int, side: int) -> bool {
        if side == 0 {
            y == 0
        } else if side == 1 {
            x == self.width - 1
        } else if side == 2 {
            y == self.height - 1
        } else {
            x == 0
        }
    }

    /// Whether tile `t`, put in cell `(x, y)`, would connect across the edge
    /// of the grid.
    pub open spec fn leaves_grid(self, x: int, y: int, t: int) -> bool {
        exists|side: int| 0 <= side < 4 && #[trigger] self.on_side(x, y, side)
            && self.side_needs(t, side)
    }

    /// There is one list of flags per cell, and one flag per tile in each.
    pub open spec fn shaped(self, flags: Seq<Seq<bool>>) -> bool {
        &&& flags.len() == self.width * self.height
        &&& forall|i: int| 0 <= i < flags.len() ==> (#[trigger] flags[i]).len() == self.tiles.len()
    }

    /// Every tile still allowed in the `d` neighbour of `(x, y)` has a tile
    /// allowed in `(x, y)` that it fits next to.
    pub open spec fn arc_ok(self, flags: Seq<Seq<bool>>, x: int, y: int, d: Direction) -> bool {
        self.neighbour(x, y, d) matches Some((nx, ny)) ==> forall|t: int|
            0 <= t < self.tiles.len() && #[trigger] flags[self.index(nx, ny)][t] ==> supported(
                self.tiles,
                flags[self.index(x, y)],
                t,
                d,
            )
    }

    /// Every pair of adjacent cells is arc consistent, in every direction.
    pub open spec fn consistent(self, flags: Seq<Seq<bool>>) -> bool {
        forall|x: int, y: int, d: Direction|
            self.in_bounds(x, y) ==> #[trigger] self.arc_ok(flags, x, y, d)
    }

    /// Every arc is consistent, except perhaps those that leave a waiting cell.
    pub open spec fn consistent_but(self, flags: Seq<Seq<bool>>, waiting: Set<(int, int)>) -> bool {
        forall|x: int, y: int, d: Direction|
            self.in_bounds(x, y) && !waiting.contains((x, y)) ==> #[trigger] self.arc_ok(
                flags,
                x,
                y,
                d,
            )
    }

    /// `inner` is an arc-consistent assignment that allows no more than `flags`.
    pub open spec fn stable_in(self, inner: Seq<Seq<bool>>, flags: Seq<Seq<bool>>) -> bool {
        self.shaped(inner) && flags_within(inner, flags) && self.consistent(inner)
    }

    /// Every tile that `enabled` allows has, in every direction, a tile that
    /// `enabled` allows and that it fits next to.
    pub open spec fn self_supporting(self, enabled: Seq<bool>) -> bool {
        forall|t: int, d: Direction|
            0 <= t < self.tiles.len() && #[trigger] enabled[t] ==> #[trigger] supported(
                self.tiles,
                enabled,
                t,
                d,
            )
    }

    /// A grid whose cells all allow the same self-supporting set of tiles is
    /// arc consistent.
    pub proof fn lemma_uniform_consistent(self, flags: Seq<Seq<bool>>, enabled: Seq<bool>)
        requires
            self.shaped(flags),
            self.self_supporting(enabled),
            forall|i: int| 0 <= i < flags.len() ==> #[trigger] flags[i] == enabled,
        ensures
            self.consistent(flags),
    {
        assert forall|x: int, y: int, d: Direction| self.in_bounds(x, y)
            implies #[trigger] self.arc_ok(
            flags,
            x,
            y,
            d,
        ) by {
            if self.neighbour(x, y, d) is Some {
                let (nx, ny) = self.neighbour(x, y, d).unwrap();
                self.lemma_neighbour(x, y, d);
                self.lemma_index(x, y);
                self.lemma_index(nx, ny);
                assert(flags[self.index(x, y)] == enabled);
                assert(flags[self.index(nx, ny)] == enabled);
                assert forall|t: int|
                    0 <= t < self.tiles.len() && #[trigger] flags[self.index(nx, ny)][t]
                        implies supported(
                    self.tiles,
                    flags[self.index(x, y)],
                    t,
                    d,
                ) by {
                    assert(enabled[t]);
                }
            }
        }
    }

    /// Whether the cell `(x, y)` has to answer for its arcs in `inner`: it was
    /// waiting, or it allows less in `inner` than in `flags`.
    pub open spec fn answers(
        self,
        inner: Seq<Seq<bool>>,
        flags: Seq<Seq<bool>>,
        waiting: Set<(int, int)>,
        x: int,
        y: int,
    ) -> bool {
        waiting.contains((x, y)) || inner[self.index(x, y)] != flags[self.index(x, y)]
    }

    /// `inner` allows no more than `flags`, and every arc in it is consistent
    /// that leaves a cell which was waiting or which allows less than in
    /// `flags`.  Such an assignment is one that propagation from the waiting
    /// cells could come to rest on.
    pub open spec fn settled_in(
        self,
        inner: Seq<Seq<bool>>,
        flags: Seq<Seq<bool>>,
        waiting: Set<(int, int)>,
    ) -> bool {
        &&& self.shaped(inner)
        &&& flags_within(inner, flags)
        &&& forall|x: int, y: int, d: Direction|
            self.in_bounds(x, y) && self.answers(inner, flags, waiting, x, y)
                ==> #[trigger] self.arc_ok(inner, x, y, d)
    }

    /// Whether tile `t` at cell `i` belongs to some assignment inside `flags`
    /// that propagation from the waiting cells could come to rest on.
    pub open spec fn remains(
        self,
        flags: Seq<Seq<bool>>,
        waiting: Set<(int, int)>,
        i: int,
        t: int,
    ) -> bool {
        exists|inner: Seq<Seq<bool>>|
            #[trigger] self.settled_in(inner, flags, waiting) && 0 <= i < inner.len() && 0 <= t
                < inner[i].len() && inner[i][t]
    }

    /// What propagation from the waiting cells leaves of `flags`: the greatest
    /// assignment it could come to rest on.
    pub open spec fn settled(self, flags: Seq<Seq<bool>>, waiting: Set<(int, int)>) -> Seq<
        Seq<bool>,
    > {
        Seq::new(
            flags.len(),
            |i: int| Seq::new(self.tiles.len(), |t: int| self.remains(flags, waiting, i, t)),
        )
    }

    /// Propagation from the waiting cells empties no cell: every cell that
    /// has a tile in `flags` has one in what propagation leaves of `flags`.
    pub open spec fn holds_up(self, flags: Seq<Seq<bool>>, waiting: Set<(int, int)>) -> bool {
        forall|i: int|
            0 <= i < flags.len() && !no_tile(#[trigger] flags[i]) ==> !no_tile(
                self.settled(flags, waiting)[i],
            )
    }

    /// Every assignment inside `outer` that propagation from the waiting
    /// cells could come to rest on is inside `flags` too.
    pub open spec fn keeps_settled(
        self,
        flags: Seq<Seq<bool>>,
        outer: Seq<Seq<bool>>,
        waiting: Set<(int, int)>,
    ) -> bool {
        forall|inner: Seq<Seq<bool>>| #[trigger]
            self.settled_in(inner, outer, waiting) ==> flags_within(inner, flags)
    }

    /// Every arc-consistent assignment inside `flags` leaves some cell
    /// without a tile: there is no way to fill the grid from `flags`.
    pub open spec fn dead_end(self, flags: Seq<Seq<bool>>) -> bool {
        forall|inner: Seq<Seq<bool>>| #[trigger]
            self.stable_in(inner, flags) ==> exists|i: int|
                0 <= i < inner.len() && no_tile(#[trigger] inner[i])
    }

    /// Every arc-consistent assignment inside `outer` is inside `flags` too.
    pub open spec fn keeps_stable(self, flags: Seq<Seq<bool>>, outer: Seq<Seq<bool>>) -> bool {
        forall|inner: Seq<Seq<bool>>| #[trigger]
            self.stable_in(inner, outer) ==> flags_within(inner, flags)
    }

    /// Taking tiles away from waiting cells leaves every arc consistent that
    /// does not leave one of those cells.
    pub proof fn lemma_shrunk_keeps_arcs(
        self,
        before: Seq<Seq<bool>>,
        after: Seq<Seq<bool>>,
        waiting: Set<(int, int)>,
    )
        requires
            self.shaped(before),
            self.shaped(after),
            flags_within(after, before),
            self.consistent(before),
            forall|a: int, b: int|
                self.in_bounds(a, b) && !waiting.contains((a, b)) ==> after[#[trigger] self.index(
                    a,
                    b,
                )] == before[self.index(a, b)],
        ensures
            self.consistent_but(after, waiting),
    {
        assert forall|a: int, b: int, e: Direction|
            self.in_bounds(a, b) && !waiting.contains((a, b)) implies #[trigger] self.arc_ok(
            after,
            a,
            b,
            e,
        ) by {
            assert(self.arc_ok(before, a, b, e));
            self.lemma_index(a, b);
            let src = self.index(a, b);
            assert(after[src] == before[src]);
            if self.neighbour(a, b, e) is Some {
                let (mx, my) = self.neighbour(a, b, e).unwrap();
                self.lemma_neighbour(a, b, e);
                self.lemma_index(mx, my);
                let dst = self.index(mx, my);
                assert forall|t: int|
                    0 <= t < self.tiles.len() && #[trigger] after[dst][t] implies supported(
                    self.tiles,
                    after[src],
                    t,
                    e,
                ) by {
                    assert(before[dst][t]);
                }
            }
        }
    }

    /// An arc-consistent assignment is one that propagation could come to
    /// rest on, whichever cells were waiting.
    pub proof fn lemma_stable_is_settled(
        self,
        inner: Seq<Seq<bool>>,
        flags: Seq<Seq<bool>>,
        waiting: Set<(int, int)>,
    )
        requires
            self.stable_in(inner, flags),
        ensures
            self.settled_in(inner, flags, waiting),
    {
    }

    /// Where every arc was consistent that does not leave a waiting cell, an
    /// assignment that propagation could come to rest on is arc consistent.
    pub proof fn lemma_settled_is_stable(
        self,
        inner: Seq<Seq<bool>>,
        flags: Seq<Seq<bool>>,
        waiting: Set<(int, int)>,
    )
        requires
            self.shaped(flags),
            self.settled_in(inner, flags, waiting),
            self.consistent_but(flags, waiting),
        ensures
            self.consistent(inner),
    {
        assert forall|x: int, y: int, d: Direction| self.in_bounds(x, y)
            implies #[trigger] self.arc_ok(
            inner,
            x,
            y,
            d,
        ) by {
            if !self.answers(inner, flags, waiting, x, y) {
                assert(self.arc_ok(flags, x, y, d));
                if self.neighbour(x, y, d) is Some {
                    let (nx, ny) = self.neighbour(x, y, d).unwrap();
                    self.lemma_neighbour(x, y, d);
                    self.lemma_index(x, y);
                    self.lemma_index(nx, ny);
                    let src = self.index(x, y);
                    let dst = self.index(nx, ny);
                    assert forall|t: int|
                        0 <= t < self.tiles.len() && #[trigger] inner[dst][t] implies supported(
                        self.tiles,
                        inner[src],
                        t,
                        d,
                    ) by {
                        assert(flags[dst][t]);
                    }
                }
            }
        }
    }

    /// Flags that hold every assignment propagation could come to rest on
    /// hold every arc-consistent assignment.
    pub proof fn lemma_keeps_stable(
        self,
        flags: Seq<Seq<bool>>,
        outer: Seq<Seq<bool>>,
        waiting: Set<(int, int)>,
    )
        requires
            self.keeps_settled(flags, outer, waiting),
        ensures
            self.keeps_stable(flags, outer),
    {
        assert forall|inner: Seq<Seq<bool>>| #[trigger]
            self.stable_in(inner, outer) implies flags_within(inner, flags) by {
            self.lemma_stable_is_settled(inner, outer, waiting);
        }
    }

    /// Cells in bounds have their own places in the list of cells.
    pub proof fn lemma_index(self, x: int, y: int)
        requires
            self.in_bounds(x, y),
        ensures
            0 <= self.index(x, y) < self.width * self.height,
            self.index(x, y) % (self.width as int) == x,
            self.index(x, y) / (self.width as int) == y,
    {
        let w = self.width as int;
        let h = self.height as int;
        assert(y * w + x < w * h) by (nonlinear_arith)
            requires
                0 <= x < w,
                0 <= y < h,
        ;
        assert(y * w >= 0) by (nonlinear_arith)
            requires
                0 <= y,
                0 <= w,
        ;
        vstd::arithmetic::div_mod::lemma_fundamental_div_mod_converse(y * w + x, w, y, x);
    }

    /// Different cells stand at different places.
    pub proof fn lemma_index_injective(self, x0: int, y0: int, x1: int, y1: int)
        requires
            self.in_bounds(x0, y0),
            self.in_bounds(x1, y1),
            self.index(x0, y0) == self.index(x1, y1),
        ensures
            x0 == x1,
            y0 == y1,
    {
        self.lemma_index(x0, y0);
        self.lemma_index(x1, y1);
    }

    /// Every place in the list of cells belongs to a cell in bounds.
    pub proof fn lemma_coord(self, i: int)
        requires
            0 <= i < self.width * self.height,
        ensures
            self.width > 0,
            self.in_bounds(i % (self.width as int), i / (self.width as int)),
            self.index(i % (self.width as int), i / (self.width as int)) == i,
    {
        let w = self.width as int;
        let h = self.height as int;
        assert(w > 0) by (nonlinear_arith)
            requires
                0 <= i < w * h,
                0 <= w,
        ;
        vstd::arithmetic::div_mod::lemma_fundamental_div_mod(i, w);
        vstd::arithmetic::div_mod::lemma_mod_bound(i, w);
        vstd::arithmetic::div_mod::lemma_div_pos_is_pos(i, w);
        let q = i / w;
        let r = i % w;
        assert(q < h) by (nonlinear_arith)
            requires
                i == w * q + r,
                0 <= r < w,
                i < w * h,
                0 <= q,
        ;
        assert(w * q == q * w) by (nonlinear_arith);
    }

    /// A neighbour is a different cell, in bounds, and looking back from it in
    /// the opposite direction gives the cell one came from.
    pub proof fn lemma_neighbour(self, x: int, y: int, d: Direction)
        requires
            self.in_bounds(x, y),
            self.neighbour(x, y, d) is Some,
        ensures
            self.in_bounds(self.neighbour(x, y, d).unwrap().0, self.neighbour(x, y, d).unwrap().1),
            self.neighbour(x, y, d).unwrap() != (x, y),
            self.index(self.neighbour(x, y, d).unwrap().0, self.neighbour(x, y, d).unwrap().1)
                != self.index(x, y),
            self.neighbour(
                self.neighbour(x, y, d).unwrap().0,
                self.neighbour(x, y, d).unwrap().1,
                d.opposite(),
            ) == Some((x, y)),
    {
        let (nx, ny) = self.neighbour(x, y, d).unwrap();
        if self.index(nx, ny) == self.index(x, y) {
            self.lemma_index_injective(nx, ny, x, y);
        }
    }
}

} // verus!
