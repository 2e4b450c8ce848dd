//! What a field holds, as plain mathematical values, and what it means for
//! it to be well formed, consistent, narrowed or unwound.

use vstd::prelude::*;
use crate::boundary::Direction;
use crate::fieldpoint::{is_after, lemma_count_one, lemma_count_zero, PointState};
use crate::grid::{no_tile, supported, Layout};
use crate::selection::FoundFieldPoint;

verus! {

/// What a field holds, as plain mathematical values.
pub struct FieldState {
    /// The tiles and the size of the grid.
    pub layout: Layout,
    /// The cells, row by row.
    pub cells: Seq<PointState>,
    /// The decisions taken so far: the cell that was collapsed, and the tile
    /// it was collapsed to.
    pub steps: Seq<(usize, usize)>,
    pub allow_backtracking: bool,
}

impl FieldState {
    /// For each cell, which tiles it still allows.
    pub open spec fn flags(self) -> Seq<Seq<bool>> {
        Seq::new(self.cells.len(), |i: int| self.cells[i].allowed)
    }

    /// The cell in column `x` of row `y`.
    pub open spec fn cell(self, x: int, y: int) -> PointState {
        self.cells[self.layout.index(x, y)]
    }

    /// The number of the current step: how many decisions stand.
    pub open spec fn step(self) -> usize {
        self.steps.len() as usize
    }

    /// There is a cell for every place of the grid, each cell keeps sound
    /// books over all the tiles, and every decision names a cell and a tile
    /// that exist.
    pub open spec fn sound(self) -> bool {
        &&& self.cells.len() == self.layout.width * self.layout.height
        &&& self.cells.len() <= usize::MAX
        &&& self.layout.width <= usize::MAX
        &&& self.layout.height <= usize::MAX
        &&& self.layout.tiles.len() <= usize::MAX
        &&& self.steps.len() <= usize::MAX
        &&& forall|i: int|
            0 <= i < self.cells.len() ==> (#[trigger] self.cells[i]).wf() && self.cells[i].len()
                == self.layout.tiles.len()
        &&& forall|k: int|
            0 <= k < self.steps.len() ==> (#[trigger] self.steps[k]).0 < self.cells.len()
                && self.steps[k].1 < self.layout.tiles.len()
    }

    /// The field is sound and no cell lost a tile after the current step.
    pub open spec fn wf(self) -> bool {
        &&& self.sound()
        &&& forall|i: int|
            0 <= i < self.cells.len() ==> !is_after(
                (#[trigger] self.cells[i]).max_invalidate_step,
                self.step(),
            )
    }

    /// Every pair of adjacent cells is arc consistent, in every direction.
    pub open spec fn arc_consistent(self) -> bool {
        self.layout.consistent(self.flags())
    }

    /// The field was arc consistent right after every step before the
    /// current one.
    pub open spec fn steady_before(self) -> bool {
        forall|s: usize| s < self.steps.len() ==> (#[trigger] self.reverted(s)).arc_consistent()
    }

    /// The field is arc consistent, and was so right after every earlier
    /// step: wherever backtracking may go back to, it finds an
    /// arc-consistent grid.
    pub open spec fn steady(self) -> bool {
        self.steady_before() && self.arc_consistent()
    }

    /// `self` is `before` with some tiles ruled out at the current step, and
    /// nothing else changed.
    pub open spec fn narrowed_from(self, before: FieldState) -> bool {
        &&& self.layout == before.layout
        &&& self.steps == before.steps
        &&& self.allow_backtracking == before.allow_backtracking
        &&& self.cells.len() == before.cells.len()
        &&& forall|i: int|
            0 <= i < self.cells.len() ==> (#[trigger] self.cells[i]).narrowed_from(
                before.cells[i],
                before.step(),
            )
    }

    /// What a visit of the arc that leaves `(x, y)` in direction `d` makes of
    /// `before`: the neighbour loses the tiles that no tile of `(x, y)` fits.
    pub open spec fn arc_pruned(self, before: FieldState, x: int, y: int, d: Direction) -> bool {
        match before.layout.neighbour(x, y, d) {
            None => self == before,
            Some((nx, ny)) => {
                let i = before.layout.index(nx, ny);
                &&& self.narrowed_from(before)
                &&& forall|j: int|
                    0 <= j < before.cells.len() && j != i ==> #[trigger] self.cells[j]
                        == before.cells[j]
                &&& forall|t: int|
                    0 <= t < before.layout.tiles.len() ==> #[trigger] self.cells[i].allowed[t] == (
                    before.cells[i].allowed[t] && supported(
                        before.layout.tiles,
                        before.cell(x, y).allowed,
                        t,
                        d,
                    ))
            },
        }
    }

    /// `self` with the cell at place `i` replaced by `cell`.
    pub open spec fn with_cell(self, i: int, cell: PointState) -> FieldState {
        FieldState { cells: self.cells.update(i, cell), ..self }
    }

    /// The field after the decision to collapse the cell at place
    /// `point_index` to tile `chosen` was taken, before anything is propagated.
    pub open spec fn decided(self, point_index: int, chosen: int) -> FieldState {
        FieldState {
            cells: self.cells.update(
                point_index,
                self.cells[point_index].forced(chosen, (self.steps.len() + 1) as usize),
            ),
            steps: self.steps.push((point_index as usize, chosen as usize)),
            ..self
        }
    }

    /// The field with every cell put back to what it was right after step `s`,
    /// and the decisions after that step forgotten.
    pub open spec fn reverted(self, s: usize) -> FieldState {
        FieldState {
            cells: Seq::new(self.cells.len(), |i: int| self.cells[i].reverted(s)),
            steps: self.steps.take(s as int),
            ..self
        }
    }

    /// `self` is what backtracking can make of `before`: some of the latest
    /// decisions are undone, and each cell holds what it held right after the
    /// last decision that stands, less the tiles that were ruled out since
    /// at that step.
    pub open spec fn unwound_from(self, before: FieldState) -> bool {
        &&& self.layout == before.layout
        &&& self.allow_backtracking == before.allow_backtracking
        &&& self.steps.len() <= before.steps.len()
        &&& self.steps == before.steps.take(self.steps.len() as int)
        &&& self.cells.len() == before.cells.len()
        &&& forall|i: int|
            0 <= i < self.cells.len() ==> (#[trigger] self.cells[i]).trimmed_from(
                before.cells[i].reverted(self.step()),
                self.step(),
            )
    }

    /// The flags the field had right after step `s`, with the tile ruled out
    /// that the decision after that step went for.
    pub open spec fn blocked_flags(self, s: int) -> Seq<Seq<bool>> {
        let flags = self.reverted(s as usize).flags();
        let cell = self.steps[s].0 as int;
        let tile = self.steps[s].1 as int;
        flags.update(cell, flags[cell].update(tile, false))
    }

    /// The cell of the decision that was taken after step `s`, by its
    /// coordinates, as the one cell waiting.
    pub open spec fn blocked_cell(self, s: int) -> Set<(int, int)> {
        let cell = self.steps[s].0 as int;
        set![(cell % (self.layout.width as int), cell / (self.layout.width as int))]
    }

    /// Whether the decision taken after step `s` can be done without:
    /// propagation from its cell, with the tile it chose ruled out, empties
    /// no cell.
    pub open spec fn can_retry(self, s: int) -> bool {
        self.layout.holds_up(self.blocked_flags(s), self.blocked_cell(s))
    }

    /// What backtracking makes of `self`, `found` being what it gives back.
    ///
    /// Without leave to backtrack nothing happens.  With it, decisions are
    /// undone, latest first, down to the first that can be done without; the
    /// cells then allow what propagation leaves once the tile of that
    /// decision is ruled out, and the cell of that decision is given back.
    /// Where no decision can be done without, all are undone and nothing is
    /// given back.
    pub open spec fn backtracked_to(
        self,
        after: FieldState,
        found: Option<FoundFieldPoint>,
    ) -> bool {
        &&& after.wf()
        &&& after.unwound_from(self)
        &&& if !self.allow_backtracking {
            found is None && after == self
        } else {
            &&& forall|s: int| after.steps.len() < s < self.steps.len() ==> !self.can_retry(s)
            &&& match found {
                None => after.steps.len() == 0 && (self.steps.len() > 0 ==> !self.can_retry(0)),
                Some(cell) => {
                    let s = after.steps.len() as int;
                    &&& s < self.steps.len()
                    &&& cell == (FoundFieldPoint {
                        point_index: self.steps[s].0,
                        num_encountered: 1,
                    })
                    &&& self.can_retry(s)
                    &&& after.flags() == self.layout.settled(
                        self.blocked_flags(s),
                        self.blocked_cell(s),
                    )
                },
            }
        }
    }

    /// What propagation from the `waiting` cells makes of `self`, `ok` being
    /// what it gives back.
    ///
    /// Tiles are only ruled out, at the current step, and never a tile of an
    /// assignment that propagation could come to rest on.  Propagation
    /// succeeds exactly where that empties no cell, and then leaves exactly
    /// the greatest such assignment.  Where it fails it has emptied a cell.
    pub open spec fn propagated_to(
        self,
        after: FieldState,
        ok: bool,
        waiting: Set<(int, int)>,
    ) -> bool {
        &&& after.wf()
        &&& after.narrowed_from(self)
        &&& self.layout.keeps_settled(after.flags(), self.flags(), waiting)
        &&& ok == self.layout.holds_up(self.flags(), waiting)
        &&& ok ==> after.flags() == self.layout.settled(self.flags(), waiting)
        &&& !ok ==> exists|i: int|
            0 <= i < self.cells.len() && self.cells[i].num_allowed > 0 && (
            #[trigger] after.cells[i]).num_allowed == 0
    }

    /// The cells on the edge of the grid that have to give up a tile when the
    /// edges are closed.
    pub open spec fn edge_cells(self) -> Set<(int, int)> {
        Set::new(
            |c: (int, int)|
                self.layout.in_bounds(c.0, c.1) && exists|t: int|
                    0 <= t < self.layout.tiles.len() && #[trigger] self.layout.leaves_grid(
                        c.0,
                        c.1,
                        t,
                    ),
        )
    }

    /// For each cell, the tiles it allows that would not connect across the
    /// edge of the grid there.
    pub open spec fn closed_flags(self) -> Seq<Seq<bool>> {
        Seq::new(
            self.cells.len(),
            |i: int|
                Seq::new(
                    self.layout.tiles.len(),
                    |t: int|
                        self.cells[i].allowed[t] && !self.layout.leaves_grid(
                            i % (self.layout.width as int),
                            i / (self.layout.width as int),
                            t,
                        ),
                ),
        )
    }

    /// The field with its edges closed: every tile that would connect across
    /// the edge of the grid is ruled out at the current step.
    pub open spec fn closed(self) -> FieldState {
        FieldState {
            cells: Seq::new(
                self.cells.len(),
                |i: int| self.cells[i].narrowed_to(self.closed_flags()[i], self.step()),
            ),
            ..self
        }
    }

    /// Every cell on the edge that has to give up a tile has a tile left
    /// once the edges are closed.
    pub open spec fn edges_alive(self) -> bool {
        forall|x: int, y: int, t: int|
            self.layout.in_bounds(x, y) && 0 <= t < self.layout.tiles.len()
                && #[trigger] self.layout.leaves_grid(
                x,
                y,
                t,
            ) ==> !no_tile(self.closed_flags()[self.layout.index(x, y)])
    }

    /// Every cell has collapsed to a single tile.
    pub open spec fn collapsed(self) -> bool {
        forall|i: int| 0 <= i < self.cells.len() ==> (#[trigger] self.cells[i]).num_allowed == 1
    }

    /// Whether `matrix` has a row for each row of the grid and an entry for
    /// each cell.
    pub open spec fn matrix_shaped(self, matrix: Seq<Vec<usize>>) -> bool {
        &&& matrix.len() == self.layout.height
        &&& forall|y: int| 0 <= y < matrix.len()
            ==> (#[trigger] matrix[y])@.len() == self.layout.width
    }

    /// What `render_partial` shows of a cell: its tile if it has collapsed,
    /// the number of tiles if it is still open, and the largest number there
    /// is if it has no tile left.
    pub open spec fn shows(self, i: int, entry: usize) -> bool {
        let cell = self.cells[i];
        if cell.num_allowed == 1 {
            entry < cell.len() && cell.allowed[entry as int]
        } else if cell.num_allowed > 1 {
            entry == self.layout.tiles.len()
        } else {
            entry == usize::MAX
        }
    }

    /// `matrix` shows every cell as `render_partial` shows it.
    pub open spec fn shown_by(self, matrix: Seq<Vec<usize>>) -> bool {
        &&& self.matrix_shaped(matrix)
        &&& forall|x: int, y: int|
            self.layout.in_bounds(x, y) ==> self.shows(
                #[trigger] self.layout.index(x, y),
                matrix[y]@[x],
            )
    }

    /// Every pair of adjacent entries of `matrix` fits, in the direction from
    /// the first to the second.
    pub open spec fn compatible(self, matrix: Seq<Vec<usize>>) -> bool {
        forall|x: int, y: int, d: Direction|
            self.layout.in_bounds(x, y) && (#[trigger] self.layout.neighbour(x, y, d)) is Some ==> {
                let (nx, ny) = self.layout.neighbour(x, y, d).unwrap();
                self.layout.tiles[matrix[y]@[x] as int].spec_fits(
                    self.layout.tiles[matrix[ny]@[nx] as int],
                    d,
                )
            }
    }
}

/// The sum of the cells' counts of allowed tiles.
pub open spec fn total_allowed(cells: Seq<PointState>) -> nat
    decreases cells.len(),
{
    if cells.len() == 0 {
        0
    } else {
        total_allowed(cells.drop_last()) + cells.last().num_allowed as nat
    }
}

/// Whether every coordinate in `queue` names a cell of the grid.
pub open spec fn queue_in_bounds(layout: Layout, queue: Seq<(usize, usize)>) -> bool {
    forall|i: int| 0 <= i < queue.len()
        ==> layout.in_bounds((#[trigger] queue[i]).0 as int, queue[i].1 as int)
}

/// A sound field has one list of flags per cell and one flag per tile.
pub proof fn lemma_flags_shaped(f: FieldState)
    requires
        f.sound(),
    ensures
        f.layout.shaped(f.flags()),
{
    assert forall|i: int| 0 <= i < f.flags().len() implies (#[trigger] f.flags()[i]).len()
        == f.layout.tiles.len() by {
        assert(f.cells[i].wf());
    }
}

/// A cell allows no tile exactly when its count is zero.
pub proof fn lemma_no_tile(c: PointState)
    requires
        c.wf(),
    ensures
        no_tile(c.allowed) == (c.num_allowed == 0),
{
    lemma_count_zero(c.allowed);
}

/// Where every cell of the grid has collapsed and `matrix` holds the tile of
/// each, the matrix shows the field, and adjacent tiles fit if the field is
/// arc consistent.
pub proof fn lemma_rendered(f: FieldState, matrix: Seq<Vec<usize>>)
    requires
        f.wf(),
        matrix.len() == f.layout.height,
        forall|b: int| 0 <= b < matrix.len() ==> (#[trigger] matrix[b])@.len() == f.layout.width,
        forall|a: int, b: int|
            0 <= a < f.layout.width && 0 <= b < f.layout.height
                ==> f.cells[#[trigger] f.layout.index(
                a,
                b,
            )].num_allowed == 1 && f.shows(f.layout.index(a, b), matrix[b]@[a]),
    ensures
        f.collapsed(),
        f.shown_by(matrix),
        f.arc_consistent() ==> f.compatible(matrix),
{
    let layout = f.layout;
    assert forall|i: int| 0 <= i < f.cells.len()
        implies (#[trigger] f.cells[i]).num_allowed == 1 by {
        layout.lemma_coord(i);
        let a = i % (layout.width as int);
        let b = i / (layout.width as int);
        assert(f.cells[layout.index(a, b)].num_allowed == 1);
    }
    if f.arc_consistent() {
        assert forall|x: int, y: int, d: Direction|
            layout.in_bounds(x, y) && (#[trigger] layout.neighbour(x, y, d)) is Some implies {
            let (nx, ny) = layout.neighbour(x, y, d).unwrap();
            layout.tiles[matrix[y]@[x] as int].spec_fits(layout.tiles[matrix[ny]@[nx] as int], d)
        } by {
            let (nx, ny) = layout.neighbour(x, y, d).unwrap();
            layout.lemma_neighbour(x, y, d);
            layout.lemma_index(x, y);
            layout.lemma_index(nx, ny);
            let src = layout.index(x, y);
            let dst = layout.index(nx, ny);
            let here = matrix[y]@[x] as int;
            let there = matrix[ny]@[nx] as int;
            assert(f.shows(src, matrix[y]@[x]));
            assert(f.shows(dst, matrix[ny]@[nx]));
            assert(f.cells[src].wf() && f.cells[dst].wf());
            assert(layout.arc_ok(f.flags(), x, y, d));
            assert(f.flags()[dst][there]);
            assert(supported(layout.tiles, f.flags()[src], there, d));
            let s = choose|s: int|
                0 <= s < layout.tiles.len() && 0 <= s < f.flags()[src].len()
                    && #[trigger] f.flags()[src][s]
                    && layout.tiles[s].spec_fits(layout.tiles[there], d);
            lemma_count_one(f.cells[src].allowed, s, here);
        }
    }
}

} // verus!
