//! The solver: a grid of cells, the propagation of constraints between
//! neighbouring cells, and the stack of decisions that backtracking unwinds.

use vstd::prelude::*;
use crate::backtracking::{
    lemma_backtracked_alike,
    lemma_leave_changes_nothing,
    lemma_steady_before_narrowed,
    lemma_steady_decided,
    lemma_steady_forced,
    lemma_steady_narrowed,
    lemma_steady_unwound,
    lemma_unwound_narrowed,
    lemma_unwound_reverted,
    lemma_unwound_self,
};
use crate::boundary::{Boundary, Direction};
use crate::changequeue::ChangeQueue;
use crate::closing::{
    closed_so_far,
    closing,
    lemma_closed_is,
    lemma_edges_closed,
    lemma_side_closed,
    lemma_side_skipped,
    lemma_tile_closed,
    line_closed,
    line_given_up,
    on_line,
    on_line_before,
};
use crate::containerutils::extract_two_elements;
use crate::entry::{enabled_of, tiles_of, CharacterEntry};
use crate::fieldpoint::{
    is_after,
    lemma_invalidated_narrowed,
    lemma_narrowed_refl,
    lemma_narrowed_trans,
    lemma_narrowed_wf,
    lemma_reverted,
    FieldPoint,
    PointState,
};
use crate::grid::{flags_within, is_queued, no_tile, queue_add, supported, waiting_of, Layout};
use crate::propagation::{
    arcs_between,
    arcs_during,
    lemma_answers_on,
    lemma_blocked_keeps_arcs,
    lemma_changed_answers,
    lemma_failed,
    lemma_forced_keeps_arcs,
    lemma_narrowed_chain,
    lemma_narrowed_field,
    lemma_narrowed_keeps_arcs,
    lemma_narrowed_self,
    lemma_pending_is_queued,
    lemma_propagated,
    lemma_propagation_sound,
    lemma_queue_add,
    lemma_visit_keeps_arcs,
    lemma_visit_keeps_settled,
    queue_answers,
};
use crate::selection::FoundFieldPoint;
use crate::state::{
    lemma_flags_shaped,
    lemma_no_tile,
    lemma_rendered,
    queue_in_bounds,
    total_allowed,
    FieldState,
};

verus! {

/// What becomes of a decision once its consequences are known.
#[derive(Debug, Clone, Copy, PartialEq, Eq, Structural)]
pub enum StepOutcome {
    /// The decision stands and the grid is consistent with it.
    Progress,
    /// The decision led nowhere and was undone, with others if need be.  The
    /// cell named here has lost the tile that was tried last and is the one
    /// to decide next.
    Retry(FoundFieldPoint),
    /// The decision led nowhere and nothing is left to try.
    Failed,
}

/// The grid of cells and the decisions taken on it.
#[derive(Debug)]
pub struct Field {
    boundaries: Vec<Boundary>,
    width: usize,
    height: usize,
    points: Vec<FieldPoint>,
    steps: Vec<(usize, usize)>,
    allow_backtracking: bool,
}

impl View for Field {
    type V = FieldState;

    closed spec fn view(&self) -> FieldState {
        FieldState {
            layout: Layout {
                tiles: self.boundaries@,
                width: self.width as nat,
                height: self.height as nat,
            },
            cells: Seq::new(self.points@.len(), |i: int| self.points@[i]@),
            steps: self.steps@,
            allow_backtracking: self.allow_backtracking,
        }
    }
}

impl Clone for Field {
    /// A copy of the field that shares nothing with it.
    fn clone(&self) -> (field: Field)
        ensures
            field@ == self@,
    {
        let mut boundaries: Vec<Boundary> = Vec::new();
        let mut i: usize = 0;
        while i < self.boundaries.len()
            invariant
                i <= self.boundaries.len(),
                boundaries@ == self.boundaries@.take(i as int),
            decreases self.boundaries.len() - i,
        {
            boundaries.push(self.boundaries[i]);
            i += 1;
        }
        let mut points: Vec<FieldPoint> = Vec::new();
        let mut j: usize = 0;
        while j < self.points.len()
            invariant
                j <= self.points.len(),
                points@.len() == j,
                forall|k: int| 0 <= k < j ==> (#[trigger] points@[k])@ == self.points@[k]@,
            decreases self.points.len() - j,
        {
            points.push(self.points[j].clone());
            j += 1;
        }
        let mut steps: Vec<(usize, usize)> = Vec::new();
        let mut k: usize = 0;
        while k < self.steps.len()
            invariant
                k <= self.steps.len(),
                steps@ == self.steps@.take(k as int),
            decreases self.steps.len() - k,
        {
            steps.push(self.steps[k]);
            k += 1;
        }
        let field = Field {
            boundaries,
            width: self.width,
            height: self.height,
            points,
            steps,
            allow_backtracking: self.allow_backtracking,
        };
        proof {
            assert(boundaries@ =~= self.boundaries@);
            assert(steps@ =~= self.steps@);
            assert(field@.cells =~= self@.cells);
        }
        field
    }
}

/// The place of cell `(x, y)` in a row-major grid of the given width.
pub fn generate_index(x: usize, y: usize, width: usize) -> (i: usize)
    requires
        y * width + x <= usize::MAX,
    ensures
        i == y * width + x,
{
    assert(y * width <= y * width + x);
    y * width + x
}

/// The cell that stands at `point_index` in a row-major grid of the given width.
pub fn generate_coord(point_index: usize, width: usize) -> (c: (usize, usize))
    requires
        width > 0,
    ensures
        c.0 == point_index % width,
        c.1 == point_index / width,
{
    (point_index % width, point_index / width)
}

/// Rules out of `test_point` every tile that none of the tiles of
/// `source_point` fits, `test_point` lying on the `direction` side of
/// `source_point`.  Says whether anything was ruled out.
pub fn test_direction(
    potentials: &[Boundary],
    source_point: &FieldPoint,
    test_point: &mut FieldPoint,
    current_step: usize,
    direction: Direction,
) -> (changed: bool)
    requires
        source_point@.len() == potentials@.len(),
        old(test_point)@.wf(),
        old(test_point)@.len() == potentials@.len(),
    ensures
        final(test_point)@.wf(),
        final(test_point)@.narrowed_from(old(test_point)@, current_step),
        forall|t: int|
            0 <= t < potentials@.len()
                ==> #[trigger] final(test_point)@.allowed[t] == (old(test_point)@.allowed[t]
                    && supported(potentials@, source_point@.allowed, t, direction)),
        changed == (final(test_point)@ != old(test_point)@),
{
    let mut changed = false;
    let n = potentials.len();
    let mut test_index: usize = 0;
    proof {
        lemma_narrowed_refl(test_point@, current_step);
    }
    while test_index < n
        invariant
            test_index <= n,
            n == potentials@.len(),
            source_point@.len() == n,
            old(test_point)@.wf(),
            test_point@.wf(),
            test_point@.len() == n,
            test_point@.narrowed_from(old(test_point)@, current_step),
            forall|t: int|
                0 <= t < test_index ==> #[trigger] test_point@.allowed[t]
                    == (old(test_point)@.allowed[t]
                        && supported(potentials@, source_point@.allowed, t, direction)),
            forall|t: int|
                test_index <= t < n ==> #[trigger] test_point@.allowed[t]
                    == old(test_point)@.allowed[t],
            changed == (test_point@.allowed != old(test_point)@.allowed),
        decreases n - test_index,
    {
        if test_point.is_allowed(test_index) {
            let mut fits = false;
            let mut source_index: usize = 0;
            while source_index < n && !fits
                invariant
                    source_index <= n,
                    test_index < n,
                    n == potentials@.len(),
                    source_point@.len() == n,
                    fits ==> supported(potentials@, source_point@.allowed, test_index as int,
                        direction),
                    !fits ==> forall|s: int|
                        0 <= s < source_index ==> !(#[trigger] source_point@.allowed[s]
                            && potentials@[s].spec_fits(potentials@[test_index as int], direction)),
                decreases n - source_index,
            {
                if source_point.is_allowed(source_index) {
                    if potentials[source_index].fits(&potentials[test_index], direction) {
                        fits = true;
                    }
                }
                source_index += 1;
            }
            if !fits {
                let ghost before = test_point@;
                test_point.invalidate(test_index, current_step);
                proof {
                    lemma_invalidated_narrowed(before, test_index as int, current_step);
                    lemma_narrowed_trans(old(test_point)@, before, test_point@, current_step);
                    assert(test_point@.allowed[test_index as int]
                        != old(test_point)@.allowed[test_index as int]);
                }
                changed = true;
            }
        }
        test_index += 1;
    }
    proof {
        lemma_narrowed_wf(old(test_point)@, test_point@, current_step);
    }
    changed
}

/// Rules out tile `potential_index` in the cell `(x, y)` of a grid of the
/// given width, because the tile would connect across the grid's edge there.
/// Puts the cell on the worklist and gives `true` if the cell has a tile left.
pub fn apply_failed_edge(
    x: usize,
    y: usize,
    width: usize,
    potential_index: usize,
    points: &mut [FieldPoint],
    current_step: usize,
    changes: &mut ChangeQueue<(usize, usize)>,
) -> (alive: bool)
    requires
        y * width + x < old(points)@.len(),
        old(points)@[y * width + x]@.wf(),
        potential_index < old(points)@[y * width + x]@.len(),
    ensures
        final(points)@.len() == old(points)@.len(),
        forall|j: int|
            0 <= j < old(points)@.len() && j != y * width + x
                ==> #[trigger] final(points)@[j] == old(points)@[j],
        final(points)@[y * width + x]@ == old(points)@[y * width + x]@.invalidated(
            potential_index as int,
            current_step,
        ),
        alive == (final(points)@[y * width + x]@.num_allowed > 0),
        final(changes)@ == if alive {
            queue_add(old(changes)@, x, y)
        } else {
            old(changes)@
        },
{
    proof {
    }
    let point_index = generate_index(x, y, width);
    points[point_index].invalidate(potential_index, current_step);
    if points[point_index].num_allowed() > 0 {
        proof {
            lemma_pending_is_queued(changes@, x, y);
        }
        changes.add((x, y));
        true
    } else {
        false
    }
}

impl Field {
    /// A field of `width` by `height` cells over the given tiles.  Every
    /// cell allows every enabled tile; the tiles that are not enabled are
    /// ruled out at step 0.
    pub fn new(potentials: &[CharacterEntry], width: usize, height: usize) -> (field: Field)
        requires
            width * height <= usize::MAX,
        ensures
            field@.wf(),
            field@.layout == (Layout {
                tiles: tiles_of(potentials@),
                width: width as nat,
                height: height as nat,
            }),
            field@.steps == Seq::<(usize, usize)>::empty(),
            !field@.allow_backtracking,
            forall|i: int|
                0 <= i < field@.cells.len() ==> {
                    &&& (#[trigger] field@.cells[i]).narrowed_from(
                        PointState::fresh(potentials@.len()),
                        0,
                    )
                    &&& field@.cells[i].allowed == enabled_of(potentials@)
                    &&& field@.cells[i].exact()
                },
            field@.layout.self_supporting(enabled_of(potentials@)) ==> field@.steady(),
    {
        let num_potentials = potentials.len();
        let mut boundaries: Vec<Boundary> = Vec::new();
        let mut prototype_fieldpoint = FieldPoint::new(num_potentials);
        let ghost fresh = prototype_fieldpoint@;
        proof {
            lemma_narrowed_refl(fresh, 0);
        }
        let mut entry_index: usize = 0;
        while entry_index < num_potentials
            invariant
                entry_index <= num_potentials,
                num_potentials == potentials@.len(),
                boundaries@ == tiles_of(potentials@).take(entry_index as int),
                fresh == PointState::fresh(num_potentials as nat),
                fresh.wf(),
                prototype_fieldpoint@.wf(),
                prototype_fieldpoint@.exact(),
                prototype_fieldpoint@.narrowed_from(fresh, 0),
                forall|t: int|
                    0 <= t < entry_index ==> #[trigger] prototype_fieldpoint@.allowed[t]
                        == potentials@[t].enabled,
                forall|t: int|
                    entry_index <= t < num_potentials
                        ==> #[trigger] prototype_fieldpoint@.allowed[t],
            decreases num_potentials - entry_index,
        {
            boundaries.push(potentials[entry_index].boundary);
            if !potentials[entry_index].enabled {
                let ghost before = prototype_fieldpoint@;
                prototype_fieldpoint.invalidate(entry_index, 0);
                proof {
                    lemma_invalidated_narrowed(before, entry_index as int, 0);
                    lemma_narrowed_trans(fresh, before, prototype_fieldpoint@, 0);
                }
            }
            assert(boundaries@ =~= tiles_of(potentials@).take(entry_index + 1));
            entry_index += 1;
        }
        assert(boundaries@ =~= tiles_of(potentials@));
        assert(prototype_fieldpoint@.allowed =~= enabled_of(potentials@));
        let num_points = width * height;
        let mut points: Vec<FieldPoint> = Vec::new();
        let mut point_index: usize = 0;
        while point_index < num_points
            invariant
                point_index <= num_points,
                points@.len() == point_index,
                forall|i: int| 0 <= i < points@.len()
                    ==> (#[trigger] points@[i])@ == prototype_fieldpoint@,
            decreases num_points - point_index,
        {
            points.push(prototype_fieldpoint.clone());
            point_index += 1;
        }
        let steps: Vec<(usize, usize)> = Vec::new();
        let field = Field { boundaries, width, height, points, steps, allow_backtracking: false };
        proof {
            assert forall|i: int| 0 <= i < field@.cells.len() implies (#[trigger] field@.cells[i])
                == prototype_fieldpoint@ by {
                assert(field@.cells[i] == points@[i]@);
            }
            if field@.layout.self_supporting(enabled_of(potentials@)) {
                lemma_flags_shaped(field@);
                field@.layout.lemma_uniform_consistent(field@.flags(), enabled_of(potentials@));
            }
        }
        field
    }

    /// The same field, with leave to undo decisions that turn out to lead nowhere.
    pub fn allow_backtracking(self) -> (field: Field)
        ensures
            field@ == (FieldState { allow_backtracking: true, ..self@ }),
            field@.wf() == self@.wf(),
            field@.steady() == self@.steady(),
    {
        let Field { boundaries, width, height, points, steps, allow_backtracking: _ } = self;
        let field = Field { boundaries, width, height, points, steps, allow_backtracking: true };
        proof {
            assert(field@.cells =~= self@.cells);
            lemma_leave_changes_nothing(self@, field@);
        }
        field
    }

    pub fn width(&self) -> (w: usize)
        ensures
            w == self@.layout.width,
    {
        self.width
    }

    pub fn height(&self) -> (h: usize)
        ensures
            h == self@.layout.height,
    {
        self.height
    }

    /// How many tiles the field was made with.
    pub fn num_potentials(&self) -> (n: usize)
        ensures
            n == self@.layout.tiles.len(),
    {
        self.boundaries.len()
    }

    /// How many decisions stand.
    pub fn num_steps(&self) -> (n: usize)
        ensures
            n == self@.steps.len(),
    {
        self.steps.len()
    }

    /// The cell at place `point_index` of the row-major list of cells.
    pub fn point(&self, point_index: usize) -> (point: &FieldPoint)
        requires
            point_index < self@.cells.len(),
        ensures
            point@ == self@.cells[point_index as int],
    {
        &self.points[point_index]
    }

    /// Rules out, in the cells along the edges of the grid, every tile that
    /// would connect across the edge, and propagates what follows.  Gives
    /// `false` as soon as a cell is left without a tile.
    pub fn close_edges(&mut self) -> (ok: bool)
        requires
            old(self)@.wf(),
        ensures
            if old(self)@.edges_alive() {
                old(self)@.closed().propagated_to(final(self)@, ok, old(self)@.edge_cells())
            } else {
                &&& !ok
                &&& final(self)@.wf()
                &&& flags_within(old(self)@.closed_flags(), final(self)@.flags())
                &&& exists|i: int|
                    0 <= i < final(self)@.cells.len()
                        && (#[trigger] final(self)@.cells[i]).num_allowed == 0
            },
            final(self)@.narrowed_from(old(self)@),
            !ok ==> old(self)@.layout.dead_end(old(self)@.closed_flags()),
            ok && old(self)@.arc_consistent() ==> final(self)@.arc_consistent(),
            ok && old(self)@.steady() ==> final(self)@.steady(),
    {
        let mut changes: ChangeQueue<(usize, usize)> = ChangeQueue::new();
        let current_step = self.steps.len();
        let num_potentials = self.boundaries.len();
        let ghost start = self@;
        let ghost layout = start.layout;
        proof {
            lemma_narrowed_self(start);
            assert(closing(start, self@, changes@, 0, 0));
        }
        if self.width > 0 && self.height > 0 {
            let mut potential_index: usize = 0;
            while potential_index < num_potentials
                invariant
                    potential_index <= num_potentials,
                    num_potentials == layout.tiles.len(),
                    self.width > 0,
                    self.height > 0,
                    start == old(self)@,
                    layout == start.layout,
                    self@.layout == layout,
                    current_step == start.step(),
                    closing(start, self@, changes@, potential_index as int, 0),
                decreases num_potentials - potential_index,
            {
                let boundary = self.boundaries[potential_index];
                let ghost p = potential_index as int;
                let last_x = self.width - 1;
                let last_y = self.height - 1;
                let needs_north = boundary.connects(Direction::North) || boundary.connects(
                    Direction::NorthEast,
                ) || boundary.connects(Direction::NorthWest);
                let needs_east = boundary.connects(Direction::East) || boundary.connects(
                    Direction::NorthEast,
                ) || boundary.connects(Direction::SouthEast);
                let needs_south = boundary.connects(Direction::South) || boundary.connects(
                    Direction::SouthEast,
                ) || boundary.connects(Direction::SouthWest);
                let needs_west = boundary.connects(Direction::West) || boundary.connects(
                    Direction::NorthWest,
                ) || boundary.connects(Direction::SouthWest);
                assert(needs_north == layout.side_needs(p, 0));
                assert(needs_east == layout.side_needs(p, 1));
                assert(needs_south == layout.side_needs(p, 2));
                assert(needs_west == layout.side_needs(p, 3));

                let ghost s0 = self@;
                let ghost q0 = changes@;
                if needs_north {
                    let alive = self.close_line(potential_index, true, 0, current_step,
                        &mut changes);
                    proof {
                        lemma_side_closed(start, s0, self@, q0, changes@, p, 0, true, 0, alive);
                    }
                    if !alive {
                        return false;
                    }
                } else {
                    proof {
                        lemma_side_skipped(start, s0, q0, p, 0);
                    }
                }
                let ghost s1 = self@;
                let ghost q1 = changes@;
                if needs_east {
                    let alive = self.close_line(
                        potential_index,
                        false,
                        last_x,
                        current_step,
                        &mut changes,
                    );
                    proof {
                        lemma_side_closed(start, s1, self@, q1, changes@, p, 1, false,
                            last_x as int, alive);
                    }
                    if !alive {
                        return false;
                    }
                } else {
                    proof {
                        lemma_side_skipped(start, s1, q1, p, 1);
                    }
                }
                let ghost s2 = self@;
                let ghost q2 = changes@;
                if needs_south {
                    let alive = self.close_line(
                        potential_index,
                        true,
                        last_y,
                        current_step,
                        &mut changes,
                    );
                    proof {
                        lemma_side_closed(start, s2, self@, q2, changes@, p, 2, true,
                            last_y as int, alive);
                    }
                    if !alive {
                        return false;
                    }
                } else {
                    proof {
                        lemma_side_skipped(start, s2, q2, p, 2);
                    }
                }
                let ghost s3 = self@;
                let ghost q3 = changes@;
                if needs_west {
                    let alive = self.close_line(potential_index, false, 0, current_step,
                        &mut changes);
                    proof {
                        lemma_side_closed(start, s3, self@, q3, changes@, p, 3, false, 0, alive);
                    }
                    if !alive {
                        return false;
                    }
                } else {
                    proof {
                        lemma_side_skipped(start, s3, q3, p, 3);
                    }
                }
                proof {
                    lemma_tile_closed(start, self@, changes@, p);
                }
                potential_index += 1;
            }
        } else {
            proof {
                assert(start.cells.len() == 0) by (nonlinear_arith)
                    requires
                        start.cells.len() == layout.width * layout.height,
                        layout.width == 0 || layout.height == 0,
                ;
            }
        }
        let ghost closed = self@;
        let ghost queue = changes@;
        let ghost done = if start.cells.len() == 0 {
            0int
        } else {
            layout.tiles.len() as int
        };
        proof {
            if layout.width > 0 && layout.height > 0 {
                assert(start.cells.len() != 0) by (nonlinear_arith)
                    requires
                        start.cells.len() == layout.width * layout.height,
                        layout.width > 0,
                        layout.height > 0,
                ;
            }
            lemma_edges_closed(start, closed, queue, done);
            if start.arc_consistent() {
                lemma_narrowed_keeps_arcs(start, closed, waiting_of(queue));
            }
            if start.steady() {
                lemma_steady_before_narrowed(start, closed);
            }
        }
        proof {
            assert(start.edges_alive()) by {
                assert forall|x: int, y: int, t: int|
                    layout.in_bounds(x, y) && 0 <= t < layout.tiles.len()
                        && #[trigger] layout.leaves_grid(
                        x,
                        y,
                        t,
                    ) implies !no_tile(start.closed_flags()[layout.index(x, y)]) by {
                    layout.lemma_index(x, y);
                    assert(closed_so_far(layout, x, y, t, done, 0));
                    assert(closed.cell(x, y).num_allowed > 0);
                    lemma_no_tile(closed.cells[layout.index(x, y)]);
                }
            }
            lemma_closed_is(start, closed);
        }
        let ok = self.propagate(changes);
        proof {
            lemma_narrowed_chain(start, closed, self@);
            lemma_propagation_sound(closed, self@, ok, waiting_of(queue));
        }
        ok
    }

    /// Rules out tile `potential_index` in every cell of one row, or of one
    /// column, of the grid.  Stops and gives `false` at the first cell that
    /// is left without a tile.
    fn close_line(
        &mut self,
        potential_index: usize,
        along_row: bool,
        fixed: usize,
        current_step: usize,
        changes: &mut ChangeQueue<(usize, usize)>,
    ) -> (alive: bool)
        requires
            old(self)@.wf(),
            potential_index < old(self)@.layout.tiles.len(),
            current_step == old(self)@.step(),
            queue_in_bounds(old(self)@.layout, old(changes)@),
            if along_row {
                fixed < old(self)@.layout.height
            } else {
                fixed < old(self)@.layout.width
            },
        ensures
            alive ==> line_closed(
                old(self)@,
                final(self)@,
                old(changes)@,
                final(changes)@,
                potential_index as int,
                along_row,
                fixed as int,
            ),
            !alive ==> line_given_up(
                old(self)@,
                final(self)@,
                potential_index as int,
                along_row,
                fixed as int,
            ),
    {
        let count = if along_row {
            self.width
        } else {
            self.height
        };
        let ghost layout = self@.layout;
        let ghost start = self@;
        let ghost q0 = changes@;
        let ghost p = potential_index as int;
        proof {
            lemma_narrowed_self(start);
        }
        let mut k: usize = 0;
        while k < count
            invariant
                k <= count,
                count == (if along_row {
                    self.width
                } else {
                    self.height
                }),
                if along_row {
                    fixed < self.height
                } else {
                    fixed < self.width
                },
                start == old(self)@,
                layout == start.layout,
                q0 == old(changes)@,
                p == potential_index as int,
                p < layout.tiles.len(),
                current_step == start.step(),
                start.wf(),
                self@.wf(),
                self@.narrowed_from(start),
                queue_in_bounds(layout, changes@),
                forall|a: int, b: int| is_queued(q0, a, b) ==> is_queued(changes@, a, b),
                forall|a: int, b: int|
                    is_queued(changes@, a, b) ==> is_queued(q0, a, b) || (layout.in_bounds(a, b)
                        && on_line(along_row, fixed as int, a, b)),
                forall|a: int, b: int|
                    layout.in_bounds(a, b) ==> (#[trigger] self@.cell(a, b)) == (if on_line_before(
                        along_row,
                        fixed as int,
                        k as int,
                        a,
                        b,
                    ) {
                        start.cell(a, b).invalidated(p, current_step)
                    } else {
                        start.cell(a, b)
                    }),
                forall|a: int, b: int|
                    layout.in_bounds(a, b) && #[trigger] on_line_before(
                        along_row,
                        fixed as int,
                        k as int,
                        a,
                        b,
                    ) ==> is_queued(changes@, a, b) && self@.cell(a, b).num_allowed > 0,
            decreases count - k,
        {
            let x = if along_row {
                k
            } else {
                fixed
            };
            let y = if along_row {
                fixed
            } else {
                k
            };
            let ghost before = self@;
            let ghost queue_here = changes@;
            proof {
                layout.lemma_index(x as int, y as int);
                assert(before.cells[layout.index(x as int, y as int)].wf());
                assert(before.cell(x as int, y as int) == start.cell(x as int, y as int));
            }
            let alive = apply_failed_edge(
                x,
                y,
                self.width,
                potential_index,
                self.points.as_mut_slice(),
                current_step,
                changes,
            );
            proof {
                let i = layout.index(x as int, y as int);
                let after = self@;
                assert(after.cells =~= before.cells.update(
                    i,
                    before.cells[i].invalidated(p, current_step),
                ));
                lemma_invalidated_narrowed(before.cells[i], p, current_step);
                assert(after.narrowed_from(before)) by {
                    assert forall|j: int| 0 <= j < after.cells.len() implies (
                    #[trigger] after.cells[j]).narrowed_from(before.cells[j], before.step()) by {
                        if j != i {
                            lemma_narrowed_refl(before.cells[j], before.step());
                        }
                    }
                }
                lemma_narrowed_field(before, after);
                lemma_narrowed_chain(start, before, after);
                assert forall|a: int, b: int| layout.in_bounds(a, b) implies (#[trigger] after.cell(
                    a,
                    b,
                )) == (if a == x && b == y {
                    start.cell(a, b).invalidated(p, current_step)
                } else {
                    before.cell(a, b)
                }) by {
                    layout.lemma_index(a, b);
                    if layout.index(a, b) == i {
                        layout.lemma_index_injective(a, b, x as int, y as int);
                    }
                }
                if alive {
                    lemma_queue_add(queue_here, x, y);
                    assert forall|a: int, b: int| is_queued(changes@, a, b) implies is_queued(
                        q0,
                        a,
                        b,
                    ) || (layout.in_bounds(a, b) && on_line(along_row, fixed as int, a, b)) by {
                        let i = choose|i: int|
                            0 <= i < changes@.len() && (#[trigger] changes@[i]).0 == a
                                && changes@[i].1 == b;
                        if i < queue_here.len() && changes@[i] == queue_here[i] {
                            assert(is_queued(queue_here, a, b));
                        }
                    }
                    assert forall|j: int| 0 <= j < changes@.len() implies layout.in_bounds(
                        (#[trigger] changes@[j]).0 as int,
                        changes@[j].1 as int,
                    ) by {
                        if j < queue_here.len() && changes@[j] == queue_here[j] {
                        }
                    }
                    assert forall|a: int, b: int|
                        layout.in_bounds(a, b) && #[trigger] on_line_before(
                            along_row,
                            fixed as int,
                            k + 1,
                            a,
                            b,
                        ) implies is_queued(changes@, a, b) && after.cell(a, b).num_allowed > 0 by {
                        if a == x && b == y {
                        } else {
                            assert(on_line_before(along_row, fixed as int, k as int, a, b));
                            assert(is_queued(queue_here, a, b));
                            assert(before.cell(a, b).num_allowed > 0);
                        }
                    }
                } else {
                    assert(after.cell(x as int, y as int).num_allowed == 0);
                    assert(on_line(along_row, fixed as int, x as int, y as int));
                }
            }
            if !alive {
                return false;
            }
            k += 1;
        }
        true
    }

    /// Collapses the cell `(x, y)` to tile `potential_index` and propagates
    /// what follows from that.  Gives `false` if a cell lost its last tile.
    pub fn force_potential(&mut self, x: usize, y: usize, potential_index: usize) -> (ok: bool)
        requires
            old(self)@.wf(),
            old(self)@.layout.in_bounds(x as int, y as int),
            potential_index < old(self)@.layout.tiles.len(),
        ensures
            ({
                let i = old(self)@.layout.index(x as int, y as int);
                let was_allowed = old(self)@.cells[i].allowed[potential_index as int];
                let forced = old(self)@.with_cell(
                    i,
                    old(self)@.cells[i].forced(potential_index as int, old(self)@.step()),
                );
                &&& forced.propagated_to(final(self)@, ok, set![(x as int, y as int)])
                &&& ok && old(self)@.arc_consistent() && was_allowed
                    ==> final(self)@.arc_consistent()
                &&& ok && old(self)@.steady() && was_allowed ==> final(self)@.steady()
            }),
    {
        proof {
            self@.layout.lemma_index(x as int, y as int);
        }
        let point_index = generate_index(x, y, self.width);
        let current_step = self.steps.len();
        self.points[point_index].force(potential_index, current_step);
        let ghost forced = self@;
        proof {
            let i = point_index as int;
            assert(forced.cells =~= old(self)@.cells.update(
                i,
                old(self)@.cells[i].forced(potential_index as int, old(self)@.step()),
            ));
            assert(forced.wf()) by {
                assert forall|j: int| 0 <= j < forced.cells.len() implies {
                    &&& (#[trigger] forced.cells[j]).wf()
                    &&& forced.cells[j].len() == forced.layout.tiles.len()
                    &&& !is_after(forced.cells[j].max_invalidate_step, forced.step())
                } by {
                    if j != i {
                        assert(forced.cells[j] == old(self)@.cells[j]);
                    }
                }
            }
        }
        let mut changes = ChangeQueue::new();
        proof {
            lemma_pending_is_queued(changes@, x, y);
        }
        changes.add((x, y));
        proof {
            assert(changes@[0] == (x, y));
            assert(waiting_of(changes@) =~= set![(x as int, y as int)]);
            if old(self)@.arc_consistent()
                && old(self)@.cell(x as int, y as int).allowed[potential_index as int] {
                assert(forced.cell(x as int, y as int).allowed =~= Seq::new(
                    forced.layout.tiles.len(),
                    |j: int| j == potential_index as int,
                ));
                lemma_forced_keeps_arcs(
                    old(self)@,
                    forced,
                    waiting_of(changes@),
                    x as int,
                    y as int,
                    potential_index as int,
                );
                if old(self)@.steady() {
                    lemma_steady_forced(
                        old(self)@,
                        forced,
                        point_index as int,
                        potential_index as int,
                    );
                }
            }
        }
        self.propagate(changes)
    }

    /// The first cell at or after place `from` that still allows more than
    /// one tile: the next candidate for a collapse.
    pub fn observe(&self, from: usize) -> (r: Option<usize>)
        ensures
            match r {
                Some(i) => {
                    &&& from <= i < self@.cells.len()
                    &&& self@.cells[i as int].num_allowed > 1
                    &&& forall|j: int| from <= j < i
                        ==> (#[trigger] self@.cells[j]).num_allowed <= 1
                },
                None => forall|j: int|
                    from <= j < self@.cells.len() ==> (#[trigger] self@.cells[j]).num_allowed <= 1,
            },
    {
        let mut current_point_index = from;
        while current_point_index < self.points.len()
            invariant
                from <= current_point_index,
                forall|j: int|
                    from <= j < current_point_index && j < self@.cells.len() ==> (
                    #[trigger] self@.cells[j]).num_allowed <= 1,
            decreases self.points.len() - current_point_index,
        {
            if self.points[current_point_index].num_allowed() > 1 {
                return Some(current_point_index);
            }
            current_point_index += 1;
        }
        None
    }

    /// Takes the decision to collapse the cell at place `point_index` to tile
    /// `chosen_potential`, and propagates what follows from it.  Where that
    /// empties a cell, the decision is undone and, if backtracking is
    /// allowed, ruled out, with as many earlier decisions as it takes to
    /// find a consistent grid again.
    pub fn step(&mut self, point_index: usize, chosen_potential: usize) -> (r: StepOutcome)
        requires
            old(self)@.wf(),
            point_index < old(self)@.cells.len(),
            chosen_potential < old(self)@.layout.tiles.len(),
        ensures
            final(self)@.wf(),
            ({
                let decided = old(self)@.decided(point_index as int, chosen_potential as int);
                let was_allowed =
                    old(self)@.cells[point_index as int].allowed[chosen_potential as int];
                let here = decided.blocked_cell(old(self)@.steps.len() as int);
                &&& match r {
                    StepOutcome::Progress => decided.propagated_to(final(self)@, true, here),
                    StepOutcome::Retry(found) => {
                        &&& decided.allow_backtracking
                        &&& !decided.layout.holds_up(decided.flags(), here)
                        &&& decided.backtracked_to(final(self)@, Some(found))
                    },
                    StepOutcome::Failed => {
                        &&& !decided.layout.holds_up(decided.flags(), here)
                        &&& if decided.allow_backtracking {
                            decided.backtracked_to(final(self)@, None)
                        } else {
                            decided.propagated_to(final(self)@, false, here)
                        }
                    },
                }
                &&& r is Progress && old(self)@.arc_consistent() && was_allowed
                    ==> final(self)@.arc_consistent()
                &&& !(r is Failed) && old(self)@.steady() && was_allowed ==> final(self)@.steady()
            }),
    {
        proof {
            old(self)@.layout.lemma_coord(point_index as int);
        }
        self.steps.push((point_index, chosen_potential));
        let current_step = self.steps.len();
        self.points[point_index].force(chosen_potential, current_step);
        let ghost decided = self@;
        proof {
            let i = point_index as int;
            assert(decided.steps =~= old(self)@.steps.push((point_index, chosen_potential)));
            assert(decided.cells =~= old(self)@.cells.update(
                i,
                old(self)@.cells[i].forced(chosen_potential as int, current_step),
            ));
            assert(decided == old(self)@.decided(point_index as int, chosen_potential as int));
            assert forall|j: int| 0 <= j < decided.cells.len() implies {
                &&& (#[trigger] decided.cells[j]).wf()
                &&& decided.cells[j].len() == decided.layout.tiles.len()
                &&& !is_after(decided.cells[j].max_invalidate_step, decided.step())
            } by {
                if j != i {
                    assert(decided.cells[j] == old(self)@.cells[j]);
                }
            }
            assert forall|k: int| 0 <= k < decided.steps.len()
                implies (#[trigger] decided.steps[k]).0 < decided.cells.len()
                && decided.steps[k].1 < decided.layout.tiles.len() by {
                if k < old(self)@.steps.len() {
                    assert(decided.steps[k] == old(self)@.steps[k]);
                }
            }
        }
        let mut changes = ChangeQueue::new();
        let coord = generate_coord(point_index, self.width);
        proof {
            lemma_pending_is_queued(changes@, coord.0, coord.1);
        }
        changes.add(coord);
        let ghost here = waiting_of(changes@);
        proof {
            assert(changes@[0] == coord);
            assert(here =~= decided.blocked_cell(old(self)@.steps.len() as int));
            if old(self)@.arc_consistent()
                && old(self)@.cells[point_index as int].allowed[chosen_potential as int] {
                if old(self)@.steady() {
                    lemma_steady_decided(old(self)@, point_index as int, chosen_potential as int);
                }
                assert(decided.cell(coord.0 as int, coord.1 as int).allowed =~= Seq::new(
                    decided.layout.tiles.len(),
                    |j: int| j == chosen_potential as int,
                ));
                lemma_forced_keeps_arcs(
                    old(self)@,
                    decided,
                    here,
                    coord.0 as int,
                    coord.1 as int,
                    chosen_potential as int,
                );
            }
        }
        if self.propagate(changes) {
            StepOutcome::Progress
        } else {
            let ghost failed = self@;
            let r = self.revert();
            proof {
                lemma_backtracked_alike(decided, failed, self@, r);
                if decided.steady_before() {
                    lemma_steady_before_narrowed(decided, failed);
                }
            }
            match r {
                Some(found) => StepOutcome::Retry(found),
                None => StepOutcome::Failed,
            }
        }
    }

    /// Works off `changes`: for each waiting cell it visits the eight arcs
    /// that leave it, and puts every neighbour that lost a tile on the
    /// worklist in turn.  Gives `false` as soon as a cell loses its last tile.
    ///
    /// No tile of an arc-consistent assignment is ever removed.  If every
    /// arc that does not leave a waiting cell was consistent to begin with,
    /// then on success the whole grid is arc consistent.
    pub fn propagate(&mut self, changes: ChangeQueue<(usize, usize)>) -> (ok: bool)
        requires
            old(self)@.wf(),
            queue_in_bounds(old(self)@.layout, changes@),
        ensures
            old(self)@.propagated_to(final(self)@, ok, waiting_of(changes@)),
            ok && old(self)@.layout.consistent_but(old(self)@.flags(), waiting_of(changes@))
                ==> final(self)@.arc_consistent(),
            ok && old(self)@.layout.consistent_but(old(self)@.flags(), waiting_of(changes@))
                && old(self)@.steady_before() ==> final(self)@.steady(),
    {
        let mut pending = changes;
        let current_step = self.steps.len();
        let ghost layout = self@.layout;
        let ghost start = self@;
        let ghost waiting = waiting_of(changes@);
        proof {
            lemma_narrowed_self(start);
            assert(queue_answers(layout, start.flags(), start.flags(), waiting, pending@)) by {
                assert forall|i: int| 0 <= i < pending@.len() implies layout.answers(
                    start.flags(),
                    start.flags(),
                    waiting,
                    (#[trigger] pending@[i]).0 as int,
                    pending@[i].1 as int,
                ) by {
                    assert(is_queued(changes@, pending@[i].0 as int, pending@[i].1 as int));
                }
            }
            assert(arcs_between(layout, start.flags(), start.flags(), waiting, pending@));
        }
        while !pending.is_empty()
            invariant
                start == old(self)@,
                start.wf(),
                layout == start.layout,
                waiting == waiting_of(changes@),
                self@.wf(),
                self@.narrowed_from(start),
                current_step == self@.step(),
                queue_in_bounds(layout, pending@),
                queue_answers(layout, start.flags(), self@.flags(), waiting, pending@),
                arcs_between(layout, start.flags(), self@.flags(), waiting, pending@),
                layout.keeps_settled(self@.flags(), start.flags(), waiting),
                forall|i: int|
                    0 <= i < start.cells.len() && start.cells[i].num_allowed > 0 ==> (
                    #[trigger] self@.cells[i]).num_allowed > 0,
            decreases total_allowed(self@.cells), pending@.len(),
        {
            let ghost total_before = total_allowed(self@.cells);
            let ghost queue_before = pending@;
            if let Some((x, y)) = pending.next() {
                let ghost queue_popped = pending@;
                proof {
                    assert(queue_before[queue_before.len() - 1] == (x, y));
                    assert(layout.in_bounds(x as int, y as int));
                    assert(layout.answers(self@.flags(), start.flags(), waiting, x as int,
                        y as int));
                    assert forall|i: int| 0 <= i < queue_popped.len() implies layout.in_bounds(
                        (#[trigger] queue_popped[i]).0 as int,
                        queue_popped[i].1 as int,
                    ) && layout.answers(
                        self@.flags(),
                        start.flags(),
                        waiting,
                        queue_popped[i].0 as int,
                        queue_popped[i].1 as int,
                    ) by {
                        assert(queue_popped[i] == queue_before[i]);
                    }
                    assert forall|a: int, b: int, e: Direction|
                        layout.in_bounds(a, b) && layout.answers(
                            self@.flags(),
                            start.flags(),
                            waiting,
                            a,
                            b,
                        ) && (if a == x && b == y {
                            e.index() < 0
                        } else {
                            !is_queued(queue_popped, a, b)
                        }) implies #[trigger] layout.arc_ok(self@.flags(), a, b, e) by {
                        if is_queued(queue_before, a, b) {
                            let i = choose|i: int|
                                0 <= i < queue_before.len() && (#[trigger] queue_before[i]).0 == a
                                    && queue_before[i].1 == b;
                            if i < queue_popped.len() {
                                assert(queue_popped[i] == queue_before[i]);
                            }
                        }
                    }
                }
                let mut k: usize = 0;
                while k < 8
                    invariant
                        k <= 8,
                        start == old(self)@,
                        start.wf(),
                        layout == start.layout,
                        waiting == waiting_of(changes@),
                        layout.in_bounds(x as int, y as int),
                        self@.wf(),
                        self@.narrowed_from(start),
                        current_step == self@.step(),
                        queue_in_bounds(layout, pending@),
                        queue_answers(layout, start.flags(), self@.flags(), waiting, pending@),
                        layout.answers(self@.flags(), start.flags(), waiting, x as int, y as int),
                        arcs_during(
                            layout,
                            start.flags(),
                            self@.flags(),
                            waiting,
                            pending@,
                            x as int,
                            y as int,
                            k as int,
                        ),
                        layout.keeps_settled(self@.flags(), start.flags(), waiting),
                        forall|i: int|
                            0 <= i < start.cells.len() && start.cells[i].num_allowed > 0 ==> (
                            #[trigger] self@.cells[i]).num_allowed > 0,
                        total_allowed(self@.cells) <= total_before,
                        total_allowed(self@.cells) == total_before ==> pending@ == queue_popped,
                    decreases 8 - k,
                {
                    let direction = Direction::ALL_DIRECTIONS[k];
                    assert(direction == Direction::at(k as int));
                    let ghost before = self@;
                    let ghost queue_here = pending@;
                    let ok = self.propagate_direction(x, y, current_step, direction, &mut pending);
                    proof {
                        lemma_narrowed_chain(start, before, self@);
                        lemma_narrowed_field(before, self@);
                        lemma_visit_keeps_settled(
                            start,
                            before,
                            self@,
                            waiting,
                            x as int,
                            y as int,
                            direction,
                        );
                        lemma_answers_on(start, before, self@, waiting, x as int, y as int);
                        if layout.neighbour(x as int, y as int, direction) is Some {
                            let (nx, ny) = layout.neighbour(x as int, y as int, direction).unwrap();
                            layout.lemma_neighbour(x as int, y as int, direction);
                            layout.lemma_index(nx, ny);
                            lemma_queue_add(queue_here, nx as usize, ny as usize);
                        }
                    }
                    if !ok {
                        proof {
                            let (nx, ny) = layout.neighbour(x as int, y as int, direction).unwrap();
                            let i = layout.index(nx, ny);
                            assert(self@.cells[i].num_allowed == 0);
                            assert(before.cells[i].num_allowed > 0) by {
                                if before.cells[i] == self@.cells[i] {
                                    assert(self@.cells =~= before.cells);
                                }
                                lemma_narrowed_wf(before.cells[i], self@.cells[i], before.step());
                            }
                            assert(before.cells[i].narrowed_from(start.cells[i], start.step()));
                            lemma_narrowed_wf(start.cells[i], before.cells[i], start.step());
                            lemma_failed(start, self@, waiting, i);
                        }
                        return false;
                    }
                    proof {
                        lemma_visit_keeps_arcs(
                            start,
                            before,
                            self@,
                            waiting,
                            queue_here,
                            pending@,
                            x as int,
                            y as int,
                            direction,
                        );
                        assert forall|i: int|
                            0 <= i < start.cells.len() && start.cells[i].num_allowed > 0 implies (
                        #[trigger] self@.cells[i]).num_allowed > 0 by {
                            assert(before.cells[i].num_allowed > 0);
                        }
                        assert forall|i: int| 0 <= i < pending@.len() implies layout.in_bounds(
                            (#[trigger] pending@[i]).0 as int,
                            pending@[i].1 as int,
                        ) && layout.answers(
                            self@.flags(),
                            start.flags(),
                            waiting,
                            pending@[i].0 as int,
                            pending@[i].1 as int,
                        ) by {
                            let (a, b) = pending@[i];
                            if i < queue_here.len() && pending@[i] == queue_here[i] {
                                assert(layout.answers(
                                    before.flags(),
                                    start.flags(),
                                    waiting,
                                    a as int,
                                    b as int,
                                ));
                                lemma_answers_on(start, before, self@, waiting, a as int, b as int);
                            } else {
                                let (nx, ny) = layout.neighbour(x as int, y as int,
                                    direction).unwrap();
                                assert(a == nx && b == ny);
                                if self@.cell(nx, ny) == before.cell(nx, ny) {
                                    assert(self@.cells =~= before.cells);
                                }
                                lemma_changed_answers(
                                    start,
                                    before,
                                    self@,
                                    waiting,
                                    a as int,
                                    b as int,
                                );
                            }
                        }
                    }
                    k += 1;
                }
            }
        }
        proof {
            assert(pending@ =~= Seq::<(usize, usize)>::empty());
            lemma_propagated(start, self@, waiting);
            if layout.consistent_but(start.flags(), waiting) {
                lemma_narrowed_field(start, self@);
                lemma_flags_shaped(start);
                assert(layout.settled_in(self@.flags(), start.flags(), waiting)) by {
                    lemma_flags_shaped(self@);
                    assert forall|a: int, b: int, e: Direction|
                        layout.in_bounds(a, b) && layout.answers(
                            self@.flags(),
                            start.flags(),
                            waiting,
                            a,
                            b,
                        ) implies #[trigger] layout.arc_ok(self@.flags(), a, b, e) by {
                        assert(!is_queued(pending@, a, b));
                    }
                }
                layout.lemma_settled_is_stable(self@.flags(), start.flags(), waiting);
                if start.steady_before() {
                    lemma_steady_narrowed(start, self@);
                }
            }
        }
        true
    }

    /// Visits the arc that leaves `(x, y)` in `direction`: the neighbour there
    /// loses every tile that no tile of `(x, y)` fits, and is put on the
    /// worklist if it lost any.  Gives `false` if the neighbour lost its last tile.
    pub fn propagate_direction(
        &mut self,
        x: usize,
        y: usize,
        current_step: usize,
        direction: Direction,
        changes: &mut ChangeQueue<(usize, usize)>,
    ) -> (ok: bool)
        requires
            old(self)@.wf(),
            old(self)@.layout.in_bounds(x as int, y as int),
            current_step == old(self)@.step(),
        ensures
            final(self)@.wf(),
            final(self)@.narrowed_from(old(self)@),
            final(self)@.arc_pruned(old(self)@, x as int, y as int, direction),
            match old(self)@.layout.neighbour(x as int, y as int, direction) {
                None => ok && final(changes)@ == old(changes)@,
                Some((nx, ny)) => {
                    let changed = final(self)@ != old(self)@;
                    &&& ok == !(changed && final(self)@.cell(nx, ny).num_allowed == 0)
                    &&& final(changes)@ == if changed && ok {
                        queue_add(old(changes)@, nx as usize, ny as usize)
                    } else {
                        old(changes)@
                    }
                },
            },
    {
        proof {
            lemma_narrowed_self(self@);
        }
        match self.build_delta(x, y, direction) {
            None => true,
            Some((test_x, test_y)) => {
                proof {
                    self@.layout.lemma_index(x as int, y as int);
                    self@.layout.lemma_neighbour(x as int, y as int, direction);
                    self@.layout.lemma_index(test_x as int, test_y as int);
                }
                let source_point_index = generate_index(x, y, self.width);
                let test_point_index = generate_index(test_x, test_y, self.width);
                let mut ok = true;
                let ghost before = self@;
                assert(before.cells[source_point_index as int].wf());
                assert(before.cells[test_point_index as int].wf());
                if let Some((source_point, test_point)) = extract_two_elements(
                    self.points.as_mut_slice(),
                    source_point_index,
                    test_point_index,
                ) {
                    if test_direction(
                        self.boundaries.as_slice(),
                        source_point,
                        test_point,
                        current_step,
                        direction,
                    ) {
                        if test_point.num_allowed() == 0 {
                            ok = false;
                        } else {
                            proof {
                                lemma_pending_is_queued(changes@, test_x, test_y);
                            }
                            changes.add((test_x, test_y));
                        }
                    }
                }
                proof {
                    let after = self@;
                    let i = test_point_index as int;
                    assert(after.cells[i].narrowed_from(before.cells[i], current_step));
                    assert forall|j: int| 0 <= j < after.cells.len() implies (
                    #[trigger] after.cells[j]).narrowed_from(before.cells[j], before.step()) by {
                        if j != i {
                            assert(after.cells[j] == before.cells[j]);
                            lemma_narrowed_refl(before.cells[j], before.step());
                        }
                    }
                    lemma_narrowed_wf(before.cells[i], after.cells[i], current_step);
                    if after.cells[i] == before.cells[i] {
                        assert(after.cells =~= before.cells);
                    }
                }
                ok
            },
        }
    }

    /// The cell next to `(x, y)` in `direction`, if the grid has one.
    pub fn build_delta(&self, x: usize, y: usize, direction: Direction) -> (r: Option<
        (usize, usize),
    >)
        ensures
            match r {
                Some((nx, ny)) => self@.layout.neighbour(x as int, y as int, direction) == Some(
                    (nx as int, ny as int),
                ),
                None => self@.layout.neighbour(x as int, y as int, direction) is None,
            },
    {
        let west = x > 0 && x - 1 < self.width;
        let here_x = x < self.width;
        let east = self.width > 0 && x < self.width - 1;
        let north = y > 0 && y - 1 < self.height;
        let here_y = y < self.height;
        let south = self.height > 0 && y < self.height - 1;
        match direction {
            Direction::NorthWest => if west && north {
                Some((x - 1, y - 1))
            } else {
                None
            },
            Direction::North => if here_x && north {
                Some((x, y - 1))
            } else {
                None
            },
            Direction::NorthEast => if east && north {
                Some((x + 1, y - 1))
            } else {
                None
            },
            Direction::East => if east && here_y {
                Some((x + 1, y))
            } else {
                None
            },
            Direction::SouthEast => if east && south {
                Some((x + 1, y + 1))
            } else {
                None
            },
            Direction::South => if here_x && south {
                Some((x, y + 1))
            } else {
                None
            },
            Direction::SouthWest => if west && south {
                Some((x - 1, y + 1))
            } else {
                None
            },
            Direction::West => if west && here_y {
                Some((x - 1, y))
            } else {
                None
            },
        }
    }

    /// Undoes decisions, latest first, until one is found that leaves the
    /// grid consistent once the tile it chose is ruled out.  Gives the cell
    /// of that decision, or `None` when no decision is left or backtracking
    /// is not allowed.
    pub fn revert(&mut self) -> (r: Option<FoundFieldPoint>)
        requires
            old(self)@.wf(),
        ensures
            old(self)@.backtracked_to(final(self)@, r),
            r is Some && old(self)@.steady_before() ==> final(self)@.steady(),
    {
        proof {
            lemma_unwound_self(self@);
        }
        if self.allow_backtracking {
            while self.steps.len() > 0
                invariant
                    old(self)@.wf(),
                    old(self)@.allow_backtracking,
                    self@.wf(),
                    self@.unwound_from(old(self)@),
                    forall|s: int|
                        self@.steps.len() <= s < old(self)@.steps.len()
                            ==> !old(self)@.can_retry(s),
                decreases self.steps.len(),
            {
                let ghost here = self@;
                let (point_index, chosen_potential) = self.steps.pop().unwrap();
                let current_step = self.steps.len();
                let ghost popped = self@;
                proof {
                    assert(here.steps[here.steps.len() - 1] == (point_index, chosen_potential));
                    assert(popped.cells =~= here.cells);
                    assert(popped.steps =~= here.steps.take(current_step as int));
                    assert forall|k: int| 0 <= k < popped.steps.len() implies (
                    #[trigger] popped.steps[k]).0 < popped.cells.len() && popped.steps[k].1
                        < popped.layout.tiles.len() by {
                        assert(popped.steps[k] == here.steps[k]);
                    }
                }
                self.revert_points(current_step);
                let ghost back = self@;
                proof {
                    assert(back == here.reverted(current_step));
                    assert(old(self)@.steps[current_step as int] == (point_index,
                        chosen_potential)) by {
                        assert(here.steps == old(self)@.steps.take(here.steps.len() as int));
                    }
                    lemma_unwound_reverted(old(self)@, here, current_step);
                }
                assert(back.cells[point_index as int].wf());
                self.points[point_index].invalidate(chosen_potential, current_step);
                let ghost blocked = self@;
                proof {
                    let i = point_index as int;
                    assert(blocked.cells =~= back.cells.update(
                        i,
                        back.cells[i].invalidated(chosen_potential as int, current_step),
                    ));
                    lemma_invalidated_narrowed(back.cells[i], chosen_potential as int,
                        current_step);
                    assert(blocked.narrowed_from(back)) by {
                        assert forall|j: int| 0 <= j < blocked.cells.len() implies (
                        #[trigger] blocked.cells[j]).narrowed_from(back.cells[j], back.step()) by {
                            if j != i {
                                lemma_narrowed_refl(back.cells[j], back.step());
                            }
                        }
                    }
                    lemma_narrowed_field(back, blocked);
                    back.layout.lemma_coord(i);
                }
                let mut revert_changes = ChangeQueue::new();
                let coord = generate_coord(point_index, self.width);
                proof {
                    lemma_pending_is_queued(revert_changes@, coord.0, coord.1);
                }
                revert_changes.add(coord);
                let ghost waiting = waiting_of(revert_changes@);
                proof {
                    assert(revert_changes@[0] == coord);
                    assert(waiting =~= old(self)@.blocked_cell(current_step as int));
                    assert(blocked.flags() =~= old(self)@.blocked_flags(current_step as int)) by {
                        assert(back.flags() == old(self)@.reverted(current_step).flags());
                        assert(back.cells[point_index as int].wf());
                    }
                    if back.arc_consistent() {
                        lemma_blocked_keeps_arcs(
                            back,
                            blocked,
                            waiting,
                            coord.0 as int,
                            coord.1 as int,
                        );
                    }
                }
                let ok = self.propagate(revert_changes);
                proof {
                    lemma_narrowed_field(blocked, self@);
                    lemma_narrowed_chain(back, blocked, self@);
                    lemma_unwound_narrowed(old(self)@, back, self@);
                }
                if ok {
                    proof {
                        if old(self)@.steady_before() {
                            assert(old(self)@.reverted(current_step).arc_consistent());
                            lemma_steady_unwound(old(self)@, self@);
                        }
                    }
                    return Some(FoundFieldPoint::new(point_index));
                }
                let ghost failed = self@;
                self.revert_points(current_step);
                proof {
                    assert(self@.cells =~= failed.cells);
                }
            }
        }
        None
    }

    /// Puts every cell back to what it was right after `step`.
    fn revert_points(&mut self, step: usize)
        requires
            old(self)@.sound(),
            step == old(self)@.step(),
        ensures
            final(self)@.wf(),
            final(self)@ == (FieldState {
                cells: Seq::new(
                    old(self)@.cells.len(),
                    |i: int| old(self)@.cells[i].reverted(step),
                ),
                ..old(self)@
            }),
            forall|i: int|
                0 <= i < old(self)@.cells.len() ==> !is_after(
                    (#[trigger] final(self)@.cells[i]).max_invalidate_step,
                    step,
                ),
    {
        let n = self.points.len();
        let mut i: usize = 0;
        while i < n
            invariant
                i <= n,
                n == self.points@.len(),
                n == old(self).points@.len(),
                old(self)@.sound(),
                self.boundaries == old(self).boundaries,
                self.width == old(self).width,
                self.height == old(self).height,
                self.steps == old(self).steps,
                self.allow_backtracking == old(self).allow_backtracking,
                forall|j: int| 0 <= j < i
                    ==> (#[trigger] self.points@[j])@ == old(self).points@[j]@.reverted(step),
                forall|j: int| i <= j < n
                    ==> (#[trigger] self.points@[j])@ == old(self).points@[j]@,
            decreases n - i,
        {
            assert(old(self)@.cells[i as int].wf());
            self.points[i].revert_to(step);
            i += 1;
        }
        proof {
            let target = FieldState {
                cells: Seq::new(old(self)@.cells.len(),
                    |i: int| old(self)@.cells[i].reverted(step)),
                ..old(self)@
            };
            assert(self@.cells =~= target.cells);
            assert forall|j: int| 0 <= j < self@.cells.len()
                implies (#[trigger] self@.cells[j]).wf()
                && self@.cells[j].len() == self@.layout.tiles.len() && !is_after(
                self@.cells[j].max_invalidate_step,
                step,
            ) by {
                assert(old(self)@.cells[j].wf());
                lemma_reverted(old(self)@.cells[j], step);
            }
        }
    }

    /// The tile of every cell, row by row, if every cell has collapsed to one.
    ///
    /// Where the field is arc consistent, adjacent tiles of the result fit.
    pub fn render(&self) -> (r: Option<Vec<Vec<usize>>>)
        requires
            self@.wf(),
        ensures
            r is Some <==> self@.collapsed(),
            r matches Some(matrix) ==> self@.shown_by(matrix@) && (self@.arc_consistent()
                ==> self@.compatible(matrix@)),
    {
        let mut result: Vec<Vec<usize>> = Vec::new();
        let mut y: usize = 0;
        while y < self.height
            invariant
                self@.wf(),
                y <= self.height,
                result@.len() == y,
                forall|b: int| 0 <= b < y ==> (#[trigger] result@[b])@.len() == self.width,
                forall|a: int, b: int|
                    0 <= a < self.width && 0 <= b < y ==> self@.cells[#[trigger] self@.layout.index(
                        a,
                        b,
                    )].num_allowed == 1 && self@.shows(self@.layout.index(a, b), result@[b]@[a]),
            decreases self.height - y,
        {
            let mut row: Vec<usize> = Vec::new();
            let mut x: usize = 0;
            while x < self.width
                invariant
                    self@.wf(),
                    y < self.height,
                    x <= self.width,
                    row@.len() == x,
                    forall|a: int|
                        0 <= a < x ==> self@.cells[#[trigger] self@.layout.index(
                            a,
                            y as int,
                        )].num_allowed == 1 && self@.shows(self@.layout.index(a, y as int),
                            row@[a]),
                decreases self.width - x,
            {
                proof {
                    self@.layout.lemma_index(x as int, y as int);
                }
                let point_index = generate_index(x, y, self.width);
                let point = &self.points[point_index];
                assert(point@ == self@.cells[point_index as int]);
                if let Some(i) = point.extract_selection() {
                    row.push(i);
                } else {
                    return None;
                }
                x += 1;
            }
            result.push(row);
            y += 1;
        }
        proof {
            lemma_rendered(self@, result@);
        }
        Some(result)
    }

    /// What there is to show of every cell, row by row, whether or not the
    /// field is solved: the tile of a cell that has collapsed, the number of
    /// tiles for a cell that is still open, and `usize::MAX` for a cell that
    /// has no tile left.
    pub fn render_partial(&self) -> (matrix: Vec<Vec<usize>>)
        requires
            self@.wf(),
        ensures
            self@.shown_by(matrix@),
    {
        let mut result: Vec<Vec<usize>> = Vec::new();
        let mut y: usize = 0;
        while y < self.height
            invariant
                self@.wf(),
                y <= self.height,
                result@.len() == y,
                forall|b: int| 0 <= b < y ==> (#[trigger] result@[b])@.len() == self.width,
                forall|a: int, b: int|
                    0 <= a < self.width && 0 <= b < y ==> self@.shows(
                        #[trigger] self@.layout.index(a, b),
                        result@[b]@[a],
                    ),
            decreases self.height - y,
        {
            let mut row: Vec<usize> = Vec::new();
            let mut x: usize = 0;
            while x < self.width
                invariant
                    self@.wf(),
                    y < self.height,
                    x <= self.width,
                    row@.len() == x,
                    forall|a: int|
                        0 <= a < x ==> self@.shows(
                            #[trigger] self@.layout.index(a, y as int),
                            row@[a],
                        ),
                decreases self.width - x,
            {
                proof {
                    self@.layout.lemma_index(x as int, y as int);
                }
                let point_index = generate_index(x, y, self.width);
                let point = &self.points[point_index];
                assert(point@ == self@.cells[point_index as int]);
                if let Some(i) = point.extract_selection() {
                    row.push(i);
                } else if point.num_allowed() > 0 {
                    row.push(self.boundaries.len());
                } else {
                    row.push(usize::MAX);
                }
                x += 1;
            }
            result.push(row);
            y += 1;
        }
        result
    }
}

} // verus!
