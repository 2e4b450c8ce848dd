//! Why closing the edges rules out exactly the tiles that would connect
//! across the edge of the grid.

use vstd::prelude::*;
use crate::fieldpoint::{lemma_invalidated_narrowed, lemma_narrowed_unique};
use crate::grid::{flags_within, is_queued, no_tile, waiting_of, Layout};
use crate::propagation::lemma_narrowed_chain;
use crate::state::{lemma_flags_shaped, lemma_no_tile, queue_in_bounds, FieldState};

verus! {

/// Whether `(a, b)` lies on the row `fixed`, or on the column `fixed`.
pub open spec fn on_line(along_row: bool, fixed: int, a: int, b: int) -> bool {
    if along_row {
        b == fixed
    } else {
        a == fixed
    }
}

/// Whether `(a, b)` is among the first `k` cells of the row `fixed`, or of
/// the column `fixed`.
pub open spec fn on_line_before(along_row: bool, fixed: int, k: int, a: int, b: int) -> bool {
    on_line(along_row, fixed, a, b) && (if along_row {
        a
    } else {
        b
    }) < k
}

/// What a pass along one side of the grid does: every cell on the line has
/// lost tile `p`, still has a tile, and is waiting; nothing else changed.
pub open spec fn line_closed(
    before: FieldState,
    after: FieldState,
    q0: Seq<(usize, usize)>,
    q1: Seq<(usize, usize)>,
    p: int,
    along_row: bool,
    fixed: int,
) -> bool {
    &&& after.wf()
    &&& after.narrowed_from(before)
    &&& queue_in_bounds(before.layout, q1)
    &&& forall|a: int, b: int| is_queued(q0, a, b) ==> is_queued(q1, a, b)
    &&& forall|a: int, b: int|
        is_queued(q1, a, b) ==> is_queued(q0, a, b) || (before.layout.in_bounds(a, b) && on_line(
            along_row,
            fixed,
            a,
            b,
        ))
    &&& forall|a: int, b: int|
        before.layout.in_bounds(a, b) ==> (#[trigger] after.cell(a, b)) == (if on_line(
            along_row,
            fixed,
            a,
            b,
        ) {
            before.cell(a, b).invalidated(p, before.step())
        } else {
            before.cell(a, b)
        })
    &&& forall|a: int, b: int|
        before.layout.in_bounds(a, b) && on_line(along_row, fixed, a, b) ==> #[trigger] is_queued(
            q1,
            a,
            b,
        ) && after.cell(a, b).num_allowed > 0
}

/// A pass along one side that gave up: some cell is empty, and nothing but
/// tile `p` on that line was ruled out.
pub open spec fn line_given_up(
    before: FieldState,
    after: FieldState,
    p: int,
    along_row: bool,
    fixed: int,
) -> bool {
    &&& after.wf()
    &&& after.narrowed_from(before)
    &&& exists|a: int, b: int|
        before.layout.in_bounds(a, b) && on_line(along_row, fixed, a, b) && (#[trigger] after.cell(
            a,
            b,
        )).num_allowed == 0
    &&& forall|a: int, b: int|
        before.layout.in_bounds(a, b) ==> (#[trigger] after.cell(a, b)) == before.cell(a, b) || (
        on_line(along_row, fixed, a, b) && after.cell(a, b) == before.cell(a, b).invalidated(
            p,
            before.step(),
        ))
}

/// While the edges are being closed: whether tile `t` has been ruled out of
/// cell `(x, y)` by the time the tiles before `p` are done on all four sides
/// and tile `p` on the first `sides` of them.
pub open spec fn closed_so_far(layout: Layout, x: int, y: int, t: int, p: int, sides: int) -> bool {
    (t < p && layout.leaves_grid(x, y, t)) || (t == p && exists|side: int|
        0 <= side < sides && side < 4 && #[trigger] layout.on_side(x, y, side) && layout.side_needs(
            t,
            side,
        ))
}

/// What holds while the edges are being closed: exactly the tiles that are
/// done so far are ruled out, no cell that lost one of them is empty, and
/// every cell that changed is waiting in `queue`.
pub open spec fn closing(
    before: FieldState,
    now: FieldState,
    queue: Seq<(usize, usize)>,
    p: int,
    sides: int,
) -> bool {
    &&& before.wf()
    &&& now.wf()
    &&& now.narrowed_from(before)
    &&& queue_in_bounds(before.layout, queue)
    &&& forall|a: int, b: int, t: int|
        before.layout.in_bounds(a, b) && 0 <= t < before.layout.tiles.len() ==> (
        #[trigger] now.cell(a, b).allowed[t]) == (before.cell(a, b).allowed[t] && !closed_so_far(
            before.layout,
            a,
            b,
            t,
            p,
            sides,
        ))
    &&& forall|a: int, b: int, t: int|
        before.layout.in_bounds(a, b) && 0 <= t < before.layout.tiles.len()
            && #[trigger] closed_so_far(
            before.layout,
            a,
            b,
            t,
            p,
            sides,
        ) ==> now.cell(a, b).num_allowed > 0
    &&& forall|a: int, b: int|
        before.layout.in_bounds(a, b) && !is_queued(queue, a, b)
            ==> now.cells[#[trigger] before.layout.index(
            a,
            b,
        )] == before.cells[before.layout.index(a, b)]
    &&& forall|a: int, b: int|
        #[trigger] is_queued(queue, a, b) <==> before.layout.in_bounds(a, b) && touched_so_far(
            before.layout,
            a,
            b,
            p,
            sides,
        )
}

/// While the edges are being closed: whether the cell `(x, y)` has had to
/// give up a tile, allowed or not, by the time the tiles before `p` are done
/// on all four sides and tile `p` on the first `sides` of them.
pub open spec fn touched_so_far(layout: Layout, x: int, y: int, p: int, sides: int) -> bool {
    exists|t: int| 0 <= t < layout.tiles.len()
        && #[trigger] closed_so_far(layout, x, y, t, p, sides)
}

/// One more side done for tile `p` rules out tile `p` on that side, where
/// the tile connects towards it, and nothing else.
pub proof fn lemma_closed_one_more(layout: Layout, a: int, b: int, t: int, p: int, side: int)
    requires
        0 <= side < 4,
    ensures
        closed_so_far(layout, a, b, t, p, side + 1) == (closed_so_far(layout, a, b, t, p,
            side) || (t
            == p && layout.on_side(a, b, side) && layout.side_needs(t, side))),
        closed_so_far(layout, a, b, t, p, side) && t <= p ==> layout.leaves_grid(a, b, t),
        closed_so_far(layout, a, b, t, p, side + 1) && t <= p ==> layout.leaves_grid(a, b, t),
{
    if closed_so_far(layout, a, b, t, p, side + 1) && !(t < p && layout.leaves_grid(a, b, t)) {
        let k = choose|k: int|
            0 <= k < side + 1 && k < 4 && #[trigger] layout.on_side(a, b, k)
                && layout.side_needs(t, k);
        if k < side {
            assert(closed_so_far(layout, a, b, t, p, side));
        }
    }
    if closed_so_far(layout, a, b, t, p, side) && !(t < p && layout.leaves_grid(a, b, t)) {
        let k = choose|k: int|
            0 <= k < side && k < 4 && #[trigger] layout.on_side(a, b, k) && layout.side_needs(t, k);
        assert(layout.on_side(a, b, k));
    }
    if t == p && layout.on_side(a, b, side) && layout.side_needs(t, side) {
        assert(closed_so_far(layout, a, b, t, p, side + 1));
    }
}

/// A tile that does not connect towards a side needs nothing done on that side.
pub proof fn lemma_side_skipped(
    start: FieldState,
    now: FieldState,
    queue: Seq<(usize, usize)>,
    p: int,
    side: int,
)
    requires
        closing(start, now, queue, p, side),
        0 <= p < start.layout.tiles.len(),
        0 <= side < 4,
        !start.layout.side_needs(p, side),
    ensures
        closing(start, now, queue, p, side + 1),
{
    let layout = start.layout;
    assert forall|a: int, b: int, t: int|
        layout.in_bounds(a, b) && 0 <= t < layout.tiles.len() implies closed_so_far(
        layout,
        a,
        b,
        t,
        p,
        side + 1,
    ) == closed_so_far(layout, a, b, t, p, side) by {
        if closed_so_far(layout, a, b, t, p, side + 1) && !(t < p && layout.leaves_grid(a, b, t)) {
            let k = choose|k: int|
                0 <= k < side + 1 && k < 4 && #[trigger] layout.on_side(a, b, k)
                    && layout.side_needs(
                    t,
                    k,
                );
            assert(k < side);
        }
        if closed_so_far(layout, a, b, t, p, side) && !(t < p && layout.leaves_grid(a, b, t)) {
            let k = choose|k: int|
                0 <= k < side && k < 4 && #[trigger] layout.on_side(a, b, k)
                    && layout.side_needs(t, k);
            assert(layout.on_side(a, b, k));
        }
    }
    assert forall|a: int, b: int, t: int|
        layout.in_bounds(a, b) && 0 <= t < layout.tiles.len() implies (#[trigger] now.cell(
        a,
        b,
    ).allowed[t]) == (start.cell(a, b).allowed[t]
        && !closed_so_far(layout, a, b, t, p, side + 1)) by {
        assert(closed_so_far(layout, a, b, t, p, side + 1) == closed_so_far(layout, a, b, t, p,
            side));
    }
    assert forall|a: int, b: int, t: int|
        layout.in_bounds(a, b) && 0 <= t < layout.tiles.len() && #[trigger] closed_so_far(
            layout,
            a,
            b,
            t,
            p,
            side + 1,
        ) implies now.cell(a, b).num_allowed > 0 by {
        assert(closed_so_far(layout, a, b, t, p, side + 1) == closed_so_far(layout, a, b, t, p,
            side));
    }
    assert forall|a: int, b: int|
        touched_so_far(layout, a, b, p, side + 1) == touched_so_far(layout, a, b, p, side) by {
        if touched_so_far(layout, a, b, p, side + 1) {
            let t = choose|t: int|
                0 <= t < layout.tiles.len()
                    && #[trigger] closed_so_far(layout, a, b, t, p, side + 1);
            lemma_closed_one_more(layout, a, b, t, p, side);
            assert(closed_so_far(layout, a, b, t, p, side));
        }
        if touched_so_far(layout, a, b, p, side) {
            let t = choose|t: int|
                0 <= t < layout.tiles.len() && #[trigger] closed_so_far(layout, a, b, t, p, side);
            lemma_closed_one_more(layout, a, b, t, p, side);
            assert(closed_so_far(layout, a, b, t, p, side + 1));
        }
    }
    assert forall|a: int, b: int|
        #[trigger] is_queued(queue, a, b) <==> layout.in_bounds(a, b) && touched_so_far(
            layout,
            a,
            b,
            p,
            side + 1,
        ) by {
        assert(touched_so_far(layout, a, b, p, side + 1) == touched_so_far(layout, a, b, p, side));
    }
}

/// What a pass along a side of the grid adds to the closing of the edges.
pub proof fn lemma_side_closed(
    start: FieldState,
    before: FieldState,
    after: FieldState,
    q0: Seq<(usize, usize)>,
    q1: Seq<(usize, usize)>,
    p: int,
    side: int,
    along_row: bool,
    fixed: int,
    alive: bool,
)
    requires
        closing(start, before, q0, p, side),
        0 <= p < start.layout.tiles.len(),
        0 <= side < 4,
        start.layout.side_needs(p, side),
        forall|a: int, b: int|
            start.layout.in_bounds(a, b)
                ==> on_line(along_row, fixed, a, b) == start.layout.on_side(
                a,
                b,
                side,
            ),
        alive ==> line_closed(before, after, q0, q1, p, along_row, fixed),
        !alive ==> line_given_up(before, after, p, along_row, fixed),
    ensures
        alive ==> closing(start, after, q1, p, side + 1),
        !alive ==> {
            &&& after.wf()
            &&& after.narrowed_from(start)
            &&& flags_within(start.closed_flags(), after.flags())
            &&& start.layout.dead_end(start.closed_flags())
            &&& !start.edges_alive()
            &&& exists|i: int| 0 <= i < after.cells.len()
                && (#[trigger] after.cells[i]).num_allowed == 0
        },
{
    let layout = start.layout;
    let step = start.step();
    lemma_narrowed_chain(start, before, after);
    assert forall|a: int, b: int| layout.in_bounds(a, b)
        implies before.cell(a, b).wf() && before.cell(
        a,
        b,
    ).len() == layout.tiles.len() by {
        layout.lemma_index(a, b);
        assert(before.cells[layout.index(a, b)].wf());
    }
    if alive {
        assert forall|a: int, b: int, t: int|
            layout.in_bounds(a, b) && 0 <= t < layout.tiles.len() implies (#[trigger] after.cell(
            a,
            b,
        ).allowed[t]) == (start.cell(a, b).allowed[t] && !closed_so_far(
            layout,
            a,
            b,
            t,
            p,
            side + 1,
        )) by {
            assert(before.cell(a, b).allowed[t] == (start.cell(a, b).allowed[t] && !closed_so_far(
                layout,
                a,
                b,
                t,
                p,
                side,
            )));
            lemma_invalidated_narrowed(before.cell(a, b), p, step);
            lemma_closed_one_more(layout, a, b, t, p, side);
        }
        assert forall|a: int, b: int, t: int|
            layout.in_bounds(a, b) && 0 <= t < layout.tiles.len() && #[trigger] closed_so_far(
                layout,
                a,
                b,
                t,
                p,
                side + 1,
            ) implies after.cell(a, b).num_allowed > 0 by {
            lemma_closed_one_more(layout, a, b, t, p, side);
            if on_line(along_row, fixed, a, b) {
                assert(is_queued(q1, a, b) && after.cell(a, b).num_allowed > 0);
            } else {
                assert(closed_so_far(layout, a, b, t, p, side));
                assert(after.cell(a, b) == before.cell(a, b));
            }
        }
        assert forall|a: int, b: int|
            layout.in_bounds(a, b) && !is_queued(q1, a, b)
                implies after.cells[#[trigger] layout.index(
            a,
            b,
        )] == start.cells[layout.index(a, b)] by {
            if on_line(along_row, fixed, a, b) {
                assert(is_queued(q1, a, b) && after.cell(a, b).num_allowed > 0);
            }
            assert(after.cell(a, b) == before.cell(a, b));
            assert(!is_queued(q0, a, b));
        }
        assert forall|a: int, b: int|
            #[trigger] is_queued(q1, a, b) <==> layout.in_bounds(a, b) && touched_so_far(
                layout,
                a,
                b,
                p,
                side + 1,
            ) by {
            if is_queued(q1, a, b) {
                if is_queued(q0, a, b) {
                    let t = choose|t: int|
                        0 <= t < layout.tiles.len() && #[trigger] closed_so_far(
                            layout,
                            a,
                            b,
                            t,
                            p,
                            side,
                        );
                    lemma_closed_one_more(layout, a, b, t, p, side);
                    assert(closed_so_far(layout, a, b, t, p, side + 1));
                } else {
                    assert(layout.on_side(a, b, side));
                    lemma_closed_one_more(layout, a, b, p, p, side);
                    assert(closed_so_far(layout, a, b, p, p, side + 1));
                }
            }
            if layout.in_bounds(a, b) && touched_so_far(layout, a, b, p, side + 1) {
                let t = choose|t: int|
                    0 <= t < layout.tiles.len() && #[trigger] closed_so_far(
                        layout,
                        a,
                        b,
                        t,
                        p,
                        side + 1,
                    );
                lemma_closed_one_more(layout, a, b, t, p, side);
                if closed_so_far(layout, a, b, t, p, side) {
                    assert(touched_so_far(layout, a, b, p, side));
                    assert(is_queued(q0, a, b));
                } else {
                    assert(on_line(along_row, fixed, a, b));
                    assert(is_queued(q1, a, b) && after.cell(a, b).num_allowed > 0);
                }
            }
        }
    } else {
        lemma_flags_shaped(after);
        let shut = start.closed_flags();
        assert forall|i: int, t: int|
            0 <= i < shut.len() && 0 <= t < shut[i].len() && #[trigger] shut[i][t] implies t
            < after.flags()[i].len() && after.flags()[i][t] by {
            layout.lemma_coord(i);
            let a = i % (layout.width as int);
            let b = i / (layout.width as int);
            assert(!layout.leaves_grid(a, b, t));
            assert(start.cell(a, b).allowed[t]);
            assert(before.cell(a, b).allowed[t] == (start.cell(a, b).allowed[t] && !closed_so_far(
                layout,
                a,
                b,
                t,
                p,
                side,
            )));
            lemma_closed_one_more(layout, a, b, t, p, side);
            lemma_invalidated_narrowed(before.cell(a, b), p, step);
            assert(after.cell(a, b) == before.cell(a, b) || (on_line(along_row, fixed, a, b)
                && after.cell(a, b) == before.cell(a, b).invalidated(p, step)));
            if t == p && on_line(along_row, fixed, a, b) {
                assert(layout.on_side(a, b, side));
                assert(layout.leaves_grid(a, b, t));
            }
            assert(after.cell(a, b).allowed[t]);
        }
        assert(flags_within(shut, after.flags()));
        let (ea, eb) = choose|a: int, b: int|
            layout.in_bounds(a, b) && on_line(along_row, fixed, a, b) && (#[trigger] after.cell(
                a,
                b,
            )).num_allowed == 0;
        layout.lemma_index(ea, eb);
        let e = layout.index(ea, eb);
        assert(after.cells[e].num_allowed == 0);
        lemma_no_tile(after.cells[e]);
        assert(no_tile(shut[e])) by {
            assert forall|t: int| 0 <= t < shut[e].len() implies !shut[e][t] by {
                if shut[e][t] {
                    assert(after.flags()[e][t]);
                }
            }
        }
        assert(layout.on_side(ea, eb, side));
        assert(layout.leaves_grid(ea, eb, p));
        assert forall|inner: Seq<Seq<bool>>| #[trigger]
            layout.stable_in(inner, shut) implies exists|j: int|
            0 <= j < inner.len() && no_tile(#[trigger] inner[j]) by {
            assert forall|t: int| 0 <= t < inner[e].len() implies !inner[e][t] by {
                if inner[e][t] {
                    assert(shut[e][t]);
                }
            }
            assert(no_tile(inner[e]));
        }
    }
}

/// With all four sides done for tile `p`, the tiles up to `p` are done.
pub proof fn lemma_tile_closed(
    start: FieldState,
    now: FieldState,
    queue: Seq<(usize, usize)>,
    p: int,
)
    requires
        closing(start, now, queue, p, 4),
    ensures
        closing(start, now, queue, p + 1, 0),
{
    let layout = start.layout;
    assert forall|a: int, b: int, t: int|
        closed_so_far(layout, a, b, t, p, 4) == closed_so_far(layout, a, b, t, p + 1, 0) by {
        if closed_so_far(layout, a, b, t, p, 4) && t == p {
            let k = choose|k: int|
                0 <= k < 4 && k < 4 && #[trigger] layout.on_side(a, b, k)
                    && layout.side_needs(t, k);
            assert(layout.leaves_grid(a, b, t));
        }
        if closed_so_far(layout, a, b, t, p + 1, 0) && t == p {
            let k = choose|k: int|
                0 <= k < 4 && #[trigger] layout.on_side(a, b, k) && layout.side_needs(t, k);
            assert(layout.on_side(a, b, k));
        }
    }
    assert forall|a: int, b: int, t: int|
        layout.in_bounds(a, b) && 0 <= t < layout.tiles.len() implies (#[trigger] now.cell(
        a,
        b,
    ).allowed[t]) == (start.cell(a, b).allowed[t] && !closed_so_far(layout, a, b, t, p + 1, 0)) by {
        assert(closed_so_far(layout, a, b, t, p, 4) == closed_so_far(layout, a, b, t, p + 1, 0));
    }
    assert forall|a: int, b: int, t: int|
        layout.in_bounds(a, b) && 0 <= t < layout.tiles.len() && #[trigger] closed_so_far(
            layout,
            a,
            b,
            t,
            p + 1,
            0,
        ) implies now.cell(a, b).num_allowed > 0 by {
        assert(closed_so_far(layout, a, b, t, p, 4) == closed_so_far(layout, a, b, t, p + 1, 0));
    }
    assert forall|a: int, b: int|
        #[trigger] is_queued(queue, a, b) <==> layout.in_bounds(a, b) && touched_so_far(
            layout,
            a,
            b,
            p + 1,
            0,
        ) by {
        if touched_so_far(layout, a, b, p + 1, 0) {
            let t = choose|t: int|
                0 <= t < layout.tiles.len() && #[trigger] closed_so_far(layout, a, b, t, p + 1, 0);
            assert(closed_so_far(layout, a, b, t, p, 4));
        }
        if touched_so_far(layout, a, b, p, 4) {
            let t = choose|t: int|
                0 <= t < layout.tiles.len() && #[trigger] closed_so_far(layout, a, b, t, p, 4);
            assert(closed_so_far(layout, a, b, t, p + 1, 0));
        }
    }
}

/// Once every tile is done, each cell allows exactly the tiles it allowed
/// before that do not connect across the edge.
pub proof fn lemma_edges_closed(
    start: FieldState,
    closed: FieldState,
    queue: Seq<(usize, usize)>,
    done: int,
)
    requires
        closing(start, closed, queue, done, 0),
        done == start.layout.tiles.len() || start.cells.len() == 0,
    ensures
        closed.flags() == start.closed_flags(),
        waiting_of(queue) == start.edge_cells(),
{
    let layout = start.layout;
    assert forall|i: int| 0 <= i < closed.cells.len() implies closed.flags()[i]
        =~= start.closed_flags()[i] by {
        layout.lemma_coord(i);
        let a = i % (layout.width as int);
        let b = i / (layout.width as int);
        assert(closed.cells[i].wf());
        assert forall|t: int| 0 <= t < layout.tiles.len() implies closed.flags()[i][t]
            == start.closed_flags()[i][t] by {
            assert(closed.cell(a, b).allowed[t] == (start.cell(a, b).allowed[t] && !closed_so_far(
                layout,
                a,
                b,
                t,
                done,
                0,
            )));
        }
    }
    assert(closed.flags() =~= start.closed_flags());
    assert forall|c: (int,
        int)| waiting_of(queue).contains(c) == start.edge_cells().contains(c) by {
        let (a, b) = c;
        if layout.in_bounds(a, b) {
            layout.lemma_index(a, b);
            assert(start.cells.len() != 0);
        }
        if is_queued(queue, a, b) {
            let t = choose|t: int|
                0 <= t < layout.tiles.len() && #[trigger] closed_so_far(layout, a, b, t, done, 0);
            assert(layout.leaves_grid(a, b, t));
        }
        if start.edge_cells().contains(c) {
            let t = choose|t: int|
                0 <= t < layout.tiles.len() && #[trigger] layout.leaves_grid(a, b, t);
            assert(closed_so_far(layout, a, b, t, done, 0));
            assert(touched_so_far(layout, a, b, done, 0));
        }
    }
    assert(waiting_of(queue) =~= start.edge_cells());
}

/// A field narrowed to the closed flags is the field with its edges closed.
pub proof fn lemma_closed_is(start: FieldState, closed: FieldState)
    requires
        start.wf(),
        closed.narrowed_from(start),
        closed.flags() == start.closed_flags(),
    ensures
        closed == start.closed(),
{
    assert forall|i: int| 0 <= i < closed.cells.len() implies closed.cells[i]
        == start.closed().cells[i] by {
        assert(start.cells[i].wf());
        assert(closed.cells[i].narrowed_from(start.cells[i], start.step()));
        lemma_narrowed_unique(start.cells[i], closed.cells[i], start.step());
        assert(closed.flags()[i] == closed.cells[i].allowed);
    }
    assert(closed.cells =~= start.closed().cells);
}

} // verus!
