//! Why propagation ends, never rules out a tile of an assignment that it
//! could come to rest on, and leaves the greatest such assignment.

use vstd::prelude::*;
use vstd::std_specs::cmp::PartialEqSpec;
use crate::boundary::Direction;
use crate::changequeue::is_pending;
use crate::fieldpoint::{
    is_after,
    lemma_narrowed_refl,
    lemma_narrowed_trans,
    lemma_narrowed_wf,
    PointState,
};
use crate::grid::{flags_within, is_queued, no_tile, queue_add, supported, Layout};
use crate::state::{lemma_flags_shaped, lemma_no_tile, total_allowed, FieldState};

verus! {

/// Membership in a queue of coordinates, said in two ways.
pub proof fn lemma_pending_is_queued(queue: Seq<(usize, usize)>, x: usize, y: usize)
    ensures
        is_pending(queue, (x, y)) <==> is_queued(queue, x as int, y as int),
{
    if is_pending(queue, (x, y)) {
        let i = choose|i: int| 0 <= i < queue.len() && (#[trigger] queue[i]).eq_spec(&(x, y));
        assert(queue[i].0 == x && queue[i].1 == y);
    }
    if is_queued(queue, x as int, y as int) {
        let i = choose|i: int| 0 <= i < queue.len() && (#[trigger] queue[i]).0 == x
            && queue[i].1 == y;
        assert(queue[i].eq_spec(&(x, y)));
    }
}

/// Adding to a queue keeps what was waiting and makes the added cell wait.
pub proof fn lemma_queue_add(queue: Seq<(usize, usize)>, x: usize, y: usize)
    ensures
        is_queued(queue_add(queue, x, y), x as int, y as int),
        forall|a: int, b: int| is_queued(queue, a, b) ==> is_queued(queue_add(queue, x, y), a, b),
        queue_add(queue, x, y).len() <= queue.len() + 1,
        forall|i: int|
            0 <= i < queue_add(queue, x, y).len() ==> (i < queue.len() && #[trigger] queue_add(
                queue,
                x,
                y,
            )[i] == queue[i]) || queue_add(queue, x, y)[i] == (x, y),
{
    let added = queue_add(queue, x, y);
    if !is_queued(queue, x as int, y as int) {
        assert(added[queue.len() as int] == (x, y));
        assert forall|a: int, b: int| is_queued(queue, a, b) implies is_queued(added, a, b) by {
            let i = choose|i: int| 0 <= i < queue.len() && (#[trigger] queue[i]).0 == a
                && queue[i].1 == b;
            assert(added[i] == queue[i]);
        }
    }
}

/// A well-formed field is narrowed from itself.
pub proof fn lemma_narrowed_self(f: FieldState)
    requires
        f.wf(),
    ensures
        f.narrowed_from(f),
{
    assert forall|i: int| 0 <= i < f.cells.len() implies (#[trigger] f.cells[i]).narrowed_from(
        f.cells[i],
        f.step(),
    ) by {
        lemma_narrowed_refl(f.cells[i], f.step());
    }
}

/// Narrowing a field twice at one step is narrowing it once.
pub proof fn lemma_narrowed_chain(a: FieldState, b: FieldState, c: FieldState)
    requires
        b.narrowed_from(a),
        c.narrowed_from(b),
    ensures
        c.narrowed_from(a),
{
    assert forall|i: int| 0 <= i < c.cells.len() implies (#[trigger] c.cells[i]).narrowed_from(
        a.cells[i],
        a.step(),
    ) by {
        assert(b.cells[i].narrowed_from(a.cells[i], a.step()));
        lemma_narrowed_trans(a.cells[i], b.cells[i], c.cells[i], a.step());
    }
}

/// Cells that count no more than before sum to no more than before, and to
/// less if one of them counts less.
pub proof fn lemma_total_monotone(before: Seq<PointState>, after: Seq<PointState>)
    requires
        before.len() == after.len(),
        forall|i: int| 0 <= i < after.len() ==> after[i].num_allowed <= before[i].num_allowed,
    ensures
        total_allowed(after) <= total_allowed(before),
        (exists|k: int| 0 <= k < after.len() && after[k].num_allowed < before[k].num_allowed)
            ==> total_allowed(after) < total_allowed(before),
    decreases before.len(),
{
    if before.len() > 0 {
        let b = before.drop_last();
        let a = after.drop_last();
        assert forall|i: int| 0 <= i < a.len() implies a[i].num_allowed <= b[i].num_allowed by {
            assert(a[i] == after[i] && b[i] == before[i]);
        }
        lemma_total_monotone(b, a);
        if exists|k: int| 0 <= k < after.len() && after[k].num_allowed < before[k].num_allowed {
            let k = choose|k: int| 0 <= k < after.len()
                && after[k].num_allowed < before[k].num_allowed;
            if k < a.len() {
                assert(a[k] == after[k] && b[k] == before[k]);
            }
        }
    }
}

/// A narrowed field is well formed, allows no more in total than before, and
/// allows less in total unless it is the field it was narrowed from.
pub proof fn lemma_narrowed_field(before: FieldState, after: FieldState)
    requires
        before.wf(),
        after.narrowed_from(before),
    ensures
        after.wf(),
        flags_within(after.flags(), before.flags()),
        total_allowed(after.cells) <= total_allowed(before.cells),
        after != before ==> total_allowed(after.cells) < total_allowed(before.cells),
{
    assert forall|i: int| 0 <= i < after.cells.len() implies {
        &&& (#[trigger] after.cells[i]).wf()
        &&& after.cells[i].len() == after.layout.tiles.len()
        &&& !is_after(after.cells[i].max_invalidate_step, after.step())
        &&& after.cells[i].num_allowed <= before.cells[i].num_allowed
        &&& after.cells[i].within(before.cells[i])
    } by {
        assert(before.cells[i].wf());
        lemma_narrowed_wf(before.cells[i], after.cells[i], before.step());
    }
    lemma_total_monotone(before.cells, after.cells);
    if after != before {
        if forall|i: int| 0 <= i < after.cells.len() ==> after.cells[i] == before.cells[i] {
            assert(after.cells =~= before.cells);
        }
        let k = choose|k: int| 0 <= k < after.cells.len() && after.cells[k] != before.cells[k];
        assert(before.cells[k].wf());
        lemma_narrowed_wf(before.cells[k], after.cells[k], before.step());
        assert(after.cells[k].num_allowed < before.cells[k].num_allowed);
    }
}

/// Flags that lie between other flags and differ from one side differ from
/// the other side too: a cell that has lost a tile has not got it back by
/// losing more.
pub proof fn lemma_still_less(most: Seq<bool>, less: Seq<bool>, least: Seq<bool>)
    requires
        most.len() == less.len(),
        less.len() == least.len(),
        forall|t: int| 0 <= t < least.len() && least[t] ==> less[t],
        forall|t: int| 0 <= t < less.len() && less[t] ==> most[t],
        less != most,
    ensures
        least != most,
{
    if least == most {
        assert(less =~= most);
    }
}

/// Every cell that is waiting in `queue` has to answer for its arcs: it was
/// waiting to begin with, or it has lost a tile since.
pub open spec fn queue_answers(
    layout: Layout,
    start: Seq<Seq<bool>>,
    now: Seq<Seq<bool>>,
    waiting: Set<(int, int)>,
    queue: Seq<(usize, usize)>,
) -> bool {
    forall|i: int|
        0 <= i < queue.len() ==> layout.answers(
            now,
            start,
            waiting,
            (#[trigger] queue[i]).0 as int,
            queue[i].1 as int,
        )
}

/// While the arcs that leave `(x, y)` are being visited: of the cells that
/// have to answer for their arcs, `(x, y)` has its first `k` arcs
/// consistent, and every other cell that is not waiting in `queue` has all of
/// them consistent.
pub open spec fn arcs_during(
    layout: Layout,
    start: Seq<Seq<bool>>,
    now: Seq<Seq<bool>>,
    waiting: Set<(int, int)>,
    queue: Seq<(usize, usize)>,
    x: int,
    y: int,
    k: int,
) -> bool {
    forall|a: int, b: int, e: Direction|
        layout.in_bounds(a, b) && layout.answers(now, start, waiting, a, b) && (if a == x
            && b == y {
            e.index() < k
        } else {
            !is_queued(queue, a, b)
        }) ==> #[trigger] layout.arc_ok(now, a, b, e)
}

/// Between visits: every cell that has to answer for its arcs and is not
/// waiting in `queue` has all of them consistent.
pub open spec fn arcs_between(
    layout: Layout,
    start: Seq<Seq<bool>>,
    now: Seq<Seq<bool>>,
    waiting: Set<(int, int)>,
    queue: Seq<(usize, usize)>,
) -> bool {
    forall|a: int, b: int, e: Direction|
        layout.in_bounds(a, b) && layout.answers(now, start, waiting, a, b) && !is_queued(
            queue,
            a,
            b,
        ) ==> #[trigger] layout.arc_ok(now, a, b, e)
}

/// A cell that has to answer for its arcs still has to after more tiles
/// were ruled out.
pub proof fn lemma_answers_on(
    start: FieldState,
    before: FieldState,
    after: FieldState,
    waiting: Set<(int, int)>,
    x: int,
    y: int,
)
    requires
        start.wf(),
        before.narrowed_from(start),
        after.narrowed_from(before),
        start.layout.in_bounds(x, y),
        start.layout.answers(before.flags(), start.flags(), waiting, x, y),
    ensures
        start.layout.answers(after.flags(), start.flags(), waiting, x, y),
{
    let layout = start.layout;
    layout.lemma_index(x, y);
    let i = layout.index(x, y);
    lemma_narrowed_field(start, before);
    lemma_narrowed_field(before, after);
    if !waiting.contains((x, y)) {
        assert(after.cells[i].within(before.cells[i]));
        assert(before.cells[i].within(start.cells[i]));
        lemma_still_less(start.flags()[i], before.flags()[i], after.flags()[i]);
    }
}

/// A cell that a visit has changed has to answer for its arcs.
pub proof fn lemma_changed_answers(
    start: FieldState,
    before: FieldState,
    after: FieldState,
    waiting: Set<(int, int)>,
    x: int,
    y: int,
)
    requires
        start.wf(),
        before.narrowed_from(start),
        after.narrowed_from(before),
        start.layout.in_bounds(x, y),
        after.cell(x, y) != before.cell(x, y),
    ensures
        start.layout.answers(after.flags(), start.flags(), waiting, x, y),
{
    let layout = start.layout;
    layout.lemma_index(x, y);
    let i = layout.index(x, y);
    lemma_narrowed_field(start, before);
    lemma_narrowed_field(before, after);
    assert(before.cells[i].wf());
    lemma_narrowed_wf(before.cells[i], after.cells[i], before.step());
    assert(after.cells[i].allowed != before.cells[i].allowed);
    assert(after.cells[i].within(before.cells[i]));
    assert(before.cells[i].within(start.cells[i]));
    if after.flags()[i] == start.flags()[i] {
        assert(after.cells[i].allowed =~= before.cells[i].allowed);
    }
}

/// Visiting one more arc of `(x, y)` keeps what `arcs_during` says, with one
/// more arc consistent, as long as a neighbour that changed is waiting
/// afterwards.
pub proof fn lemma_visit_keeps_arcs(
    start: FieldState,
    before: FieldState,
    after: FieldState,
    waiting: Set<(int, int)>,
    q0: Seq<(usize, usize)>,
    q1: Seq<(usize, usize)>,
    x: int,
    y: int,
    d: Direction,
)
    requires
        start.wf(),
        before.narrowed_from(start),
        before.layout.in_bounds(x, y),
        after.arc_pruned(before, x, y, d),
        arcs_during(before.layout, start.flags(), before.flags(), waiting, q0, x, y, d.index()),
        forall|a: int, b: int| is_queued(q0, a, b) ==> is_queued(q1, a, b),
        after != before ==> (before.layout.neighbour(x, y, d) matches Some((nx, ny)) && is_queued(
            q1,
            nx,
            ny,
        )),
    ensures
        arcs_during(
            before.layout,
            start.flags(),
            after.flags(),
            waiting,
            q1,
            x,
            y,
            d.index() + 1,
        ),
{
    let layout = before.layout;
    lemma_narrowed_field(start, before);
    assert forall|a: int, b: int, e: Direction|
        layout.in_bounds(a, b) && layout.answers(after.flags(), start.flags(), waiting, a, b) && (
        if a == x && b == y {
            e.index() < d.index() + 1
        } else {
            !is_queued(q1, a, b)
        }) implies #[trigger] layout.arc_ok(after.flags(), a, b, e) by {
        if after == before {
            if a == x && b == y && e == d {
                if layout.neighbour(x, y, d) is Some {
                    let (nx, ny) = layout.neighbour(x, y, d).unwrap();
                    let i = layout.index(nx, ny);
                    layout.lemma_neighbour(x, y, d);
                    layout.lemma_index(x, y);
                    layout.lemma_index(nx, ny);
                    assert forall|t: int|
                        0 <= t < layout.tiles.len() && #[trigger] after.flags()[i][t]
                            implies supported(
                        layout.tiles,
                        after.flags()[layout.index(x, y)],
                        t,
                        d,
                    ) by {
                        assert(after.cells[i].allowed[t]);
                    }
                }
            } else {
                assert(layout.arc_ok(before.flags(), a, b, e));
            }
        } else {
            let (nx, ny) = layout.neighbour(x, y, d).unwrap();
            let i = layout.index(nx, ny);
            layout.lemma_neighbour(x, y, d);
            layout.lemma_index(x, y);
            layout.lemma_index(nx, ny);
            layout.lemma_index(a, b);
            lemma_narrowed_field(before, after);
            let src = layout.index(a, b);
            if src == i {
                layout.lemma_index_injective(a, b, nx, ny);
            }
            assert(after.cells[src] == before.cells[src]);
            assert(layout.answers(before.flags(), start.flags(), waiting, a, b));
            if layout.neighbour(a, b, e) is Some {
                let (mx, my) = layout.neighbour(a, b, e).unwrap();
                layout.lemma_neighbour(a, b, e);
                layout.lemma_index(mx, my);
                let dst = layout.index(mx, my);
                if a == x && b == y && e == d {
                    assert forall|t: int|
                        0 <= t < layout.tiles.len() && #[trigger] after.flags()[dst][t]
                            implies supported(
                        layout.tiles,
                        after.flags()[src],
                        t,
                        e,
                    ) by {
                        assert(after.cells[i].allowed[t]);
                    }
                } else {
                    assert(layout.arc_ok(before.flags(), a, b, e));
                    assert forall|t: int|
                        0 <= t < layout.tiles.len() && #[trigger] after.flags()[dst][t]
                            implies supported(
                        layout.tiles,
                        after.flags()[src],
                        t,
                        e,
                    ) by {
                        assert(after.cells[dst].within(before.cells[dst]));
                        assert(after.cells[dst].allowed[t]);
                        assert(before.flags()[dst][t]);
                    }
                }
            }
        }
    }
}

/// Visiting an arc of a cell that has to answer for its arcs removes no tile
/// of an assignment that propagation could come to rest on.
pub proof fn lemma_visit_keeps_settled(
    start: FieldState,
    before: FieldState,
    after: FieldState,
    waiting: Set<(int, int)>,
    x: int,
    y: int,
    d: Direction,
)
    requires
        start.wf(),
        before.narrowed_from(start),
        before.layout.in_bounds(x, y),
        after.arc_pruned(before, x, y, d),
        before.layout.answers(before.flags(), start.flags(), waiting, x, y),
        before.layout.keeps_settled(before.flags(), start.flags(), waiting),
    ensures
        before.layout.keeps_settled(after.flags(), start.flags(), waiting),
{
    let layout = before.layout;
    lemma_narrowed_field(start, before);
    if after != before {
        let (nx, ny) = layout.neighbour(x, y, d).unwrap();
        let i = layout.index(nx, ny);
        let src = layout.index(x, y);
        layout.lemma_neighbour(x, y, d);
        layout.lemma_index(x, y);
        layout.lemma_index(nx, ny);
        assert forall|inner: Seq<Seq<bool>>| #[trigger]
            layout.settled_in(inner, start.flags(), waiting) implies flags_within(
            inner,
            after.flags(),
        ) by {
            assert(flags_within(inner, before.flags()));
            assert(layout.answers(inner, start.flags(), waiting, x, y)) by {
                if !waiting.contains((x, y)) {
                    assert(before.cells[src].within(start.cells[src]));
                    assert forall|t: int| 0 <= t < inner[src].len() && inner[src][t]
                        implies before.flags()[src][t] by {
                    }
                    lemma_still_less(start.flags()[src], before.flags()[src], inner[src]);
                }
            }
            assert(layout.arc_ok(inner, x, y, d));
            assert forall|j: int, t: int|
                0 <= j < inner.len() && 0 <= t < inner[j].len() && #[trigger] inner[j][t] implies t
                < after.flags()[j].len() && after.flags()[j][t] by {
                assert(before.flags()[j][t]);
                if j == i {
                    assert(inner[layout.index(nx, ny)][t]);
                    assert(supported(layout.tiles, inner[src], t, d));
                    let s = choose|s: int|
                        0 <= s < layout.tiles.len() && 0 <= s < inner[src].len()
                            && #[trigger] inner[src][s] && layout.tiles[s].spec_fits(
                            layout.tiles[t],
                            d,
                        );
                    assert(before.flags()[src][s]);
                    assert(before.cell(x, y).allowed[s]);
                    assert(supported(layout.tiles, before.cell(x, y).allowed, t, d));
                    assert(after.cells[i].allowed[t]);
                } else {
                    assert(after.cells[j] == before.cells[j]);
                }
            }
        }
    }
}

/// Ruling out tiles in waiting cells leaves every arc consistent that does
/// not leave one of those cells.
pub proof fn lemma_narrowed_keeps_arcs(
    before: FieldState,
    after: FieldState,
    waiting: Set<(int, int)>,
)
    requires
        before.wf(),
        after.narrowed_from(before),
        before.arc_consistent(),
        forall|a: int, b: int|
            before.layout.in_bounds(a, b) && !waiting.contains((a, b))
                ==> after.cells[#[trigger] before.layout.index(a, b)]
                == before.cells[before.layout.index(a, b)],
    ensures
        after.layout.consistent_but(after.flags(), waiting),
{
    let layout = before.layout;
    lemma_narrowed_field(before, after);
    lemma_flags_shaped(before);
    lemma_flags_shaped(after);
    assert forall|a: int, b: int|
        layout.in_bounds(a, b) && !waiting.contains((a, b))
            implies after.flags()[#[trigger] layout.index(
        a,
        b,
    )] == before.flags()[layout.index(a, b)] by {
        layout.lemma_index(a, b);
    }
    layout.lemma_shrunk_keeps_arcs(before.flags(), after.flags(), waiting);
}

/// Ruling out a tile in one waiting cell leaves every arc consistent that
/// does not leave that cell.
pub proof fn lemma_blocked_keeps_arcs(
    before: FieldState,
    after: FieldState,
    waiting: Set<(int, int)>,
    x: int,
    y: int,
)
    requires
        before.wf(),
        before.layout.in_bounds(x, y),
        after.narrowed_from(before),
        before.arc_consistent(),
        after.cells == before.cells.update(
            before.layout.index(x, y),
            after.cells[before.layout.index(x, y)],
        ),
        waiting.contains((x, y)),
    ensures
        after.layout.consistent_but(after.flags(), waiting),
{
    let layout = before.layout;
    layout.lemma_index(x, y);
    assert forall|a: int, b: int|
        layout.in_bounds(a, b) && !waiting.contains((a, b))
            implies after.cells[#[trigger] layout.index(
        a,
        b,
    )] == before.cells[layout.index(a, b)] by {
        layout.lemma_index(a, b);
        if layout.index(a, b) == layout.index(x, y) {
            layout.lemma_index_injective(a, b, x, y);
        }
    }
    lemma_narrowed_keeps_arcs(before, after, waiting);
}

/// Collapsing a waiting cell to a tile it allowed leaves every arc consistent
/// that does not leave that cell.
pub proof fn lemma_forced_keeps_arcs(
    before: FieldState,
    forced: FieldState,
    waiting: Set<(int, int)>,
    x: int,
    y: int,
    t: int,
)
    requires
        before.wf(),
        forced.sound(),
        before.layout.in_bounds(x, y),
        0 <= t < before.layout.tiles.len(),
        before.cell(x, y).allowed[t],
        before.arc_consistent(),
        forced.layout == before.layout,
        forced.cells == before.cells.update(
            before.layout.index(x, y),
            forced.cells[before.layout.index(x, y)],
        ),
        forced.cell(x, y).allowed == Seq::new(before.layout.tiles.len(), |j: int| j == t),
        waiting.contains((x, y)),
    ensures
        forced.layout.consistent_but(forced.flags(), waiting),
{
    let layout = before.layout;
    let i = layout.index(x, y);
    layout.lemma_index(x, y);
    lemma_flags_shaped(before);
    lemma_flags_shaped(forced);
    assert forall|a: int, b: int|
        layout.in_bounds(a, b) && !waiting.contains((a, b))
            implies forced.flags()[#[trigger] layout.index(
        a,
        b,
    )] == before.flags()[layout.index(a, b)] by {
        layout.lemma_index(a, b);
        if layout.index(a, b) == i {
            layout.lemma_index_injective(a, b, x, y);
        }
    }
    assert forall|j: int, u: int|
        0 <= j < forced.flags().len() && 0 <= u < forced.flags()[j].len()
            && #[trigger] forced.flags()[j][u] implies u < before.flags()[j].len()
        && before.flags()[j][u] by {
        assert(before.cells[j].wf());
        if j == i {
            assert(u == t);
        }
    }
    layout.lemma_shrunk_keeps_arcs(before.flags(), forced.flags(), waiting);
}

/// Where propagation has emptied a cell that had a tile, what it could come
/// to rest on leaves that cell empty.
pub proof fn lemma_failed(before: FieldState, after: FieldState, waiting: Set<(int, int)>, i: int)
    requires
        before.wf(),
        after.narrowed_from(before),
        before.layout.keeps_settled(after.flags(), before.flags(), waiting),
        0 <= i < after.cells.len(),
        before.cells[i].num_allowed > 0,
        after.cells[i].num_allowed == 0,
    ensures
        !before.layout.holds_up(before.flags(), waiting),
{
    let layout = before.layout;
    lemma_narrowed_field(before, after);
    lemma_no_tile(after.cells[i]);
    lemma_no_tile(before.cells[i]);
    let rest = layout.settled(before.flags(), waiting);
    assert forall|t: int| 0 <= t < rest[i].len() implies !rest[i][t] by {
        if layout.remains(before.flags(), waiting, i, t) {
            let inner = choose|inner: Seq<Seq<bool>>|
                #[trigger] layout.settled_in(inner, before.flags(), waiting) && 0 <= i
                    < inner.len() && 0 <= t < inner[i].len() && inner[i][t];
            assert(flags_within(inner, after.flags()));
            assert(after.flags()[i][t]);
        }
    }
    assert(no_tile(rest[i]));
    assert(!no_tile(before.flags()[i]));
}

/// Where propagation has come to rest without emptying a cell, it has left
/// exactly the greatest assignment that it could come to rest on.
pub proof fn lemma_propagated(before: FieldState, after: FieldState, waiting: Set<(int, int)>)
    requires
        before.wf(),
        after.narrowed_from(before),
        before.layout.keeps_settled(after.flags(), before.flags(), waiting),
        arcs_between(before.layout, before.flags(), after.flags(), waiting, Seq::empty()),
        forall|i: int|
            0 <= i < before.cells.len() && before.cells[i].num_allowed > 0 ==> (
            #[trigger] after.cells[i]).num_allowed > 0,
    ensures
        after.flags() == before.layout.settled(before.flags(), waiting),
        before.layout.holds_up(before.flags(), waiting),
{
    let layout = before.layout;
    let rest = layout.settled(before.flags(), waiting);
    lemma_narrowed_field(before, after);
    lemma_flags_shaped(after);
    assert(layout.settled_in(after.flags(), before.flags(), waiting)) by {
        assert forall|x: int, y: int, d: Direction|
            layout.in_bounds(x, y) && layout.answers(after.flags(), before.flags(), waiting, x, y)
                implies #[trigger] layout.arc_ok(after.flags(), x, y, d) by {
            assert(!is_queued(Seq::<(usize, usize)>::empty(), x, y));
        }
    }
    assert forall|i: int| 0 <= i < after.cells.len() implies after.flags()[i] =~= rest[i] by {
        assert(after.cells[i].wf());
        assert forall|t: int| 0 <= t < layout.tiles.len() implies after.flags()[i][t]
            == rest[i][t] by {
            if layout.remains(before.flags(), waiting, i, t) {
                let inner = choose|inner: Seq<Seq<bool>>|
                    #[trigger] layout.settled_in(inner, before.flags(), waiting) && 0 <= i
                        < inner.len() && 0 <= t < inner[i].len() && inner[i][t];
                assert(flags_within(inner, after.flags()));
            }
            if after.flags()[i][t] {
                assert(layout.settled_in(after.flags(), before.flags(), waiting) && 0 <= i
                    < after.flags().len() && 0 <= t < after.flags()[i].len()
                    && after.flags()[i][t]);
            }
        }
    }
    assert(after.flags() =~= rest);
    assert forall|i: int|
        0 <= i < before.flags().len() && !no_tile(#[trigger] before.flags()[i]) implies !no_tile(
        rest[i],
    ) by {
        lemma_no_tile(before.cells[i]);
        assert(after.cells[i].num_allowed > 0);
        lemma_no_tile(after.cells[i]);
    }
}

/// What follows from what propagation makes of a field: no tile of an
/// arc-consistent assignment is lost; failure means that there is no way to
/// fill the grid; and success leaves no cell empty that had a tile.
pub proof fn lemma_propagation_sound(
    before: FieldState,
    after: FieldState,
    ok: bool,
    waiting: Set<(int, int)>,
)
    requires
        before.wf(),
        before.propagated_to(after, ok, waiting),
    ensures
        before.layout.keeps_stable(after.flags(), before.flags()),
        !ok ==> before.layout.dead_end(before.flags()),
        ok ==> forall|i: int|
            0 <= i < before.cells.len() && before.cells[i].num_allowed > 0 ==> (
            #[trigger] after.cells[i]).num_allowed > 0,
{
    let layout = before.layout;
    lemma_narrowed_field(before, after);
    lemma_flags_shaped(before);
    lemma_flags_shaped(after);
    layout.lemma_keeps_stable(after.flags(), before.flags(), waiting);
    if !ok {
        let i = choose|i: int|
            0 <= i < before.cells.len() && before.cells[i].num_allowed > 0 && (
            #[trigger] after.cells[i]).num_allowed == 0;
        lemma_no_tile(after.cells[i]);
        assert forall|inner: Seq<Seq<bool>>| #[trigger]
            layout.stable_in(inner, before.flags()) implies exists|j: int|
            0 <= j < inner.len() && no_tile(#[trigger] inner[j]) by {
            assert(flags_within(inner, after.flags()));
            assert forall|t: int| 0 <= t < inner[i].len() implies !inner[i][t] by {
                if inner[i][t] {
                    assert(after.flags()[i][t]);
                }
            }
            assert(no_tile(inner[i]));
        }
    } else {
        let rest = layout.settled(before.flags(), waiting);
        assert forall|i: int|
            0 <= i < before.cells.len() && before.cells[i].num_allowed > 0 implies (
        #[trigger] after.cells[i]).num_allowed > 0 by {
            lemma_no_tile(before.cells[i]);
            lemma_no_tile(after.cells[i]);
            assert(!no_tile(before.flags()[i]));
            assert(!no_tile(rest[i]));
        }
    }
}

} // verus!
