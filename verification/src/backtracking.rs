//! Why undoing decisions gives back what the cells held before them.

use vstd::prelude::*;
use crate::fieldpoint::{
    is_after,
    lemma_forced_reverted,
    lemma_revert_compose,
    lemma_reverted,
    lemma_trimmed_reverted,
    lemma_trimmed_trans,
};
use crate::propagation::lemma_narrowed_field;
use crate::selection::FoundFieldPoint;
use crate::state::FieldState;

verus! {

/// A well-formed field is what backtracking makes of it when nothing is undone.
pub proof fn lemma_unwound_self(f: FieldState)
    requires
        f.wf(),
    ensures
        f.unwound_from(f),
{
    assert(f.steps.take(f.steps.len() as int) =~= f.steps);
    assert forall|i: int| 0 <= i < f.cells.len() implies (#[trigger] f.cells[i]).trimmed_from(
        f.cells[i].reverted(f.step()),
        f.step(),
    ) by {
        assert(f.cells[i].wf());
    }
}

/// A field narrowed at the current step is what backtracking makes of it
/// when nothing is undone.
pub proof fn lemma_narrowed_unwound(before: FieldState, after: FieldState)
    requires
        before.wf(),
        after.narrowed_from(before),
    ensures
        after.unwound_from(before),
{
    assert(before.steps.take(before.steps.len() as int) =~= before.steps);
    assert forall|i: int| 0 <= i < after.cells.len()
        implies (#[trigger] after.cells[i]).trimmed_from(
        before.cells[i].reverted(after.step()),
        after.step(),
    ) by {
        assert(before.cells[i].wf());
        assert(after.cells[i].narrowed_from(before.cells[i], before.step()));
    }
}

/// Putting every cell of an unwound field back to an earlier step gives what
/// the field it was unwound from gives at that step.
pub proof fn lemma_unwound_reverted(origin: FieldState, here: FieldState, s: usize)
    requires
        origin.wf(),
        here.wf(),
        here.unwound_from(origin),
        s < here.steps.len(),
    ensures
        here.reverted(s).unwound_from(origin),
        here.reverted(s).flags() == origin.reverted(s).flags(),
{
    let back = here.reverted(s);
    assert(back.steps =~= origin.steps.take(s as int));
    assert forall|i: int| 0 <= i < back.cells.len() implies (#[trigger] back.cells[i]).same_marks(
        origin.cells[i].reverted(s),
    ) && back.cells[i].trimmed_from(origin.cells[i].reverted(s), s) by {
        let o = origin.cells[i];
        let h = here.cells[i];
        assert(o.wf() && h.wf());
        lemma_reverted(o, here.step());
        lemma_reverted(o, s);
        lemma_reverted(h, s);
        assert(h.trimmed_from(o.reverted(here.step()), here.step()));
        lemma_trimmed_reverted(o.reverted(here.step()), h, here.step(), s);
        lemma_revert_compose(o, here.step(), s);
    }
    assert(back.flags() =~= origin.reverted(s).flags());
}

/// Narrowing an unwound field at its current step leaves it unwound.
pub proof fn lemma_unwound_narrowed(origin: FieldState, back: FieldState, after: FieldState)
    requires
        back.unwound_from(origin),
        after.narrowed_from(back),
    ensures
        after.unwound_from(origin),
{
    assert forall|i: int| 0 <= i < after.cells.len()
        implies (#[trigger] after.cells[i]).trimmed_from(
        origin.cells[i].reverted(after.step()),
        after.step(),
    ) by {
        assert(after.cells[i].narrowed_from(back.cells[i], back.step()));
        assert(back.cells[i].trimmed_from(origin.cells[i].reverted(back.step()), back.step()));
        lemma_trimmed_trans(
            origin.cells[i].reverted(back.step()),
            back.cells[i],
            after.cells[i],
            back.step(),
        );
    }
}

/// Unwinding in two goes is unwinding in one: undoing decisions one after
/// another down to the first leaves each cell with what it held before the
/// first decision, less what was ruled out since at step 0.
pub proof fn lemma_unwound_chain(a: FieldState, b: FieldState, c: FieldState)
    requires
        a.wf(),
        b.wf(),
        b.unwound_from(a),
        c.unwound_from(b),
    ensures
        c.unwound_from(a),
{
    assert(c.steps =~= a.steps.take(c.steps.len() as int));
    assert forall|i: int| 0 <= i < c.cells.len() implies (#[trigger] c.cells[i]).trimmed_from(
        a.cells[i].reverted(c.step()),
        c.step(),
    ) by {
        let ai = a.cells[i];
        let bi = b.cells[i];
        let ci = c.cells[i];
        assert(ai.wf() && bi.wf());
        assert(ci.trimmed_from(bi.reverted(c.step()), c.step()));
        assert(bi.trimmed_from(ai.reverted(b.step()), b.step()));
        lemma_reverted(ai, b.step());
        lemma_reverted(ai, c.step());
        if c.step() < b.step() {
            lemma_trimmed_reverted(ai.reverted(b.step()), bi, b.step(), c.step());
            lemma_revert_compose(ai, b.step(), c.step());
        } else {
            assert(!is_after(bi.max_invalidate_step, b.step()));
            lemma_trimmed_trans(ai.reverted(b.step()), bi, ci, b.step());
        }
    }
}

/// A field narrowed at the current step looks, at any earlier step, as the
/// field it was narrowed from.
pub proof fn lemma_unwound_landing(before: FieldState, after: FieldState, s: usize)
    requires
        before.wf(),
        after.narrowed_from(before),
        s < before.steps.len(),
    ensures
        after.reverted(s).flags() == before.reverted(s).flags(),
        after.reverted(s).layout == before.reverted(s).layout,
{
    lemma_narrowed_field(before, after);
    lemma_narrowed_unwound(before, after);
    lemma_unwound_reverted(before, after, s);
}

/// A field narrowed at the current step has, at every earlier step, the
/// blocked flags of the field it was narrowed from.
pub proof fn lemma_blocked_alike(before: FieldState, after: FieldState, s: int)
    requires
        before.wf(),
        after.narrowed_from(before),
        0 <= s < before.steps.len(),
    ensures
        after.blocked_flags(s) == before.blocked_flags(s),
        after.blocked_cell(s) == before.blocked_cell(s),
        after.can_retry(s) == before.can_retry(s),
        after.reverted(s as usize).arc_consistent() == before.reverted(s as usize).arc_consistent(),
{
    lemma_unwound_landing(before, after, s as usize);
}

/// Leave to backtrack has no bearing on the cells.
pub proof fn lemma_leave_changes_nothing(a: FieldState, b: FieldState)
    requires
        b == (FieldState { allow_backtracking: true, ..a }),
    ensures
        a.wf() == b.wf(),
        a.steady() == b.steady(),
{
    assert(a.flags() == b.flags());
    assert forall|s: usize| a.reverted(s).flags() == b.reverted(s).flags() && a.reverted(s).layout
        == b.reverted(s).layout by {
        assert(a.reverted(s).cells =~= b.reverted(s).cells);
    }
    if a.steady() {
        assert forall|s: usize| s < b.steps.len()
            implies (#[trigger] b.reverted(s)).arc_consistent() by {
            assert(a.reverted(s).arc_consistent());
        }
    }
    if b.steady() {
        assert forall|s: usize| s < a.steps.len()
            implies (#[trigger] a.reverted(s)).arc_consistent() by {
            assert(b.reverted(s).arc_consistent());
        }
    }
}

/// Narrowing a field at the current step leaves it as it was at every
/// earlier step.
pub proof fn lemma_steady_before_narrowed(before: FieldState, after: FieldState)
    requires
        before.wf(),
        after.narrowed_from(before),
        before.steady_before(),
    ensures
        after.steady_before(),
{
    assert forall|s: usize| s < after.steps.len()
        implies (#[trigger] after.reverted(s)).arc_consistent() by {
        lemma_unwound_landing(before, after, s);
        assert(before.reverted(s).arc_consistent());
    }
}

/// A field that was steady before the current step, and is narrowed to an
/// arc-consistent one at the current step, is steady.
pub proof fn lemma_steady_narrowed(before: FieldState, after: FieldState)
    requires
        before.wf(),
        after.narrowed_from(before),
        before.steady_before(),
        after.arc_consistent(),
    ensures
        after.steady(),
{
    lemma_steady_before_narrowed(before, after);
}

/// Collapsing a cell at the current step to a tile it allowed leaves the
/// field as it was at every earlier step.
pub proof fn lemma_steady_forced(before: FieldState, forced: FieldState, i: int, t: int)
    requires
        before.wf(),
        before.steady(),
        0 <= i < before.cells.len(),
        0 <= t < before.layout.tiles.len(),
        before.cells[i].allowed[t],
        forced == before.with_cell(i, before.cells[i].forced(t, before.step())),
    ensures
        forced.steady_before(),
{
    assert forall|s: usize| s < forced.steps.len()
        implies (#[trigger] forced.reverted(s)).arc_consistent() by {
        assert(before.reverted(s).arc_consistent());
        assert(before.cells[i].wf());
        lemma_forced_reverted(before.cells[i], t, before.step(), s);
        assert forall|j: int| 0 <= j < before.cells.len() implies forced.reverted(s).flags()[j]
            == before.reverted(s).flags()[j] by {
        }
        assert(forced.reverted(s).flags() =~= before.reverted(s).flags());
    }
}

/// Taking a decision for a tile that the cell allowed leaves the field as it
/// was at every step so far.
pub proof fn lemma_steady_decided(before: FieldState, i: int, t: int)
    requires
        before.wf(),
        before.steady(),
        0 <= i < before.cells.len(),
        0 <= t < before.layout.tiles.len(),
        before.cells[i].allowed[t],
        before.steps.len() < usize::MAX,
    ensures
        before.decided(i, t).steady_before(),
{
    let decided = before.decided(i, t);
    let n = before.step();
    assert forall|s: usize| s < decided.steps.len()
        implies (#[trigger] decided.reverted(s)).arc_consistent() by {
        assert(before.cells[i].wf());
        lemma_forced_reverted(before.cells[i], t, (n + 1) as usize, s);
        assert forall|j: int| 0 <= j < before.cells.len() implies decided.reverted(s).flags()[j]
            == before.reverted(s).flags()[j] by {
        }
        assert(decided.reverted(s).flags() =~= before.reverted(s).flags());
        if s < n {
            assert(before.reverted(s).arc_consistent());
        } else {
            assert(before.arc_consistent());
            assert forall|j: int| 0 <= j < before.cells.len() implies before.reverted(s).flags()[j]
                == before.flags()[j] by {
                assert(before.cells[j].wf());
                assert(!is_after(before.cells[j].max_invalidate_step, n));
            }
            assert(before.reverted(s).flags() =~= before.flags());
        }
    }
}

/// A field that backtracking has come to rest on, arc consistent, is steady
/// if the field it came from was steady before its current step.
pub proof fn lemma_steady_unwound(origin: FieldState, landed: FieldState)
    requires
        origin.wf(),
        landed.wf(),
        landed.unwound_from(origin),
        origin.steady_before(),
        landed.arc_consistent(),
    ensures
        landed.steady(),
{
    assert forall|s: usize| s < landed.steps.len()
        implies (#[trigger] landed.reverted(s)).arc_consistent() by {
        lemma_unwound_reverted(origin, landed, s);
        assert(origin.reverted(s).arc_consistent());
    }
}

/// Backtracking from a field that was narrowed at the current step is
/// backtracking from the field it was narrowed from.
pub proof fn lemma_backtracked_alike(
    before: FieldState,
    narrowed: FieldState,
    after: FieldState,
    found: Option<FoundFieldPoint>,
)
    requires
        before.wf(),
        narrowed.narrowed_from(before),
        narrowed.backtracked_to(after, found),
    ensures
        before.allow_backtracking ==> before.backtracked_to(after, found),
        !before.allow_backtracking ==> after == narrowed && found is None,
{
    lemma_narrowed_field(before, narrowed);
    lemma_narrowed_unwound(before, narrowed);
    lemma_unwound_chain(before, narrowed, after);
    if before.allow_backtracking {
        assert forall|s: int| after.steps.len() <= s < before.steps.len() implies before.can_retry(
            s,
        ) == narrowed.can_retry(s) && before.blocked_flags(s) == narrowed.blocked_flags(s)
            && before.blocked_cell(s) == narrowed.blocked_cell(s) by {
            lemma_blocked_alike(before, narrowed, s);
        }
    }
}

/// Where backtracking has undone every decision, each cell holds no more
/// than it held before the first decision, and whatever it lacks of that was
/// ruled out at step 0.
pub proof fn lemma_unwound_bottom(origin: FieldState, last: FieldState, i: int, t: int)
    requires
        origin.wf(),
        last.unwound_from(origin),
        last.steps.len() == 0,
        0 <= i < origin.cells.len(),
        0 <= t < origin.layout.tiles.len(),
    ensures
        last.cells[i].allowed[t] ==> origin.cells[i].reverted(0).allowed[t],
        last.cells[i].invalidate_step[t] == (if origin.cells[i].reverted(0).allowed[t]
            && !last.cells[i].allowed[t] {
            Some(0usize)
        } else {
            origin.cells[i].reverted(0).invalidate_step[t]
        }),
{
    assert(origin.cells[i].wf());
    lemma_reverted(origin.cells[i], 0);
    assert(last.cells[i].trimmed_from(origin.cells[i].reverted(0), 0));
}

} // verus!
