//! The state of one cell of the grid: which tiles it still allows, and when
//! each of the others was ruled out.

use vstd::prelude::*;

verus! {

/// How many entries of `s` are `true`.
pub open spec fn count_true(s: Seq<bool>) -> nat
    decreases s.len(),
{
    if s.len() == 0 {
        0
    } else {
        count_true(s.drop_last()) + if s.last() {
            1nat
        } else {
            0nat
        }
    }
}

/// Whether a stamp is set and lies after `step`.
pub open spec fn is_after(stamp: Option<usize>, step: usize) -> bool {
    stamp matches Some(at) && at > step
}

/// The later of two stamps; an unset stamp is earlier than any set one.
pub open spec fn later_of(a: Option<usize>, b: Option<usize>) -> Option<usize> {
    match (a, b) {
        (None, _) => b,
        (_, None) => a,
        (Some(x), Some(y)) => if x >= y {
            a
        } else {
            b
        },
    }
}

/// The latest stamp in `stamps`, unset when none of them is set.
pub open spec fn latest(stamps: Seq<Option<usize>>) -> Option<usize>
    decreases stamps.len(),
{
    if stamps.len() == 0 {
        None
    } else {
        later_of(latest(stamps.drop_last()), stamps.last())
    }
}

/// What a cell holds, as plain mathematical values.
pub struct PointState {
    /// For each tile, whether the cell may still take it.
    pub allowed: Seq<bool>,
    /// How many tiles the cell may still take.
    pub num_allowed: usize,
    /// For each tile that was ruled out, the step at which that happened.
    pub invalidate_step: Seq<Option<usize>>,
    /// A step that none of the stamps lies after.
    pub max_invalidate_step: Option<usize>,
}

impl PointState {
    pub open spec fn len(self) -> nat {
        self.allowed.len()
    }

    /// The cell's bookkeeping is consistent: the count matches the flags, a
    /// tile carries a stamp exactly when it is ruled out, and no stamp lies
    /// after `max_invalidate_step`.
    pub open spec fn wf(self) -> bool {
        &&& self.allowed.len() <= usize::MAX
        &&& self.invalidate_step.len() == self.allowed.len()
        &&& self.num_allowed == count_true(self.allowed)
        &&& forall|i: int|
            0 <= i < self.allowed.len() ==> (#[trigger] self.allowed[i] <==> self.invalidate_step[i]
                is None)
        &&& forall|i: int|
            0 <= i < self.invalidate_step.len()
                ==> (#[trigger] self.invalidate_step[i] matches Some(
                at,
            ) ==> self.max_invalidate_step matches Some(m) && at <= m)
    }

    /// `max_invalidate_step` is exactly the latest of the stamps.
    pub open spec fn exact(self) -> bool {
        self.max_invalidate_step == latest(self.invalidate_step)
    }

    /// No stamp lies after `step`.
    pub open spec fn settled_by(self, step: usize) -> bool {
        forall|i: int|
            0 <= i < self.invalidate_step.len()
                ==> !is_after(#[trigger] self.invalidate_step[i], step)
    }

    /// A fresh cell of `n` tiles: all allowed, nothing stamped.
    pub open spec fn fresh(n: nat) -> PointState {
        PointState {
            allowed: Seq::new(n, |i: int| true),
            num_allowed: n as usize,
            invalidate_step: Seq::new(n, |i: int| None),
            max_invalidate_step: None,
        }
    }

    /// The cell after tile `index` was ruled out at `step`.  Ruling out a tile
    /// that is already out changes nothing.
    pub open spec fn invalidated(self, index: int, step: usize) -> PointState {
        if self.allowed[index] {
            PointState {
                allowed: self.allowed.update(index, false),
                num_allowed: (self.num_allowed - 1) as usize,
                invalidate_step: self.invalidate_step.update(index, Some(step)),
                max_invalidate_step: later_of(self.max_invalidate_step, Some(step)),
            }
        } else {
            self
        }
    }

    /// The cell after it was collapsed to tile `index` at `step`: every other
    /// tile is out, stamped with `step` unless it carried a stamp already.
    pub open spec fn forced(self, index: int, step: usize) -> PointState {
        PointState {
            allowed: Seq::new(self.len(), |j: int| j == index),
            num_allowed: 1,
            invalidate_step: Seq::new(
                self.len(),
                |j: int|
                    if j == index {
                        None
                    } else if self.invalidate_step[j] is None {
                        Some(step)
                    } else {
                        self.invalidate_step[j]
                    },
            ),
            max_invalidate_step: Some(step),
        }
    }

    /// The cell as it was right after `step`: every tile that was ruled out
    /// later is allowed again.  A cell whose `max_invalidate_step` does not
    /// lie after `step` is left as it is.
    pub open spec fn reverted(self, step: usize) -> PointState {
        if is_after(self.max_invalidate_step, step) {
            let allowed = Seq::new(
                self.len(),
                |i: int| self.allowed[i] || is_after(self.invalidate_step[i], step),
            );
            let stamps = Seq::new(
                self.len(),
                |i: int|
                    if is_after(self.invalidate_step[i], step) {
                        None
                    } else {
                        self.invalidate_step[i]
                    },
            );
            PointState {
                allowed: allowed,
                num_allowed: count_true(allowed) as usize,
                invalidate_step: stamps,
                max_invalidate_step: latest(stamps),
            }
        } else {
            self
        }
    }

    /// Whether tile `i` is allowed and won its draw.
    pub open spec fn drawn(self, draws: Seq<bool>, i: int) -> bool {
        0 <= i < self.len() && self.allowed[i] && i < draws.len() && draws[i]
    }

    /// Every tile that `self` allows, `other` allows too.
    pub open spec fn within(self, other: PointState) -> bool {
        &&& self.allowed.len() == other.allowed.len()
        &&& forall|i: int| 0 <= i < self.allowed.len() && #[trigger] self.allowed[i]
            ==> other.allowed[i]
    }

    /// The two cells allow the same tiles and carry the same stamps.
    pub open spec fn same_marks(self, other: PointState) -> bool {
        self.allowed == other.allowed && self.invalidate_step == other.invalidate_step
    }

    /// The flags and stamps of `self` are those of `before` with some of its
    /// allowed tiles ruled out at `step`.
    pub open spec fn trimmed_from(self, before: PointState, step: usize) -> bool {
        &&& self.allowed.len() == before.allowed.len()
        &&& self.invalidate_step.len() == self.allowed.len()
        &&& before.invalidate_step.len() == before.allowed.len()
        &&& forall|t: int|
            0 <= t < self.allowed.len() && #[trigger] self.allowed[t] ==> before.allowed[t]
        &&& forall|t: int|
            0 <= t < self.invalidate_step.len()
                ==> #[trigger] self.invalidate_step[t] == (if before.allowed[t]
                && !self.allowed[t] {
                Some(step)
            } else {
                before.invalidate_step[t]
            })
    }

    /// The cell after the tiles that `allowed` does not hold were ruled out
    /// at `step`.
    pub open spec fn narrowed_to(self, allowed: Seq<bool>, step: usize) -> PointState {
        PointState {
            allowed: allowed,
            num_allowed: count_true(allowed) as usize,
            invalidate_step: Seq::new(
                self.len(),
                |t: int|
                    if self.allowed[t] && !allowed[t] {
                        Some(step)
                    } else {
                        self.invalidate_step[t]
                    },
            ),
            max_invalidate_step: if allowed == self.allowed {
                self.max_invalidate_step
            } else {
                later_of(self.max_invalidate_step, Some(step))
            },
        }
    }

    /// `self` is what `before` becomes when some of its allowed tiles are
    /// ruled out at `step` and nothing else happens to it.  Together with the
    /// flags of `self` this fixes `self` completely.
    pub open spec fn narrowed_from(self, before: PointState, step: usize) -> bool {
        &&& self.allowed.len() == before.allowed.len()
        &&& self.invalidate_step.len() == self.allowed.len()
        &&& before.invalidate_step.len() == before.allowed.len()
        &&& forall|t: int|
            0 <= t < self.allowed.len() && #[trigger] self.allowed[t] ==> before.allowed[t]
        &&& forall|t: int|
            0 <= t < self.invalidate_step.len()
                ==> #[trigger] self.invalidate_step[t] == (if before.allowed[t]
                && !self.allowed[t] {
                Some(step)
            } else {
                before.invalidate_step[t]
            })
        &&& self.num_allowed == count_true(self.allowed)
        &&& self.max_invalidate_step == (if self.allowed == before.allowed {
            before.max_invalidate_step
        } else {
            later_of(before.max_invalidate_step, Some(step))
        })
    }
}

/// One cell of the grid.
#[derive(Debug)]
pub struct FieldPoint {
    num_allowed: usize,
    allowed: Vec<bool>,
    invalidate_step: Vec<Option<usize>>,
    max_invalidate_step: Option<usize>,
}

impl View for FieldPoint {
    type V = PointState;

    closed spec fn view(&self) -> PointState {
        PointState {
            allowed: self.allowed@,
            num_allowed: self.num_allowed,
            invalidate_step: self.invalidate_step@,
            max_invalidate_step: self.max_invalidate_step,
        }
    }
}

/// Whether `stamp` is set and lies after `step`.
pub fn stamp_is_after(stamp: Option<usize>, step: usize) -> (r: bool)
    ensures
        r == is_after(stamp, step),
{
    match stamp {
        Some(at) => at > step,
        None => false,
    }
}

/// The later of two stamps.
pub fn later_stamp(a: Option<usize>, b: Option<usize>) -> (r: Option<usize>)
    ensures
        r == later_of(a, b),
{
    match a {
        None => b,
        Some(x) => match b {
            None => a,
            Some(y) => if x >= y {
                a
            } else {
                b
            },
        },
    }
}

impl Clone for FieldPoint {
    fn clone(&self) -> (r: FieldPoint)
        ensures
            r@ == self@,
    {
        let mut allowed: Vec<bool> = Vec::new();
        let mut invalidate_step: Vec<Option<usize>> = Vec::new();
        let mut i: usize = 0;
        while i < self.allowed.len()
            invariant
                i <= self.allowed.len(),
                allowed@ == self.allowed@.take(i as int),
            decreases self.allowed.len() - i,
        {
            allowed.push(self.allowed[i]);
            i += 1;
        }
        let mut j: usize = 0;
        while j < self.invalidate_step.len()
            invariant
                j <= self.invalidate_step.len(),
                invalidate_step@ == self.invalidate_step@.take(j as int),
            decreases self.invalidate_step.len() - j,
        {
            invalidate_step.push(self.invalidate_step[j]);
            j += 1;
        }
        assert(allowed@ == self.allowed@);
        assert(invalidate_step@ == self.invalidate_step@);
        FieldPoint {
            num_allowed: self.num_allowed,
            allowed,
            invalidate_step,
            max_invalidate_step: self.max_invalidate_step,
        }
    }
}

impl FieldPoint {
    /// A cell that allows each of `num_allowed` tiles.
    pub fn new(num_allowed: usize) -> (point: FieldPoint)
        ensures
            point@ == PointState::fresh(num_allowed as nat),
            point@.wf(),
            point@.exact(),
    {
        let mut allowed: Vec<bool> = Vec::new();
        let mut invalidate_step: Vec<Option<usize>> = Vec::new();
        let mut i: usize = 0;
        while i < num_allowed
            invariant
                i <= num_allowed,
                allowed@ == Seq::new(i as nat, |k: int| true),
                invalidate_step@ == Seq::new(i as nat, |k: int| None::<usize>),
            decreases num_allowed - i,
        {
            allowed.push(true);
            invalidate_step.push(None);
            i += 1;
        }
        proof {
            lemma_count_all(num_allowed as nat);
            lemma_fresh_exact(num_allowed as nat);
        }
        FieldPoint { num_allowed, allowed, invalidate_step, max_invalidate_step: None }
    }

    /// The number of tiles the cell was made for.
    pub fn len(&self) -> (n: usize)
        ensures
            n == self@.len(),
    {
        self.allowed.len()
    }

    /// How many tiles the cell may still take.
    pub fn num_allowed(&self) -> (n: usize)
        ensures
            n == self@.num_allowed,
    {
        self.num_allowed
    }

    /// Whether the cell may still take tile `index`.
    pub fn is_allowed(&self, index: usize) -> (b: bool)
        requires
            index < self@.len(),
        ensures
            b == self@.allowed[index as int],
    {
        self.allowed[index]
    }

    /// The step at which tile `index` was ruled out, if it was.
    pub fn invalidate_step(&self, index: usize) -> (stamp: Option<usize>)
        requires
            index < self@.invalidate_step.len(),
        ensures
            stamp == self@.invalidate_step[index as int],
    {
        self.invalidate_step[index]
    }

    /// The latest step at which the cell lost a tile.
    pub fn max_invalidate_step(&self) -> (stamp: Option<usize>)
        ensures
            stamp == self@.max_invalidate_step,
    {
        self.max_invalidate_step
    }

    /// Rules out tile `index` at `step`.
    pub fn invalidate(&mut self, index: usize, step: usize)
        requires
            old(self)@.wf(),
            index < old(self)@.len(),
        ensures
            final(self)@ == old(self)@.invalidated(index as int, step),
            final(self)@.wf(),
            old(self)@.exact() ==> final(self)@.exact(),
    {
        proof {
            lemma_invalidated(self@, index as int, step);
        }
        if self.allowed[index] {
            self.allowed[index] = false;
            self.num_allowed -= 1;
            self.invalidate_step[index] = Some(step);
            self.max_invalidate_step = later_stamp(self.max_invalidate_step, Some(step));
        }
    }

    /// Collapses the cell to tile `index` at `step`.
    pub fn force(&mut self, index: usize, step: usize)
        requires
            old(self)@.wf(),
            index < old(self)@.len(),
            !is_after(old(self)@.max_invalidate_step, step),
        ensures
            final(self)@ == old(self)@.forced(index as int, step),
            final(self)@.wf(),
            (exists|j: int| 0 <= j < old(self)@.len() && j != index && old(self)@.allowed[j])
                ==> final(self)@.exact(),
    {
        proof {
            lemma_forced(self@, index as int, step);
        }
        let n = self.allowed.len();
        let mut i: usize = 0;
        while i < n
            invariant
                i <= n,
                n == self.allowed@.len(),
                self.invalidate_step@ == old(self).invalidate_step@,
                forall|j: int| 0 <= j < i ==> !#[trigger] self.allowed@[j],
            decreases n - i,
        {
            self.allowed[i] = false;
            i += 1;
        }
        let mut k: usize = 0;
        while k < n
            invariant
                k <= n,
                n == self.allowed@.len(),
                n == self.invalidate_step@.len(),
                n == old(self).invalidate_step@.len(),
                forall|j: int| 0 <= j < n ==> !#[trigger] self.allowed@[j],
                forall|j: int|
                    0 <= j < k ==> #[trigger] self.invalidate_step@[j]
                        == (if old(self).invalidate_step@[j] is None {
                        Some(step)
                    } else {
                        old(self).invalidate_step@[j]
                    }),
                forall|j: int|
                    k <= j < n ==> #[trigger] self.invalidate_step@[j]
                        == old(self).invalidate_step@[j],
            decreases n - k,
        {
            if self.invalidate_step[k].is_none() {
                self.invalidate_step[k] = Some(step);
            }
            k += 1;
        }
        self.allowed[index] = true;
        self.num_allowed = 1;
        self.invalidate_step[index] = None;
        self.max_invalidate_step = Some(step);
        assert(self.allowed@ =~= old(self)@.forced(index as int, step).allowed);
        assert(self.invalidate_step@ =~= old(self)@.forced(index as int, step).invalidate_step);
    }

    /// The tile that a weighted draw comes to.
    ///
    /// The allowed tiles are gone through in order, and each is drawn
    /// against the ones before it: `draws[i]` says whether tile `i` won its
    /// draw, which it should with a chance of its weight in the sum of the
    /// weights so far.  The last winner is the tile chosen; a tile without a
    /// draw counts as having lost.
    pub fn choose_tile(&self, draws: &[bool]) -> (r: Option<usize>)
        ensures
            match r {
                Some(i) => {
                    &&& self@.drawn(draws@, i as int)
                    &&& forall|j: int| i < j < self@.len() ==> !self@.drawn(draws@, j)
                },
                None => forall|j: int| 0 <= j < self@.len() ==> !self@.drawn(draws@, j),
            },
    {
        let mut current_choice: Option<usize> = None;
        let mut index: usize = 0;
        while index < self.allowed.len()
            invariant
                index <= self.allowed.len(),
                match current_choice {
                    Some(i) => {
                        &&& i < index
                        &&& self@.drawn(draws@, i as int)
                        &&& forall|j: int| i < j < index ==> !self@.drawn(draws@, j)
                    },
                    None => forall|j: int| 0 <= j < index ==> !self@.drawn(draws@, j),
                },
            decreases self.allowed.len() - index,
        {
            if self.allowed[index] && index < draws.len() && draws[index] {
                current_choice = Some(index);
            }
            index += 1;
        }
        current_choice
    }

    /// Puts the cell back to what it was right after `step`.
    pub fn revert_to(&mut self, step: usize)
        requires
            old(self)@.wf(),
        ensures
            final(self)@ == old(self)@.reverted(step),
            final(self)@.wf(),
            final(self)@.settled_by(step),
            !is_after(final(self)@.max_invalidate_step, step),
            old(self)@.exact() ==> final(self)@.exact(),
    {
        proof {
            lemma_reverted(self@, step);
        }
        if stamp_is_after(self.max_invalidate_step, step) {
            let n = self.allowed.len();
            let ghost target = old(self)@.reverted(step);
            self.max_invalidate_step = None;
            let mut p: usize = 0;
            while p < n
                invariant
                    p <= n,
                    n == old(self).allowed@.len(),
                    n == self.allowed@.len(),
                    n == self.invalidate_step@.len(),
                    old(self)@.wf(),
                    is_after(old(self)@.max_invalidate_step, step),
                    target == old(self)@.reverted(step),
                    forall|i: int| 0 <= i < p ==> #[trigger] self.allowed@[i] == target.allowed[i],
                    forall|i: int|
                        0 <= i < p ==> #[trigger] self.invalidate_step@[i]
                            == target.invalidate_step[i],
                    forall|i: int| p <= i < n
                        ==> #[trigger] self.allowed@[i] == old(self).allowed@[i],
                    forall|i: int|
                        p <= i < n ==> #[trigger] self.invalidate_step@[i]
                            == old(self).invalidate_step@[i],
                    self.num_allowed == count_true(self.allowed@),
                    self.max_invalidate_step == latest(target.invalidate_step.take(p as int)),
                decreases n - p,
            {
                proof {
                    let stamps = target.invalidate_step;
                    assert(stamps.take(p + 1).drop_last() =~= stamps.take(p as int));
                }
                if stamp_is_after(self.invalidate_step[p], step) {
                    proof {
                        lemma_count_update(self.allowed@, p as int, true);
                        lemma_count_bound(self.allowed@.update(p as int, true));
                    }
                    self.allowed[p] = true;
                    self.invalidate_step[p] = None;
                    self.num_allowed += 1;
                } else {
                    self.max_invalidate_step =
                    later_stamp(self.max_invalidate_step, self.invalidate_step[p]);
                }
                p += 1;
            }
            assert(target.invalidate_step.take(n as int) =~= target.invalidate_step);
            assert(self.allowed@ =~= target.allowed);
            assert(self.invalidate_step@ =~= target.invalidate_step);
        }
    }

    /// The tile that the cell has collapsed to, if it has collapsed.
    pub fn extract_selection(&self) -> (r: Option<usize>)
        requires
            self@.wf(),
        ensures
            r is Some <==> self@.num_allowed == 1,
            r matches Some(i) ==> {
                &&& i < self@.len()
                &&& self@.allowed[i as int]
                &&& forall|j: int| 0 <= j < self@.len() && self@.allowed[j] ==> j == i
            },
    {
        if self.num_allowed == 1 {
            let mut i: usize = 0;
            while i < self.allowed.len()
                invariant
                    i <= self.allowed.len(),
                    self@.wf(),
                    self.num_allowed == 1,
                    forall|j: int| 0 <= j < i ==> !self.allowed@[j],
                decreases self.allowed.len() - i,
            {
                if self.allowed[i] {
                    proof {
                        assert forall|j: int| 0 <= j < self@.len() && self@.allowed[j] implies j
                            == i by {
                            lemma_count_one(self.allowed@, i as int, j);
                        }
                    }
                    return Some(i);
                }
                i += 1;
            }
            proof {
                lemma_count_zero(self.allowed@);
            }
        }
        None
    }
}

/// A fresh cell keeps its books.
pub proof fn lemma_fresh_exact(n: nat)
    ensures
        latest(Seq::new(n, |i: int| None::<usize>)) is None,
    decreases n,
{
    if n > 0 {
        assert(Seq::new(n, |i: int| None::<usize>).drop_last() =~= Seq::new(
            (n - 1) as nat,
            |i: int| None::<usize>,
        ));
        lemma_fresh_exact((n - 1) as nat);
    }
}

/// Stamping a tile that carried no stamp raises the latest stamp to at least
/// the new one.
pub proof fn lemma_latest_update(stamps: Seq<Option<usize>>, i: int, stamp: Option<usize>)
    requires
        0 <= i < stamps.len(),
        stamps[i] is None,
    ensures
        latest(stamps.update(i, stamp)) == later_of(latest(stamps), stamp),
    decreases stamps.len(),
{
    let t = stamps.update(i, stamp);
    if i == stamps.len() - 1 {
        assert(t.drop_last() =~= stamps.drop_last());
    } else {
        assert(t.drop_last() =~= stamps.drop_last().update(i, stamp));
        lemma_latest_update(stamps.drop_last(), i, stamp);
    }
}

/// Ruling out a tile keeps the cell's books.
pub proof fn lemma_invalidated(c: PointState, index: int, step: usize)
    requires
        c.wf(),
        0 <= index < c.len(),
    ensures
        c.invalidated(index, step).wf(),
        c.allowed[index] ==> c.num_allowed > 0,
        c.exact() ==> c.invalidated(index, step).exact(),
        c.invalidated(index, step).within(c),
{
    if c.allowed[index] {
        lemma_count_update(c.allowed, index, false);
        lemma_latest_update(c.invalidate_step, index, Some(step));
    }
}

/// Collapsing a cell keeps its books, provided the step is not earlier than
/// the stamps the cell already carries.
pub proof fn lemma_forced(c: PointState, index: int, step: usize)
    requires
        c.wf(),
        0 <= index < c.len(),
        !is_after(c.max_invalidate_step, step),
    ensures
        c.forced(index, step).wf(),
        (exists|j: int| 0 <= j < c.len() && j != index && c.allowed[j]) ==> c.forced(
            index,
            step,
        ).exact(),
{
    let f = c.forced(index, step);
    lemma_count_single(c.len(), index);
    assert(f.allowed =~= Seq::new(c.len(), |j: int| j == index));
    lemma_latest(f.invalidate_step);
    assert forall|i: int| 0 <= i < f.allowed.len() implies (#[trigger] f.allowed[i]
        <==> f.invalidate_step[i] is None) by {
        assert(c.allowed[i] <==> c.invalidate_step[i] is None);
    }
    assert forall|i: int| 0 <= i < f.invalidate_step.len() implies (
    #[trigger] f.invalidate_step[i] matches Some(at) ==> f.max_invalidate_step matches Some(m) && at
        <= m) by {
        if c.invalidate_step[i] is Some {
            assert(c.max_invalidate_step matches Some(m) && c.invalidate_step[i].unwrap() <= m);
        }
    }
    if exists|j: int| 0 <= j < c.len() && j != index && c.allowed[j] {
        let j = choose|j: int| 0 <= j < c.len() && j != index && c.allowed[j];
        assert(f.invalidate_step[j] == Some(step));
        assert(later_of(latest(f.invalidate_step),
            f.invalidate_step[j]) == latest(f.invalidate_step));
        if latest(f.invalidate_step) != Some(step) {
            let k = choose|k: int|
                0 <= k < f.invalidate_step.len() && #[trigger] f.invalidate_step[k] == latest(
                    f.invalidate_step,
                );
            assert(c.invalidate_step[k] == f.invalidate_step[k]);
        }
    }
}

/// Going back to a step keeps the cell's books and leaves no stamp after it.
pub proof fn lemma_reverted(c: PointState, step: usize)
    requires
        c.wf(),
    ensures
        c.reverted(step).wf(),
        c.reverted(step).settled_by(step),
        !is_after(c.reverted(step).max_invalidate_step, step),
        c.exact() ==> c.reverted(step).exact(),
        c.within(c.reverted(step)),
        c.reverted(step).len() == c.len(),
{
    let r = c.reverted(step);
    if is_after(c.max_invalidate_step, step) {
        lemma_latest(r.invalidate_step);
        lemma_count_bound(r.allowed);
        assert forall|i: int| 0 <= i < r.allowed.len() implies (#[trigger] r.allowed[i]
            <==> r.invalidate_step[i] is None) by {
            assert(c.allowed[i] <==> c.invalidate_step[i] is None);
        }
        if is_after(latest(r.invalidate_step), step) {
            let k = choose|k: int|
                0 <= k < r.invalidate_step.len() && #[trigger] r.invalidate_step[k] == latest(
                    r.invalidate_step,
                );
            assert(false);
        }
        assert forall|i: int| 0 <= i < r.invalidate_step.len() implies (
        #[trigger] r.invalidate_step[i] matches Some(at) ==> r.max_invalidate_step matches Some(m)
            && at <= m) by {
            assert(later_of(latest(r.invalidate_step), r.invalidate_step[i]) == latest(
                r.invalidate_step,
            ));
        }
    }
}

pub proof fn lemma_count_bound(s: Seq<bool>)
    ensures
        count_true(s) <= s.len(),
    decreases s.len(),
{
    if s.len() > 0 {
        lemma_count_bound(s.drop_last());
    }
}

/// Changing one flag changes the count by that flag alone.
pub proof fn lemma_count_update(s: Seq<bool>, i: int, b: bool)
    requires
        0 <= i < s.len(),
    ensures
        count_true(s.update(i,
            b)) + (if s[i] { 1int } else { 0int }) == count_true(s) + (if b { 1int } else { 0int }),
    decreases s.len(),
{
    let t = s.update(i, b);
    if i == s.len() - 1 {
        assert(t.drop_last() =~= s.drop_last());
    } else {
        assert(t.drop_last() =~= s.drop_last().update(i, b));
        lemma_count_update(s.drop_last(), i, b);
    }
}

/// The count is zero exactly when no flag is set.
pub proof fn lemma_count_zero(s: Seq<bool>)
    ensures
        count_true(s) == 0 <==> forall|i: int| 0 <= i < s.len() ==> !s[i],
    decreases s.len(),
{
    if s.len() > 0 {
        lemma_count_zero(s.drop_last());
        if count_true(s) == 0 {
            assert forall|i: int| 0 <= i < s.len() implies !s[i] by {
                if i < s.len() - 1 {
                    assert(s.drop_last()[i] == s[i]);
                }
            }
        }
        if forall|i: int| 0 <= i < s.len() ==> !s[i] {
            assert forall|i: int| 0 <= i < s.drop_last().len() implies !s.drop_last()[i] by {
                assert(s.drop_last()[i] == s[i]);
            }
            assert(!s.last());
        }
    }
}

/// Where the count is one, the set flag is the only one.
pub proof fn lemma_count_one(s: Seq<bool>, i: int, j: int)
    requires
        count_true(s) == 1,
        0 <= i < s.len(),
        0 <= j < s.len(),
        s[i],
        s[j],
    ensures
        i == j,
{
    if i != j {
        lemma_count_update(s, i, false);
        let t = s.update(i, false);
        lemma_count_zero(t);
        assert(t[j]);
    }
}

/// A sequence with every flag set counts its own length.
pub proof fn lemma_count_all(n: nat)
    ensures
        count_true(Seq::new(n, |i: int| true)) == n,
    decreases n,
{
    if n > 0 {
        assert(Seq::new(n, |i: int| true).drop_last() =~= Seq::new((n - 1) as nat, |i: int| true));
        lemma_count_all((n - 1) as nat);
    }
}

/// A sequence with a single flag set counts one.
pub proof fn lemma_count_single(n: nat, k: int)
    requires
        0 <= k < n,
    ensures
        count_true(Seq::new(n, |j: int| j == k)) == 1,
{
    let all_false = Seq::new(n, |j: int| false);
    lemma_count_zero(all_false);
    lemma_count_update(all_false, k, true);
    assert(all_false.update(k, true) =~= Seq::new(n, |j: int| j == k));
}

/// Allowing no more than another cell means counting no more.
pub proof fn lemma_count_monotone(a: Seq<bool>, b: Seq<bool>)
    requires
        a.len() == b.len(),
        forall|i: int| 0 <= i < a.len() && a[i] ==> b[i],
    ensures
        count_true(a) <= count_true(b),
    decreases a.len(),
{
    if a.len() > 0 {
        assert forall|i: int| 0 <= i < a.drop_last().len() && a.drop_last()[i]
            implies b.drop_last()[i] by {
            assert(a.drop_last()[i] == a[i]);
            assert(b.drop_last()[i] == b[i]);
        }
        lemma_count_monotone(a.drop_last(), b.drop_last());
    }
}

/// No stamp lies after the latest, and the latest is one of the stamps.
pub proof fn lemma_latest(stamps: Seq<Option<usize>>)
    ensures
        forall|i: int|
            0 <= i < stamps.len()
                ==> later_of(latest(stamps), #[trigger] stamps[i]) == latest(stamps),
        latest(stamps) is Some ==> exists|i: int|
            0 <= i < stamps.len() && #[trigger] stamps[i] == latest(stamps),
        latest(stamps) is None ==> forall|i: int| 0 <= i < stamps.len()
            ==> #[trigger] stamps[i] is None,
    decreases stamps.len(),
{
    if stamps.len() > 0 {
        let front = stamps.drop_last();
        lemma_latest(front);
        assert forall|i: int| 0 <= i < stamps.len() implies later_of(
            latest(stamps),
            #[trigger] stamps[i],
        ) == latest(stamps) by {
            if i < stamps.len() - 1 {
                assert(front[i] == stamps[i]);
            }
        }
        if latest(stamps) is Some {
            if latest(stamps) == stamps.last() {
                assert(stamps[stamps.len() - 1] == latest(stamps));
            } else {
                let i = choose|i: int| 0 <= i < front.len() && #[trigger] front[i] == latest(front);
                assert(stamps[i] == latest(stamps));
            }
        }
        if latest(stamps) is None {
            assert forall|i: int| 0 <= i < stamps.len() implies #[trigger] stamps[i] is None by {
                if i < stamps.len() - 1 {
                    assert(front[i] == stamps[i]);
                }
            }
        }
    }
}

/// Allowing strictly less than another cell means counting strictly less.
pub proof fn lemma_count_strict(a: Seq<bool>, b: Seq<bool>, k: int)
    requires
        a.len() == b.len(),
        forall|i: int| 0 <= i < a.len() && a[i] ==> b[i],
        0 <= k < a.len(),
        b[k],
        !a[k],
    ensures
        count_true(a) < count_true(b),
{
    let raised = a.update(k, true);
    lemma_count_update(a, k, true);
    lemma_count_monotone(raised, b);
}

/// A cell with sound books is narrowed from itself.
pub proof fn lemma_narrowed_refl(c: PointState, step: usize)
    requires
        c.wf(),
    ensures
        c.narrowed_from(c, step),
{
}

/// Narrowing keeps the cell's books, and keeps every stamp at or before a
/// step that bounded them already.
pub proof fn lemma_narrowed_wf(before: PointState, after: PointState, step: usize)
    requires
        before.wf(),
        after.narrowed_from(before, step),
    ensures
        after.wf(),
        after.within(before),
        after.num_allowed <= before.num_allowed,
        after.allowed != before.allowed ==> after.num_allowed < before.num_allowed,
        after.allowed == before.allowed ==> after == before,
        !is_after(before.max_invalidate_step, step) ==> !is_after(after.max_invalidate_step, step),
{
    lemma_count_monotone(after.allowed, before.allowed);
    assert forall|i: int| 0 <= i < after.allowed.len() implies (#[trigger] after.allowed[i]
        <==> after.invalidate_step[i] is None) by {
        assert(before.allowed[i] <==> before.invalidate_step[i] is None);
    }
    assert forall|i: int| 0 <= i < after.invalidate_step.len() implies (
    #[trigger] after.invalidate_step[i] matches Some(at)
        ==> after.max_invalidate_step matches Some(m)
        && at <= m) by {
        if before.invalidate_step[i] is Some {
            assert(before.max_invalidate_step matches Some(m) && before.invalidate_step[i].unwrap()
                <= m);
        }
        if before.allowed[i] && !after.allowed[i] {
            assert(after.allowed != before.allowed);
        }
    }
    if after.allowed != before.allowed {
        if forall|k: int| 0 <= k < after.allowed.len() ==> after.allowed[k] == before.allowed[k] {
            assert(after.allowed =~= before.allowed);
        }
        let k = choose|k: int| 0 <= k < after.allowed.len()
            && after.allowed[k] != before.allowed[k];
        lemma_count_strict(after.allowed, before.allowed, k);
    } else {
        assert(after.invalidate_step =~= before.invalidate_step);
    }
}

/// Narrowing twice at one step is narrowing once.
pub proof fn lemma_narrowed_trans(a: PointState, b: PointState, c: PointState, step: usize)
    requires
        b.narrowed_from(a, step),
        c.narrowed_from(b, step),
    ensures
        c.narrowed_from(a, step),
{
    assert forall|t: int| 0 <= t < c.invalidate_step.len()
        implies #[trigger] c.invalidate_step[t] == (
    if a.allowed[t] && !c.allowed[t] {
        Some(step)
    } else {
        a.invalidate_step[t]
    }) by {
        assert(b.invalidate_step[t] == (if a.allowed[t] && !b.allowed[t] {
            Some(step)
        } else {
            a.invalidate_step[t]
        }));
        if c.allowed[t] {
            assert(b.allowed[t]);
        }
    }
    if c.allowed == a.allowed {
        assert forall|t: int| 0 <= t < b.allowed.len() implies b.allowed[t] == a.allowed[t] by {
            if a.allowed[t] {
                assert(c.allowed[t]);
            }
        }
        assert(b.allowed =~= a.allowed);
    }
}

/// Ruling out one tile narrows the cell.
pub proof fn lemma_invalidated_narrowed(c: PointState, index: int, step: usize)
    requires
        c.wf(),
        0 <= index < c.len(),
    ensures
        c.invalidated(index, step).narrowed_from(c, step),
        c.invalidated(index, step).allowed == c.allowed.update(index, false),
{
    lemma_invalidated(c, index, step);
    let r = c.invalidated(index, step);
    if c.allowed[index] {
        assert(r.allowed[index] != c.allowed[index]);
    } else {
        assert(c.allowed.update(index, false) =~= c.allowed);
    }
}

/// Going back to the same step twice is going back once.
pub proof fn lemma_revert_idempotent(c: PointState, step: usize)
    requires
        c.wf(),
    ensures
        c.reverted(step).reverted(step) == c.reverted(step),
{
    lemma_reverted(c, step);
}

/// Going back to a step and then to an earlier one is going back to the
/// earlier one directly.
pub proof fn lemma_revert_compose(c: PointState, later: usize, earlier: usize)
    requires
        c.wf(),
        earlier <= later,
    ensures
        c.reverted(later).reverted(earlier) == c.reverted(earlier),
{
    let first = c.reverted(later);
    let both = first.reverted(earlier);
    let direct = c.reverted(earlier);
    lemma_reverted(c, later);
    lemma_reverted(c, earlier);
    lemma_reverted(first, earlier);
    if is_after(c.max_invalidate_step, later) {
        assert forall|i: int| 0 <= i < c.len() implies both.allowed[i] == direct.allowed[i]
            && both.invalidate_step[i] == direct.invalidate_step[i] by {
            assert(!is_after(first.invalidate_step[i], later));
            if !is_after(first.max_invalidate_step, earlier) {
                assert(first.invalidate_step[i] matches Some(at)
                    ==> first.max_invalidate_step matches Some(
                    m,
                ) && at <= m);
            }
        }
        assert(both.allowed =~= direct.allowed);
        assert(both.invalidate_step =~= direct.invalidate_step);
        if !is_after(first.max_invalidate_step, earlier) {
            assert(first.exact()) by {
                lemma_latest(first.invalidate_step);
            }
        }
    }
}

/// Which tiles a cell allows, and which stamps it carries, once it has gone
/// back to `step`.
pub proof fn lemma_reverted_marks(c: PointState, step: usize)
    requires
        c.wf(),
    ensures
        c.reverted(step).allowed == Seq::new(
            c.len(),
            |i: int| c.allowed[i] || is_after(c.invalidate_step[i], step),
        ),
        c.reverted(step).invalidate_step == Seq::new(
            c.len(),
            |i: int|
                if is_after(c.invalidate_step[i], step) {
                    None
                } else {
                    c.invalidate_step[i]
                },
        ),
{
    if !is_after(c.max_invalidate_step, step) {
        assert forall|i: int| 0 <= i < c.len()
            implies !is_after(#[trigger] c.invalidate_step[i], step) by {
            assert(c.invalidate_step[i] matches Some(at) ==> c.max_invalidate_step matches Some(m)
                && at <= m);
        }
        assert(c.allowed =~= Seq::new(
            c.len(),
            |i: int| c.allowed[i] || is_after(c.invalidate_step[i], step),
        ));
        assert(c.invalidate_step =~= Seq::new(
            c.len(),
            |i: int|
                if is_after(c.invalidate_step[i], step) {
                    None
                } else {
                    c.invalidate_step[i]
                },
        ));
    }
}

/// Trimming twice at one step is trimming once.
pub proof fn lemma_trimmed_trans(a: PointState, b: PointState, c: PointState, step: usize)
    requires
        b.trimmed_from(a, step),
        c.trimmed_from(b, step),
    ensures
        c.trimmed_from(a, step),
{
    assert forall|t: int| 0 <= t < c.invalidate_step.len()
        implies #[trigger] c.invalidate_step[t] == (
    if a.allowed[t] && !c.allowed[t] {
        Some(step)
    } else {
        a.invalidate_step[t]
    }) by {
        assert(b.invalidate_step[t] == (if a.allowed[t] && !b.allowed[t] {
            Some(step)
        } else {
            a.invalidate_step[t]
        }));
        if c.allowed[t] {
            assert(b.allowed[t]);
        }
    }
}

/// What was ruled out at a step is allowed again at any earlier step: going
/// back past a trimming undoes it.
pub proof fn lemma_trimmed_reverted(a: PointState, b: PointState, later: usize, earlier: usize)
    requires
        a.wf(),
        b.wf(),
        b.trimmed_from(a, later),
        earlier < later,
    ensures
        b.reverted(earlier).same_marks(a.reverted(earlier)),
{
    lemma_reverted_marks(a, earlier);
    lemma_reverted_marks(b, earlier);
    let ra = a.reverted(earlier);
    let rb = b.reverted(earlier);
    assert forall|t: int| 0 <= t < a.len() implies ra.allowed[t] == rb.allowed[t]
        && ra.invalidate_step[t] == rb.invalidate_step[t] by {
        assert(b.invalidate_step[t] == (if a.allowed[t] && !b.allowed[t] {
            Some(later)
        } else {
            a.invalidate_step[t]
        }));
        assert(a.allowed[t] <==> a.invalidate_step[t] is None);
        assert(b.allowed[t] <==> b.invalidate_step[t] is None);
        if b.allowed[t] {
            assert(a.allowed[t]);
        }
    }
    assert(ra.allowed =~= rb.allowed);
    assert(ra.invalidate_step =~= rb.invalidate_step);
}

/// Collapsing a cell to a tile it allowed is undone by going back to any
/// earlier step.
pub proof fn lemma_forced_reverted(c: PointState, index: int, step: usize, earlier: usize)
    requires
        c.wf(),
        0 <= index < c.len(),
        c.allowed[index],
        !is_after(c.max_invalidate_step, step),
        earlier < step,
    ensures
        c.forced(index, step).reverted(earlier).same_marks(c.reverted(earlier)),
{
    let f = c.forced(index, step);
    lemma_forced(c, index, step);
    lemma_reverted_marks(c, earlier);
    lemma_reverted_marks(f, earlier);
    let rc = c.reverted(earlier);
    let rf = f.reverted(earlier);
    assert forall|j: int| 0 <= j < c.len() implies rc.allowed[j] == rf.allowed[j]
        && rc.invalidate_step[j] == rf.invalidate_step[j] by {
        assert(c.allowed[j] <==> c.invalidate_step[j] is None);
    }
    assert(rc.allowed =~= rf.allowed);
    assert(rc.invalidate_step =~= rf.invalidate_step);
}

/// A narrowed cell is fixed by the cell it was narrowed from and the tiles
/// it still allows.
pub proof fn lemma_narrowed_unique(before: PointState, after: PointState, step: usize)
    requires
        before.wf(),
    ensures
        after.narrowed_from(before, step) <==> after.within(before) && after == before.narrowed_to(
            after.allowed,
            step,
        ),
{
    let made = before.narrowed_to(after.allowed, step);
    lemma_count_bound(after.allowed);
    if after.narrowed_from(before, step) {
        assert(after.invalidate_step =~= made.invalidate_step);
    }
    if after.within(before) && after == made {
        assert(after.narrowed_from(before, step));
    }
}

} // verus!
