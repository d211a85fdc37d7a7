//! Places on the grid and walks between them.
//!
//! A place is a pair of whole numbers: how far east and how far north of some
//! chosen cell it lies. A walk is a sequence of directions, one per step.

use crate::Direction;
use vstd::prelude::*;

verus! {

/// The place one step from `at` in the direction `direction`.
pub open spec fn step(at: (int, int), direction: Direction) -> (int, int) {
    match direction {
        Direction::North => (at.0, at.1 + 1),
        Direction::South => (at.0, at.1 - 1),
        Direction::East => (at.0 + 1, at.1),
        Direction::West => (at.0 - 1, at.1),
    }
}

/// The place that lies `by` away from `at`.
pub open spec fn plus(at: (int, int), by: (int, int)) -> (int, int) {
    (at.0 + by.0, at.1 + by.1)
}

/// How far `to` lies from `from`.
pub open spec fn minus(to: (int, int), from: (int, int)) -> (int, int) {
    (to.0 - from.0, to.1 - from.1)
}

/// The place where a walk that starts at `from` ends.
pub open spec fn walk_end(from: (int, int), walk: Seq<Direction>) -> (int, int)
    decreases walk.len(),
{
    if walk.len() == 0 {
        from
    } else {
        step(walk_end(from, walk.drop_last()), walk.last())
    }
}

/// The walk that leads back along `walk`: its steps in reverse order, each in
/// the opposite direction.
pub open spec fn retrace(walk: Seq<Direction>) -> Seq<Direction> {
    Seq::new(walk.len(), |k: int| walk[walk.len() - 1 - k].opposite())
}

/// How far the longest common beginning of two walks reaches.
pub open spec fn shared(a: Seq<Direction>, b: Seq<Direction>) -> nat
    decreases a.len(),
{
    if a.len() == 0 || b.len() == 0 || a[0] != b[0] {
        0
    } else {
        1 + shared(a.drop_first(), b.drop_first())
    }
}

/// A step and the step back cancel.
pub proof fn lemma_step_back(at: (int, int), direction: Direction)
    ensures
        step(step(at, direction), direction.opposite()) == at,
        step(step(at, direction.opposite()), direction) == at,
        step(at, direction) != at,
{
}

/// Stepping from a place that was moved is moving the place stepped to.
pub proof fn lemma_step_plus(at: (int, int), by: (int, int), direction: Direction)
    ensures
        step(plus(at, by), direction) == plus(step(at, direction), by),
        plus(step((0, 0), direction), at) == step(at, direction),
{
}

/// A walk of one more step ends one step further.
pub proof fn lemma_walk_push(from: (int, int), walk: Seq<Direction>, direction: Direction)
    ensures
        walk_end(from, walk.push(direction)) == step(walk_end(from, walk), direction),
{
    assert(walk.push(direction).drop_last() =~= walk);
}

/// Walking `first` and then `then` is walking `then` from where `first` ends.
pub proof fn lemma_walk_concat(from: (int, int), first: Seq<Direction>, then: Seq<Direction>)
    ensures
        walk_end(from, first + then) == walk_end(walk_end(from, first), then),
    decreases then.len(),
{
    if then.len() == 0 {
        assert(first + then =~= first);
    } else {
        lemma_walk_concat(from, first, then.drop_last());
        assert((first + then).drop_last() =~= first + then.drop_last());
    }
}

/// The same walk from a place that was moved ends at the end that was moved.
pub proof fn lemma_walk_plus(from: (int, int), by: (int, int), walk: Seq<Direction>)
    ensures
        walk_end(plus(from, by), walk) == plus(walk_end(from, walk), by),
    decreases walk.len(),
{
    if walk.len() > 0 {
        lemma_walk_plus(from, by, walk.drop_last());
    }
}

/// Walking a walk and then retracing it ends where it started.
pub proof fn lemma_walk_retrace(from: (int, int), walk: Seq<Direction>)
    ensures
        walk_end(walk_end(from, walk), retrace(walk)) == from,
    decreases walk.len(),
{
    if walk.len() > 0 {
        let shorter = walk.drop_last();
        let back = walk.last().opposite();
        lemma_walk_retrace(from, shorter);
        assert(retrace(walk) =~= seq![back] + retrace(shorter));
        lemma_walk_concat(walk_end(from, walk), seq![back], retrace(shorter));
        assert(seq![back] =~= Seq::<Direction>::empty().push(back));
        lemma_walk_push(walk_end(from, walk), Seq::<Direction>::empty(), back);
        lemma_step_back(walk_end(from, shorter), walk.last());
    }
}

/// The first `k` steps of retracing a walk lead back to where its first
/// `walk.len() - k` steps had led.
pub proof fn lemma_retrace_take(from: (int, int), walk: Seq<Direction>, k: int)
    requires
        0 <= k <= walk.len(),
    ensures
        walk_end(walk_end(from, walk), retrace(walk).take(k)) == walk_end(
            from,
            walk.take(walk.len() - k),
        ),
{
    let kept = walk.take(walk.len() - k);
    let undone = walk.skip(walk.len() - k);
    assert(walk =~= kept + undone);
    lemma_walk_concat(from, kept, undone);
    assert(retrace(walk).take(k) =~= retrace(undone));
    lemma_walk_retrace(walk_end(from, kept), undone);
}

/// Two walks agree on as many first steps as `shared` counts, and differ in
/// the next one where both go on.
pub proof fn lemma_shared(a: Seq<Direction>, b: Seq<Direction>)
    ensures
        shared(a, b) <= a.len(),
        shared(a, b) <= b.len(),
        a.take(shared(a, b) as int) == b.take(shared(a, b) as int),
        shared(a, b) < a.len() && shared(a, b) < b.len() ==> a[shared(a, b) as int] != b[shared(
            a,
            b,
        ) as int],
    decreases a.len(),
{
    if a.len() == 0 || b.len() == 0 || a[0] != b[0] {
        assert(a.take(0) =~= b.take(0));
    } else {
        let m = shared(a.drop_first(), b.drop_first());
        lemma_shared(a.drop_first(), b.drop_first());
        assert(a.take(m as int + 1) =~= seq![a[0]] + a.drop_first().take(m as int));
        assert(b.take(m as int + 1) =~= seq![b[0]] + b.drop_first().take(m as int));
    }
}

} // verus!
