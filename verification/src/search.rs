//! The space explorer: a bounded breadth-first search over cells that were
//! never visited, used to judge whether the goal can still be reached through
//! unexplored territory and how much fresh space a candidate move opens up.
//! Visited cells act as barriers: the search estimates the worth of *new*
//! ground and deliberately never re-enters explored territory.

use vstd::prelude::*;
use crate::{MoveDirection, Position};
use crate::graph::{g_contains, Entry, VisitedGraph};
use crate::helper::{
    is_move_over_playground_border,
    move_by_direction,
    move_spec,
    over_border_spec,
};

verus! {

/// One permitted expansion step: from `a`, direction `dir` stays on the
/// playground and its target was never visited.
pub open spec fn step_dir_ok(a: Position, dir: MoveDirection, size: Position, visited: Seq<
    Entry,
>) -> bool {
    !over_border_spec(a, dir, size) && !g_contains(visited, move_spec(a, dir))
}

/// `b` is reachable from `a` in one permitted step.
pub open spec fn step_ok(a: Position, b: Position, size: Position, visited: Seq<Entry>) -> bool {
    exists|dir: MoveDirection| step_dir_ok(a, dir, size, visited) && b == move_spec(a, dir)
}

/// The cells reachable from `from` in at most `n` permitted steps. The start
/// cell itself is always included, whatever its own status.
pub open spec fn reach(from: Position, size: Position, visited: Seq<Entry>, n: nat) -> Set<
    Position,
>
    decreases n,
{
    if n == 0 {
        Set::empty().insert(from)
    } else {
        let prev = reach(from, size, visited, (n - 1) as nat);
        prev.union(
            Set::new(
                |b: Position| exists|a: Position| prev.contains(a) && step_ok(a, b, size, visited),
            ),
        )
    }
}

/// The goal lies within `n` permitted steps of `from`.
pub open spec fn reachable_in(
    from: Position,
    size: Position,
    visited: Seq<Entry>,
    goal: Position,
    n: nat,
) -> bool {
    reach(from, size, visited, n).contains(goal)
}

/// The goal is reachable from `from` through unexplored space.
pub open spec fn is_reachable(
    from: Position,
    size: Position,
    visited: Seq<Entry>,
    goal: Position,
) -> bool {
    exists|n: nat| reachable_in(from, size, visited, goal, n)
}

/// The least number of steps in which the goal can be reached (meaningful
/// when it is reachable at all).
pub open spec fn min_dist(
    from: Position,
    size: Position,
    visited: Seq<Entry>,
    goal: Position,
) -> nat {
    choose|n: nat|
        reachable_in(from, size, visited, goal, n) && (forall|k: nat|
            k < n ==> !reachable_in(from, size, visited, goal, k))
}

/// The exact shortest distance to the goal through unexplored space, or
/// `None` when the goal cannot be reached that way.
pub open spec fn spec_way(
    from: Position,
    size: Position,
    visited: Seq<Entry>,
    goal: Position,
) -> Option<int> {
    if is_reachable(from, size, visited, goal) {
        Some(min_dist(from, size, visited, goal) as int)
    } else {
        None
    }
}

/// Everything reachable from `from` through unexplored space: the region a
/// candidate move would open up.
pub open spec fn reach_all(from: Position, size: Position, visited: Seq<Entry>) -> Set<Position> {
    Set::new(|p: Position| exists|n: nat| reach(from, size, visited, n).contains(p))
}

/// Reachability in `m` steps implies reachability in any larger budget.
pub proof fn lemma_reach_mono(from: Position, size: Position, visited: Seq<Entry>, m: nat, n: nat)
    requires
        m <= n,
    ensures
        reach(from, size, visited, m).subset_of(reach(from, size, visited, n)),
    decreases n,
{
    if m < n {
        lemma_reach_mono(from, size, visited, m, (n - 1) as nat);
        assert(reach(from, size, visited, (n - 1) as nat).subset_of(
            reach(from, size, visited, n),
        )) by {
            assert forall|x: Position|
                reach(from, size, visited, (n - 1) as nat).contains(x) implies reach(
                from,
                size,
                visited,
                n,
            ).contains(x) by {}
        }
    }
}

/// A permitted step out of the reachable budget-`n` region lands in the
/// budget-`n + 1` region.
pub proof fn lemma_reach_step(
    from: Position,
    size: Position,
    visited: Seq<Entry>,
    n: nat,
    a: Position,
    b: Position,
)
    requires
        reach(from, size, visited, n).contains(a),
        step_ok(a, b, size, visited),
    ensures
        reach(from, size, visited, (n + 1) as nat).contains(b),
{
    let prev = reach(from, size, visited, n);
    assert(reach(from, size, visited, (n + 1) as nat) == prev.union(
        Set::new(
            |c: Position| exists|x: Position| prev.contains(x) && step_ok(x, c, size, visited),
        ),
    ));
}

/// If the goal is reachable at all, there is a least step budget that
/// reaches it, and [`min_dist`] denotes it.
pub proof fn lemma_min_dist(
    from: Position,
    size: Position,
    visited: Seq<Entry>,
    goal: Position,
    n: nat,
)
    requires
        reachable_in(from, size, visited, goal, n),
    ensures
        is_reachable(from, size, visited, goal),
        min_dist(from, size, visited, goal) <= n,
        reachable_in(from, size, visited, goal, min_dist(from, size, visited, goal)),
        forall|k: nat| k < min_dist(from, size, visited, goal) ==> !reachable_in(from, size, visited, goal, k),
    decreases n,
{
    assert(is_reachable(from, size, visited, goal));
    if exists|k: nat| k < n && reachable_in(from, size, visited, goal, k) {
        let k = choose|k: nat| k < n && reachable_in(from, size, visited, goal, k);
        lemma_min_dist(from, size, visited, goal, k);
    } else {
        assert(reachable_in(from, size, visited, goal, n) && (forall|k: nat|
            k < n ==> !reachable_in(from, size, visited, goal, k)));
        let m = min_dist(from, size, visited, goal);
        assert(reachable_in(from, size, visited, goal, m) && (forall|k: nat|
            k < m ==> !reachable_in(from, size, visited, goal, k)));
        if m > n {
            assert(!reachable_in(from, size, visited, goal, n));
        }
    }
}

/// A coordinate box that the search can never leave.
spec fn in_box(p: Position, mx: int, my: int) -> bool {
    p.x <= mx && p.y <= my
}

/// All positions within the box.
spec fn box_set(mx: int, my: int) -> Set<Position> {
    Set::new(|p: Position| in_box(p, mx, my))
}

/// The x bound of the search: the playground bound, or the start cell's own
/// coordinate if that lies outside.
spec fn box_x(from: Position, size: Position) -> int {
    vstd::math::max(size.x as int, from.x as int)
}

/// The y bound of the search.
spec fn box_y(from: Position, size: Position) -> int {
    vstd::math::max(size.y as int, from.y as int)
}

/// A box of positions is a finite set.
proof fn lemma_box_finite(mx: int, my: int)
    requires
        0 <= mx <= u32::MAX,
        0 <= my <= u32::MAX,
    ensures
        box_set(mx, my).finite(),
{
    let w = my + 1;
    let n = (mx + 1) * w;
    let ints = vstd::set_lib::set_int_range(0, n);
    let f = |k: int| Position { x: (k / w) as u32, y: (k % w) as u32 };
    let img = ints.map(f);
    vstd::set_lib::lemma_int_range(0, n);
    ints.lemma_map_finite(f);
    assert forall|p: Position| box_set(mx, my).contains(p) implies img.contains(p) by {
        let k = p.x * w + p.y;
        assert(0 <= k && k < n) by (nonlinear_arith)
            requires
                k == p.x * w + p.y,
                w == my + 1,
                n == (mx + 1) * w,
                0 <= p.x <= mx,
                0 <= p.y <= my,
        ;
        vstd::arithmetic::div_mod::lemma_fundamental_div_mod_converse(
            k,
            w,
            p.x as int,
            p.y as int,
        );
        assert(f(k) == p);
        assert(ints.contains(k));
        assert(img.contains(p));
    }
    vstd::set_lib::lemma_set_subset_finite(img, box_set(mx, my));
}

/// A permitted step stays inside any box that covers the playground and the
/// stepping cell.
proof fn lemma_step_in_box(
    a: Position,
    dir: MoveDirection,
    size: Position,
    mx: int,
    my: int,
)
    requires
        !over_border_spec(a, dir, size),
        in_box(a, mx, my),
        size.x <= mx,
        size.y <= my,
    ensures
        in_box(move_spec(a, dir), mx, my),
{
}

/// Whether some queue entry records the position `p`.
spec fn marked(q: Seq<(Position, usize)>, p: Position) -> bool {
    exists|i: int| 0 <= i < q.len() && q[i].0 == p
}

/// The positions of a queue, in order.
spec fn entry_positions(q: Seq<(Position, usize)>) -> Seq<Position> {
    q.map_values(|e: (Position, usize)| e.0)
}

/// The standing invariant of the search queue: it starts at the start cell
/// with count zero; positions are distinct and stay in the bounding box;
/// every entry's count is its exact distance from the start through
/// unexplored space; counts never decrease along the queue and never exceed
/// the entry's own index.
spec fn queue_inv(
    q: Seq<(Position, usize)>,
    from: Position,
    size: Position,
    visited: Seq<Entry>,
) -> bool {
    &&& q.len() >= 1
    &&& q[0] == (from, 0usize)
    &&& forall|i: int, j: int| 0 <= i < j < q.len() ==> (#[trigger] q[i]).0 != (#[trigger] q[j]).0
    &&& forall|i: int|
        0 <= i < q.len() ==> in_box((#[trigger] q[i]).0, box_x(from, size), box_y(from, size))
    &&& forall|i: int|
        0 <= i < q.len() ==> reach(from, size, visited, (#[trigger] q[i]).1 as nat).contains(
            q[i].0,
        )
    &&& forall|i: int|
        0 <= i < q.len() && (#[trigger] q[i]).1 > 0 ==> !reach(
            from,
            size,
            visited,
            (q[i].1 - 1) as nat,
        ).contains(q[i].0)
    &&& forall|i: int, j: int| 0 <= i <= j < q.len() ==> (#[trigger] q[i]).1 <= (#[trigger] q[j]).1
    &&& forall|i: int| 0 <= i < q.len() ==> (#[trigger] q[i]).1 <= i
}

/// Every cell within `d` steps of the start is already recorded in the
/// queue.
spec fn covered(
    q: Seq<(Position, usize)>,
    from: Position,
    size: Position,
    visited: Seq<Entry>,
    d: int,
) -> bool {
    forall|x: Position| reach(from, size, visited, d as nat).contains(x) ==> marked(q, x)
}

/// The first `upto` queue entries have been expanded: each of their
/// permitted step targets is recorded in the queue.
spec fn all_expanded(
    q: Seq<(Position, usize)>,
    size: Position,
    visited: Seq<Entry>,
    upto: int,
) -> bool {
    forall|k: int, dir: MoveDirection|
        0 <= k < upto && #[trigger] step_dir_ok(q[k].0, dir, size, visited) ==> marked(
            q,
            move_spec(q[k].0, dir),
        )
}

/// No entry up to the front records a dist bound larger than one above the
/// front's.
spec fn front_bound(q: Seq<(Position, usize)>, head: int) -> bool {
    forall|j: int| 0 <= j < q.len() ==> (#[trigger] q[j]).1 <= q[head].1 + 1
}

/// Everything recorded stays recorded when the queue grows.
proof fn lemma_marked_push(q: Seq<(Position, usize)>, e: (Position, usize))
    ensures
        forall|p: Position| marked(q, p) ==> marked(q.push(e), p),
        marked(q.push(e), e.0),
{
    assert forall|p: Position| marked(q, p) implies marked(q.push(e), p) by {
        let i = choose|i: int| 0 <= i < q.len() && q[i].0 == p;
        assert(q.push(e)[i].0 == p);
    }
    assert(q.push(e)[q.len() as int].0 == e.0);
}

/// A queue of distinct in-box positions is no longer than the box is large.
proof fn lemma_queue_len_bound(
    q: Seq<(Position, usize)>,
    from: Position,
    size: Position,
    visited: Seq<Entry>,
)
    requires
        queue_inv(q, from, size, visited),
    ensures
        q.len() <= box_set(box_x(from, size), box_y(from, size)).len(),
{
    let mx = box_x(from, size);
    let my = box_y(from, size);
    let s = entry_positions(q);
    assert(s.len() == q.len());
    assert forall|i: int, j: int| 0 <= i < s.len() && 0 <= j < s.len() && i != j implies s[i]
        != s[j] by {
        assert(s[i] == q[i].0 && s[j] == q[j].0);
    }
    assert(s.no_duplicates());
    s.unique_seq_to_set();
    lemma_box_finite(mx, my);
    assert forall|p: Position| s.to_set().contains(p) implies box_set(mx, my).contains(p) by {
        let i = choose|i: int| 0 <= i < s.len() && s[i] == p;
        assert(s[i] == q[i].0);
        assert(in_box(q[i].0, mx, my));
    }
    vstd::set_lib::lemma_len_subset(s.to_set(), box_set(mx, my));
}

/// Once every queue entry has been expanded, the queue records the entire
/// reachable region.
proof fn lemma_expanded_covers(
    q: Seq<(Position, usize)>,
    from: Position,
    size: Position,
    visited: Seq<Entry>,
    n: nat,
)
    requires
        q.len() >= 1,
        q[0].0 == from,
        all_expanded(q, size, visited, q.len() as int),
    ensures
        forall|x: Position| reach(from, size, visited, n).contains(x) ==> marked(q, x),
    decreases n,
{
    if n == 0 {
        assert(marked(q, from)) by {
            assert(q[0].0 == from);
        }
        assert forall|x: Position| reach(from, size, visited, 0).contains(x) implies marked(
            q,
            x,
        ) by {
            assert(x == from);
        }
    } else {
        lemma_expanded_covers(q, from, size, visited, (n - 1) as nat);
        let prev = reach(from, size, visited, (n - 1) as nat);
        assert forall|x: Position| reach(from, size, visited, n).contains(x) implies marked(
            q,
            x,
        ) by {
            if !prev.contains(x) {
                let a = choose|a: Position| prev.contains(a) && step_ok(a, x, size, visited);
                assert(marked(q, a));
                let k = choose|k: int| 0 <= k < q.len() && q[k].0 == a;
                let dir = choose|dir: MoveDirection|
                    step_dir_ok(a, dir, size, visited) && x == move_spec(a, dir);
                assert(step_dir_ok(q[k].0, dir, size, visited));
                assert(marked(q, move_spec(q[k].0, dir)));
            }
        }
    }
}

/// When every entry within distance `d` has been expanded, coverage extends
/// one step further.
proof fn lemma_cov_advance(
    q: Seq<(Position, usize)>,
    from: Position,
    size: Position,
    visited: Seq<Entry>,
    upto: int,
    d: int,
)
    requires
        queue_inv(q, from, size, visited),
        0 <= upto <= q.len(),
        0 <= d,
        all_expanded(q, size, visited, upto),
        covered(q, from, size, visited, d),
        forall|m: int| upto <= m < q.len() ==> (#[trigger] q[m]).1 > d,
    ensures
        covered(q, from, size, visited, d + 1),
{
    let prev = reach(from, size, visited, d as nat);
    assert forall|x: Position|
        reach(from, size, visited, (d + 1) as nat).contains(x) implies marked(q, x) by {
        if !prev.contains(x) {
            let a = choose|a: Position| prev.contains(a) && step_ok(a, x, size, visited);
            assert(marked(q, a));
            let m = choose|m: int| 0 <= m < q.len() && q[m].0 == a;
            if q[m].1 > d {
                lemma_reach_mono(from, size, visited, d as nat, (q[m].1 - 1) as nat);
                assert(reach(from, size, visited, (q[m].1 - 1) as nat).contains(a));
                assert(false);
            }
            assert(m < upto);
            let dir = choose|dir: MoveDirection|
                step_dir_ok(a, dir, size, visited) && x == move_spec(a, dir);
            assert(step_dir_ok(q[m].0, dir, size, visited));
            assert(marked(q, move_spec(q[m].0, dir)));
        }
    }
}

/// A queue that was fully expanded and never met the goal proves the goal
/// unreachable.
proof fn lemma_unreached(
    q: Seq<(Position, usize)>,
    from: Position,
    size: Position,
    visited: Seq<Entry>,
    goal: Position,
)
    requires
        q.len() >= 1,
        q[0].0 == from,
        all_expanded(q, size, visited, q.len() as int),
        forall|k: int| 0 <= k < q.len() ==> (#[trigger] q[k]).0 != goal,
    ensures
        !is_reachable(from, size, visited, goal),
{
    if is_reachable(from, size, visited, goal) {
        let n = choose|n: nat| reachable_in(from, size, visited, goal, n);
        lemma_expanded_covers(q, from, size, visited, n);
        assert(marked(q, goal));
        let i = choose|i: int| 0 <= i < q.len() && q[i].0 == goal;
        assert(false);
    }
}

/// Pushing the not-yet-recorded target of a permitted step out of the front
/// entry keeps every queue property intact.
proof fn lemma_push_restores(
    q: Seq<(Position, usize)>,
    from: Position,
    size: Position,
    visited: Seq<Entry>,
    head: int,
    dir: MoveDirection,
    e: usize,
    upto: int,
)
    requires
        queue_inv(q, from, size, visited),
        0 <= head < q.len(),
        covered(q, from, size, visited, q[head].1 as int),
        front_bound(q, head),
        all_expanded(q, size, visited, upto),
        0 <= upto <= q.len(),
        step_dir_ok(q[head].0, dir, size, visited),
        !marked(q, move_spec(q[head].0, dir)),
        e == q[head].1 + 1,
    ensures
        queue_inv(q.push((move_spec(q[head].0, dir), e)), from, size, visited),
        covered(q.push((move_spec(q[head].0, dir), e)), from, size, visited, q[head].1 as int),
        front_bound(q.push((move_spec(q[head].0, dir), e)), head),
        all_expanded(q.push((move_spec(q[head].0, dir), e)), size, visited, upto),
        marked(q.push((move_spec(q[head].0, dir), e)), move_spec(q[head].0, dir)),
        forall|p: Position|
            marked(q, p) ==> marked(q.push((move_spec(q[head].0, dir), e)), p),
{
    let a = q[head].0;
    let d = q[head].1;
    let t = move_spec(a, dir);
    let q2 = q.push((t, e));
    lemma_marked_push(q, (t, e));
    let mx = box_x(from, size);
    let my = box_y(from, size);
    lemma_step_in_box(a, dir, size, mx, my);
    assert(step_ok(a, t, size, visited)) by {
        assert(step_dir_ok(a, dir, size, visited) && t == move_spec(a, dir));
    }
    lemma_reach_step(from, size, visited, d as nat, a, t);
    assert(!reach(from, size, visited, d as nat).contains(t)) by {
        if reach(from, size, visited, d as nat).contains(t) {
            assert(marked(q, t));
        }
    }
    assert forall|i: int, j: int| 0 <= i < j < q2.len() implies (#[trigger] q2[i]).0 != (
    #[trigger] q2[j]).0 by {
        if j < q.len() {
            assert(q2[i] == q[i] && q2[j] == q[j]);
        } else {
            assert(q2[j].0 == t && q2[i] == q[i]);
            if q[i].0 == t {
                assert(marked(q, t));
            }
        }
    }
    assert forall|i: int| 0 <= i < q2.len() implies in_box((#[trigger] q2[i]).0, mx, my) by {
        if i < q.len() {
            assert(q2[i] == q[i]);
        } else {
            assert(q2[i].0 == t);
        }
    }
    assert forall|i: int| 0 <= i < q2.len() implies reach(
        from,
        size,
        visited,
        (#[trigger] q2[i]).1 as nat,
    ).contains(q2[i].0) by {
        if i < q.len() {
            assert(q2[i] == q[i]);
        } else {
            assert(q2[i] == (t, e));
        }
    }
    assert forall|i: int|
        0 <= i < q2.len() && (#[trigger] q2[i]).1 > 0 implies !reach(
        from,
        size,
        visited,
        (q2[i].1 - 1) as nat,
    ).contains(q2[i].0) by {
        if i < q.len() {
            assert(q2[i] == q[i]);
        } else {
            assert(q2[i] == (t, e));
        }
    }
    assert forall|i: int, j: int| 0 <= i <= j < q2.len() implies (#[trigger] q2[i]).1 <= (
    #[trigger] q2[j]).1 by {
        if j < q.len() {
            assert(q2[i] == q[i] && q2[j] == q[j]);
        } else {
            assert(q2[j].1 == e);
            if i < q.len() {
                assert(q2[i] == q[i]);
                assert(q[i].1 <= q[head].1 + 1);
            }
        }
    }
    assert forall|i: int| 0 <= i < q2.len() implies (#[trigger] q2[i]).1 <= i by {
        if i < q.len() {
            assert(q2[i] == q[i]);
        } else {
            assert(q2[i].1 == e && e == d + 1 && d <= head && head < i);
        }
    }
    assert forall|x: Position|
        reach(from, size, visited, (d as int) as nat).contains(x) implies marked(q2, x) by {
        assert(marked(q, x));
    }
    assert forall|k: int, dir2: MoveDirection|
        0 <= k < upto && #[trigger] step_dir_ok(q2[k].0, dir2, size, visited) implies marked(
        q2,
        move_spec(q2[k].0, dir2),
    ) by {
        assert(q2[k] == q[k]);
        assert(step_dir_ok(q[k].0, dir2, size, visited));
        assert(marked(q, move_spec(q[k].0, dir2)));
    }
}

/// Whether the queue already records position `p`.
fn q_contains(q: &Vec<(Position, usize)>, p: &Position) -> (r: bool)
    ensures
        r == marked(q@, *p),
{
    let mut i: usize = 0;
    while i < q.len()
        invariant
            0 <= i <= q@.len(),
            forall|j: int| 0 <= j < i ==> (#[trigger] q@[j]).0 != *p,
        decreases q@.len() - i,
    {
        if q[i].0.x == p.x && q[i].0.y == p.y {
            return true;
        }
        i = i + 1;
    }
    false
}

/// Tries one expansion step from cell `a` (whose search count is `d`): when
/// direction `dir` is permitted and its target is not yet recorded, the
/// target is enqueued with count `d + 1`; otherwise nothing changes.
fn try_expand(
    q: &mut Vec<(Position, usize)>,
    a: &Position,
    d: usize,
    dir: MoveDirection,
    size: &Position,
    visited: &VisitedGraph,
)
    requires
        d < usize::MAX,
    ensures
        if step_dir_ok(*a, dir, *size, visited@) && !marked(old(q)@, move_spec(*a, dir)) {
            final(q)@ == old(q)@.push((move_spec(*a, dir), (d + 1) as usize))
        } else {
            final(q)@ == old(q)@
        },
{
    if !is_move_over_playground_border(a, &dir, size) {
        let p2 = move_by_direction(a, &dir);
        if !visited.contains_key(&p2) {
            if !q_contains(q, &p2) {
                q.push((p2, d + 1));
            }
        }
    }
}

/// Breadth-first search from `position` over cells that are on the
/// playground `[0, size.x] x [0, size.y]` and were never visited; visited
/// cells act as barriers. Returns the exact shortest step count to `goal`
/// through that unexplored region (`None` when the goal cannot be reached
/// this way), together with the total number of distinct cells the search
/// can reach — the size of the unexplored region a move to `position` opens
/// up, which always counts `position` itself.
#[verifier::rlimit(100)]
pub fn explore_space_to_goal(
    position: &Position,
    size: &Position,
    visited: &VisitedGraph,
    goal: &Position,
) -> (r: (Option<usize>, usize))
    ensures
        (match r.0 {
            Some(n) => spec_way(*position, *size, visited@, *goal) == Some(n as int),
            None => spec_way(*position, *size, visited@, *goal) is None,
        }),
        r.1 == reach_all(*position, *size, visited@).len(),
        reach_all(*position, *size, visited@).finite(),
        r.1 >= 1,
{
    let from = *position;
    let ghost mx = box_x(from, *size);
    let ghost my = box_y(from, *size);
    let mut q: Vec<(Position, usize)> = Vec::new();
    q.push((from, 0));
    let mut head: usize = 0;
    let mut found: Option<usize> = None;
    proof {
        assert(q@ == Seq::<(Position, usize)>::empty().push((from, 0usize)));
        assert(q@[0] == (from, 0usize));
        assert(queue_inv(q@, from, *size, visited@));
        assert forall|x: Position|
            reach(from, *size, visited@, 0).contains(x) implies marked(q@, x) by {
            assert(x == from);
            assert(q@[0].0 == from);
        }
        lemma_queue_len_bound(q@, from, *size, visited@);
    }
    while head < q.len()
        invariant
            queue_inv(q@, from, *size, visited@),
            head <= q@.len(),
            q@.len() <= box_set(box_x(from, *size), box_y(from, *size)).len(),
            all_expanded(q@, *size, visited@, head as int),
            head < q@.len() ==> covered(q@, from, *size, visited@, q@[head as int].1 as int),
            head < q@.len() ==> front_bound(q@, head as int),
            match found {
                Some(v) => reachable_in(from, *size, visited@, *goal, v as nat) && (forall|k: nat|
                    k < v ==> !reachable_in(from, *size, visited@, *goal, k)),
                None => forall|k: int| 0 <= k < head ==> (#[trigger] q@[k]).0 != *goal,
            },
        decreases 5 * (box_set(box_x(from, *size), box_y(from, *size)).len() + 1 - q@.len()) + (
        q@.len() - head),
    {
        let pos = q[head].0;
        let d = q[head].1;
        if found.is_none() && pos == *goal {
            found = Some(d);
            proof {
                assert(reachable_in(from, *size, visited@, *goal, d as nat));
                assert forall|k: nat| k < d implies !reachable_in(
                    from,
                    *size,
                    visited@,
                    *goal,
                    k,
                ) by {
                    lemma_reach_mono(from, *size, visited@, k, (d - 1) as nat);
                    if reach(from, *size, visited@, k).contains(*goal) {
                        assert(reach(from, *size, visited@, (d - 1) as nat).contains(*goal));
                    }
                }
            }
        }
        let ghost qa = q@;
        try_expand(&mut q, &pos, d, MoveDirection::Up, size, visited);
        proof {
            if step_dir_ok(pos, MoveDirection::Up, *size, visited@) && !marked(
                qa,
                move_spec(pos, MoveDirection::Up),
            ) {
                lemma_push_restores(
                    qa,
                    from,
                    *size,
                    visited@,
                    head as int,
                    MoveDirection::Up,
                    (d + 1) as usize,
                    head as int,
                );
            }
            assert(step_dir_ok(pos, MoveDirection::Up, *size, visited@) ==> marked(
                q@,
                move_spec(pos, MoveDirection::Up),
            ));
            assert(forall|p: Position| marked(qa, p) ==> marked(q@, p));
        }
        let ghost qb = q@;
        try_expand(&mut q, &pos, d, MoveDirection::Right, size, visited);
        proof {
            if step_dir_ok(pos, MoveDirection::Right, *size, visited@) && !marked(
                qb,
                move_spec(pos, MoveDirection::Right),
            ) {
                lemma_push_restores(
                    qb,
                    from,
                    *size,
                    visited@,
                    head as int,
                    MoveDirection::Right,
                    (d + 1) as usize,
                    head as int,
                );
            }
            assert(forall|p: Position| marked(qb, p) ==> marked(q@, p));
            assert(step_dir_ok(pos, MoveDirection::Up, *size, visited@) ==> marked(
                q@,
                move_spec(pos, MoveDirection::Up),
            ));
            assert(step_dir_ok(pos, MoveDirection::Right, *size, visited@) ==> marked(
                q@,
                move_spec(pos, MoveDirection::Right),
            ));
        }
        let ghost qc = q@;
        try_expand(&mut q, &pos, d, MoveDirection::Down, size, visited);
        proof {
            if step_dir_ok(pos, MoveDirection::Down, *size, visited@) && !marked(
                qc,
                move_spec(pos, MoveDirection::Down),
            ) {
                lemma_push_restores(
                    qc,
                    from,
                    *size,
                    visited@,
                    head as int,
                    MoveDirection::Down,
                    (d + 1) as usize,
                    head as int,
                );
            }
            assert(forall|p: Position| marked(qc, p) ==> marked(q@, p));
            assert(step_dir_ok(pos, MoveDirection::Up, *size, visited@) ==> marked(
                q@,
                move_spec(pos, MoveDirection::Up),
            ));
            assert(step_dir_ok(pos, MoveDirection::Right, *size, visited@) ==> marked(
                q@,
                move_spec(pos, MoveDirection::Right),
            ));
            assert(step_dir_ok(pos, MoveDirection::Down, *size, visited@) ==> marked(
                q@,
                move_spec(pos, MoveDirection::Down),
            ));
        }
        let ghost qd = q@;
        try_expand(&mut q, &pos, d, MoveDirection::Left, size, visited);
        proof {
            if step_dir_ok(pos, MoveDirection::Left, *size, visited@) && !marked(
                qd,
                move_spec(pos, MoveDirection::Left),
            ) {
                lemma_push_restores(
                    qd,
                    from,
                    *size,
                    visited@,
                    head as int,
                    MoveDirection::Left,
                    (d + 1) as usize,
                    head as int,
                );
            }
            assert(forall|p: Position| marked(qd, p) ==> marked(q@, p));
            assert(step_dir_ok(pos, MoveDirection::Up, *size, visited@) ==> marked(
                q@,
                move_spec(pos, MoveDirection::Up),
            ));
            assert(step_dir_ok(pos, MoveDirection::Right, *size, visited@) ==> marked(
                q@,
                move_spec(pos, MoveDirection::Right),
            ));
            assert(step_dir_ok(pos, MoveDirection::Down, *size, visited@) ==> marked(
                q@,
                move_spec(pos, MoveDirection::Down),
            ));
            assert(step_dir_ok(pos, MoveDirection::Left, *size, visited@) ==> marked(
                q@,
                move_spec(pos, MoveDirection::Left),
            ));
        }
        proof {
            assert(q@[head as int] == (pos, d));
            assert forall|k: int, dir2: MoveDirection|
                0 <= k < head + 1 && #[trigger] step_dir_ok(q@[k].0, dir2, *size, visited@)
                implies marked(q@, move_spec(q@[k].0, dir2)) by {
                if k < head {
                    assert(qa[k] == q@[k]);
                    assert(marked(qa, move_spec(qa[k].0, dir2)));
                } else {
                    assert(q@[k].0 == pos);
                    if dir2 == MoveDirection::Up {
                        assert(marked(q@, move_spec(pos, MoveDirection::Up)));
                    } else if dir2 == MoveDirection::Right {
                        assert(marked(q@, move_spec(pos, MoveDirection::Right)));
                    } else if dir2 == MoveDirection::Down {
                        assert(marked(q@, move_spec(pos, MoveDirection::Down)));
                    } else {
                        assert(dir2 == MoveDirection::Left);
                        assert(marked(q@, move_spec(pos, MoveDirection::Left)));
                    }
                }
            }
            lemma_queue_len_bound(q@, from, *size, visited@);
        }
        head = head + 1;
        proof {
            if head < q@.len() {
                let dn = q@[head as int].1;
                assert(d <= dn <= d + 1);
                if dn == d + 1 {
                    lemma_cov_advance(
                        q@,
                        from,
                        *size,
                        visited@,
                        head as int,
                        d as int,
                    );
                }
            }
        }
    }
    let count = q.len();
    proof {
        let s = entry_positions(q@);
        assert(s.len() == q@.len());
        assert forall|i: int, j: int|
            0 <= i < s.len() && 0 <= j < s.len() && i != j implies s[i] != s[j] by {
            assert(s[i] == q@[i].0 && s[j] == q@[j].0);
        }
        assert(s.no_duplicates());
        s.unique_seq_to_set();
        vstd::seq_lib::seq_to_set_is_finite(s);
        assert forall|x: Position| s.to_set().contains(x) implies reach_all(
            from,
            *size,
            visited@,
        ).contains(x) by {
            let i = choose|i: int| 0 <= i < s.len() && s[i] == x;
            assert(s[i] == q@[i].0);
            assert(reach(from, *size, visited@, q@[i].1 as nat).contains(x));
        }
        assert forall|x: Position|
            reach_all(from, *size, visited@).contains(x) implies s.to_set().contains(x) by {
            let n = choose|n: nat| reach(from, *size, visited@, n).contains(x);
            lemma_expanded_covers(q@, from, *size, visited@, n);
            assert(marked(q@, x));
            let i = choose|i: int| 0 <= i < q@.len() && q@[i].0 == x;
            assert(s[i] == x);
        }
        assert(s.to_set() =~= reach_all(from, *size, visited@));
        match found {
            Some(v) => {
                lemma_min_dist(from, *size, visited@, *goal, v as nat);
                let m = min_dist(from, *size, visited@, *goal);
                if m < v {
                    assert(!reachable_in(from, *size, visited@, *goal, m));
                }
                assert(m == v);
            },
            None => {
                lemma_unreached(q@, from, *size, visited@, *goal);
            },
        }
    }
    (found, count)
}

/// `p` occurs among the positions still awaiting expansion.
spec fn in_stack(s: Seq<(Position, usize)>, p: Position) -> bool {
    exists|i: int| 0 <= i < s.len() && s[i].0 == p
}

/// Every discovered cell that already left the stack has been expanded: each
/// of its permitted step targets was discovered too.
spec fn dfs_closed(
    m: Seq<Position>,
    s: Seq<(Position, usize)>,
    size: Position,
    visited: Seq<Entry>,
) -> bool {
    forall|j: int, dir: MoveDirection|
        0 <= j < m.len() && !in_stack(s, m[j]) && #[trigger] step_dir_ok(m[j], dir, size, visited)
            ==> m.contains(move_spec(m[j], dir))
}

/// Like [`dfs_closed`], but the cell `p` — the one being expanded right now
/// — is exempt.
spec fn dfs_closed_except(
    m: Seq<Position>,
    s: Seq<(Position, usize)>,
    size: Position,
    visited: Seq<Entry>,
    p: Position,
) -> bool {
    forall|j: int, dir: MoveDirection|
        0 <= j < m.len() && m[j] != p && !in_stack(s, m[j]) && #[trigger] step_dir_ok(
            m[j],
            dir,
            size,
            visited,
        ) ==> m.contains(move_spec(m[j], dir))
}

/// A discovered set that is closed under permitted steps covers the whole
/// reachable region.
proof fn lemma_closed_covers(
    m: Seq<Position>,
    from: Position,
    size: Position,
    visited: Seq<Entry>,
    n: nat,
)
    requires
        m.contains(from),
        forall|j: int, dir: MoveDirection|
            0 <= j < m.len() && #[trigger] step_dir_ok(m[j], dir, size, visited) ==> m.contains(
                move_spec(m[j], dir),
            ),
    ensures
        forall|x: Position| reach(from, size, visited, n).contains(x) ==> m.contains(x),
    decreases n,
{
    if n == 0 {
        assert forall|x: Position| reach(from, size, visited, 0).contains(x) implies m.contains(
            x,
        ) by {
            assert(x == from);
        }
    } else {
        lemma_closed_covers(m, from, size, visited, (n - 1) as nat);
        let prev = reach(from, size, visited, (n - 1) as nat);
        assert forall|x: Position| reach(from, size, visited, n).contains(x) implies m.contains(
            x,
        ) by {
            if !prev.contains(x) {
                let a = choose|a: Position| prev.contains(a) && step_ok(a, x, size, visited);
                assert(m.contains(a));
                let j = choose|j: int| 0 <= j < m.len() && m[j] == a;
                let dir = choose|dir: MoveDirection|
                    step_dir_ok(a, dir, size, visited) && x == move_spec(a, dir);
                assert(step_dir_ok(m[j], dir, size, visited));
            }
        }
    }
}

/// Whether the vector already holds position `p`.
fn pos_vec_contains(v: &Vec<Position>, p: &Position) -> (r: bool)
    ensures
        r == v@.contains(*p),
{
    let mut i: usize = 0;
    while i < v.len()
        invariant
            0 <= i <= v@.len(),
            forall|j: int| 0 <= j < i ==> v@[j] != *p,
        decreases v@.len() - i,
    {
        if v[i].x == p.x && v[i].y == p.y {
            return true;
        }
        i = i + 1;
    }
    false
}

/// Depth-first search from `position` over never-visited playground cells,
/// looking for the goal. Returns the length of some walk to the goal through
/// unexplored space — not necessarily the shortest, as the search is
/// depth-first — or `None` exactly when the goal is unreachable that way.
#[verifier::rlimit(100)]
pub fn possible_way_to_goal(
    position: &Position,
    size: &Position,
    visited: &VisitedGraph,
    goal: &Position,
) -> (r: Option<usize>)
    ensures
        r is Some <==> is_reachable(*position, *size, visited@, *goal),
        (match r {
            Some(n) => reachable_in(*position, *size, visited@, *goal, n as nat) && (
            match spec_way(*position, *size, visited@, *goal) {
                Some(md) => md <= n as int,
                None => false,
            }),
            None => true,
        }),
{
    let from = *position;
    if from.x == goal.x && from.y == goal.y {
        proof {
            assert(reachable_in(from, *size, visited@, *goal, 0));
            lemma_min_dist(from, *size, visited@, *goal, 0);
        }
        return Some(0);
    }
    let mut marked_cells: Vec<Position> = Vec::new();
    marked_cells.push(from);
    let mut stack: Vec<(Position, usize)> = Vec::new();
    stack.push((from, 0));
    proof {
        assert(marked_cells@[0] == from);
        assert(stack@[0] == (from, 0usize));
        lemma_dfs_len_bound(marked_cells@, from, *size, visited@);
    }
    while stack.len() > 0
        invariant
            from == *position,
            marked_cells@.len() >= 1,
            marked_cells@.contains(from),
            marked_cells@.no_duplicates(),
            forall|j: int|
                0 <= j < marked_cells@.len() ==> in_box(
                    #[trigger] marked_cells@[j],
                    box_x(from, *size),
                    box_y(from, *size),
                ),
            marked_cells@.len() <= box_set(box_x(from, *size), box_y(from, *size)).len(),
            forall|i: int|
                0 <= i < stack@.len() ==> marked_cells@.contains((#[trigger] stack@[i]).0),
            forall|i: int|
                0 <= i < stack@.len() ==> reach(
                    from,
                    *size,
                    visited@,
                    (#[trigger] stack@[i]).1 as nat,
                ).contains(stack@[i].0),
            forall|i: int| 0 <= i < stack@.len() ==> (#[trigger] stack@[i]).1 < marked_cells@.len(),
            forall|j: int| 0 <= j < marked_cells@.len() ==> #[trigger] marked_cells@[j] != *goal,
            dfs_closed(marked_cells@, stack@, *size, visited@),
        decreases 5 * (box_set(box_x(from, *size), box_y(from, *size)).len()
            - marked_cells@.len()) + stack@.len(),
    {
        let ghost s_before = stack@;
        let top = stack.pop();
        let (pos, count) = match top {
            Some(e) => e,
            None => {
                proof {
                    assert(false);
                }
                (from, 0)
            },
        };
        proof {
            assert(stack@ == s_before.drop_last());
            assert(s_before[s_before.len() - 1] == (pos, count));
            assert(marked_cells@.contains(pos));
            let jp = choose|j: int| 0 <= j < marked_cells@.len() && marked_cells@[j] == pos;
            assert(in_box(marked_cells@[jp], box_x(from, *size), box_y(from, *size)));
            assert forall|j: int, dir: MoveDirection|
                0 <= j < marked_cells@.len() && marked_cells@[j] != pos && !in_stack(
                    stack@,
                    marked_cells@[j],
                ) && #[trigger] step_dir_ok(marked_cells@[j], dir, *size, visited@)
                implies marked_cells@.contains(move_spec(marked_cells@[j], dir)) by {
                if in_stack(s_before, marked_cells@[j]) {
                    let i = choose|i: int|
                        0 <= i < s_before.len() && s_before[i].0 == marked_cells@[j];
                    assert(i < s_before.len() - 1);
                    assert(stack@[i] == s_before[i]);
                    assert(in_stack(stack@, marked_cells@[j]));
                }
            }
        }
        let r_up = dfs_try(
            &mut marked_cells,
            &mut stack,
            &pos,
            count,
            MoveDirection::Up,
            size,
            visited,
            goal,
            Ghost(from),
        );
        if let Some(n) = r_up {
            return Some(n);
        }
        let r_right = dfs_try(
            &mut marked_cells,
            &mut stack,
            &pos,
            count,
            MoveDirection::Right,
            size,
            visited,
            goal,
            Ghost(from),
        );
        if let Some(n) = r_right {
            return Some(n);
        }
        proof {
            assert(step_dir_ok(pos, MoveDirection::Up, *size, visited@)
                ==> marked_cells@.contains(move_spec(pos, MoveDirection::Up)));
        }
        let r_down = dfs_try(
            &mut marked_cells,
            &mut stack,
            &pos,
            count,
            MoveDirection::Down,
            size,
            visited,
            goal,
            Ghost(from),
        );
        if let Some(n) = r_down {
            return Some(n);
        }
        proof {
            assert(step_dir_ok(pos, MoveDirection::Up, *size, visited@)
                ==> marked_cells@.contains(move_spec(pos, MoveDirection::Up)));
            assert(step_dir_ok(pos, MoveDirection::Right, *size, visited@)
                ==> marked_cells@.contains(move_spec(pos, MoveDirection::Right)));
        }
        let r_left = dfs_try(
            &mut marked_cells,
            &mut stack,
            &pos,
            count,
            MoveDirection::Left,
            size,
            visited,
            goal,
            Ghost(from),
        );
        if let Some(n) = r_left {
            return Some(n);
        }
        proof {
            assert(step_dir_ok(pos, MoveDirection::Up, *size, visited@)
                ==> marked_cells@.contains(move_spec(pos, MoveDirection::Up)));
            assert(step_dir_ok(pos, MoveDirection::Right, *size, visited@)
                ==> marked_cells@.contains(move_spec(pos, MoveDirection::Right)));
            assert(step_dir_ok(pos, MoveDirection::Down, *size, visited@)
                ==> marked_cells@.contains(move_spec(pos, MoveDirection::Down)));
            assert forall|j: int, dir: MoveDirection|
                0 <= j < marked_cells@.len() && !in_stack(stack@, marked_cells@[j])
                    && #[trigger] step_dir_ok(marked_cells@[j], dir, *size, visited@)
                implies marked_cells@.contains(move_spec(marked_cells@[j], dir)) by {
                if marked_cells@[j] == pos {
                    if dir == MoveDirection::Up {
                        assert(marked_cells@.contains(move_spec(pos, MoveDirection::Up)));
                    } else if dir == MoveDirection::Right {
                        assert(marked_cells@.contains(move_spec(pos, MoveDirection::Right)));
                    } else if dir == MoveDirection::Down {
                        assert(marked_cells@.contains(move_spec(pos, MoveDirection::Down)));
                    } else {
                        assert(dir == MoveDirection::Left);
                        assert(marked_cells@.contains(move_spec(pos, MoveDirection::Left)));
                    }
                }
            }
            lemma_dfs_len_bound(marked_cells@, from, *size, visited@);
        }
    }
    proof {
        assert forall|j: int, dir: MoveDirection|
            0 <= j < marked_cells@.len() && #[trigger] step_dir_ok(
                marked_cells@[j],
                dir,
                *size,
                visited@,
            ) implies marked_cells@.contains(move_spec(marked_cells@[j], dir)) by {
            assert(!in_stack(stack@, marked_cells@[j]));
        }
        if is_reachable(from, *size, visited@, *goal) {
            let n = choose|n: nat| reachable_in(from, *size, visited@, *goal, n);
            lemma_closed_covers(marked_cells@, from, *size, visited@, n);
            assert(marked_cells@.contains(*goal));
            let j = choose|j: int| 0 <= j < marked_cells@.len() && marked_cells@[j] == *goal;
            assert(false);
        }
    }
    None
}

/// Tries one expansion step of the depth-first search out of `pos` (walk
/// length `count` so far) in direction `dir`. Finding the goal ends the
/// search with the walk length; a permitted, undiscovered, non-goal target
/// is discovered and stacked; anything else changes nothing.
fn dfs_try(
    m: &mut Vec<Position>,
    s: &mut Vec<(Position, usize)>,
    pos: &Position,
    count: usize,
    dir: MoveDirection,
    size: &Position,
    visited: &VisitedGraph,
    goal: &Position,
    Ghost(from): Ghost<Position>,
) -> (r: Option<usize>)
    requires
        count < old(m)@.len(),
        old(m)@.len() >= 1,
        old(m)@.contains(from),
        old(m)@.no_duplicates(),
        forall|j: int|
            0 <= j < old(m)@.len() ==> in_box(
                #[trigger] old(m)@[j],
                box_x(from, *size),
                box_y(from, *size),
            ),
        forall|j: int| 0 <= j < old(m)@.len() ==> #[trigger] old(m)@[j] != *goal,
        forall|i: int| 0 <= i < old(s)@.len() ==> old(m)@.contains((#[trigger] old(s)@[i]).0),
        forall|i: int|
            0 <= i < old(s)@.len() ==> reach(
                from,
                *size,
                visited@,
                (#[trigger] old(s)@[i]).1 as nat,
            ).contains(old(s)@[i].0),
        forall|i: int| 0 <= i < old(s)@.len() ==> (#[trigger] old(s)@[i]).1 < old(m)@.len(),
        dfs_closed_except(old(m)@, old(s)@, *size, visited@, *pos),
        in_box(*pos, box_x(from, *size), box_y(from, *size)),
        reach(from, *size, visited@, count as nat).contains(*pos),
    ensures
        final(m)@.len() >= 1,
        final(m)@.contains(from),
        final(m)@.no_duplicates(),
        forall|j: int|
            0 <= j < final(m)@.len() ==> in_box(
                #[trigger] final(m)@[j],
                box_x(from, *size),
                box_y(from, *size),
            ),
        forall|j: int| 0 <= j < final(m)@.len() ==> #[trigger] final(m)@[j] != *goal,
        forall|i: int| 0 <= i < final(s)@.len() ==> final(m)@.contains((#[trigger] final(s)@[i]).0),
        forall|i: int|
            0 <= i < final(s)@.len() ==> reach(
                from,
                *size,
                visited@,
                (#[trigger] final(s)@[i]).1 as nat,
            ).contains(final(s)@[i].0),
        forall|i: int| 0 <= i < final(s)@.len() ==> (#[trigger] final(s)@[i]).1 < final(m)@.len(),
        dfs_closed_except(final(m)@, final(s)@, *size, visited@, *pos),
        forall|p: Position| old(m)@.contains(p) ==> final(m)@.contains(p),
        forall|p: Position| in_stack(old(s)@, p) ==> in_stack(final(s)@, p),
        final(m)@.len() - old(m)@.len() == final(s)@.len() - old(s)@.len(),
        old(m)@.len() <= final(m)@.len() <= old(m)@.len() + 1,
        (match r {
            Some(n) => n == count + 1 && reachable_in(from, *size, visited@, *goal, n as nat)
                && is_reachable(from, *size, visited@, *goal) && (match spec_way(
                from,
                *size,
                visited@,
                *goal,
            ) {
                Some(md) => md <= n as int,
                None => false,
            }) && final(m)@ == old(m)@ && final(s)@ == old(s)@,
            None => step_dir_ok(*pos, dir, *size, visited@) ==> final(m)@.contains(
                move_spec(*pos, dir),
            ),
        }),
{
    let ml = m.len();
    if !is_move_over_playground_border(pos, &dir, size) {
        let t = move_by_direction(pos, &dir);
        if !visited.contains_key(&t) {
            proof {
                assert(step_dir_ok(*pos, dir, *size, visited@));
                assert(step_ok(*pos, t, *size, visited@)) by {
                    assert(step_dir_ok(*pos, dir, *size, visited@) && t == move_spec(*pos, dir));
                }
                lemma_reach_step(from, *size, visited@, count as nat, *pos, t);
                lemma_step_in_box(*pos, dir, *size, box_x(from, *size), box_y(from, *size));
            }
            if !pos_vec_contains(m, &t) {
                if t.x == goal.x && t.y == goal.y {
                    proof {
                        assert(t == *goal);
                        assert(reachable_in(from, *size, visited@, *goal, (count + 1) as nat));
                        lemma_min_dist(from, *size, visited@, *goal, (count + 1) as nat);
                    }
                    return Some(count + 1);
                }
                let ghost m0 = m@;
                let ghost s0 = s@;
                m.push(t);
                s.push((t, count + 1));
                proof {
                    assert(m@ == m0.push(t));
                    assert(s@ == s0.push((t, (count + 1) as usize)));
                    assert(m@[m0.len() as int] == t);
                    assert forall|p: Position| m0.contains(p) implies m@.contains(p) by {
                        let i = choose|i: int| 0 <= i < m0.len() && m0[i] == p;
                        assert(m@[i] == p);
                    }
                    assert forall|p: Position| in_stack(s0, p) implies in_stack(s@, p) by {
                        let i = choose|i: int| 0 <= i < s0.len() && s0[i].0 == p;
                        assert(s@[i] == s0[i]);
                    }
                    assert forall|i: int, j: int|
                        0 <= i < m@.len() && 0 <= j < m@.len() && i != j implies m@[i]
                        != m@[j] by {
                        if i < m0.len() && j < m0.len() {
                            assert(m@[i] == m0[i] && m@[j] == m0[j]);
                        } else if j == m0.len() {
                            assert(m@[i] == m0[i] && m@[j] == t);
                            if m0[i] == t {
                                assert(m0.contains(t));
                            }
                        } else {
                            assert(m@[j] == m0[j] && m@[i] == t);
                            if m0[j] == t {
                                assert(m0.contains(t));
                            }
                        }
                    }
                    assert(m@.no_duplicates());
                    assert(in_stack(s@, t)) by {
                        assert(s@[s0.len() as int].0 == t);
                    }
                    assert forall|j: int, dir2: MoveDirection|
                        0 <= j < m@.len() && m@[j] != *pos && !in_stack(s@, m@[j])
                            && #[trigger] step_dir_ok(m@[j], dir2, *size, visited@)
                        implies m@.contains(move_spec(m@[j], dir2)) by {
                        if j < m0.len() {
                            assert(m@[j] == m0[j]);
                            assert(!in_stack(s0, m0[j])) by {
                                if in_stack(s0, m0[j]) {
                                    let i = choose|i: int|
                                        0 <= i < s0.len() && s0[i].0 == m0[j];
                                    assert(s@[i] == s0[i]);
                                    assert(in_stack(s@, m0[j]));
                                }
                            }
                            assert(m0.contains(move_spec(m0[j], dir2)));
                        } else {
                            assert(m@[j] == t);
                        }
                    }
                }
            }
        }
    }
    None
}

/// A sequence of distinct in-box positions is no longer than the box is
/// large.
proof fn lemma_dfs_len_bound(m: Seq<Position>, from: Position, size: Position, visited: Seq<Entry>)
    requires
        m.no_duplicates(),
        forall|j: int|
            0 <= j < m.len() ==> in_box(#[trigger] m[j], box_x(from, size), box_y(from, size)),
    ensures
        m.len() <= box_set(box_x(from, size), box_y(from, size)).len(),
{
    let mx = box_x(from, size);
    let my = box_y(from, size);
    m.unique_seq_to_set();
    lemma_box_finite(mx, my);
    assert forall|p: Position| m.to_set().contains(p) implies box_set(mx, my).contains(p) by {
        let i = choose|i: int| 0 <= i < m.len() && m[i] == p;
        assert(in_box(m[i], mx, my));
    }
    vstd::set_lib::lemma_len_subset(m.to_set(), box_set(mx, my));
}

} // verus!
