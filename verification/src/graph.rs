//! The explored subgraph of the maze: every cell that has been occupied,
//! together with the cell from which it was first reached. Entries are kept
//! in discovery order, which makes the structure a tree by construction: a
//! parent always appears earlier than its children, so parent chains cannot
//! cycle.

use vstd::prelude::*;
use crate::Position;

verus! {

/// One discovery record: a cell and the cell it was first entered from
/// (`None` only for the run's start cell).
pub type Entry = (Position, Option<Position>);

/// Whether some entry of `s` records the cell `k`.
pub open spec fn g_contains(s: Seq<Entry>, k: Position) -> bool {
    exists|i: int| 0 <= i < s.len() && s[i].0 == k
}

/// The index of the entry recording `k` (meaningful when keys are distinct
/// and `k` is present).
pub open spec fn g_index(s: Seq<Entry>, k: Position) -> int {
    choose|i: int| 0 <= i < s.len() && s[i].0 == k
}

/// The recorded parent of `k`.
pub open spec fn g_get(s: Seq<Entry>, k: Position) -> Option<Position> {
    s[g_index(s, k)].1
}

/// No two entries record the same cell.
pub open spec fn g_distinct(s: Seq<Entry>) -> bool {
    forall|i: int, j: int| 0 <= i < j < s.len() ==> s[i].0 != s[j].0
}

/// The parent recorded at entry `i` was itself discovered strictly earlier.
pub open spec fn parent_seen_earlier(s: Seq<Entry>, i: int) -> bool {
    exists|j: int| 0 <= j < i && s[j].0 == s[i].1.unwrap()
}

/// Well-formedness of the discovery order: keys are distinct, exactly the
/// first entry is parentless, and every other parent was itself discovered
/// earlier.
pub open spec fn graph_wf(s: Seq<Entry>) -> bool {
    &&& g_distinct(s)
    &&& forall|i: int| 0 <= i < s.len() ==> ((#[trigger] s[i].1) is None <==> i == 0)
    &&& forall|i: int| 1 <= i < s.len() ==> #[trigger] parent_seen_earlier(s, i)
}

/// Under distinct keys, the entry found for a present key is the only one.
pub proof fn lemma_g_index_of(s: Seq<Entry>, i: int)
    requires
        g_distinct(s),
        0 <= i < s.len(),
    ensures
        g_contains(s, s[i].0),
        g_index(s, s[i].0) == i,
        g_get(s, s[i].0) == s[i].1,
{
    assert(g_contains(s, s[i].0));
    let j = g_index(s, s[i].0);
    assert(0 <= j < s.len() && s[j].0 == s[i].0);
    if i < j {
        assert(s[i].0 != s[j].0);
    }
    if j < i {
        assert(s[j].0 != s[i].0);
    }
}

/// The explored subgraph, a map from visited cell to the optional parent
/// cell, stored in discovery order.
pub struct VisitedGraph {
    entries: Vec<Entry>,
}

impl View for VisitedGraph {
    type V = Seq<Entry>;

    closed spec fn view(&self) -> Seq<Entry> {
        self.entries@
    }
}

impl VisitedGraph {
    /// An empty graph: no cell has been visited.
    pub fn new() -> (g: VisitedGraph)
        ensures
            g@ == Seq::<Entry>::empty(),
    {
        VisitedGraph { entries: Vec::new() }
    }

    /// How many cells have been visited.
    pub fn len(&self) -> (n: usize)
        ensures
            n == self@.len(),
    {
        self.entries.len()
    }

    /// Whether `k` has been visited.
    pub fn contains_key(&self, k: &Position) -> (r: bool)
        ensures
            r == g_contains(self@, *k),
    {
        let mut i: usize = 0;
        while i < self.entries.len()
            invariant
                0 <= i <= self.entries.len(),
                forall|j: int| 0 <= j < i ==> self.entries@[j].0 != *k,
            decreases self.entries.len() - i,
        {
            if self.entries[i].0.x == k.x && self.entries[i].0.y == k.y {
                return true;
            }
            i = i + 1;
        }
        false
    }

    /// The parent recorded for `k`: `None` when `k` was never visited,
    /// `Some(parent)` when it was.
    pub fn get(&self, k: &Position) -> (r: Option<Option<Position>>)
        ensures
            match r {
                Option::None => !g_contains(self@, *k),
                Option::Some(p) => g_contains(self@, *k) && (g_distinct(self@) ==> p == g_get(
                    self@,
                    *k,
                )),
            },
    {
        let mut i: usize = 0;
        while i < self.entries.len()
            invariant
                0 <= i <= self.entries.len(),
                forall|j: int| 0 <= j < i ==> self.entries@[j].0 != *k,
            decreases self.entries.len() - i,
        {
            if self.entries[i].0.x == k.x && self.entries[i].0.y == k.y {
                proof {
                    if g_distinct(self@) {
                        lemma_g_index_of(self@, i as int);
                    }
                }
                return Some(self.entries[i].1);
            }
            i = i + 1;
        }
        None
    }

    /// Records that `k` was first reached from `parent`. The cell must be
    /// new: a discovery record is never overwritten.
    pub fn insert_new(&mut self, k: Position, parent: Option<Position>)
        requires
            !g_contains(old(self)@, k),
        ensures
            final(self)@ == old(self)@.push((k, parent)),
    {
        self.entries.push((k, parent));
    }

    /// Forgets everything: used on a hard reset.
    pub fn clear(&mut self)
        ensures
            final(self)@ == Seq::<Entry>::empty(),
    {
        self.entries.clear();
    }
}

/// Discovering a new cell whose parent (when there is one) was discovered
/// before keeps the graph well-formed. The start cell is the one discovered
/// into an empty graph, and only it is parentless.
pub proof fn lemma_wf_push(s: Seq<Entry>, p: Position, parent: Option<Position>)
    requires
        graph_wf(s),
        !g_contains(s, p),
        parent is None <==> s.len() == 0,
        parent matches Some(c) ==> g_contains(s, c),
    ensures
        graph_wf(s.push((p, parent))),
{
    let t = s.push((p, parent));
    assert forall|i: int, j: int| 0 <= i < j < t.len() implies t[i].0 != t[j].0 by {
        if j < s.len() {
            assert(s[i].0 != s[j].0);
        } else {
            assert(t[j].0 == p);
            if s[i].0 == p {
                assert(g_contains(s, p));
            }
        }
    }
    assert forall|i: int| 0 <= i < t.len() implies ((#[trigger] t[i].1) is None <==> i == 0) by {
        if i < s.len() {
            assert(t[i] == s[i]);
        } else {
            assert(t[i] == (p, parent));
        }
    }
    assert forall|i: int| 1 <= i < t.len() implies #[trigger] parent_seen_earlier(t, i) by {
        if i < s.len() {
            assert(t[i] == s[i]);
            assert(parent_seen_earlier(s, i));
            let j = choose|j: int| 0 <= j < i && s[j].0 == s[i].1.unwrap();
            assert(0 <= j < i && t[j].0 == t[i].1.unwrap());
        } else {
            assert(t[i] == (p, parent));
            let c = parent.unwrap();
            let j = choose|j: int| 0 <= j < s.len() && s[j].0 == c;
            assert(0 <= j < i && t[j].0 == t[i].1.unwrap());
        }
    }
    assert(g_distinct(t));
}

/// The entry index reached from entry `i` after `k` steps along parent
/// pointers (stops at a parentless entry).
pub open spec fn ancestor(s: Seq<Entry>, i: int, k: nat) -> int
    decreases k,
{
    if k == 0 {
        i
    } else {
        let prev = ancestor(s, i, (k - 1) as nat);
        if 0 <= prev < s.len() && s[prev].1 is Some {
            g_index(s, s[prev].1.unwrap())
        } else {
            prev
        }
    }
}

/// The number of parent steps from entry `i` to the root.
pub open spec fn steps_to_root(s: Seq<Entry>, i: int) -> nat
    decreases i,
{
    if graph_wf(s) && 0 <= i < s.len() {
        match s[i].1 {
            Option::None => 0,
            Option::Some(p) => {
                let j = g_index(s, p);
                if 0 <= j < i {
                    (1 + steps_to_root(s, j)) as nat
                } else {
                    0
                }
            },
        }
    } else {
        0
    }
}

/// In a well-formed graph every parent was discovered strictly earlier.
pub proof fn lemma_parent_index_smaller(s: Seq<Entry>, i: int)
    requires
        graph_wf(s),
        0 <= i < s.len(),
        s[i].1 is Some,
    ensures
        0 <= g_index(s, s[i].1.unwrap()) < i,
        g_contains(s, s[i].1.unwrap()),
{
    assert(i != 0);
    assert(parent_seen_earlier(s, i));
    let j = choose|j: int| 0 <= j < i && s[j].0 == s[i].1.unwrap();
    assert(g_contains(s, s[i].1.unwrap()));
    lemma_g_index_of(s, j);
}

/// The tree invariant: in a well-formed graph, following parent pointers
/// from any visited cell reaches the start cell (the sole parentless entry,
/// which is the first one discovered) in at most as many steps as the cell's
/// discovery index.
pub proof fn lemma_parent_chain_reaches_root(s: Seq<Entry>, i: int)
    requires
        graph_wf(s),
        0 <= i < s.len(),
    ensures
        steps_to_root(s, i) <= i,
        ancestor(s, i, steps_to_root(s, i)) == 0,
        s[ancestor(s, i, steps_to_root(s, i))].1 is None,
    decreases i,
{
    match s[i].1 {
        Option::None => {
            assert(i == 0);
            assert(steps_to_root(s, i) == 0);
            assert(ancestor(s, i, 0) == i);
        },
        Option::Some(p) => {
            lemma_parent_index_smaller(s, i);
            let j = g_index(s, p);
            lemma_parent_chain_reaches_root(s, j);
            let n = steps_to_root(s, j);
            assert(steps_to_root(s, i) == n + 1);
            lemma_ancestor_shift(s, i, j, n);
        },
    }
}

/// Taking `k + 1` steps from `i` is taking `k` steps from `i`'s parent.
proof fn lemma_ancestor_shift(s: Seq<Entry>, i: int, j: int, k: nat)
    requires
        0 <= i < s.len(),
        s[i].1 is Some,
        j == g_index(s, s[i].1.unwrap()),
    ensures
        ancestor(s, i, (k + 1) as nat) == ancestor(s, j, k),
    decreases k,
{
    if k == 0 {
        assert(ancestor(s, i, 0) == i);
        assert(ancestor(s, i, 1) == j);
    } else {
        lemma_ancestor_shift(s, i, j, (k - 1) as nat);
    }
}

} // verus!
