//! The navigation core: the belief state reconstructed from observations and
//! the decision procedure that picks at most one move per tick.

use vstd::prelude::*;
use crate::{AlgorithmConfig, MoveDirection, Position, Walls};
use crate::client::{Answer, Command};
use crate::graph::{g_contains, g_distinct, g_get, graph_wf, Entry, VisitedGraph};

verus! {

/// The belief state of one run: where the player is, where it started,
/// where the goal lies, the walls of the current cell, the explored
/// subgraph, and the scores of the accepted forward moves.
pub struct State {
    pub last_pos: Option<Position>,
    pub start_pos: Option<Position>,
    pub current_pos: Option<Position>,
    pub current_goal: Option<Position>,
    pub current_walls: Option<Walls>,
    pub visited_positions: VisitedGraph,
    pub heuristics_stack: Vec<u64>,
}

/// The mathematical value of a [`State`].
pub ghost struct StateModel {
    pub last_pos: Option<Position>,
    pub start_pos: Option<Position>,
    pub current_pos: Option<Position>,
    pub current_goal: Option<Position>,
    pub current_walls: Option<Walls>,
    pub visited: Seq<Entry>,
    pub stack: Seq<u64>,
}

impl StateModel {
    /// The state of a freshly started run: nothing observed yet.
    pub open spec fn init() -> StateModel {
        StateModel {
            last_pos: None,
            start_pos: None,
            current_pos: None,
            current_goal: None,
            current_walls: None,
            visited: Seq::empty(),
            stack: Seq::empty(),
        }
    }
}

/// How one observation transforms the belief state.
///
/// A position report for the cell already occupied is a duplicate echo and
/// changes nothing. A report for another cell records the transition, and
/// enters the cell into the explored subgraph if it is new, with the cell it
/// was entered from as parent. A goal announcement is a hard reset to a
/// fresh run that knows only the new goal. All other messages do not concern
/// the navigation core.
pub open spec fn apply_spec(m: StateModel, a: Answer) -> StateModel {
    match a {
        Answer::Pos(p, w) => {
            if m.current_pos == Some(p) {
                m
            } else {
                StateModel {
                    last_pos: m.current_pos,
                    start_pos: if m.current_pos is None {
                        Some(p)
                    } else {
                        m.start_pos
                    },
                    current_pos: Some(p),
                    current_goal: m.current_goal,
                    current_walls: Some(w),
                    visited: if g_contains(m.visited, p) {
                        m.visited
                    } else {
                        m.visited.push((p, m.current_pos))
                    },
                    stack: m.stack,
                }
            }
        },
        Answer::Goal(p) => StateModel { current_goal: Some(p), ..StateModel::init() },
        _ => m,
    }
}

impl State {
    /// The mathematical value of this state.
    pub open spec fn model(&self) -> StateModel {
        StateModel {
            last_pos: self.last_pos,
            start_pos: self.start_pos,
            current_pos: self.current_pos,
            current_goal: self.current_goal,
            current_walls: self.current_walls,
            visited: self.visited_positions@,
            stack: self.heuristics_stack@,
        }
    }

    /// Well-formedness: the explored subgraph is a tree in discovery order,
    /// and whenever a current cell is known it has been entered into the
    /// subgraph, its walls were observed, and the start cell is the
    /// subgraph's first entry.
    pub open spec fn wf(&self) -> bool {
        state_wf(self.model())
    }

    /// Creates the state of a freshly started run.
    pub fn new() -> (s: State)
        ensures
            s.model() == StateModel::init(),
            s.wf(),
    {
        State {
            last_pos: None,
            start_pos: None,
            current_pos: None,
            current_goal: None,
            current_walls: None,
            visited_positions: VisitedGraph::new(),
            heuristics_stack: Vec::new(),
        }
    }

    /// Consumes one observation and updates the belief state in place, as
    /// [`apply_spec`] describes. Well-formedness is preserved, and no
    /// discovery record is ever rewritten: the new subgraph is the old one,
    /// possibly extended by one entry.
    pub fn update_from_answer(&mut self, answer: &Answer)
        ensures
            final(self).model() == apply_spec(old(self).model(), *answer),
            old(self).wf() ==> final(self).wf(),
    {
        match answer {
            Answer::Pos(p, w) => {
                let is_new_cell = match &self.current_pos {
                    None => true,
                    Some(c) => !(c.x == p.x && c.y == p.y),
                };
                if self.current_pos.is_none() {
                    self.start_pos = Some(*p);
                }
                if is_new_cell {
                    if !self.visited_positions.contains_key(p) {
                        let parent = self.current_pos;
                        proof {
                            if old(self).wf() {
                                crate::graph::lemma_wf_push(
                                    old(self).visited_positions@,
                                    *p,
                                    old(self).current_pos,
                                );
                            }
                        }
                        self.visited_positions.insert_new(*p, parent);
                    }
                    self.last_pos = self.current_pos;
                    self.current_pos = Some(*p);
                    self.current_walls = Some(*w);
                    proof {
                        if old(self).wf() {
                            if !g_contains(old(self).visited_positions@, *p) {
                                let n = self.visited_positions@.len() - 1;
                                assert(self.visited_positions@[n].0 == *p);
                            }
                            assert(g_contains(self.visited_positions@, *p));
                            if old(self).current_pos is None {
                                assert(old(self).visited_positions@.len() == 0);
                                assert(self.visited_positions@[0].0 == *p);
                            } else {
                                assert(self.visited_positions@[0] == old(
                                    self,
                                ).visited_positions@[0]);
                            }
                        }
                    }
                }
            },
            Answer::Goal(p) => {
                self.reset();
                self.current_goal = Some(*p);
            },
            _ => {},
        }
    }

    /// Wipes the whole belief state: the next run starts from nothing.
    fn reset(&mut self)
        ensures
            final(self).model() == StateModel::init(),
    {
        self.current_pos = None;
        self.last_pos = None;
        self.start_pos = None;
        self.current_walls = None;
        self.current_goal = None;
        self.visited_positions.clear();
        self.heuristics_stack.clear();
    }
}

/// The heuristic score of a candidate cell before saturation, over exact
/// integer arithmetic. All quantities are fixed-point numbers scaled by
/// [`SCALE`]; `way` is the shortest step count to the goal through
/// unexplored space (`None` when unreachable, which draws the fixed maximal
/// penalty of `1.0`), `frontier` the size of the unexplored region the
/// candidate opens up. A degenerate playground bound of `(0, 0)` makes the
/// normalisation meaningless and yields the worst possible score. The score
/// weighs the distance to the goal, the residual path relative to the
/// available fresh space, and the offset from the line between the
/// playground's center and the goal; lower is better.
pub open spec fn score_raw(
    pos: Position,
    goal: Position,
    size: Position,
    way: Option<int>,
    frontier: int,
) -> int {
    if size.x == 0 && size.y == 0 {
        u64::MAX as int
    } else {
        let diag = crate::helper::sqrt_floor(
            (size.x * size.x + size.y * size.y) as nat,
        ) as int;
        let goal_term = crate::helper::distance_fp_spec(pos, goal) / diag;
        let path_term = (match way {
            Some(len) => crate::helper::sqrt_floor(
                (len * (crate::helper::SCALE * crate::helper::SCALE) / (8 * (size.x + size.y))) as nat,
            ) as int,
            None => crate::helper::SCALE as int,
        });
        let center = Position { x: (size.x / 2) as u32, y: (size.y / 2) as u32 };
        let offset_term = crate::helper::line_distance_fp_spec(pos, center, goal) / diag;
        let frontier_term = crate::helper::sqrt_floor(
            (frontier * (crate::helper::SCALE * crate::helper::SCALE)) as nat,
        ) as int;
        (5 * goal_term + 5 * path_term * crate::helper::SCALE / frontier_term + offset_term) / 10
    }
}

/// The heuristic score of a candidate cell, saturated to the `u64` range.
pub open spec fn score_fp_spec(
    pos: Position,
    goal: Position,
    size: Position,
    way: Option<int>,
    frontier: int,
) -> int {
    vstd::math::min(score_raw(pos, goal, size, way, frontier), u64::MAX as int)
}

/// Computes the heuristic score of a candidate cell, exactly as
/// [`score_fp_spec`] states it.
pub fn calculate_position_heuristic(
    pos: &Position,
    goal: &Position,
    size: &Position,
    potential_way_length: Option<usize>,
    size_of_space: usize,
) -> (r: u64)
    requires
        size_of_space >= 1,
    ensures
        r as int == score_fp_spec(
            *pos,
            *goal,
            *size,
            (match potential_way_length {
                Some(l) => Some(l as int),
                None => None,
            }),
            size_of_space as int,
        ),
{
    if size.x == 0 && size.y == 0 {
        return u64::MAX;
    }
    let sx = size.x as u128;
    let sy = size.y as u128;
    proof {
        assert(sx * sx + sy * sy < 0x2_0000_0000_0000_0000 && sx * sx + sy * sy >= 1)
            by (nonlinear_arith)
            requires
                0 <= sx <= u32::MAX,
                0 <= sy <= u32::MAX,
                sx >= 1 || sy >= 1,
        ;
    }
    let diag = crate::helper::isqrt(sx * sx + sy * sy);
    proof {
        crate::helper::lemma_sqrt_floor_bounds((sx * sx + sy * sy) as nat);
        if diag == 0 {
            assert((sx * sx + sy * sy) < 1) by (nonlinear_arith)
                requires
                    (sx * sx + sy * sy) < (crate::helper::sqrt_floor((sx * sx + sy * sy) as nat)
                        + 1) * (crate::helper::sqrt_floor((sx * sx + sy * sy) as nat) + 1),
                    crate::helper::sqrt_floor((sx * sx + sy * sy) as nat) == 0,
            ;
            assert(false);
        }
        crate::helper::lemma_distance_fp_bound(*pos, *goal);
    }
    let goal_term = (crate::helper::calculate_distance(pos, goal) as u128) / diag;
    let path_term: u128 = (match potential_way_length {
        Some(len) => {
            proof {
                assert((len as u128) * ((crate::helper::SCALE as u128) * (
                crate::helper::SCALE as u128)) < 0x4000_0000_0000 * 0x4000_0000_0000)
                    by (nonlinear_arith)
                    requires
                        0 <= len <= u64::MAX,
                        crate::helper::SCALE == 10000,
                ;
            }
            let arg = (len as u128) * ((crate::helper::SCALE as u128) * (
            crate::helper::SCALE as u128)) / (8 * (sx + sy));
            let t = crate::helper::isqrt(arg);
            proof {
                crate::helper::lemma_div_le(
                    (len as u128) * ((crate::helper::SCALE as u128) * (
                    crate::helper::SCALE as u128)) as int,
                    (8 * (sx + sy)) as int,
                );
                crate::helper::lemma_sqrt_small(arg as nat, 0x4000_0000_0000);
            }
            t
        },
        None => crate::helper::SCALE as u128,
    });
    let center = Position { x: size.x / 2, y: size.y / 2 };
    proof {
        crate::helper::lemma_line_fp_bound(*pos, center, *goal);
    }
    let offset_term = crate::helper::distance_from_line(pos, &center, goal) / diag;
    proof {
        assert((size_of_space as u128) * ((crate::helper::SCALE as u128) * (
        crate::helper::SCALE as u128)) < 0x4000_0000_0000 * 0x4000_0000_0000 && (
        size_of_space as u128) * ((crate::helper::SCALE as u128) * (
        crate::helper::SCALE as u128)) >= 100000000) by (nonlinear_arith)
            requires
                1 <= size_of_space <= u64::MAX,
                crate::helper::SCALE == 10000,
        ;
    }
    let frontier_term = crate::helper::isqrt(
        (size_of_space as u128) * ((crate::helper::SCALE as u128) * (
        crate::helper::SCALE as u128)),
    );
    proof {
        let fa = ((size_of_space as u128) * ((crate::helper::SCALE as u128) * (
        crate::helper::SCALE as u128))) as nat;
        crate::helper::lemma_sqrt_small(fa, 0x4000_0000_0000);
        assert(crate::helper::sqrt_floor(100000000) == 10000) by {
            crate::helper::lemma_sqrt_floor_unique(100000000, 10000);
            assert(10000 * 10000 <= 100000000 && 100000000 < 10001 * 10001) by (nonlinear_arith);
        }
        crate::helper::lemma_sqrt_floor_monotone(100000000, fa);
        assert(frontier_term >= 10000);
    }
    let raw = (5 * goal_term + 5 * path_term * (crate::helper::SCALE as u128) / frontier_term
        + offset_term) / 10;
    if raw > u64::MAX as u128 {
        u64::MAX
    } else {
        raw as u64
    }
}

/// The minimum of the entries of `s` from index `j` on, if any.
pub open spec fn suffix_min(s: Seq<u64>, j: int) -> Option<int>
    decreases s.len() - j,
{
    if j < 0 || j >= s.len() {
        None
    } else {
        match suffix_min(s, j + 1) {
            None => Some(s[j] as int),
            Some(m) => Some(vstd::math::min(s[j] as int, m)),
        }
    }
}

/// The best (smallest) among the last `k` recorded scores, if any: the
/// rolling guard against moves much worse than recently achieved.
pub open spec fn recent_min(s: Seq<u64>, k: int) -> Option<int> {
    suffix_min(s, vstd::math::max(0, s.len() - k))
}

/// Whether a candidate score passes the decline guard: with no recent
/// scores every candidate passes; otherwise the score may exceed the best
/// recent one by at most the configured ratio.
pub open spec fn guard_pass(score: int, stack: Seq<u64>, cfg: AlgorithmConfig) -> bool {
    match recent_min(stack, cfg.heuristic_decline_length as int) {
        None => true,
        Some(g) => score * crate::helper::SCALE <= cfg.heuristic_decline_cut * g,
    }
}

/// The grid extent a run assumes, inferred from the start cell: both axes
/// take the start cell's y coordinate.
pub open spec fn run_size(start: Position) -> Position {
    Position { x: start.y, y: start.y }
}

/// The score a candidate cell earns, with the exploration results that
/// [`crate::search::explore_space_to_goal`] would report for it.
pub open spec fn cand_score_at(
    p2: Position,
    goal: Position,
    size: Position,
    visited: Seq<Entry>,
) -> int {
    score_fp_spec(
        p2,
        goal,
        size,
        crate::search::spec_way(p2, size, visited, goal),
        crate::search::reach_all(p2, size, visited).len() as int,
    )
}

/// A direction is a candidate when no wall blocks it and the move stays in
/// the range of unsigned coordinates.
pub open spec fn dir_candidate(pos: Position, walls: Walls, d: MoveDirection) -> bool {
    !crate::helper::has_wall_spec(walls, d) && crate::helper::move_in_range(pos, d)
}

/// A direction qualifies for a forward move when it is a candidate, the
/// goal is reachable from its target through unexplored space, its score
/// passes both the absolute cut and the decline guard, and its target was
/// never visited.
pub open spec fn dir_forward(
    pos: Position,
    walls: Walls,
    goal: Position,
    size: Position,
    visited: Seq<Entry>,
    stack: Seq<u64>,
    cfg: AlgorithmConfig,
    d: MoveDirection,
) -> bool {
    &&& dir_candidate(pos, walls, d)
    &&& crate::search::spec_way(crate::helper::move_spec(pos, d), size, visited, goal) is Some
    &&& cand_score_at(crate::helper::move_spec(pos, d), goal, size, visited)
        <= cfg.heuristic_cut
    &&& guard_pass(cand_score_at(crate::helper::move_spec(pos, d), goal, size, visited), stack, cfg)
    &&& !g_contains(visited, crate::helper::move_spec(pos, d))
}

/// The tie-breaking rank of a direction: the fixed enumeration order Up,
/// Right, Down, Left.
pub open spec fn dir_index(d: MoveDirection) -> int {
    match d {
        MoveDirection::Up => 0,
        MoveDirection::Right => 1,
        MoveDirection::Down => 2,
        MoveDirection::Left => 3,
    }
}

/// The state knows enough to decide: a current cell and a goal (the walls
/// and start cell then exist by well-formedness).
pub open spec fn m_ready(m: StateModel) -> bool {
    m.current_pos is Some && m.current_goal is Some
}

/// [`dir_forward`] over a state model.
pub open spec fn forward_ok(m: StateModel, cfg: AlgorithmConfig, d: MoveDirection) -> bool {
    dir_forward(
        m.current_pos.unwrap(),
        m.current_walls.unwrap(),
        m.current_goal.unwrap(),
        run_size(m.start_pos.unwrap()),
        m.visited,
        m.stack,
        cfg,
        d,
    )
}

/// Some forward move qualifies.
pub open spec fn exists_forward(m: StateModel, cfg: AlgorithmConfig) -> bool {
    exists|d: MoveDirection| forward_ok(m, cfg, d)
}

/// The score a qualifying direction earns, over a state model.
pub open spec fn cand_score_of(m: StateModel, d: MoveDirection) -> int {
    cand_score_at(
        crate::helper::move_spec(m.current_pos.unwrap(), d),
        m.current_goal.unwrap(),
        run_size(m.start_pos.unwrap()),
        m.visited,
    )
}

/// `d` is the qualifying direction with the smallest score, ties broken by
/// the enumeration order Up, Right, Down, Left.
pub open spec fn is_best(m: StateModel, cfg: AlgorithmConfig, d: MoveDirection) -> bool {
    &&& forward_ok(m, cfg, d)
    &&& forall|d2: MoveDirection|
        forward_ok(m, cfg, d2) ==> (cand_score_of(m, d) < cand_score_of(m, d2) || (cand_score_of(
            m,
            d,
        ) == cand_score_of(m, d2) && dir_index(d) <= dir_index(d2)))
}

/// The best (smallest) among the last `length` recorded scores, or `None`
/// when no scores were recorded or none are asked for.
pub fn recent_minimal_heuristic(stack: &Vec<u64>, length: u32) -> (g: Option<u64>)
    ensures
        (match g {
            None => recent_min(stack@, length as int) is None,
            Some(v) => recent_min(stack@, length as int) == Some(v as int),
        }),
{
    let k = length as usize;
    let startj = (if k >= stack.len() {
        0
    } else {
        stack.len() - k
    });
    proof {
        assert(startj as int == vstd::math::max(0, stack@.len() - k));
    }
    let mut j = stack.len();
    let mut guard: Option<u64> = None;
    while j > startj
        invariant
            startj <= j <= stack@.len(),
            (match guard {
                None => suffix_min(stack@, j as int) is None,
                Some(v) => suffix_min(stack@, j as int) == Some(v as int),
            }),
        decreases j,
    {
        j = j - 1;
        let v = stack[j];
        guard = (match guard {
            None => Some(v),
            Some(g0) => (if v < g0 {
                Some(v)
            } else {
                Some(g0)
            }),
        });
    }
    guard
}

/// Whether a candidate score passes the decline guard, exactly as
/// [`guard_pass`] states it: with no recent scores everything passes, and
/// otherwise the score, times the fixed-point scale, may not exceed the
/// configured ratio times the best recent score.
pub fn decline_guard_pass(stack: &Vec<u64>, config: &AlgorithmConfig, score: u64) -> (r: bool)
    ensures
        r == guard_pass(score as int, stack@, *config),
{
    match recent_minimal_heuristic(stack, config.heuristic_decline_length) {
        None => true,
        Some(g) => {
            proof {
                assert((score as u128) * (crate::helper::SCALE as u128) < u128::MAX && (
                config.heuristic_decline_cut as u128) * (g as u128) < u128::MAX)
                    by (nonlinear_arith)
                    requires
                        score <= u64::MAX,
                        g <= u64::MAX,
                        config.heuristic_decline_cut <= u64::MAX,
                        crate::helper::SCALE == 10000,
                ;
            }
            (score as u128) * (crate::helper::SCALE as u128) <= (
            config.heuristic_decline_cut as u128) * (g as u128)
        },
    }
}

/// Judges one direction: `Some(score)` exactly when the direction qualifies
/// for a forward move under the given state and configuration, with the
/// score it earns.
fn eval_dir(
    dir: MoveDirection,
    pos: &Position,
    walls: &Walls,
    goal: &Position,
    size: &Position,
    visited: &VisitedGraph,
    guard: Option<u64>,
    config: &AlgorithmConfig,
    Ghost(stack): Ghost<Seq<u64>>,
) -> (r: Option<u64>)
    requires
        (match guard {
            None => recent_min(stack, config.heuristic_decline_length as int) is None,
            Some(g) => recent_min(stack, config.heuristic_decline_length as int) == Some(g as int),
        }),
    ensures
        (match r {
            Some(sc) => dir_forward(*pos, *walls, *goal, *size, visited@, stack, *config, dir)
                && sc as int == cand_score_at(
                crate::helper::move_spec(*pos, dir),
                *goal,
                *size,
                visited@,
            ),
            None => !dir_forward(*pos, *walls, *goal, *size, visited@, stack, *config, dir),
        }),
{
    if crate::helper::has_wall(walls, &dir) {
        return None;
    }
    let in_range = (match dir {
        MoveDirection::Up => pos.y > 0,
        MoveDirection::Right => pos.x < u32::MAX,
        MoveDirection::Down => pos.y < u32::MAX,
        MoveDirection::Left => pos.x > 0,
    });
    if !in_range {
        return None;
    }
    let p2 = crate::helper::move_by_direction(pos, &dir);
    let (way, space) = crate::search::explore_space_to_goal(&p2, size, visited, goal);
    if way.is_none() {
        return None;
    }
    let sc = calculate_position_heuristic(&p2, goal, size, way, space);
    if sc > config.heuristic_cut {
        return None;
    }
    match guard {
        None => {},
        Some(g) => {
            proof {
                assert((sc as u128) * (crate::helper::SCALE as u128) < u128::MAX && (
                config.heuristic_decline_cut as u128) * (g as u128) < u128::MAX)
                    by (nonlinear_arith)
                    requires
                        sc <= u64::MAX,
                        g <= u64::MAX,
                        config.heuristic_decline_cut <= u64::MAX,
                        crate::helper::SCALE == 10000,
                ;
            }
            if (sc as u128) * (crate::helper::SCALE as u128) > (
            config.heuristic_decline_cut as u128) * (g as u128) {
                return None;
            }
        },
    }
    if visited.contains_key(&p2) {
        return None;
    }
    Some(sc)
}

/// Decides this tick's command from the current belief state.
///
/// With no current cell or no goal known, no command is emitted and nothing
/// changes. Otherwise every direction that qualifies under [`dir_forward`]
/// competes, and the best-scoring one (ties broken in the order Up, Right,
/// Down, Left) is emitted as a move, its score pushed onto the history.
/// When no direction qualifies, the engine backtracks: it pops the history
/// and moves toward the current cell's recorded parent; if the current cell
/// is the start cell, the run is exhausted and no command is emitted.
#[verifier::rlimit(100)]
pub fn decide_action(state: &mut State, config: &AlgorithmConfig) -> (r: Option<
    Command<'static>,
>)
    requires
        old(state).wf(),
    ensures
        final(state).wf(),
        (!m_ready(old(state).model()) ==> r is None && final(state).model() == old(state).model()),
        (m_ready(old(state).model()) && exists_forward(old(state).model(), *config)
            ==> exists|d: MoveDirection|
            {
                &&& is_best(old(state).model(), *config, d)
                &&& r == Some(Command::Move(d))
                &&& final(state).model() == (StateModel {
                    stack: old(state).model().stack.push(
                        cand_score_of(old(state).model(), d) as u64,
                    ),
                    ..old(state).model()
                })
            }),
        (m_ready(old(state).model()) && !exists_forward(old(state).model(), *config)
            ==> (match g_get(old(state).model().visited, old(state).model().current_pos.unwrap()) {
            Some(b) => r == Some(
                Command::Move(
                    crate::helper::direction_from_move_spec(
                        old(state).model().current_pos.unwrap(),
                        b,
                    ).unwrap(),
                ),
            ) && final(state).model() == (StateModel {
                stack: (if old(state).model().stack.len() > 0 {
                    old(state).model().stack.drop_last()
                } else {
                    old(state).model().stack
                }),
                ..old(state).model()
            }),
            None => r is None && final(state).model() == old(state).model(),
        })),
{
    let pos = (match &state.current_pos {
        Some(p) => *p,
        None => {
            return None;
        },
    });
    let goal = (match &state.current_goal {
        Some(g) => *g,
        None => {
            return None;
        },
    });
    let walls = (match &state.current_walls {
        Some(w) => *w,
        None => {
            proof {
                assert(false);
            }
            return None;
        },
    });
    let start = (match &state.start_pos {
        Some(s) => *s,
        None => {
            proof {
                assert(false);
            }
            return None;
        },
    });
    let size = Position { x: start.y, y: start.y };
    let ghost m = old(state).model();
    let guard = recent_minimal_heuristic(
        &state.heuristics_stack,
        config.heuristic_decline_length,
    );
    let s_up = eval_dir(
        MoveDirection::Up,
        &pos,
        &walls,
        &goal,
        &size,
        &state.visited_positions,
        guard,
        config,
        Ghost(m.stack),
    );
    let s_right = eval_dir(
        MoveDirection::Right,
        &pos,
        &walls,
        &goal,
        &size,
        &state.visited_positions,
        guard,
        config,
        Ghost(m.stack),
    );
    let s_down = eval_dir(
        MoveDirection::Down,
        &pos,
        &walls,
        &goal,
        &size,
        &state.visited_positions,
        guard,
        config,
        Ghost(m.stack),
    );
    let s_left = eval_dir(
        MoveDirection::Left,
        &pos,
        &walls,
        &goal,
        &size,
        &state.visited_positions,
        guard,
        config,
        Ghost(m.stack),
    );
    proof {
        assert(pos == m.current_pos.unwrap() && walls == m.current_walls.unwrap() && goal
            == m.current_goal.unwrap() && size == run_size(m.start_pos.unwrap()));
        assert(state.visited_positions@ == m.visited);
        assert forall|d: MoveDirection| #[trigger] forward_ok(m, *config, d) implies (match d {
            MoveDirection::Up => s_up is Some,
            MoveDirection::Right => s_right is Some,
            MoveDirection::Down => s_down is Some,
            MoveDirection::Left => s_left is Some,
        }) by {}
    }
    let mut best: Option<(MoveDirection, u64)> = None;
    if let Some(sc) = s_up {
        best = Some((MoveDirection::Up, sc));
    }
    if let Some(sc) = s_right {
        best = (match best {
            None => Some((MoveDirection::Right, sc)),
            Some((bd, bs)) => (if sc < bs {
                Some((MoveDirection::Right, sc))
            } else {
                Some((bd, bs))
            }),
        });
    }
    if let Some(sc) = s_down {
        best = (match best {
            None => Some((MoveDirection::Down, sc)),
            Some((bd, bs)) => (if sc < bs {
                Some((MoveDirection::Down, sc))
            } else {
                Some((bd, bs))
            }),
        });
    }
    if let Some(sc) = s_left {
        best = (match best {
            None => Some((MoveDirection::Left, sc)),
            Some((bd, bs)) => (if sc < bs {
                Some((MoveDirection::Left, sc))
            } else {
                Some((bd, bs))
            }),
        });
    }
    match best {
        Some((bd, bs)) => {
            proof {
                assert(forward_ok(m, *config, bd) && bs as int == cand_score_of(m, bd));
                assert forall|d2: MoveDirection| forward_ok(m, *config, d2) implies (cand_score_of(
                    m,
                    bd,
                ) < cand_score_of(m, d2) || (cand_score_of(m, bd) == cand_score_of(m, d2)
                    && dir_index(bd) <= dir_index(d2))) by {
                    match d2 {
                        MoveDirection::Up => {},
                        MoveDirection::Right => {},
                        MoveDirection::Down => {},
                        MoveDirection::Left => {},
                    }
                }
                assert(is_best(m, *config, bd));
            }
            state.heuristics_stack.push(bs);
            Some(Command::Move(bd))
        },
        None => {
            proof {
                assert forall|d: MoveDirection| !forward_ok(m, *config, d) by {
                    match d {
                        MoveDirection::Up => {},
                        MoveDirection::Right => {},
                        MoveDirection::Down => {},
                        MoveDirection::Left => {},
                    }
                }
                assert(!exists_forward(m, *config));
            }
            let back = state.visited_positions.get(&pos);
            match back {
                Some(parent) => {
                    proof {
                        assert(g_distinct(m.visited));
                    }
                    match parent {
                        Some(back_pos) => {
                            proof {
                                let i = crate::graph::g_index(m.visited, pos);
                                let jj = choose|jj: int|
                                    0 <= jj < m.visited.len() && m.visited[jj].0 == pos;
                                crate::graph::lemma_g_index_of(m.visited, jj);
                                assert(m.visited[i].1 == Some(back_pos));
                                crate::graph::lemma_parent_index_smaller(m.visited, i);
                                let pj = crate::graph::g_index(m.visited, back_pos);
                                if back_pos == pos {
                                    assert(pj == i);
                                }
                                assert(back_pos != pos);
                            }
                            state.heuristics_stack.pop();
                            let dd = crate::helper::direction_from_move(&pos, &back_pos);
                            match dd {
                                Some(d) => Some(Command::Move(d)),
                                None => {
                                    proof {
                                        assert(false);
                                    }
                                    None
                                },
                            }
                        },
                        None => None,
                    }
                },
                None => {
                    proof {
                        assert(false);
                    }
                    None
                },
            }
        },
    }
}

/// Tree invariant. After any sequence of position observations (which
/// preserve well-formedness, as [`State::update_from_answer`] ensures),
/// following parent pointers from any visited cell reaches the run's start
/// cell — the single parentless entry, recorded first — in finitely many
/// steps, bounded by the cell's discovery index.
pub proof fn lemma_tree_invariant(m: StateModel, i: int)
    requires
        state_wf(m),
        0 <= i < m.visited.len(),
    ensures
        crate::graph::steps_to_root(m.visited, i) <= i,
        crate::graph::ancestor(m.visited, i, crate::graph::steps_to_root(m.visited, i)) == 0,
        m.visited[0].1 is None,
        m.current_pos is Some ==> m.visited[0].0 == m.start_pos.unwrap(),
{
    crate::graph::lemma_parent_chain_reaches_root(m.visited, i);
}

/// Tree invariant, second half: a position observation never rewrites an
/// existing discovery record — every entry of the explored subgraph
/// survives unchanged, and at most one entry is appended.
pub proof fn lemma_no_parent_reassignment(m: StateModel, p: Position, w: Walls)
    ensures
        forall|i: int|
            0 <= i < m.visited.len() ==> apply_spec(m, Answer::Pos(p, w)).visited[i]
                == m.visited[i],
        m.visited.len() <= apply_spec(m, Answer::Pos(p, w)).visited.len() <= m.visited.len() + 1,
{
}

/// Reset idempotence: two consecutive goal announcements leave exactly the
/// state one announcement leaves — nothing but the recorded goal survives a
/// reset, so a second reset finds nothing more to clear.
pub proof fn lemma_reset_idempotent(m: StateModel, p1: Position, p2: Position)
    ensures
        apply_spec(apply_spec(m, Answer::Goal(p1)), Answer::Goal(p2)) == apply_spec(
            m,
            Answer::Goal(p2),
        ),
{
}

/// No-wall compliance: a direction the decision engine emits — the best
/// qualifying forward direction, or the direction back to the current
/// cell's recorded parent — never has its wall flag set, provided the
/// reported walls leave the way back to the parent open (which the protocol
/// guarantees: the player entered the current cell from that side).
pub proof fn lemma_no_wall_compliance(m: StateModel, cfg: AlgorithmConfig, d: MoveDirection)
    requires
        state_wf(m),
        m_ready(m),
        is_best(m, cfg, d) || (!exists_forward(m, cfg) && g_get(
            m.visited,
            m.current_pos.unwrap(),
        ) is Some && d == crate::helper::direction_from_move_spec(
            m.current_pos.unwrap(),
            g_get(m.visited, m.current_pos.unwrap()).unwrap(),
        ).unwrap()),
        (match g_get(m.visited, m.current_pos.unwrap()) {
            Some(b) => !crate::helper::has_wall_spec(
                m.current_walls.unwrap(),
                crate::helper::direction_from_move_spec(m.current_pos.unwrap(), b).unwrap(),
            ),
            None => true,
        }),
    ensures
        !crate::helper::has_wall_spec(m.current_walls.unwrap(), d),
{
}

/// Backtrack correctness: when no forward candidate qualifies and the
/// current cell has a recorded parent, the direction toward that parent is
/// well defined (the parent is a different, adjacent-or-offset cell), and
/// [`decide_action`] emits exactly `direction_from_move` of current cell
/// and parent, as its contract states.
pub proof fn lemma_backtrack_correctness(m: StateModel, cfg: AlgorithmConfig, b: Position)
    requires
        state_wf(m),
        m_ready(m),
        !exists_forward(m, cfg),
        g_get(m.visited, m.current_pos.unwrap()) == Some(b),
    ensures
        b != m.current_pos.unwrap(),
        crate::helper::direction_from_move_spec(m.current_pos.unwrap(), b) is Some,
{
    let pos = m.current_pos.unwrap();
    let jj = choose|jj: int| 0 <= jj < m.visited.len() && m.visited[jj].0 == pos;
    crate::graph::lemma_g_index_of(m.visited, jj);
    let i = crate::graph::g_index(m.visited, pos);
    assert(m.visited[i].1 == Some(b));
    crate::graph::lemma_parent_index_smaller(m.visited, i);
    let pj = crate::graph::g_index(m.visited, b);
    if b == pos {
        assert(pj == i);
    }
}

/// Well-formedness of a state model.
pub open spec fn state_wf(m: StateModel) -> bool {
    &&& graph_wf(m.visited)
    &&& (m.current_pos is None ==> m.visited.len() == 0 && m.last_pos is None && m.current_walls
        is None && m.start_pos is None)
    &&& (m.current_pos matches Some(p) ==> g_contains(m.visited, p) && m.current_walls is Some
        && m.start_pos is Some && m.visited.len() > 0 && m.visited[0].0 == m.start_pos.unwrap())
}

} // verus!
