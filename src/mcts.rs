use vstd::prelude::*;
use crate::ai::{best_move_from_vec, total_weight};
use crate::logic::{board_words, is_legal_move, is_legal_pair, words_hash, Board, BoardView, Color, Direction};
use crate::platform::Platform;

verus! {

/// The value of a won game; policy values and playout results lie in
/// `[-VALUE_SCALE, VALUE_SCALE]`, seen from the side to move.
pub const VALUE_SCALE: i64 = 1000;

/// The prior weight that stands for probability 1.
pub const PRIOR_ONE: u64 = 1000;

/// Searches stop adding iterations past this count, which keeps every sum in range.
pub const MAX_ITERATIONS: u64 = 0x1_0000_0000;

/// Random playouts that last longer than this are scored as draws.
pub const MAX_ROLLOUT_PLIES: usize = 1000;

/// Index of the output of a move estimator that stands for moving the pawn on `position`
/// (row, column of a 5x5 board) in `direction`: eight entries per cell, cells row by row.
pub fn position_direction_to_index(position: (u8, u8), direction: Direction) -> (r: usize)
    ensures
        r == (position.0 * 5 + position.1) * 8 + direction.ordinal(),
{
    let (row, col) = position;
    (row as usize * 5 + col as usize) * 8 + direction.index()
}

/// The search time for a difficulty: `difficulty³ × 50` ms, capped at the largest `u64`.
pub open spec fn budget_ms(difficulty: u64) -> u64 {
    let t = difficulty * difficulty * difficulty * 50;
    if t <= u64::MAX {
        t as u64
    } else {
        u64::MAX
    }
}

/// The search time for a difficulty, in milliseconds.
pub fn time_budget(difficulty: u64) -> (r: u64)
    ensures
        r == budget_ms(difficulty),
{
    if difficulty > 0x20_0000 {
        assert(difficulty * difficulty * difficulty * 50 > u64::MAX) by (nonlinear_arith)
            requires difficulty > 0x20_0000;
        return u64::MAX;
    }
    let d = difficulty as u128;
    assert(d * d <= 0x400_0000_0000) by (nonlinear_arith)
        requires d <= 0x20_0000;
    assert(d * d * d <= 0x8000_0000_0000_0000) by (nonlinear_arith)
        requires d <= 0x20_0000, d * d <= 0x400_0000_0000;
    let t = d * d * d * 50;
    if t > u64::MAX as u128 {
        u64::MAX
    } else {
        t as u64
    }
}

/// One of the prior-weighted moves `ms` is the move `m`, leading to the same board.
pub open spec fn lists_move(ms: Seq<(u64, usize, Direction, Board)>, m: (usize, Direction, BoardView)) -> bool {
    exists|j: int| 0 <= j < ms.len() && (#[trigger] ms[j]).1 == m.0 && ms[j].2 == m.1 && ms[j].3@ == m.2
}

/// A source of position values and move priors for the search.
pub trait Policy {
    /// Whether the policy is trivial.
    spec fn trivial(&self) -> bool;

    /// A trivial policy knows nothing: the search plays random games instead of trusting
    /// its values, and gives every move the same prior.
    fn is_trivial(&self) -> (r: bool)
        ensures
            r == self.trivial(),
    ;

    /// The value of `board` for the side to move and a prior weight for legal moves of
    /// `board`, each with the board it leads to.
    fn predict(&self, board: &Board) -> (r: (i64, Vec<(u64, usize, Direction, Board)>))
        ensures
            -VALUE_SCALE <= r.0 <= VALUE_SCALE,
            forall|j: int| 0 <= j < r.1@.len() ==> is_legal_move(board@, (#[trigger] r.1@[j]).1, r.1@[j].2, r.1@[j].3@),
            board@.all_legal().len() > 0 ==> r.1@.len() > 0,
            r.1@.len() == board@.all_legal().len(),
            forall|k: int| 0 <= k < board@.all_legal().len() ==> lists_move(r.1@, #[trigger] board@.all_legal()[k]),
    ;
}

/// The policy without knowledge: value 0 and prior 0 for every legal move.
#[derive(Clone, Copy, Debug)]
pub struct TrivialPolicy;

impl TrivialPolicy {
    pub fn new() -> (r: TrivialPolicy) {
        TrivialPolicy
    }
}

impl Policy for TrivialPolicy {
    open spec fn trivial(&self) -> bool {
        true
    }

    fn is_trivial(&self) -> (r: bool) {
        true
    }

    fn predict(&self, board: &Board) -> (r: (i64, Vec<(u64, usize, Direction, Board)>)) {
        let moves = board.get_all_valid_directions_and_resulting_boards();
        let mut out: Vec<(u64, usize, Direction, Board)> = Vec::new();
        let n = moves.len();
        let mut j: usize = 0;
        while j < n
            invariant
                n == moves@.len(),
                j <= n,
                crate::logic::moves_match(moves@, board@.all_legal()),
                out@.len() == j,
                forall|t: int| 0 <= t < j ==> (#[trigger] out@[t]).1 == moves@[t].0 && out@[t].2 == moves@[t].1
                    && out@[t].3@ == moves@[t].2@,
            decreases n - j,
        {
            out.push((0, moves[j].0, moves[j].1, moves[j].2.snapshot()));
            j = j + 1;
        }
        proof {
            assert forall|t: int| 0 <= t < out@.len() implies is_legal_move(board@, (#[trigger] out@[t]).1, out@[t].2, out@[t].3@) by {
                assert(board@.all_legal()[t] == (out@[t].1, out@[t].2, out@[t].3@));
            }
        }
        let r = (0i64, out);
        proof {
            assert forall|k: int| 0 <= k < board@.all_legal().len() implies lists_move(r.1@, #[trigger] board@.all_legal()[k]) by {
                assert(board@.all_legal()[k] == (r.1@[k].1, r.1@[k].2, r.1@[k].3@));
            }
        }
        r
    }
}

/// Statistics and links of one node of the search tree.
#[derive(Clone, Copy, Debug)]
pub struct MCTSNode {
    /// The side to move at this node.
    pub color: Color,
    pub visits: u64,
    /// Sum of the results backed up through this node, seen from `color`.
    pub score: i64,
    /// The policy's value of the node's board.
    pub board_eval: i64,
    /// The board is won.
    pub terminal: bool,
    pub parent: Option<usize>,
    /// The action of the parent that led here.
    pub parent_slot: usize,
    /// The node's actions are `first_action .. first_action + action_count`; the first
    /// `untried_count` of them have not been expanded yet.
    pub first_action: usize,
    pub action_count: usize,
    pub untried_count: usize,
}

impl MCTSNode {
    /// A node not visited yet, none of whose `action_count` actions (from `first_action` on)
    /// is expanded.
    pub fn new(color: Color, board_eval: i64, terminal: bool, parent: Option<usize>, parent_slot: usize, first_action: usize, action_count: usize) -> (r: MCTSNode)
        ensures
            r == (MCTSNode {
                color,
                visits: 0,
                score: 0,
                board_eval,
                terminal,
                parent,
                parent_slot,
                first_action,
                action_count,
                untried_count: action_count,
            }),
    {
        MCTSNode {
            color,
            visits: 0,
            score: 0,
            board_eval,
            terminal,
            parent,
            parent_slot,
            first_action,
            action_count,
            untried_count: action_count,
        }
    }

    /// The node's board is won.
    pub fn is_terminal(&self) -> (r: bool)
        ensures
            r == self.terminal,
    {
        self.terminal
    }

    /// Every action of the node has been expanded.
    pub fn is_fully_expanded(&self) -> (r: bool)
        ensures
            r == (self.untried_count == 0),
    {
        self.untried_count == 0
    }
}

/// A move out of a node, with its prior and, once expanded, the node it leads to.
#[derive(Clone, Copy, Debug)]
pub struct ActionSlot {
    pub source: usize,
    pub child: usize,
    pub prior: u64,
    pub pawn_index: usize,
    pub direction: Direction,
}

/// `parent` names node `j`.
pub open spec fn parent_is(parent: Option<usize>, j: int) -> bool {
    match parent {
        Some(p) => p as int == j,
        None => false,
    }
}

/// Visits of the child reached through action `x`.
pub open spec fn slot_term(nodes: Seq<MCTSNode>, actions: Seq<ActionSlot>, x: int) -> int {
    nodes[actions[x].child as int].visits as int
}

/// Sum of the visits of the children reached through actions `lo .. hi`.
pub open spec fn slot_visits(nodes: Seq<MCTSNode>, actions: Seq<ActionSlot>, lo: int, hi: int) -> int
    decreases hi - lo,
{
    if hi <= lo {
        0
    } else {
        slot_visits(nodes, actions, lo, hi - 1) + slot_term(nodes, actions, hi - 1)
    }
}

/// What the selection rule sees of a child.
#[derive(Clone, Copy, Debug)]
pub struct ChildStats {
    pub visits: u64,
    pub score: i64,
    pub prior: u64,
}

/// Monte Carlo tree search guided by a policy. Nodes live in an arena; each keeps the
/// index of its parent for backing results up.
pub struct MCTSGeneric<P: Policy> {
    pub color: Color,
    pub time_allowed_ms: u64,
    pub policy: P,
    pub iterations: u64,
    pub boards: Vec<Board>,
    pub nodes: Vec<MCTSNode>,
    pub actions: Vec<ActionSlot>,
    pub action_boards: Vec<Board>,
    /// How many rounds of search ended at each node.
    pub leaf_visits: Ghost<Seq<nat>>,
}

impl<P: Policy> MCTSGeneric<P> {
    pub open spec fn expanded(&self, i: int, a: int) -> bool {
        let s = self.nodes@[i];
        s.first_action + s.untried_count <= a < s.first_action + s.action_count
    }

    pub open spec fn in_range(&self, i: int, a: int) -> bool {
        let s = self.nodes@[i];
        s.first_action <= a < s.first_action + s.action_count
    }

    pub open spec fn node_ok(&self, i: int) -> bool {
        let s = self.nodes@[i];
        let n = self.nodes@.len();
        &&& s.first_action + s.action_count <= self.actions@.len()
        &&& s.untried_count <= s.action_count
        &&& (match s.parent {
            Some(p) => p < i && self.actions@[s.parent_slot as int].source == p
                && self.expanded(p as int, s.parent_slot as int)
                && self.actions@[s.parent_slot as int].child == i,
            None => true,
        })
        &&& s.visits <= self.iterations
        &&& -(s.visits * VALUE_SCALE) <= s.score <= s.visits * VALUE_SCALE
        &&& -VALUE_SCALE <= s.board_eval <= VALUE_SCALE
        &&& s.terminal == self.boards@[i]@.winner().is_some()
        &&& forall|a: int| #![trigger self.actions@[a]] self.in_range(i, a) ==> self.actions@[a].source == i
                && is_legal_move(self.boards@[i]@, self.actions@[a].pawn_index, self.actions@[a].direction, self.action_boards@[a]@)
        &&& forall|a: int| #![trigger self.actions@[a]] self.expanded(i, a) ==> i < self.actions@[a].child < n
                && self.nodes@[self.actions@[a].child as int].parent == Some(i as usize)
                && self.nodes@[self.actions@[a].child as int].parent_slot == a
    }

    /// Sum of the visits of the children of node `i`.
    pub open spec fn children_visits(&self, i: int) -> int {
        let s = self.nodes@[i];
        slot_visits(self.nodes@, self.actions@, s.first_action + s.untried_count, s.first_action + s.action_count)
    }

    /// Every visit of a node is a round that ended there or a visit of one of its children;
    /// every round visits the root, which is evaluated itself only when the game is over
    /// there or it has no move.
    /// Every node's visits balance its own rounds and its children's visits, except that
    /// node `d` is one visit short.
    pub open spec fn balanced_except(&self, d: int) -> bool {
        forall|j: int| #![trigger self.nodes@[j]] 0 <= j < self.nodes@.len() ==> self.nodes@[j].visits + (if j == d { 1int } else { 0int })
            == self.leaf_visits@[j] + self.children_visits(j)
    }

    #[verifier::opaque]
    pub open spec fn conserved(&self) -> bool {
        let n = self.nodes@.len();
        &&& self.leaf_visits@.len() == n
        &&& forall|i: int| #![trigger self.nodes@[i]] 0 <= i < n ==> self.nodes@[i].visits == self.leaf_visits@[i] + self.children_visits(i)
        &&& n > 0 ==> self.nodes@[0].parent.is_none() && self.nodes@[0].visits == self.iterations
        &&& forall|i: int| 0 < i < n ==> (#[trigger] self.nodes@[i]).parent.is_some()
        &&& n > 0 && self.leaf_visits@[0] > 0 ==> self.nodes@[0].terminal || self.nodes@[0].action_count == 0
    }

    pub open spec fn wf(&self) -> bool {
        &&& self.boards@.len() == self.nodes@.len()
        &&& self.actions@.len() == self.action_boards@.len()
        &&& self.iterations <= MAX_ITERATIONS
        &&& forall|i: int| 0 <= i < self.nodes@.len() ==> #[trigger] self.node_ok(i)
    }
}


impl<P: Policy> MCTSGeneric<P> {
    /// Append to the action arena one slot for each move, leaving node `source`.
    fn push_actions(&mut self, source: usize, moves: &Vec<(u64, usize, Direction, Board)>)
        requires
            old(self).actions@.len() == old(self).action_boards@.len(),
        ensures
            final(self).actions@.len() == old(self).actions@.len() + moves@.len(),
            final(self).action_boards@.len() == final(self).actions@.len(),
            forall|a: int| 0 <= a < old(self).actions@.len() ==> final(self).actions@[a] == old(self).actions@[a],
            forall|a: int| 0 <= a < old(self).actions@.len() ==> final(self).action_boards@[a] == old(self).action_boards@[a],
            forall|j: int| 0 <= j < moves@.len() ==> {
                let a = #[trigger] final(self).actions@[old(self).actions@.len() + j];
                &&& a.source == source
                &&& a.prior == moves@[j].0
                &&& a.pawn_index == moves@[j].1
                &&& a.direction == moves@[j].2
                &&& final(self).action_boards@[old(self).actions@.len() + j]@ == moves@[j].3@
            },
            final(self).color == old(self).color,
            final(self).time_allowed_ms == old(self).time_allowed_ms,
            final(self).policy == old(self).policy,
            final(self).iterations == old(self).iterations,
            final(self).nodes == old(self).nodes,
            final(self).boards == old(self).boards,
            final(self).leaf_visits == old(self).leaf_visits,
    {
        let ghost start = self.actions@.len();
        let m = moves.len();
        let mut j: usize = 0;
        while j < m
            invariant
                m == moves@.len(),
                j <= m,
                self.actions@.len() == start + j,
                self.action_boards@.len() == start + j,
                forall|a: int| 0 <= a < start ==> self.actions@[a] == old(self).actions@[a],
                forall|a: int| 0 <= a < start ==> self.action_boards@[a] == old(self).action_boards@[a],
                forall|t: int| 0 <= t < j ==> {
                    let a = #[trigger] self.actions@[start + t];
                    &&& a.source == source
                    &&& a.prior == moves@[t].0
                    &&& a.pawn_index == moves@[t].1
                    &&& a.direction == moves@[t].2
                    &&& self.action_boards@[start + t]@ == moves@[t].3@
                },
                self.color == old(self).color,
                self.time_allowed_ms == old(self).time_allowed_ms,
                self.policy == old(self).policy,
                self.iterations == old(self).iterations,
                self.nodes == old(self).nodes,
                self.boards == old(self).boards,
                self.leaf_visits == old(self).leaf_visits,
                start == old(self).actions@.len(),
            decreases m - j,
        {
            self.actions.push(ActionSlot { source, child: 0, prior: moves[j].0, pawn_index: moves[j].1, direction: moves[j].2 });
            self.action_boards.push(moves[j].3.snapshot());
            j = j + 1;
        }
    }

    /// Start a fresh tree whose root is `board`; returns the root's index.
    fn reset(&mut self, board: &Board) -> (root: usize)
        ensures
            final(self).wf(),
            final(self).conserved(),
            root == 0,
            final(self).nodes@.len() == 1,
            final(self).boards@[0]@ == board@,
            final(self).nodes@[0].parent.is_none(),
            final(self).nodes@[0].untried_count == final(self).nodes@[0].action_count,
            board@.all_legal().len() > 0 ==> final(self).nodes@[0].action_count > 0,
            final(self).iterations == 0,
            final(self).color == old(self).color,
            final(self).time_allowed_ms == old(self).time_allowed_ms,
            final(self).policy == old(self).policy,
    {
        self.iterations = 0;
        proof {
            self.leaf_visits = Ghost(seq![0nat]);
        }
        self.boards = Vec::new();
        self.nodes = Vec::new();
        self.actions = Vec::new();
        self.action_boards = Vec::new();
        let root_board = board.snapshot();
        let (value, moves) = self.policy.predict(&root_board);
        self.push_actions(0, &moves);
        let terminal = root_board.winner().is_some();
        let color = match root_board.next_player {
            Some(c) => c,
            None => self.color.other_color(),
        };
        self.boards.push(root_board);
        let m = moves.len();
        self.nodes.push(MCTSNode::new(color, value, terminal, None, 0, 0, m));
        proof {
            assert forall|a: int| #![trigger self.actions@[a]] self.in_range(0, a) implies self.actions@[a].source == 0
                && is_legal_move(self.boards@[0]@, self.actions@[a].pawn_index, self.actions@[a].direction, self.action_boards@[a]@) by {
                assert(self.actions@[0 + a] == self.actions@[a]);
                assert(is_legal_move(board@, moves@[a].1, moves@[a].2, moves@[a].3@));
            }
            assert(self.node_ok(0));
            assert(self.children_visits(0) == 0);
            assert(self.leaf_visits@[0] == 0);
            assert(self.nodes@[0].visits == self.leaf_visits@[0] + self.children_visits(0));
            assert(self.leaf_visits@.len() == self.nodes@.len());
            reveal(MCTSGeneric::conserved);
        }
        0
    }

    /// Expand the next untried action of node `i` into a new child; returns the child.
    pub fn expand(&mut self, i: usize) -> (c: usize)
        requires
            old(self).wf(),
            old(self).conserved(),
            i < old(self).nodes@.len(),
            old(self).nodes@[i as int].untried_count > 0,
        ensures
            final(self).wf(),
            final(self).conserved(),
            final(self).leaf_visits@ == old(self).leaf_visits@.push(0),
            c == old(self).nodes@.len(),
            final(self).nodes@.len() == old(self).nodes@.len() + 1,
            final(self).actions@.len() >= old(self).actions@.len(),
            final(self).iterations == old(self).iterations,
            final(self).color == old(self).color,
            final(self).time_allowed_ms == old(self).time_allowed_ms,
            final(self).policy == old(self).policy,
            forall|j: int| 0 <= j < old(self).nodes@.len() && j != i ==> final(self).nodes@[j] == old(self).nodes@[j],
            final(self).nodes@[i as int] == (MCTSNode { untried_count: (old(self).nodes@[i as int].untried_count - 1) as usize, ..old(self).nodes@[i as int] }),
            forall|j: int| 0 <= j < old(self).nodes@.len() ==> final(self).boards@[j] == old(self).boards@[j],
            forall|a: int| 0 <= a < old(self).actions@.len() ==> (#[trigger] final(self).actions@[a]).pawn_index == old(self).actions@[a].pawn_index
                && final(self).actions@[a].direction == old(self).actions@[a].direction
                && final(self).actions@[a].source == old(self).actions@[a].source
                && (old(self).actions@[a].child != final(self).actions@[a].child ==> a == old(self).nodes@[i as int].first_action + old(self).nodes@[i as int].untried_count - 1),
            ({
                let slot = old(self).nodes@[i as int].first_action + old(self).nodes@[i as int].untried_count - 1;
                let n = final(self).nodes@[c as int];
                &&& final(self).actions@[slot].child == c
                &&& final(self).boards@[c as int]@ == old(self).action_boards@[slot]@
                &&& n.color == old(self).nodes@[i as int].color.other()
                &&& n.visits == 0
                &&& n.score == 0
                &&& n.terminal == final(self).boards@[c as int]@.winner().is_some()
                &&& n.parent == Some(i)
                &&& n.parent_slot == slot
                &&& n.first_action == old(self).actions@.len()
                &&& n.untried_count == n.action_count
                &&& final(self).actions@.len() == old(self).actions@.len() + n.action_count
                &&& -VALUE_SCALE <= n.board_eval <= VALUE_SCALE
                &&& (final(self).boards@[c as int]@.all_legal().len() > 0 ==> n.action_count > 0)
            }),
    {
        let ghost old_self = *self;
        let s = self.nodes[i];
        proof {
            assert(self.node_ok(i as int));
            self.leaf_visits = Ghost(old_self.leaf_visits@.push(0));
        }
        let action_total = self.actions.len();
        assert(s.first_action + s.untried_count <= action_total);
        let slot = s.first_action + s.untried_count - 1;
        let child_board = self.action_boards[slot].snapshot();
        let (value, moves) = self.policy.predict(&child_board);
        let terminal = child_board.winner().is_some();
        let c = self.nodes.len();
        let first = self.actions.len();
        self.push_actions(c, &moves);
        self.boards.push(child_board);
        let m = moves.len();
        self.nodes.push(MCTSNode::new(s.color.other_color(), value, terminal, Some(i), slot, first, m));
        self.nodes.set(i, MCTSNode { untried_count: s.untried_count - 1, ..s });
        let a = self.actions[slot];
        self.actions.set(slot, ActionSlot { child: c, ..a });
        proof {
            assert forall|j: int| 0 <= j < self.nodes@.len() implies #[trigger] self.node_ok(j) by {
                if j == c {
                    assert forall|b: int| #![trigger self.actions@[b]] self.in_range(j, b) implies self.actions@[b].source == j
                        && is_legal_move(self.boards@[j]@, self.actions@[b].pawn_index, self.actions@[b].direction, self.action_boards@[b]@) by {
                        let t = b - first;
                        assert(self.actions@[first + t] == self.actions@[b]);
                        assert(is_legal_move(child_board@, moves@[t].1, moves@[t].2, moves@[t].3@));
                    }
                } else {
                    assert(old_self.node_ok(j));
                    let sj = old_self.nodes@[j];
                    assert forall|b: int| #![trigger self.actions@[b]] self.in_range(j, b) implies self.actions@[b].source == j
                        && is_legal_move(self.boards@[j]@, self.actions@[b].pawn_index, self.actions@[b].direction, self.action_boards@[b]@) by {
                        assert(old_self.in_range(j, b));
                        assert(old_self.actions@[b].source == j);
                    }
                    assert forall|b: int| #![trigger self.actions@[b]] self.expanded(j, b) implies j < self.actions@[b].child < self.nodes@.len()
                        && self.nodes@[self.actions@[b].child as int].parent == Some(j as usize)
                        && self.nodes@[self.actions@[b].child as int].parent_slot == b by {
                        if b == slot {
                            assert(old_self.actions@[b].source == i);
                            assert(old_self.in_range(i as int, b));
                            assert(old_self.in_range(j, b));
                            assert(j == i);
                        } else {
                            assert(old_self.expanded(j, b));
                            let ch = old_self.actions@[b].child as int;
                            assert(self.nodes@[ch].parent == old_self.nodes@[ch].parent);
                        }
                    }
                    match sj.parent {
                        Some(p) => {
                            let ps = sj.parent_slot as int;
                            assert(old_self.node_ok(p as int));
                            assert(old_self.in_range(p as int, ps));
                            if ps == slot {
                                assert(old_self.actions@[ps].source == i);
                                assert(p == i);
                                assert(false);
                            }
                            assert(self.actions@[ps] == old_self.actions@[ps]);
                        },
                        None => {},
                    }
                }
            }
        }
        proof {
            assert(self.nodes@[c as int].untried_count == self.nodes@[c as int].action_count);
            assert(self.actions@[slot as int].child == c);
            assert(old_self.actions@[slot as int].source == i);
            lemma_expand_conserved(&old_self, self, i as int, c as int, slot as int);
        }
        c
    }
}


/// Monte Carlo tree search with random playouts: the search driven by the trivial policy.
pub struct MCTS {
    pub mcts: MCTSGeneric<TrivialPolicy>,
}

impl MCTS {
    /// A random-playout engine for `color` that spends `difficulty³ × 50` ms per move.
    pub fn new(color: Color, difficulty: u64) -> (r: MCTS)
        ensures
            r.mcts.wf(),
            r.mcts.color == color,
            r.mcts.time_allowed_ms == budget_ms(difficulty),
    {
        MCTS { mcts: MCTSGeneric::new(color, difficulty, TrivialPolicy::new()) }
    }

    pub fn color(&self) -> (r: &Color)
        ensures
            *r == self.mcts.color,
    {
        self.mcts.color()
    }

    /// The engine's move on `board`, as [`MCTSGeneric::ai_play`] gives it.
    pub fn ai_play<O: Platform, F: Fn(u64, Vec<ChildStats>) -> usize>(&mut self, board: &Board, select: &F) -> (r: Option<(usize, Direction)>)
        requires
            forall|v: u64, cs: Vec<ChildStats>| select.requires((v, cs)),
        ensures
            final(self).mcts.color == old(self).mcts.color,
            board@.next != Some(old(self).mcts.color) ==> r.is_none(),
            board@.next == Some(old(self).mcts.color) && board@.winner().is_none() && board@.all_legal().len() > 0
                ==> r.is_some(),
            r.is_some() ==> is_legal_pair(board@, r.unwrap().0, r.unwrap().1),
    {
        self.mcts.ai_play::<O, F>(board, select)
    }
}

/// The nodes after node `cur` gets one more visit and `v` added to its score, and each node
/// above it, up to the root, the same with `v` negated at each step up.
pub open spec fn backed_up(nodes: Seq<MCTSNode>, cur: int, v: int) -> Seq<MCTSNode>
    decreases cur,
{
    if 0 <= cur < nodes.len() {
        let s = nodes[cur];
        let updated = nodes.update(cur, MCTSNode { visits: (s.visits + 1) as u64, score: (s.score + v) as i64, ..s });
        match s.parent {
            Some(p) => if (p as int) < cur {
                backed_up(updated, p as int, -v)
            } else {
                updated
            },
            None => updated,
        }
    } else {
        nodes
    }
}

/// The fields of a node that backing up leaves alone.
pub open spec fn shape(s: MCTSNode) -> (Color, i64, bool, Option<usize>, usize, usize, usize, usize) {
    (s.color, s.board_eval, s.terminal, s.parent, s.parent_slot, s.first_action, s.action_count, s.untried_count)
}

/// A finished playout's result for `color`: `VALUE_SCALE` for a win, `-VALUE_SCALE` for a
/// loss, 0 when no one has won.
pub open spec fn outcome(v: BoardView, color: Color) -> int {
    match v.winner() {
        Some(w) => if w == color {
            VALUE_SCALE as int
        } else {
            -VALUE_SCALE
        },
        None => 0,
    }
}

/// The result for `color` of playing on from `v`, `k` moves into the playout: while the game
/// is on, there is a move, fewer than `MAX_ROLLOUT_PLIES` moves were played and `draws`
/// holds a `k`-th entry, play move `draws[k]` (modulo the number of legal moves) of the
/// legal moves in generation order.
pub open spec fn playout_from(v: BoardView, color: Color, draws: Seq<usize>, k: nat) -> int
    decreases MAX_ROLLOUT_PLIES - k,
{
    if v.next.is_some() && v.winner().is_none() && k < MAX_ROLLOUT_PLIES && k < draws.len() {
        let moves = v.all_legal();
        if moves.len() == 0 {
            0
        } else {
            playout_from(moves[(draws[k as int] as int) % (moves.len() as int)].2, color, draws, k + 1)
        }
    } else {
        outcome(v, color)
    }
}

/// The result for `color` of the playout from `v` that the draws pick.
pub open spec fn playout_value(v: BoardView, color: Color, draws: Seq<usize>) -> int {
    playout_from(v, color, draws, 0)
}

/// Play from `board` the moves that `draws` picks (see `playout_from`) and score the end
/// for `color`.
pub fn playout_with(board: &Board, color: Color, draws: &Vec<usize>) -> (r: i64)
    ensures
        r == playout_value(board@, color, draws@),
{
    let mut current_board = board.snapshot();
    let mut plies: usize = 0;
    while current_board.next_player.is_some() && current_board.winner().is_none() && plies < MAX_ROLLOUT_PLIES
        && plies < draws.len()
        invariant
            plies <= MAX_ROLLOUT_PLIES,
            playout_value(board@, color, draws@) == playout_from(current_board@, color, draws@, plies as nat),
        decreases MAX_ROLLOUT_PLIES - plies,
    {
        let all_possible_moves = current_board.get_all_valid_directions_and_resulting_boards();
        if all_possible_moves.len() == 0 {
            return 0;
        }
        let pick = draws[plies] % all_possible_moves.len();
        current_board = all_possible_moves[pick].2.snapshot();
        plies = plies + 1;
    }
    match current_board.winner() {
        Some(w) => if w == color {
            VALUE_SCALE
        } else {
            -VALUE_SCALE
        },
        None => 0,
    }
}

/// A random playout from `board` (at most `MAX_ROLLOUT_PLIES` moves), scored for `color`:
/// it is the playout of some sequence of draws.
pub fn random_playout<O: Platform>(board: &Board, color: Color) -> (r: i64)
    ensures
        exists|d: Seq<usize>| r == playout_value(board@, color, d),
        r == VALUE_SCALE || r == 0 || r == -VALUE_SCALE,
        board@.winner() == Some(color) ==> r == VALUE_SCALE,
        board@.winner() == Some(color.other()) ==> r == -VALUE_SCALE,
{
    let mut current_board = board.snapshot();
    let mut plies: usize = 0;
    let ghost mut picks: Seq<usize> = seq![];
    while current_board.next_player.is_some() && current_board.winner().is_none() && plies < MAX_ROLLOUT_PLIES
        invariant
            plies <= MAX_ROLLOUT_PLIES,
            plies == 0 ==> current_board@ == board@,
            board@.winner().is_some() ==> plies == 0,
            picks.len() == plies,
            forall|d: Seq<usize>| d.len() >= plies && d.take(plies as int) == picks
                ==> #[trigger] playout_value(board@, color, d) == playout_from(current_board@, color, d, plies as nat),
        decreases MAX_ROLLOUT_PLIES - plies,
    {
        let all_possible_moves = current_board.get_all_valid_directions_and_resulting_boards();
        if all_possible_moves.len() == 0 {
            proof {
                assert(picks.take(plies as int) =~= picks);
                assert(playout_value(board@, color, picks) == playout_from(current_board@, color, picks, plies as nat));
            }
            return 0;
        }
        let random_move_index = O::random_below(all_possible_moves.len());
        let ghost before = current_board@;
        let ghost old_picks = picks;
        current_board = all_possible_moves[random_move_index].2.snapshot();
        proof {
            picks = picks.push(random_move_index);
            assert forall|d: Seq<usize>| d.len() >= plies + 1 && d.take(plies + 1) == picks
                implies #[trigger] playout_value(board@, color, d) == playout_from(current_board@, color, d, (plies + 1) as nat) by {
                assert(d.take(plies as int) =~= old_picks) by {
                    assert forall|t: int| 0 <= t < plies implies d.take(plies as int)[t] == old_picks[t] by {
                        assert(d.take(plies + 1)[t] == picks[t]);
                    }
                }
                assert(d[plies as int] == d.take(plies + 1)[plies as int]);
                assert(d[plies as int] == random_move_index);
                let ri = random_move_index as int;
                let ml = all_possible_moves@.len() as int;
                assert(ri % ml == ri) by (nonlinear_arith)
                    requires 0 <= ri < ml;
            }
        }
        plies = plies + 1;
    }
    proof {
        assert(picks.take(plies as int) =~= picks);
        assert(playout_value(board@, color, picks) == playout_from(current_board@, color, picks, plies as nat));
    }
    match current_board.winner() {
        Some(w) => if w == color {
            VALUE_SCALE
        } else {
            -VALUE_SCALE
        },
        None => 0,
    }
}

impl<P: Policy> MCTSGeneric<P> {
    pub open spec fn same_shape(&self, other: &Self) -> bool {
        &&& self.nodes@.len() == other.nodes@.len()
        &&& forall|j: int| 0 <= j < self.nodes@.len() ==> shape(#[trigger] self.nodes@[j]) == shape(other.nodes@[j])
        &&& self.boards == other.boards
        &&& self.actions == other.actions
        &&& self.action_boards == other.action_boards
        &&& self.color == other.color
        &&& self.time_allowed_ms == other.time_allowed_ms
        &&& self.policy == other.policy
    }

    /// Add `result` (seen from the side to move at `leaf`) to `leaf` and, negated at each
    /// step up, to every node above it; each gets one more visit.
    pub fn backpropagate(&mut self, leaf: usize, result: i64)
        requires
            old(self).wf(),
            leaf < old(self).nodes@.len(),
            -VALUE_SCALE <= result <= VALUE_SCALE,
            old(self).iterations < MAX_ITERATIONS,
            old(self).conserved(),
            leaf == 0 ==> old(self).nodes@[0].terminal || old(self).nodes@[0].action_count == 0,
        ensures
            final(self).wf(),
            final(self).conserved(),
            final(self).iterations == old(self).iterations + 1,
            final(self).same_shape(old(self)),
            final(self).nodes@ == backed_up(old(self).nodes@, leaf as int, result as int),
    {
        self.iterations = self.iterations + 1;
        proof {
            reveal(MCTSGeneric::conserved);
            self.leaf_visits = Ghost(old(self).leaf_visits@.update(leaf as int, old(self).leaf_visits@[leaf as int] + 1));
            assert(self.balanced_except(leaf as int));
        }
        let ghost own = self.leaf_visits@;
        let ghost start = *self;
        proof {
            assert forall|j: int| 0 <= j < self.nodes@.len() implies #[trigger] self.node_ok(j) by {
                assert(old(self).node_ok(j));
            }
        }
        let mut cur = leaf;
        let mut to_add = result;
        proof {
            assert forall|j: int| 0 <= j <= cur implies #[trigger] self.nodes@[j].visits < self.iterations by {
                assert(old(self).node_ok(j));
            }
        }
        loop
            invariant_except_break
                forall|j: int| 0 <= j <= cur ==> #[trigger] self.nodes@[j].visits < self.iterations,
                self.balanced_except(cur as int),
                self.nodes@[0].visits + 1 == self.iterations,
                backed_up(self.nodes@, cur as int, to_add as int) == backed_up(old(self).nodes@, leaf as int, result as int),
            invariant
                self.wf(),
                self.iterations == old(self).iterations + 1,
                self.same_shape(&start),
                start.same_shape(old(self)),
                cur < self.nodes@.len(),
                -VALUE_SCALE <= to_add <= VALUE_SCALE,
                self.leaf_visits@ == own,
                own.len() == self.nodes@.len(),
                self.nodes@[0].parent.is_none(),
                forall|i: int| 0 < i < self.nodes@.len() ==> (#[trigger] self.nodes@[i]).parent.is_some(),
            ensures
                self.wf(),
                self.iterations == old(self).iterations + 1,
                self.same_shape(&start),
                self.balanced_except(-1),
                self.nodes@[0].visits == self.iterations,
                self.nodes@ == backed_up(old(self).nodes@, leaf as int, result as int),
            decreases cur,
        {
            let ghost before = *self;
            let st = self.nodes[cur];
            proof {
                assert(self.node_ok(cur as int));
            }
            self.nodes.set(cur, MCTSNode { visits: st.visits + 1, score: st.score + to_add, ..st });
            proof {
                assert forall|j: int| 0 <= j < self.nodes@.len() implies #[trigger] self.node_ok(j) by {
                    assert(before.node_ok(j));
                    let sj = before.nodes@[j];
                    assert forall|b: int| #![trigger self.actions@[b]] self.expanded(j, b) implies j < self.actions@[b].child < self.nodes@.len()
                        && self.nodes@[self.actions@[b].child as int].parent == Some(j as usize)
                        && self.nodes@[self.actions@[b].child as int].parent_slot == b by {
                        assert(before.expanded(j, b));
                        let ch = before.actions@[b].child as int;
                        assert(shape(self.nodes@[ch]) == shape(before.nodes@[ch]));
                    }
                    match sj.parent {
                        Some(p) => {
                            assert(shape(self.nodes@[p as int]) == shape(before.nodes@[p as int]));
                            assert(self.expanded(p as int, sj.parent_slot as int));
                        },
                        None => {},
                    }
                    assert forall|b: int| #![trigger self.actions@[b]] self.in_range(j, b) implies self.actions@[b].source == j
                        && is_legal_move(self.boards@[j]@, self.actions@[b].pawn_index, self.actions@[b].direction, self.action_boards@[b]@) by {
                        assert(before.in_range(j, b));
                    }
                }
                assert forall|j: int| 0 <= j < self.nodes@.len() implies shape(#[trigger] self.nodes@[j]) == shape(start.nodes@[j]) by {
                    assert(shape(before.nodes@[j]) == shape(start.nodes@[j]));
                }
            }
            proof {
                let d: int = match st.parent {
                    Some(p) => p as int,
                    None => -1,
                };
                lemma_backup_step(&before, self, cur as int, d);
                assert(self.nodes@[0].parent.is_none());
                assert forall|i: int| 0 < i < self.nodes@.len() implies (#[trigger] self.nodes@[i]).parent.is_some() by {
                    assert(shape(self.nodes@[i]) == shape(before.nodes@[i]));
                }
                if st.parent.is_none() {
                    assert(cur == 0);
                }
            }
            proof {
                assert(before.nodes@.update(cur as int, MCTSNode { visits: (st.visits + 1) as u64, score: (st.score + to_add) as i64, ..st }) =~= self.nodes@);
                assert(backed_up(before.nodes@, cur as int, to_add as int) == match st.parent {
                    Some(p) => backed_up(self.nodes@, p as int, -to_add),
                    None => self.nodes@,
                });
            }
            to_add = -to_add;
            match st.parent {
                None => break,
                Some(p) => {
                    proof {
                        assert(self.nodes@[p as int] == before.nodes@[p as int]);
                    }
                    cur = p;
                },
            }
        }
        proof {
            assert forall|j: int| 0 <= j < self.nodes@.len() implies shape(#[trigger] self.nodes@[j]) == shape(old(self).nodes@[j]) by {
                assert(shape(self.nodes@[j]) == shape(start.nodes@[j]));
                assert(shape(start.nodes@[j]) == shape(old(self).nodes@[j]));
            }
            reveal(MCTSGeneric::conserved);
            assert(shape(self.nodes@[0]) == shape(old(self).nodes@[0]));
        }
    }
}


impl<P: Policy> MCTSGeneric<P> {
    /// A search engine for `color` that spends `difficulty³ × 50` ms per move (the largest
    /// `u64` when that does not fit).
    pub fn new(color: Color, difficulty: u64, policy: P) -> (r: MCTSGeneric<P>)
        ensures
            r.wf(),
            r.color == color,
            r.time_allowed_ms == budget_ms(difficulty),
            r.policy == policy,
            r.nodes@.len() == 0,
    {
        MCTSGeneric {
            color,
            time_allowed_ms: time_budget(difficulty),
            policy,
            iterations: 0,
            boards: Vec::new(),
            nodes: Vec::new(),
            actions: Vec::new(),
            action_boards: Vec::new(),
            leaf_visits: Ghost(Seq::empty()),
        }
    }

    pub fn color(&self) -> (r: &Color)
        ensures
            *r == self.color,
    {
        &self.color
    }

    pub fn set_color(&mut self, color: Color)
        ensures
            final(self).color == color,
            final(self).time_allowed_ms == old(self).time_allowed_ms,
    {
        self.color = color;
    }

    /// The child of `i` to descend to: the first child never visited if there is one,
    /// else the one the selection rule `select` picks from the children's statistics (the
    /// first child when its answer is out of range). With a trivial policy every prior is
    /// `PRIOR_ONE`.
    pub fn best_child<F: Fn(u64, Vec<ChildStats>) -> usize>(&self, i: usize, select: &F) -> (c: usize)
        requires
            self.wf(),
            i < self.nodes@.len(),
            self.nodes@[i as int].untried_count < self.nodes@[i as int].action_count,
            forall|v: u64, cs: Vec<ChildStats>| select.requires((v, cs)),
        ensures
            i < c < self.nodes@.len(),
            exists|a: int| self.expanded(i as int, a) && self.actions@[a].child == c,
            (exists|a: int| #![trigger self.actions@[a]] self.expanded(i as int, a) && self.nodes@[self.actions@[a].child as int].visits == 0)
                ==> self.nodes@[c as int].visits == 0,
            forall|a: int| #![trigger self.actions@[a]] self.expanded(i as int, a)
                && self.nodes@[self.actions@[a].child as int].visits == 0
                && (forall|b: int| #![trigger self.actions@[b]] self.expanded(i as int, b) && b < a
                    ==> self.nodes@[self.actions@[b].child as int].visits > 0)
                ==> c == self.actions@[a].child,
    {
        let s = self.nodes[i];
        proof {
            assert(self.node_ok(i as int));
        }
        let trivial = self.policy.is_trivial();
        // The arena's length bounds the node's action range, so the sums below fit.
        let action_total = self.actions.len();
        assert(s.first_action + s.action_count <= action_total);
        let start = s.first_action + s.untried_count;
        let end = s.first_action + s.action_count;
        let mut stats: Vec<ChildStats> = Vec::new();
        let mut children: Vec<usize> = Vec::new();
        let mut a = start;
        while a < end
            invariant
                self.wf(),
                i < self.nodes@.len(),
                s == self.nodes@[i as int],
                self.node_ok(i as int),
                start == s.first_action + s.untried_count,
                end == s.first_action + s.action_count,
                end <= self.actions@.len(),
                start <= a <= end,
                children@.len() == a - start,
                forall|t: int| 0 <= t < a - start ==> #[trigger] children@[t] == self.actions@[start + t].child
                    && self.expanded(i as int, start + t),
                forall|b: int| #![trigger self.actions@[b]] start <= b < a ==> self.nodes@[self.actions@[b].child as int].visits > 0,
            decreases end - a,
        {
            let slot = self.actions[a];
            let child = slot.child;
            proof {
                assert(self.expanded(i as int, a as int));
                assert(i < child < self.nodes@.len());
            }
            let cs = self.nodes[child];
            if cs.visits == 0 {
                proof {
                    assert forall|a2: int| #![trigger self.actions@[a2]] self.expanded(i as int, a2)
                        && self.nodes@[self.actions@[a2].child as int].visits == 0
                        && (forall|b: int| #![trigger self.actions@[b]] self.expanded(i as int, b) && b < a2
                            ==> self.nodes@[self.actions@[b].child as int].visits > 0)
                        implies child == self.actions@[a2].child by {
                        if a2 > a {
                            assert(self.expanded(i as int, a as int));
                            assert(self.actions@[a as int] == slot);
                        }
                    }
                }
                return child;
            }
            let prior = if trivial { PRIOR_ONE } else { slot.prior };
            stats.push(ChildStats { visits: cs.visits, score: cs.score, prior });
            children.push(child);
            a = a + 1;
        }
        let k = select(s.visits, stats);
        let pick = if k < children.len() { k } else { 0 };
        proof {
            assert(children@[pick as int] == self.actions@[start + pick].child);
            assert(self.expanded(i as int, start + pick));
            assert(self.node_ok(i as int));
        }
        children[pick]
    }

    /// A random playout from the board of node `i`, scored for its side to move.
    pub fn random_rollout<O: Platform>(&self, i: usize) -> (r: i64)
        requires
            i < self.nodes@.len(),
            self.boards@.len() == self.nodes@.len(),
        ensures
            exists|d: Seq<usize>| r == playout_value(self.boards@[i as int]@, self.nodes@[i as int].color, d),
            r == VALUE_SCALE || r == 0 || r == -VALUE_SCALE,
            self.boards@[i as int]@.winner() == Some(self.nodes@[i as int].color) ==> r == VALUE_SCALE,
            self.boards@[i as int]@.winner() == Some(self.nodes@[i as int].color.other()) ==> r == -VALUE_SCALE,
    {
        random_playout::<O>(&self.boards[i], self.nodes[i].color)
    }

    /// The outcome of node `i` for its side to move: a loss on a won board, otherwise a
    /// random playout under a trivial policy, or the policy's value.
    pub fn rollout<O: Platform>(&self, i: usize) -> (r: i64)
        requires
            self.wf(),
            i < self.nodes@.len(),
        ensures
            -VALUE_SCALE <= r <= VALUE_SCALE,
            self.boards@[i as int]@.winner().is_some() ==> r == -VALUE_SCALE,
            self.boards@[i as int]@.winner().is_none() && !self.policy.trivial() ==> r == self.nodes@[i as int].board_eval,
            self.boards@[i as int]@.winner().is_none() && self.policy.trivial()
                ==> exists|d: Seq<usize>| r == playout_value(self.boards@[i as int]@, self.nodes@[i as int].color, d),
    {
        proof {
            assert(self.node_ok(i as int));
        }
        let s = self.nodes[i];
        if s.terminal {
            -VALUE_SCALE
        } else if self.policy.is_trivial() {
            self.random_rollout::<O>(i)
        } else {
            s.board_eval
        }
    }

    /// One round of search from `origin`: descend through fully expanded nodes, expand one
    /// action, evaluate the new node and back the result up.
    pub fn iterate<O: Platform, F: Fn(u64, Vec<ChildStats>) -> usize>(&mut self, origin: usize, select: &F)
        requires
            old(self).wf(),
            old(self).conserved(),
            origin < old(self).nodes@.len(),
            old(self).iterations < MAX_ITERATIONS,
            forall|v: u64, cs: Vec<ChildStats>| select.requires((v, cs)),
        ensures
            final(self).wf(),
            final(self).conserved(),
            final(self).iterations == old(self).iterations + 1,
            final(self).nodes@.len() >= old(self).nodes@.len(),
            final(self).actions@.len() >= old(self).actions@.len(),
            final(self).color == old(self).color,
            final(self).time_allowed_ms == old(self).time_allowed_ms,
            final(self).boards@[origin as int] == old(self).boards@[origin as int],
            final(self).nodes@[origin as int].first_action == old(self).nodes@[origin as int].first_action,
            final(self).nodes@[origin as int].action_count == old(self).nodes@[origin as int].action_count,
            final(self).nodes@[origin as int].untried_count <= old(self).nodes@[origin as int].untried_count,
            !old(self).nodes@[origin as int].terminal && old(self).nodes@[origin as int].untried_count > 0
                ==> final(self).nodes@[origin as int].untried_count < old(self).nodes@[origin as int].untried_count,
            forall|a: int| 0 <= a < old(self).actions@.len() ==> (#[trigger] final(self).actions@[a]).pawn_index == old(self).actions@[a].pawn_index
                && final(self).actions@[a].direction == old(self).actions@[a].direction,
    {
        let ghost start = *self;
        let mut node_index = origin;
        loop
            invariant
                self.wf(),
                self.conserved(),
                *self == start,
                node_index < self.nodes@.len(),
                node_index == origin || node_index > origin,
                !start.nodes@[origin as int].terminal && start.nodes@[origin as int].untried_count > 0 ==> node_index == origin,
                forall|v: u64, cs: Vec<ChildStats>| select.requires((v, cs)),
            ensures
                self.wf(),
                self.conserved(),
                *self == start,
                node_index < self.nodes@.len(),
                node_index == origin || node_index > origin,
                !start.nodes@[origin as int].terminal && start.nodes@[origin as int].untried_count > 0 ==> node_index == origin,
                self.nodes@[node_index as int].terminal || self.nodes@[node_index as int].untried_count > 0
                    || self.nodes@[node_index as int].untried_count == self.nodes@[node_index as int].action_count,
            decreases self.nodes@.len() - node_index,
        {
            let st = self.nodes[node_index];
            if st.terminal || st.untried_count > 0 || st.untried_count == st.action_count {
                break;
            }
            node_index = self.best_child(node_index, select);
        }
        let st = self.nodes[node_index];
        if !st.terminal && st.untried_count > 0 {
            node_index = self.expand(node_index);
        }
        let ghost mid = *self;
        let result = self.rollout::<O>(node_index);
        self.backpropagate(node_index, result);
        proof {
            assert(shape(self.nodes@[origin as int]) == shape(mid.nodes@[origin as int]));
        }
    }

    /// For each expanded action of node `i`, in arena order: the visits of the child it led
    /// to, its pawn and its direction.
    pub fn choose_final_move_give_all_options(&self, i: usize) -> (r: Vec<(u64, usize, Direction)>)
        requires
            self.wf(),
            i < self.nodes@.len(),
        ensures
            r@.len() == self.nodes@[i as int].action_count - self.nodes@[i as int].untried_count,
            forall|t: int| 0 <= t < r@.len() ==> {
                let a = self.nodes@[i as int].first_action + self.nodes@[i as int].untried_count + t;
                &&& (#[trigger] r@[t]).1 == self.actions@[a].pawn_index
                &&& r@[t].2 == self.actions@[a].direction
                &&& r@[t].0 == self.nodes@[self.actions@[a].child as int].visits
                &&& is_legal_move(self.boards@[i as int]@, r@[t].1, r@[t].2, self.action_boards@[a]@)
            },
    {
        proof {
            assert(self.node_ok(i as int));
        }
        let s = self.nodes[i];
        // The arena's length bounds the node's action range, so the sums below fit.
        let action_total = self.actions.len();
        assert(s.first_action + s.action_count <= action_total);
        let start = s.first_action + s.untried_count;
        let end = s.first_action + s.action_count;
        let mut moves_found: Vec<(u64, usize, Direction)> = Vec::new();
        let mut a = start;
        while a < end
            invariant
                self.wf(),
                i < self.nodes@.len(),
                s == self.nodes@[i as int],
                self.node_ok(i as int),
                start == s.first_action + s.untried_count,
                end == s.first_action + s.action_count,
                end <= self.actions@.len(),
                start <= a <= end,
                moves_found@.len() == a - start,
                forall|t: int| 0 <= t < a - start ==> {
                    let b = start + t;
                    &&& (#[trigger] moves_found@[t]).1 == self.actions@[b].pawn_index
                    &&& moves_found@[t].2 == self.actions@[b].direction
                    &&& moves_found@[t].0 == self.nodes@[self.actions@[b].child as int].visits
                    &&& is_legal_move(self.boards@[i as int]@, moves_found@[t].1, moves_found@[t].2, self.action_boards@[b]@)
                },
            decreases end - a,
        {
            let slot = self.actions[a];
            proof {
                assert(self.expanded(i as int, a as int));
                assert(self.in_range(i as int, a as int));
            }
            let visits = self.nodes[slot.child].visits;
            moves_found.push((visits, slot.pawn_index, slot.direction));
            a = a + 1;
        }
        moves_found
    }
}


impl<P: Policy> MCTSGeneric<P> {
    /// Search `board` afresh for the time allowed (always at least one round) and report,
    /// for each move tried from the root, its visit count, pawn and direction. The shares
    /// of the visits are the engine's move distribution.
    pub fn give_all_options<O: Platform, F: Fn(u64, Vec<ChildStats>) -> usize>(&mut self, board: &Board, select: &F) -> (r: Vec<(u64, usize, Direction)>)
        requires
            forall|v: u64, cs: Vec<ChildStats>| select.requires((v, cs)),
        ensures
            final(self).wf(),
            final(self).color == old(self).color,
            final(self).time_allowed_ms == old(self).time_allowed_ms,
            forall|t: int| 0 <= t < r@.len() ==> is_legal_pair(board@, (#[trigger] r@[t]).1, r@[t].2),
            board@.winner().is_none() && board@.all_legal().len() > 0 ==> r@.len() > 0,
            board@.winner().is_none() && board@.all_legal().len() > 0 ==> total_weight(r@) == final(self).iterations,
            final(self).iterations >= 1,
            final(self).nodes@.len() >= 1,
            final(self).boards@[0]@ == board@,
            r@.len() == final(self).nodes@[0].action_count - final(self).nodes@[0].untried_count,
            forall|t: int| 0 <= t < r@.len() ==> {
                let a = final(self).nodes@[0].first_action + final(self).nodes@[0].untried_count + t;
                &&& (#[trigger] r@[t]).0 == final(self).nodes@[final(self).actions@[a].child as int].visits
                &&& r@[t].1 == final(self).actions@[a].pawn_index
                &&& r@[t].2 == final(self).actions@[a].direction
            },
    {
        let root = self.reset(board);
        let start_time = O::now_ms();
        proof {
            assert(self.node_ok(0));
        }
        self.iterate::<O, F>(root, select);
        loop
            invariant
                self.wf(),
                self.conserved(),
                self.iterations >= 1,
                forall|v: u64, cs: Vec<ChildStats>| select.requires((v, cs)),
                root == 0,
                board@.all_legal().len() > 0 ==> self.nodes@[0].action_count > 0,
                self.nodes@.len() >= 1,
                self.boards@[0]@ == board@,
                self.color == old(self).color,
                self.time_allowed_ms == old(self).time_allowed_ms,
                board@.winner().is_none() && board@.all_legal().len() > 0 ==> self.nodes@[0].untried_count
                    < self.nodes@[0].action_count,
            decreases MAX_ITERATIONS - self.iterations,
        {
            if self.iterations >= MAX_ITERATIONS {
                break;
            }
            let now = O::now_ms();
            let elapsed = if now >= start_time { now - start_time } else { 0 };
            if elapsed >= self.time_allowed_ms {
                break;
            }
            self.iterate::<O, F>(root, select);
        }
        proof {
            assert(self.node_ok(0));
        }
        let r = self.choose_final_move_give_all_options(root);
        proof {
            if board@.winner().is_none() && board@.all_legal().len() > 0 {
                let s0 = self.nodes@[0];
                let lo = s0.first_action + s0.untried_count;
                lemma_total_weight_slots(self.nodes@, self.actions@, r@, lo, r@.len());
                assert(r@.take(r@.len() as int) =~= r@);
                reveal(MCTSGeneric::conserved);
                assert(self.nodes@[0].visits == self.leaf_visits@[0] + self.children_visits(0));
            }
            assert forall|t: int| 0 <= t < r@.len() implies is_legal_pair(board@, (#[trigger] r@[t]).1, r@[t].2) by {
                let a = self.nodes@[0].first_action + self.nodes@[0].untried_count + t;
                assert(is_legal_move(board@, r@[t].1, r@[t].2, self.action_boards@[a]@));
            }
        }
        r
    }

    /// One of the most visited moves out of node `origin`, drawn at random.
    pub fn choose_final_move<O: Platform>(&self, origin: usize) -> (r: (usize, Direction))
        requires
            self.wf(),
            origin < self.nodes@.len(),
            self.nodes@[origin as int].untried_count < self.nodes@[origin as int].action_count,
        ensures
            is_legal_pair(self.boards@[origin as int]@, r.0, r.1),
            exists|a: int| #![trigger self.actions@[a]] self.expanded(origin as int, a) && self.actions@[a].pawn_index == r.0
                && self.actions@[a].direction == r.1
                && forall|b: int| #![trigger self.actions@[b]] self.expanded(origin as int, b)
                    ==> self.nodes@[self.actions@[b].child as int].visits <= self.nodes@[self.actions@[a].child as int].visits,
    {
        let options = self.choose_final_move_give_all_options(origin);
        let m = best_move_from_vec::<O>(&options);
        proof {
            let s0 = self.nodes@[origin as int];
            let lo = s0.first_action + s0.untried_count;
            crate::ai::lemma_top_weight_attained(options@);
            crate::ai::lemma_moves_weighing_source(options@, crate::ai::top_weight(options@), options@.len(), m);
            let j = choose|j: int| 0 <= j < options@.len() && options@[j].0 == crate::ai::top_weight(options@)
                && options@[j].1 == m.0 && options@[j].2 == m.1;
            assert(is_legal_move(self.boards@[origin as int]@, m.0, m.1, self.action_boards@[lo + j]@));
            assert(self.expanded(origin as int, lo + j));
            assert forall|b: int| #![trigger self.actions@[b]] self.expanded(origin as int, b)
                implies self.nodes@[self.actions@[b].child as int].visits <= self.nodes@[self.actions@[lo + j].child as int].visits by {
                assert(options@[b - lo].0 <= crate::ai::top_weight(options@));
            }
        }
        m
    }

    /// The engine's move on `board`: `None` when it is not the engine's turn or no move was
    /// found; otherwise one of the most visited moves, drawn at random.
    pub fn ai_play<O: Platform, F: Fn(u64, Vec<ChildStats>) -> usize>(&mut self, board: &Board, select: &F) -> (r: Option<(usize, Direction)>)
        requires
            forall|v: u64, cs: Vec<ChildStats>| select.requires((v, cs)),
        ensures
            final(self).wf(),
            final(self).color == old(self).color,
            board@.next != Some(old(self).color) ==> r.is_none(),
            board@.next == Some(old(self).color) && board@.winner().is_none() && board@.all_legal().len() > 0
                ==> r.is_some(),
            r.is_some() ==> is_legal_pair(board@, r.unwrap().0, r.unwrap().1),
            final(self).nodes@.len() >= 1,
            final(self).boards@[0]@ == board@,
            r.is_some() ==> exists|a: int| #![trigger final(self).actions@[a]] final(self).expanded(0, a)
                && final(self).actions@[a].pawn_index == r.unwrap().0 && final(self).actions@[a].direction == r.unwrap().1
                && forall|b: int| #![trigger final(self).actions@[b]] final(self).expanded(0, b)
                    ==> final(self).nodes@[final(self).actions@[b].child as int].visits
                        <= final(self).nodes@[final(self).actions@[a].child as int].visits,
    {
        let is_turn = match board.next_player {
            Some(c) => c == self.color,
            None => false,
        };
        if !is_turn {
            let _ = self.reset(board);
            return None;
        }
        let options = self.give_all_options::<O, F>(board, select);
        if options.len() == 0 {
            return None;
        }
        Some(self.choose_final_move::<O>(0))
    }
}


impl<P: Policy> MCTSGeneric<P> {
    /// The content hash of the board of node `i`.
    pub open spec fn node_hash(&self, i: int) -> u64 {
        words_hash(board_words(self.boards@[i]@))
    }

    /// The first of the first `n` nodes whose board has content hash `h`.
    pub open spec fn lookup_upto(&self, h: u64, n: nat) -> Option<int>
        decreases n,
    {
        if n == 0 {
            None
        } else {
            match self.lookup_upto(h, (n - 1) as nat) {
                Some(i) => Some(i),
                None => if self.node_hash(n - 1) == h {
                    Some(n - 1)
                } else {
                    None
                },
            }
        }
    }

    pub open spec fn lookup(&self, h: u64) -> Option<int> {
        self.lookup_upto(h, self.boards@.len())
    }

    /// The first node whose board has content hash `hash`, if any.
    pub fn find_node(&self, hash: u64) -> (r: Option<usize>)
        ensures
            r == match self.lookup(hash) {
                Some(i) => Some(i as usize),
                None => None::<usize>,
            },
    {
        let n = self.boards.len();
        let mut i: usize = 0;
        while i < n
            invariant
                n == self.boards@.len(),
                i <= n,
                self.lookup_upto(hash, i as nat).is_none(),
            decreases n - i,
        {
            if self.boards[i].get_hash() == hash {
                proof {
                    lemma_lookup_found(self, hash, i as nat, n as nat);
                }
                return Some(i);
            }
            i = i + 1;
        }
        None
    }
}

proof fn lemma_lookup_found<P: Policy>(t: &MCTSGeneric<P>, h: u64, i: nat, n: nat)
    requires
        i < n,
        t.lookup_upto(h, i).is_none(),
        t.node_hash(i as int) == h,
    ensures
        t.lookup_upto(h, n) == Some(i as int),
    decreases n,
{
    if n > i + 1 {
        lemma_lookup_found(t, h, i, (n - 1) as nat);
    }
}

/// Looking up the content hash of a board that a node of the tree holds finds a node, and
/// the node found has that hash.
pub proof fn lemma_hash_lookup_round_trip<P: Policy>(t: &MCTSGeneric<P>, b: BoardView, i: int)
    requires
        0 <= i < t.boards@.len(),
        t.boards@[i]@ == b,
    ensures
        t.lookup(words_hash(board_words(b))).is_some(),
        t.node_hash(t.lookup(words_hash(board_words(b))).unwrap()) == words_hash(board_words(b)),
{
    lemma_lookup_reaches(t, words_hash(board_words(b)), i, t.boards@.len());
}

proof fn lemma_lookup_reaches<P: Policy>(t: &MCTSGeneric<P>, h: u64, i: int, n: nat)
    requires
        0 <= i < n,
        t.node_hash(i) == h,
    ensures
        t.lookup_upto(h, n).is_some(),
        t.node_hash(t.lookup_upto(h, n).unwrap()) == h,
    decreases n,
{
    if n > i + 1 {
        lemma_lookup_reaches(t, h, i, (n - 1) as nat);
    } else {
        match t.lookup_upto(h, (n - 1) as nat) {
            Some(j) => {
                lemma_lookup_sound(t, h, (n - 1) as nat);
            },
            None => {},
        }
    }
}

proof fn lemma_lookup_sound<P: Policy>(t: &MCTSGeneric<P>, h: u64, n: nat)
    ensures
        t.lookup_upto(h, n).is_some() ==> t.node_hash(t.lookup_upto(h, n).unwrap()) == h,
    decreases n,
{
    if n > 0 {
        lemma_lookup_sound(t, h, (n - 1) as nat);
    }
}


/// When one child gained a visit, a sum over actions gains one exactly when it covers the
/// action that leads to that child.
proof fn lemma_slot_visits_bump(an: Seq<MCTSNode>, aa: Seq<ActionSlot>, bn: Seq<MCTSNode>, ba: Seq<ActionSlot>, lo: int, hi: int, s: int)
    requires
        forall|x: int| lo <= x < hi ==> #[trigger] slot_term(bn, ba, x) == slot_term(an, aa, x) + (if x == s { 1int } else { 0int }),
    ensures
        slot_visits(bn, ba, lo, hi) == slot_visits(an, aa, lo, hi) + (if lo <= s < hi { 1int } else { 0int }),
    decreases hi - lo,
{
    if hi > lo {
        lemma_slot_visits_bump(an, aa, bn, ba, lo, hi - 1, s);
    }
}

/// A sum over actions, with one more action in front.
proof fn lemma_slot_visits_prepend(n: Seq<MCTSNode>, a: Seq<ActionSlot>, lo: int, hi: int)
    requires
        lo < hi,
    ensures
        slot_visits(n, a, lo, hi) == slot_term(n, a, lo) + slot_visits(n, a, lo + 1, hi),
    decreases hi - lo,
{
    if hi > lo + 1 {
        lemma_slot_visits_prepend(n, a, lo, hi - 1);
    } else {
        assert(slot_visits(n, a, lo, lo) == 0);
        assert(slot_visits(n, a, lo + 1, hi) == 0);
    }
}


/// Expanding an action of node `i` into a new node `c` keeps the visit counts balanced.
proof fn lemma_expand_conserved<P: Policy>(old_self: &MCTSGeneric<P>, new_self: &MCTSGeneric<P>, i: int, c: int, slot: int)
    requires
        old_self.wf(),
        old_self.conserved(),
        0 <= i < old_self.nodes@.len(),
        c == old_self.nodes@.len(),
        new_self.nodes@.len() == c + 1,
        new_self.leaf_visits@ == old_self.leaf_visits@.push(0),
        new_self.iterations == old_self.iterations,
        forall|j: int| 0 <= j < c && j != i ==> new_self.nodes@[j] == old_self.nodes@[j],
        new_self.nodes@[i] == (MCTSNode { untried_count: (old_self.nodes@[i].untried_count - 1) as usize, ..old_self.nodes@[i] }),
        old_self.nodes@[i].untried_count > 0,
        slot == old_self.nodes@[i].first_action + old_self.nodes@[i].untried_count - 1,
        old_self.actions@[slot].source == i,
        new_self.nodes@[c].visits == 0,
        new_self.nodes@[c].parent == Some(i as usize),
        new_self.nodes@[c].untried_count == new_self.nodes@[c].action_count,
        new_self.actions@.len() >= old_self.actions@.len(),
        new_self.actions@[slot].child == c,
        forall|x: int| 0 <= x < old_self.actions@.len() && x != slot ==> #[trigger] new_self.actions@[x].child == old_self.actions@[x].child,
    ensures
        new_self.conserved(),
{
    reveal(MCTSGeneric::conserved);
    let n = c;
    assert forall|j: int| #![trigger new_self.nodes@[j]] 0 <= j < new_self.nodes@.len() implies new_self.nodes@[j].visits
        == new_self.leaf_visits@[j] + new_self.children_visits(j) by {
        if j == c {
            assert(new_self.children_visits(j) == 0);
        } else {
            assert(old_self.node_ok(j));
            let sj = old_self.nodes@[j];
            let lo = sj.first_action + sj.untried_count;
            let hi = sj.first_action + sj.action_count;
            assert forall|x: int| lo <= x < hi implies #[trigger] slot_term(new_self.nodes@, new_self.actions@, x) == slot_term(old_self.nodes@, old_self.actions@, x) + (if x == -1 { 1int } else { 0int }) by {
                assert(old_self.expanded(j, x));
                assert(old_self.in_range(j, x));
                if x == slot {
                    assert(old_self.in_range(i, x));
                    assert(j == i);
                    assert(false);
                }
                let ch = old_self.actions@[x].child as int;
                assert(new_self.actions@[x].child == ch);
                assert(ch < n);
                assert(new_self.nodes@[ch].visits == old_self.nodes@[ch].visits);
            }
            lemma_slot_visits_bump(old_self.nodes@, old_self.actions@, new_self.nodes@, new_self.actions@, lo, hi, -1);
            assert(old_self.nodes@[j].visits == old_self.leaf_visits@[j] + old_self.children_visits(j));
            if j == i {
                lemma_slot_visits_prepend(new_self.nodes@, new_self.actions@, lo - 1, hi);
                assert(slot_term(new_self.nodes@, new_self.actions@, lo - 1) == 0);
            }
        }
    }
    assert forall|j: int| 0 < j < new_self.nodes@.len() implies (#[trigger] new_self.nodes@[j]).parent.is_some() by {
        if j < c {
            assert(old_self.nodes@[j].parent.is_some());
        }
    }
}


/// One more visit of node `cur` adds one to the children's visits of its parent and
/// changes those of no other node.
proof fn lemma_bump_visit<P: Policy>(a: &MCTSGeneric<P>, b: &MCTSGeneric<P>, cur: int)
    requires
        a.wf(),
        0 <= cur < a.nodes@.len(),
        b.nodes@.len() == a.nodes@.len(),
        b.actions == a.actions,
        forall|j: int| 0 <= j < a.nodes@.len() && j != cur ==> b.nodes@[j] == a.nodes@[j],
        b.nodes@[cur].visits == a.nodes@[cur].visits + 1,
        shape(b.nodes@[cur]) == shape(a.nodes@[cur]),
    ensures
        forall|j: int| #![trigger b.nodes@[j]] 0 <= j < a.nodes@.len() ==> b.children_visits(j) == a.children_visits(j)
            + (if parent_is(a.nodes@[cur].parent, j) { 1int } else { 0int }),
{
    assert(a.node_ok(cur));
    let ps: int = match a.nodes@[cur].parent {
        Some(p) => a.nodes@[cur].parent_slot as int,
        None => -1,
    };
    assert forall|j: int| #![trigger b.nodes@[j]] 0 <= j < a.nodes@.len() implies b.children_visits(j) == a.children_visits(j)
        + (if parent_is(a.nodes@[cur].parent, j) { 1int } else { 0int }) by {
        assert(a.node_ok(j));
        let sj = a.nodes@[j];
        assert(shape(b.nodes@[j]) == shape(sj));
        let lo = sj.first_action + sj.untried_count;
        let hi = sj.first_action + sj.action_count;
        assert forall|x: int| lo <= x < hi implies #[trigger] slot_term(b.nodes@, b.actions@, x) == slot_term(a.nodes@, a.actions@, x) + (if x == ps { 1int } else { 0int }) by {
            assert(a.expanded(j, x));
            let ch = a.actions@[x].child as int;
            assert(a.nodes@[ch].parent == Some(j as usize) && a.nodes@[ch].parent_slot == x);
            if ch == cur {
                assert(x == ps);
            } else if x == ps {
                assert(a.actions@[ps].child == cur);
            }
        }
        lemma_slot_visits_bump(a.nodes@, a.actions@, b.nodes@, b.actions@, lo, hi, ps);
        assert(b.nodes@[j].first_action == sj.first_action && b.nodes@[j].untried_count == sj.untried_count
            && b.nodes@[j].action_count == sj.action_count);
        assert(b.children_visits(j) == slot_visits(b.nodes@, b.actions@, lo, hi));
        assert(a.children_visits(j) == slot_visits(a.nodes@, a.actions@, lo, hi));
        match a.nodes@[cur].parent {
            Some(p) => {
                if p as int == j {
                    assert(a.expanded(j, ps));
                    assert(lo <= ps < hi);
                } else {
                    if lo <= ps < hi {
                        assert(a.in_range(j, ps));
                        assert(a.actions@[ps].source == p);
                        assert(a.actions@[ps].source == j);
                    }
                    assert(!(lo <= ps < hi));
                }
            },
            None => {},
        }
    }
}


/// Giving node `cur`, one visit short, its visit moves the shortfall to its parent.
proof fn lemma_backup_step<P: Policy>(a: &MCTSGeneric<P>, b: &MCTSGeneric<P>, cur: int, d: int)
    requires
        a.wf(),
        a.balanced_except(cur),
        0 <= cur < a.nodes@.len(),
        b.nodes@.len() == a.nodes@.len(),
        b.actions == a.actions,
        b.leaf_visits == a.leaf_visits,
        forall|j: int| 0 <= j < a.nodes@.len() && j != cur ==> b.nodes@[j] == a.nodes@[j],
        b.nodes@[cur].visits == a.nodes@[cur].visits + 1,
        shape(b.nodes@[cur]) == shape(a.nodes@[cur]),
        d == match a.nodes@[cur].parent {
            Some(p) => p as int,
            None => -1,
        },
    ensures
        b.balanced_except(d),
{
    lemma_bump_visit(a, b, cur);
    assert forall|j: int| #![trigger b.nodes@[j]] 0 <= j < b.nodes@.len() implies b.nodes@[j].visits + (if j == d { 1int } else { 0int })
        == b.leaf_visits@[j] + b.children_visits(j) by {
        assert(a.nodes@[j].visits + (if j == cur { 1int } else { 0int }) == a.leaf_visits@[j] + a.children_visits(j));
        assert(parent_is(a.nodes@[cur].parent, j) == (j == d));
    }
}


/// The weights listed for consecutive actions from `lo` add up to the visits of the
/// children behind them.
proof fn lemma_total_weight_slots(nodes: Seq<MCTSNode>, actions: Seq<ActionSlot>, r: Seq<(u64, usize, Direction)>, lo: int, k: nat)
    requires
        k <= r.len(),
        forall|t: int| 0 <= t < r.len() ==> (#[trigger] r[t]).0 == nodes[actions[lo + t].child as int].visits,
    ensures
        total_weight(r.take(k as int)) == slot_visits(nodes, actions, lo, lo + k),
    decreases k,
{
    if k > 0 {
        lemma_total_weight_slots(nodes, actions, r, lo, (k - 1) as nat);
        assert(r.take(k as int).drop_last() =~= r.take(k - 1));
        assert(r.take(k as int).last() == r[k - 1]);
    }
}

} // verus!
