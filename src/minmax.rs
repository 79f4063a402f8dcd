use vstd::prelude::*;
use crate::ai::{best_move_from_vec, lemma_moves_weighing_source, lemma_top_weight_attained, top_weight};
use crate::logic::{is_legal_move, is_legal_pair, Board, BoardView, Color, Direction};
use crate::platform::Platform;

verus! {

/// Score of a win found at depth 0; a win found at depth `d` scores `WIN_BASE - d`, a loss
/// `-WIN_BASE + d`, so faster wins and slower losses score higher.
pub const WIN_BASE: i64 = 100;

/// The deepest search the engine accepts; it keeps every win above every draw.
pub const MAX_SEARCH_DEPTH: usize = 64;

/// Static score of a board for `color`, reached `depth` plies below the root.
pub open spec fn terminal_score(v: BoardView, color: Color, depth: nat) -> int {
    match v.winner() {
        Some(w) => if w == color {
            WIN_BASE - depth
        } else {
            -WIN_BASE + depth
        },
        None => 0,
    }
}

/// A board of the search tree with its static score for `color`.
pub struct BoardEvaluation {
    pub board: Board,
    pub color: Color,
    pub score: i64,
    pub depth: usize,
}

impl BoardEvaluation {
    pub fn new(board: Board, color: Color, depth: usize) -> (r: BoardEvaluation)
        requires
            depth <= MAX_SEARCH_DEPTH,
        ensures
            r.board@ == board@,
            r.color == color,
            r.depth == depth,
            r.score == terminal_score(board@, color, depth as nat),
    {
        let mut a = BoardEvaluation { board, color, score: 0, depth };
        a.score_board();
        a
    }

    fn score_board(&mut self)
        requires
            old(self).depth <= MAX_SEARCH_DEPTH,
        ensures
            final(self).board == old(self).board,
            final(self).color == old(self).color,
            final(self).depth == old(self).depth,
            final(self).score == terminal_score(old(self).board@, old(self).color, old(self).depth as nat),
    {
        match self.board.winner() {
            Some(winner_color) => {
                if winner_color == self.color {
                    self.score = WIN_BASE - self.depth as i64;
                } else {
                    self.score = -WIN_BASE + self.depth as i64;
                }
            },
            None => self.score = 0,
        }
    }
}

/// Where the children of a node lie in the arena, and the move that led to the node.
#[derive(Clone, Copy, Debug)]
pub struct NodeLinks {
    pub first_child: usize,
    pub end_child: usize,
    pub pawn_index: usize,
    pub direction: Direction,
}

/// Minimax value of node `n` searched `d` plies deep; `maxing` says whether the engine
/// moves at `n`. A node without children keeps its static score.
pub open spec fn minimax(scores: Seq<i64>, links: Seq<NodeLinks>, n: int, d: nat, maxing: bool) -> int
    decreases d, 1nat, 0nat,
{
    if d == 0 || links[n].end_child <= links[n].first_child {
        scores[n] as int
    } else {
        best_of(scores, links, n, d, maxing, (links[n].end_child - links[n].first_child) as nat)
    }
}

/// The best value for the side at `n` among its first `k` children.
pub open spec fn best_of(scores: Seq<i64>, links: Seq<NodeLinks>, n: int, d: nat, maxing: bool, k: nat) -> int
    decreases d, 0nat, k,
{
    if d == 0 {
        0
    } else if k == 0 {
        if maxing {
            i64::MIN as int
        } else {
            i64::MAX as int
        }
    } else {
        let prev = best_of(scores, links, n, d, maxing, (k - 1) as nat);
        let v = minimax(scores, links, links[n].first_child + k - 1, (d - 1) as nat, !maxing);
        if maxing {
            if v > prev { v } else { prev }
        } else {
            if v < prev { v } else { prev }
        }
    }
}

/// Child indices lie inside the arena and scores stay within the win bounds.
pub open spec fn tree_wf(scores: Seq<i64>, links: Seq<NodeLinks>) -> bool {
    &&& scores.len() == links.len()
    &&& forall|n: int| 0 <= n < links.len() ==> (#[trigger] links[n]).first_child <= links[n].end_child <= links.len()
    &&& forall|n: int| 0 <= n < scores.len() ==> -WIN_BASE <= #[trigger] scores[n] <= WIN_BASE
}

pub proof fn lemma_minimax_bounded(scores: Seq<i64>, links: Seq<NodeLinks>, n: int, d: nat, maxing: bool)
    requires
        tree_wf(scores, links),
        0 <= n < links.len(),
    ensures
        -WIN_BASE <= minimax(scores, links, n, d, maxing) <= WIN_BASE,
    decreases d, 1nat, 0nat,
{
    if d == 0 || links[n].end_child <= links[n].first_child {
    } else {
        lemma_best_of_bounded(scores, links, n, d, maxing, (links[n].end_child - links[n].first_child) as nat);
    }
}

proof fn lemma_best_of_bounded(scores: Seq<i64>, links: Seq<NodeLinks>, n: int, d: nat, maxing: bool, k: nat)
    requires
        tree_wf(scores, links),
        0 <= n < links.len(),
        d > 0,
        1 <= k <= links[n].end_child - links[n].first_child,
    ensures
        -WIN_BASE <= best_of(scores, links, n, d, maxing, k) <= WIN_BASE,
    decreases d, 0nat, k,
{
    lemma_minimax_bounded(scores, links, links[n].first_child + k - 1, (d - 1) as nat, !maxing);
    if k > 1 {
        lemma_best_of_bounded(scores, links, n, d, maxing, (k - 1) as nat);
    } else {
        assert(best_of(scores, links, n, d, maxing, 0) == if maxing { i64::MIN as int } else { i64::MAX as int });
    }
}

/// The best of all children is at least as good, for the side to move, as the best of the first `j`.
proof fn lemma_best_of_monotone(scores: Seq<i64>, links: Seq<NodeLinks>, n: int, d: nat, maxing: bool, j: nat, k: nat)
    requires
        d > 0,
        j <= k,
    ensures
        maxing ==> best_of(scores, links, n, d, maxing, j) <= best_of(scores, links, n, d, maxing, k),
        !maxing ==> best_of(scores, links, n, d, maxing, j) >= best_of(scores, links, n, d, maxing, k),
    decreases k,
{
    if j < k {
        lemma_best_of_monotone(scores, links, n, d, maxing, j, (k - 1) as nat);
    }
}

/// A depth-bounded alpha-beta searcher.
pub struct MinMax {
    pub color: Color,
    pub depth: usize,
    pub evaluations: Vec<BoardEvaluation>,
    pub links: Vec<NodeLinks>,
}

impl MinMax {
    pub open spec fn scores(&self) -> Seq<i64> {
        self.evaluations@.map_values(|e: BoardEvaluation| e.score)
    }

    pub open spec fn wf(&self) -> bool {
        &&& self.evaluations@.len() == self.links@.len()
        &&& tree_wf(self.scores(), self.links@)
        &&& 1 <= self.depth <= MAX_SEARCH_DEPTH
    }

    /// A searcher for `color` that looks `depth` plies ahead; a depth of 0 still looks one
    /// ply ahead, the least that yields a move.
    pub fn new(color: Color, depth: usize) -> (r: MinMax)
        requires
            depth <= MAX_SEARCH_DEPTH,
        ensures
            r.wf(),
            r.color == color,
            r.depth == if depth == 0 { 1 } else { depth },
            r.evaluations@.len() == 0,
    {
        let depth = if depth == 0 { 1 } else { depth };
        let r = MinMax { color, depth, evaluations: Vec::new(), links: Vec::new() };
        assert(r.scores() =~= Seq::<i64>::empty());
        r
    }

    pub fn color(&self) -> (r: &Color)
        ensures
            *r == self.color,
    {
        &self.color
    }

    pub fn set_color(&mut self, color: Color)
        ensures
            final(self).color == color,
            final(self).depth == old(self).depth,
            final(self).evaluations == old(self).evaluations,
            final(self).links == old(self).links,
    {
        self.color = color;
    }

    /// Alpha-beta search below `node_index`. The result is exact inside the window
    /// `(alpha, beta)`; at or below `alpha` it bounds the true value from above, at or above
    /// `beta` from below.
    fn minmax_score(&self, node_index: usize, depth_remaining: usize, alpha: i64, beta: i64, maximizing_player: bool) -> (r: i64)
        requires
            self.wf(),
            node_index < self.links@.len(),
            alpha < beta,
        ensures
            ({
                let mm = minimax(self.scores(), self.links@, node_index as int, depth_remaining as nat, maximizing_player);
                &&& r <= alpha ==> mm <= r
                &&& r >= beta ==> mm >= r
                &&& alpha < r < beta ==> mm == r
            }),
            depth_remaining == 0 || self.links@[node_index as int].end_child <= self.links@[node_index as int].first_child
                ==> r == self.scores()[node_index as int],
        decreases depth_remaining,
    {
        let ghost scores = self.scores();
        let ghost links = self.links@;
        let ghost n = node_index as int;
        let ghost d = depth_remaining as nat;
        let first = self.links[node_index].first_child;
        let end = self.links[node_index].end_child;
        if depth_remaining == 0 || end <= first {
            assert(scores[n] == self.evaluations@[n].score);
            return self.evaluations[node_index].score;
        }
        let mut alpha = alpha;
        let mut beta = beta;
        let ghost alpha0 = alpha;
        let ghost beta0 = beta;
        let mut value: i64 = if maximizing_player { i64::MIN } else { i64::MAX };
        let mut c: usize = first;
        assert(minimax(scores, links, n, d, maximizing_player) == best_of(scores, links, n, d, maximizing_player, (end - first) as nat));
        while c < end
            invariant_except_break
                maximizing_player ==> beta == beta0 && alpha == (if value > alpha0 { value } else { alpha0 }) && value < beta0,
                maximizing_player && value <= alpha0 ==> best_of(scores, links, n, d, true, (c - first) as nat) <= value,
                maximizing_player && value > alpha0 ==> best_of(scores, links, n, d, true, (c - first) as nat) == value,
                !maximizing_player ==> alpha == alpha0 && beta == (if value < beta0 { value } else { beta0 }) && value > alpha0,
                !maximizing_player && value >= beta0 ==> best_of(scores, links, n, d, false, (c - first) as nat) >= value,
                !maximizing_player && value < beta0 ==> best_of(scores, links, n, d, false, (c - first) as nat) == value,
            invariant
                self.wf(),
                scores == self.scores(),
                links == self.links@,
                n == node_index,
                0 <= n < links.len(),
                d == depth_remaining,
                d > 0,
                first == links[n].first_child,
                end == links[n].end_child,
                first <= c <= end,
                end <= links.len(),
                alpha0 < beta0,
                minimax(scores, links, n, d, maximizing_player) == best_of(scores, links, n, d, maximizing_player, (end - first) as nat),
            ensures
                ({
                    let mm = minimax(scores, links, n, d, maximizing_player);
                    &&& value <= alpha0 ==> mm <= value
                    &&& value >= beta0 ==> mm >= value
                    &&& alpha0 < value < beta0 ==> mm == value
                }),
            decreases end - c,
        {
            let score = self.minmax_score(c, depth_remaining - 1, alpha, beta, !maximizing_player);
            let ghost k = (c - first) as nat;
            proof {
                assert(best_of(scores, links, n, d, maximizing_player, k + 1) == ({
                    let prev = best_of(scores, links, n, d, maximizing_player, k);
                    let v = minimax(scores, links, c as int, (d - 1) as nat, !maximizing_player);
                    if maximizing_player { if v > prev { v } else { prev } } else { if v < prev { v } else { prev } }
                }));
            }
            if maximizing_player {
                if score > value {
                    value = score;
                }
                if value > alpha {
                    alpha = value;
                }
            } else {
                if score < value {
                    value = score;
                }
                if value < beta {
                    beta = value;
                }
            }
            c = c + 1;
            if beta <= alpha {
                proof {
                    let total = (end - first) as nat;
                    lemma_best_of_monotone(scores, links, n, d, maximizing_player, k + 1, total);
                }
                break;
            }
        }
        value
    }
}


/// The nodes from `first` on hold the boards of `moves`, each tagged with its move.
pub open spec fn children_match(
    evals: Seq<BoardEvaluation>,
    links: Seq<NodeLinks>,
    first: int,
    moves: Seq<(usize, Direction, BoardView)>,
) -> bool {
    &&& first + moves.len() <= evals.len()
    &&& first + moves.len() <= links.len()
    &&& forall|j: int|
        0 <= j < moves.len() ==> evals[first + j].board@ == (#[trigger] moves[j]).2
            && links[first + j].pawn_index == moves[j].0 && links[first + j].direction == moves[j].1
}

/// A node just added `depth` plies below the root: scored for `color`, without children yet.
pub open spec fn fresh_leaf(e: BoardEvaluation, l: NodeLinks, color: Color, depth: usize) -> bool {
    &&& e.depth == depth
    &&& e.color == color
    &&& e.score == terminal_score(e.board@, color, depth as nat)
    &&& l.first_child == 0
    &&& l.end_child == 0
}

/// The side to move `depth` plies below a root where `color` moves.
pub open spec fn mover_at(color: Color, depth: nat) -> Color {
    if depth % 2 == 0 {
        color
    } else {
        color.other()
    }
}

/// The moves searched from a board for the side `mover`: none once the game is won.
pub open spec fn searched_moves(v: BoardView, mover: Color) -> Seq<(usize, Direction, BoardView)> {
    if v.winner().is_some() {
        seq![]
    } else {
        v.color_moves(mover)
    }
}

/// Weight of a move from its minimax value: negative values weigh nothing, a draw weighs 1.
pub open spec fn clipped(v: int) -> int {
    if v == 0 {
        1
    } else if v < 0 {
        0
    } else {
        v
    }
}

/// The weights of moves with the given values; when every move loses, all weigh the same.
pub open spec fn move_weights(values: Seq<int>) -> Seq<int> {
    if forall|j: int| 0 <= j < values.len() ==> values[j] < 0 {
        Seq::new(values.len(), |j: int| 1)
    } else {
        Seq::new(values.len(), |j: int| clipped(values[j]))
    }
}

/// The largest of the values, or 0 when that is larger.
pub open spec fn best_or_zero(values: Seq<int>) -> int
    decreases values.len(),
{
    if values.len() == 0 {
        0
    } else {
        let prev = best_or_zero(values.drop_last());
        if values.last() > prev {
            values.last()
        } else {
            prev
        }
    }
}

impl MinMax {
    /// The children of node `x` are the boards reached by the moves of the side to move at
    /// its depth, in generation order, one ply deeper.
    pub open spec fn expanded_ok(&self, x: int) -> bool {
        let e = self.evaluations@[x];
        let l = self.links@[x];
        let moves = searched_moves(e.board@, mover_at(self.color, e.depth as nat));
        &&& l.end_child - l.first_child == moves.len()
        &&& children_match(self.evaluations@, self.links@, l.first_child as int, moves)
        &&& forall|j: int| l.first_child <= j < l.end_child ==> #[trigger] self.evaluations@[j].depth == e.depth + 1
    }

    /// The arena holds the game tree below its root, `depth` plies deep: each node is scored
    /// for the engine, nodes above the last ply have all their moves as children, and nodes
    /// on the last ply have none.
    pub open spec fn game_tree(&self) -> bool {
        &&& self.evaluations@.len() >= 1
        &&& self.evaluations@[0].depth == 0
        &&& forall|x: int| #![trigger self.evaluations@[x]] 0 <= x < self.evaluations@.len() ==> {
            let e = self.evaluations@[x];
            &&& e.color == self.color
            &&& e.score == terminal_score(e.board@, self.color, e.depth as nat)
            &&& e.depth <= self.depth
            &&& (e.depth < self.depth ==> self.expanded_ok(x))
            &&& (e.depth == self.depth ==> self.links@[x].first_child == self.links@[x].end_child)
        }
    }

    /// Value of the `j`-th child of the root, searched to the remaining depth.
    pub open spec fn root_child_value(&self, j: int) -> int {
        minimax(self.scores(), self.links@, self.links@[0].first_child + j, (self.depth - 1) as nat, false)
    }

    pub open spec fn root_child_values(&self) -> Seq<int> {
        Seq::new(
            (self.links@[0].end_child - self.links@[0].first_child) as nat,
            |j: int| self.root_child_value(j),
        )
    }

    /// Add the moves of `mover` from node `x` as new leaves `child_depth` plies deep.
    fn expand_node(&mut self, x: usize, mover: Color, child_depth: usize)
        requires
            old(self).wf(),
            x < old(self).links@.len(),
            child_depth <= MAX_SEARCH_DEPTH,
        ensures
            final(self).wf(),
            final(self).color == old(self).color,
            final(self).depth == old(self).depth,
            ({
                let l = old(self).links@.len();
                let moves = searched_moves(old(self).evaluations@[x as int].board@, mover);
                &&& final(self).links@.len() == l + moves.len()
                &&& children_match(final(self).evaluations@, final(self).links@, l as int, moves)
                &&& final(self).links@[x as int].first_child == l
                &&& final(self).links@[x as int].end_child == final(self).links@.len()
                &&& final(self).links@[x as int].pawn_index == old(self).links@[x as int].pawn_index
                &&& final(self).links@[x as int].direction == old(self).links@[x as int].direction
                &&& forall|y: int| 0 <= y < l && y != x ==> final(self).links@[y] == old(self).links@[y]
                &&& forall|y: int| 0 <= y < l ==> final(self).evaluations@[y] == old(self).evaluations@[y]
                &&& forall|y: int| l <= y < final(self).links@.len() ==> #[trigger] fresh_leaf(final(self).evaluations@[y], final(self).links@[y], old(self).color, child_depth)
            }),
    {
        let ghost old_evals = self.evaluations@;
        let ghost old_links = self.links@;
        let l = self.links.len();
        let board = self.evaluations[x].board.snapshot();
        let ghost v = board@;
        if board.winner().is_none() {
            let n = board.pawns.len();
            let mut p: usize = 0;
            while p < n
                invariant
                    n == v.pawns.len(),
                    p <= n,
                    board@ == v,
                    v.winner().is_none(),
                    v == old_evals[x as int].board@,
                    self.wf(),
                    self.color == old(self).color,
                    self.depth == old(self).depth,
                    child_depth <= MAX_SEARCH_DEPTH,
                    l == old_links.len(),
                    x < l,
                    self.links@.len() == l + v.color_moves_upto(mover, p as nat).len(),
                    children_match(self.evaluations@, self.links@, l as int, v.color_moves_upto(mover, p as nat)),
                    forall|y: int| 0 <= y < l ==> self.links@[y] == old_links[y],
                    forall|y: int| 0 <= y < l ==> self.evaluations@[y] == old_evals[y],
                    forall|y: int| l <= y < self.links@.len() ==> #[trigger] fresh_leaf(self.evaluations@[y], self.links@[y], old(self).color, child_depth),
                decreases n - p,
            {
                let ghost before_len = self.links@.len();
                if board.pawns[p].color == mover {
                    let directions = board.get_valid_directions_and_resulting_boards(p);
                    let ghost pm = v.legal_for_pawn(p as int);
                    let m = directions.len();
                    let mut j: usize = 0;
                    while j < m
                        invariant
                            m == directions@.len(),
                            j <= m,
                            p < n,
                            n == v.pawns.len(),
                            crate::logic::pawn_moves_match(directions@, pm),
                            pm == v.legal_for_pawn(p as int),
                            self.wf(),
                            self.color == old(self).color,
                            self.depth == old(self).depth,
                            child_depth <= MAX_SEARCH_DEPTH,
                            l == old_links.len(),
                            x < l,
                            before_len == l + v.color_moves_upto(mover, p as nat).len(),
                            self.links@.len() == before_len + j,
                            children_match(self.evaluations@, self.links@, l as int, v.color_moves_upto(mover, p as nat)),
                            forall|t: int| 0 <= t < j ==> self.evaluations@[before_len + t].board@ == (#[trigger] pm[t]).1
                                && self.links@[before_len + t].pawn_index == p
                                && self.links@[before_len + t].direction == pm[t].0,
                            forall|y: int| 0 <= y < l ==> self.links@[y] == old_links[y],
                            forall|y: int| 0 <= y < l ==> self.evaluations@[y] == old_evals[y],
                            forall|y: int| l <= y < self.links@.len() ==> #[trigger] fresh_leaf(self.evaluations@[y], self.links@[y], old(self).color, child_depth),
                        decreases m - j,
                    {
                        let child = directions[j].1.snapshot();
                        let ghost before_evals = self.evaluations@;
                        let ghost before_links = self.links@;
                        let eval = BoardEvaluation::new(child, self.color, child_depth);
                        self.evaluations.push(eval);
                        self.links.push(NodeLinks { first_child: 0, end_child: 0, pawn_index: p, direction: directions[j].0 });
                        proof {
                            assert(self.scores() =~= before_evals.map_values(|e: BoardEvaluation| e.score).push(eval.score));
                            assert forall|y: int| 0 <= y < self.links@.len() implies (#[trigger] self.links@[y]).first_child <= self.links@[y].end_child <= self.links@.len() by {
                                if y < before_links.len() {
                                    assert(self.links@[y] == before_links[y]);
                                }
                            }
                            assert(tree_wf(self.scores(), self.links@));
                        }
                        j = j + 1;
                    }
                    proof {
                        let spec = v.color_moves_upto(mover, (p + 1) as nat);
                        let prev = v.color_moves_upto(mover, p as nat);
                        let mapped = pm.map_values(|mv: (Direction, BoardView)| (p as usize, mv.0, mv.1));
                        assert(spec == prev + mapped);
                        assert forall|t: int| 0 <= t < spec.len() implies self.evaluations@[l + t].board@ == (#[trigger] spec[t]).2
                            && self.links@[l + t].pawn_index == spec[t].0 && self.links@[l + t].direction == spec[t].1 by {
                            if t < prev.len() {
                                assert(spec[t] == prev[t]);
                            } else {
                                let u = t - prev.len();
                                assert(spec[t] == mapped[u]);
                                assert(mapped[u] == (p as usize, pm[u].0, pm[u].1));
                                assert(self.evaluations@[before_len + u].board@ == pm[u].1);
                            }
                        }
                    }
                } else {
                    assert(v.color_moves_upto(mover, (p + 1) as nat) == v.color_moves_upto(mover, p as nat));
                }
                p = p + 1;
            }
        }
        let ghost moves = searched_moves(v, mover);
        let end = self.links.len();
        let old_link = self.links[x];
        let ghost before_links = self.links@;
        self.links.set(x, NodeLinks { first_child: l, end_child: end, ..old_link });
        proof {
            assert forall|y: int| 0 <= y < self.links@.len() implies (#[trigger] self.links@[y]).first_child <= self.links@[y].end_child <= self.links@.len() by {
                if y != x {
                    assert(self.links@[y] == before_links[y]);
                }
            }
        }
    }
}


impl MinMax {
    /// Alpha-beta search with the widest window: the pruned search returns exactly the
    /// plain minimax value of the node.
    pub fn search_value(&self, node_index: usize, depth_remaining: usize, maximizing_player: bool) -> (r: i64)
        requires
            self.wf(),
            node_index < self.links@.len(),
        ensures
            r == minimax(self.scores(), self.links@, node_index as int, depth_remaining as nat, maximizing_player),
    {
        proof {
            lemma_minimax_bounded(self.scores(), self.links@, node_index as int, depth_remaining as nat, maximizing_player);
        }
        self.minmax_score(node_index, depth_remaining, i64::MIN, i64::MAX, maximizing_player)
    }

    /// Replace the tree by the game tree below `board`, `depth` plies deep, the engine
    /// moving first.
    fn build_tree(&mut self, board: &Board)
        requires
            old(self).wf(),
        ensures
            final(self).wf(),
            final(self).color == old(self).color,
            final(self).depth == old(self).depth,
            final(self).links@.len() >= 1,
            final(self).evaluations@[0].board@ == board@,
            final(self).game_tree(),
            ({
                let moves = if old(self).depth > 0 {
                    searched_moves(board@, old(self).color)
                } else {
                    seq![]
                };
                let root = final(self).links@[0];
                &&& root.end_child - root.first_child == moves.len()
                &&& children_match(final(self).evaluations@, final(self).links@, root.first_child as int, moves)
            }),
    {
        self.evaluations = Vec::new();
        self.links = Vec::new();
        let root = BoardEvaluation::new(board.snapshot(), self.color, 0);
        self.evaluations.push(root);
        self.links.push(NodeLinks { first_child: 0, end_child: 0, pawn_index: 0, direction: Direction::Up });
        proof {
            assert(self.scores() =~= seq![root.score]);
        }
        let ghost moves = if self.depth > 0 { searched_moves(board@, self.color) } else { seq![] };
        let mut level_start: usize = 0;
        let mut level_end: usize = 1;
        let mut current_depth: usize = 0;
        while current_depth < self.depth
            invariant
                self.wf(),
                self.color == old(self).color,
                self.depth == old(self).depth,
                current_depth <= self.depth,
                level_start <= level_end <= self.links@.len(),
                self.links@.len() >= 1,
                self.evaluations@[0].board@ == board@,
                moves == if self.depth > 0 { searched_moves(board@, self.color) } else { seq![] },
                current_depth == 0 ==> level_start == 0 && level_end == 1 && self.links@[0].first_child == 0
                    && self.links@[0].end_child == 0 && self.links@.len() == 1,
                current_depth > 0 ==> level_start >= 1 && self.links@[0].first_child == 1
                    && self.links@[0].end_child == 1 + moves.len()
                    && children_match(self.evaluations@, self.links@, 1, moves),
                level_end == self.links@.len(),
                self.evaluations@[0].depth == 0,
                forall|y: int| 0 <= y < level_start ==> #[trigger] self.expanded_ok(y),
                forall|y: int| 0 <= y < level_start ==> (#[trigger] self.evaluations@[y]).depth < current_depth,
                forall|y: int| level_start <= y < self.links@.len() ==> #[trigger] fresh_leaf(self.evaluations@[y], self.links@[y], self.color, current_depth),
                forall|y: int| 0 <= y < level_start ==> (#[trigger] self.evaluations@[y]).color == self.color
                    && self.evaluations@[y].score == terminal_score(self.evaluations@[y].board@, self.color, self.evaluations@[y].depth as nat),
            decreases self.depth - current_depth,
        {
            let color_at_this_depth = if current_depth % 2 == 0 {
                self.color
            } else {
                self.color.other_color()
            };
            let next_start = self.links.len();
            let mut x = level_start;
            while x < level_end
                invariant
                    self.wf(),
                    self.color == old(self).color,
                    self.depth == old(self).depth,
                    current_depth < self.depth,
                    level_start <= x <= level_end,
                    level_end <= next_start <= self.links@.len(),
                    self.evaluations@[0].board@ == board@,
                    moves == if self.depth > 0 { searched_moves(board@, self.color) } else { seq![] },
                    current_depth == 0 ==> color_at_this_depth == self.color,
                    current_depth == 0 ==> level_start == 0 && level_end == 1 && next_start == 1,
                    current_depth == 0 && x == 0 ==> self.links@[0].first_child == 0 && self.links@[0].end_child == 0
                        && self.links@.len() == 1,
                    (current_depth > 0 || x > 0) ==> self.links@[0].first_child == 1
                        && self.links@[0].end_child == 1 + moves.len()
                        && children_match(self.evaluations@, self.links@, 1, moves),
                    current_depth > 0 ==> level_start >= 1,
                    level_end == next_start,
                    color_at_this_depth == mover_at(self.color, current_depth as nat),
                    self.evaluations@[0].depth == 0,
                    forall|y: int| 0 <= y < level_start ==> (#[trigger] self.evaluations@[y]).depth < current_depth,
                    forall|y: int| level_start <= y < x ==> (#[trigger] self.evaluations@[y]).depth == current_depth,
                    forall|y: int| 0 <= y < x ==> #[trigger] self.expanded_ok(y),
                    forall|y: int| x <= y < level_end ==> #[trigger] fresh_leaf(self.evaluations@[y], self.links@[y], self.color, current_depth),
                    forall|y: int| level_end <= y < self.links@.len() ==> #[trigger] fresh_leaf(self.evaluations@[y], self.links@[y], self.color, (current_depth + 1) as usize),
                    forall|y: int| 0 <= y < x ==> (#[trigger] self.evaluations@[y]).color == self.color
                        && self.evaluations@[y].score == terminal_score(self.evaluations@[y].board@, self.color, self.evaluations@[y].depth as nat),
                decreases level_end - x,
            {
                let ghost before_evals = self.evaluations@;
                let ghost before_links = self.links@;
                let ghost before = *self;
                self.expand_node(x, color_at_this_depth, current_depth + 1);
                proof {
                    let l = before_links.len() as int;
                    assert(fresh_leaf(before_evals[x as int], before_links[x as int], self.color, current_depth));
                    assert forall|y: int| 0 <= y < x + 1 implies #[trigger] self.expanded_ok(y) by {
                        if y < x {
                            lemma_expanded_ok_kept(&before, self, y, x as int);
                        } else {
                            assert forall|j: int| self.links@[y].first_child <= j < self.links@[y].end_child implies #[trigger] self.evaluations@[j].depth == self.evaluations@[y].depth + 1 by {
                                assert(fresh_leaf(self.evaluations@[j], self.links@[j], self.color, (current_depth + 1) as usize));
                            }
                        }
                    }
                    assert forall|y: int| x + 1 <= y < level_end implies #[trigger] fresh_leaf(self.evaluations@[y], self.links@[y], self.color, current_depth) by {
                        assert(fresh_leaf(before_evals[y], before_links[y], self.color, current_depth));
                    }
                    assert forall|y: int| level_end <= y < self.links@.len() implies #[trigger] fresh_leaf(self.evaluations@[y], self.links@[y], self.color, (current_depth + 1) as usize) by {
                        if y < l {
                            assert(fresh_leaf(before_evals[y], before_links[y], self.color, (current_depth + 1) as usize));
                        }
                    }
                    assert forall|y: int| 0 <= y < x + 1 implies (#[trigger] self.evaluations@[y]).color == self.color
                        && self.evaluations@[y].score == terminal_score(self.evaluations@[y].board@, self.color, self.evaluations@[y].depth as nat) by {
                        assert(self.evaluations@[y] == before_evals[y]);
                    }
                }
                proof {
                    if current_depth == 0 && x == 0 {
                        assert(before_evals[0].board@ == board@);
                        assert(moves == searched_moves(before_evals[0].board@, color_at_this_depth));
                        assert(self.links@[0].first_child == 1);
                        assert(self.links@.len() == 1 + moves.len());
                        assert(self.links@[0].end_child == 1 + moves.len());
                        assert(children_match(self.evaluations@, self.links@, 1, moves));
                    }
                    if current_depth > 0 || x > 0 {
                        assert(x != 0);
                        assert(self.links@[0] == before_links[0]);
                        assert forall|j: int| 0 <= j < moves.len() implies self.evaluations@[1 + j].board@ == (#[trigger] moves[j]).2
                            && self.links@[1 + j].pawn_index == moves[j].0 && self.links@[1 + j].direction == moves[j].1 by {
                            assert(self.evaluations@[1 + j] == before_evals[1 + j]);
                            assert(before_evals[1 + j].board@ == moves[j].2);
                            assert(self.links@[1 + j].pawn_index == before_links[1 + j].pawn_index);
                            assert(self.links@[1 + j].direction == before_links[1 + j].direction);
                        }
                    }
                }
                x = x + 1;
            }
            level_start = next_start;
            level_end = self.links.len();
            current_depth = current_depth + 1;
        }
        proof {
            assert forall|y: int| #![trigger self.evaluations@[y]] 0 <= y < self.evaluations@.len() implies ({
                let e = self.evaluations@[y];
                &&& e.color == self.color
                &&& e.score == terminal_score(e.board@, self.color, e.depth as nat)
                &&& e.depth <= self.depth
                &&& (e.depth < self.depth ==> self.expanded_ok(y))
                &&& (e.depth == self.depth ==> self.links@[y].first_child == self.links@[y].end_child)
            }) by {
                if y < level_start {
                    assert(self.expanded_ok(y));
                } else {
                    assert(fresh_leaf(self.evaluations@[y], self.links@[y], self.color, current_depth));
                }
            }
        }
    }

    /// Search `board` and weigh each move of the engine by its minimax value. Returns the
    /// best value found (at least 0) and, for each legal move in generation order, its
    /// weight, pawn and direction. The weight of a move is its value when positive, 1 for a
    /// draw and 0 for a loss; when every move loses, all weigh 1.
    pub fn give_all_options(&mut self, board: &Board) -> (r: (i64, Vec<(u64, usize, Direction)>))
        requires
            old(self).wf(),
        ensures
            final(self).wf(),
            final(self).game_tree(),
            final(self).color == old(self).color,
            final(self).depth == old(self).depth,
            final(self).evaluations@[0].board@ == board@,
            ({
                let moves = if old(self).depth > 0 {
                    searched_moves(board@, old(self).color)
                } else {
                    seq![]
                };
                let values = final(self).root_child_values();
                &&& values.len() == moves.len()
                &&& children_match(final(self).evaluations@, final(self).links@, final(self).links@[0].first_child as int, moves)
                &&& r.1@.len() == moves.len()
                &&& forall|j: int| 0 <= j < moves.len() ==> (#[trigger] r.1@[j]).1 == moves[j].0
                    && r.1@[j].2 == moves[j].1 && r.1@[j].0 == move_weights(values)[j]
                &&& r.0 == best_or_zero(values)
            }),
    {
        self.build_tree(board);
        let first = self.links[0].first_child;
        let end = self.links[0].end_child;
        let ghost values = self.root_child_values();
        let mut found: Vec<i64> = Vec::new();
        let mut best_minmax: i64 = 0;
        let mut any_not_losing = false;
        let mut c = first;
        while c < end
            invariant
                self.wf(),
                first == self.links@[0].first_child,
                end == self.links@[0].end_child,
                first <= c <= end <= self.links@.len(),
                end > first ==> self.depth > 0,
                values == self.root_child_values(),
                found@.len() == c - first,
                forall|t: int| 0 <= t < c - first ==> found@[t] == values[t],
                best_minmax == best_or_zero(values.take(c - first)),
                any_not_losing == exists|t: int| 0 <= t < c - first && values[t] >= 0,
                forall|t: int| 0 <= t < c - first ==> -WIN_BASE <= #[trigger] values[t] <= WIN_BASE,
                -WIN_BASE <= best_minmax <= WIN_BASE,
            decreases end - c,
        {
            let v = self.search_value(c, self.depth - 1, false);
            proof {
                lemma_minimax_bounded(self.scores(), self.links@, c as int, (self.depth - 1) as nat, false);
                let k = c - first;
                assert(values.take(k + 1).drop_last() == values.take(k));
                assert(values[k as int] == v);
            }
            found.push(v);
            if v > best_minmax {
                best_minmax = v;
            }
            if v >= 0 {
                any_not_losing = true;
            }
            c = c + 1;
        }
        proof {
            assert(values.take(end - first) == values);
        }
        let mut all_moves_found: Vec<(u64, usize, Direction)> = Vec::new();
        let n = found.len();
        let mut k: usize = 0;
        while k < n
            invariant
                self.wf(),
                n == found@.len(),
                n == values.len(),
                first == self.links@[0].first_child,
                first + n <= self.links@.len(),
                end == first + n,
                end <= self.links@.len(),
                k <= n,
                forall|t: int| 0 <= t < n ==> found@[t] == values[t],
                forall|t: int| 0 <= t < n ==> -WIN_BASE <= #[trigger] values[t] <= WIN_BASE,
                any_not_losing == exists|t: int| 0 <= t < n && values[t] >= 0,
                all_moves_found@.len() == k,
                forall|t: int| 0 <= t < k ==> (#[trigger] all_moves_found@[t]).0 == move_weights(values)[t]
                    && all_moves_found@[t].1 == self.links@[first + t].pawn_index
                    && all_moves_found@[t].2 == self.links@[first + t].direction,
            decreases n - k,
        {
            let v = found[k];
            let weight: u64 = if !any_not_losing {
                1
            } else if v == 0 {
                1
            } else if v < 0 {
                0
            } else {
                v as u64
            };
            let link = self.links[first + k];
            all_moves_found.push((weight, link.pawn_index, link.direction));
            k = k + 1;
        }
        (best_minmax, all_moves_found)
    }
}


impl MinMax {
    /// The engine's move on `board`: `None` when it is not the engine's turn or it has no
    /// move; otherwise one of the moves of greatest weight, drawn at random.
    pub fn ai_play<O: Platform>(&mut self, board: &Board) -> (r: Option<(usize, Direction)>)
        requires
            old(self).wf(),
        ensures
            final(self).wf(),
            final(self).color == old(self).color,
            final(self).depth == old(self).depth,
            r.is_some() <==> board@.next == Some(old(self).color) && searched_moves(board@, old(self).color).len() > 0,
            r.is_some() ==> final(self).game_tree() && final(self).evaluations@[0].board@ == board@,
            r.is_some() ==> ({
                let moves = searched_moves(board@, old(self).color);
                let values = final(self).root_child_values();
                &&& values.len() == moves.len()
                &&& exists|j: int| 0 <= j < moves.len() && moves[j].0 == r.unwrap().0 && moves[j].1 == r.unwrap().1
                    && forall|i: int| 0 <= i < moves.len() ==> values[i] <= values[j]
            }),
            r.is_some() ==> is_legal_pair(board@, r.unwrap().0, r.unwrap().1),
    {
        let is_turn = match board.next_player {
            Some(c) => c == self.color,
            None => false,
        };
        if !is_turn {
            return None;
        }
        let (_, options) = self.give_all_options(board);
        if options.len() == 0 {
            return None;
        }
        let by_value = self.root_value_options();
        let m = best_move_from_vec::<O>(&by_value);
        proof {
            let moves = searched_moves(board@, self.color);
            let values = self.root_child_values();
            lemma_top_weight_attained(by_value@);
            lemma_moves_weighing_source(by_value@, top_weight(by_value@), by_value@.len(), m);
            let j = choose|j: int| 0 <= j < by_value@.len() && by_value@[j].0 == top_weight(by_value@)
                && by_value@[j].1 == m.0 && by_value@[j].2 == m.1;
            assert forall|i: int| 0 <= i < moves.len() implies values[i] <= values[j] by {
                assert(by_value@[i].0 <= top_weight(by_value@));
            }
            assert(moves[j].0 == m.0);
            board@.lemma_color_moves_of_mover(self.color, board@.pawns.len());
            assert(moves[j] == board@.all_legal()[j]);
            assert(is_legal_move(board@, m.0, m.1, moves[j].2));
        }
        Some(m)
    }

    /// For each child of the root, in order: its minimax value raised by `WIN_BASE` (so that
    /// it is not negative), and its move.
    fn root_value_options(&self) -> (r: Vec<(u64, usize, Direction)>)
        requires
            self.wf(),
            self.links@.len() >= 1,
        ensures
            r@.len() == self.root_child_values().len(),
            forall|t: int| 0 <= t < r@.len() ==> (#[trigger] r@[t]).0 == self.root_child_values()[t] + WIN_BASE
                && r@[t].1 == self.links@[self.links@[0].first_child + t].pawn_index
                && r@[t].2 == self.links@[self.links@[0].first_child + t].direction,
    {
        let first = self.links[0].first_child;
        let end = self.links[0].end_child;
        let mut out: Vec<(u64, usize, Direction)> = Vec::new();
        let mut c = first;
        while c < end
            invariant
                self.wf(),
                self.links@.len() >= 1,
                first == self.links@[0].first_child,
                end == self.links@[0].end_child,
                first <= c <= end <= self.links@.len(),
                out@.len() == c - first,
                forall|t: int| 0 <= t < c - first ==> (#[trigger] out@[t]).0 == self.root_child_values()[t] + WIN_BASE
                    && out@[t].1 == self.links@[first + t].pawn_index
                    && out@[t].2 == self.links@[first + t].direction,
            decreases end - c,
        {
            let v = self.search_value(c, self.depth - 1, false);
            proof {
                lemma_minimax_bounded(self.scores(), self.links@, c as int, (self.depth - 1) as nat, false);
                assert(self.root_child_values()[c - first] == v);
            }
            let link = self.links[c];
            out.push(((v + WIN_BASE) as u64, link.pawn_index, link.direction));
            c = c + 1;
        }
        out
    }
}


/// Expanding node `x` leaves the children of every other node as they were.
proof fn lemma_expanded_ok_kept(a: &MinMax, b: &MinMax, y: int, x: int)
    requires
        a.wf(),
        a.expanded_ok(y),
        0 <= y < a.links@.len(),
        y != x,
        b.color == a.color,
        b.evaluations@.len() >= a.evaluations@.len(),
        b.links@.len() >= a.links@.len(),
        forall|z: int| 0 <= z < a.links@.len() ==> b.evaluations@[z] == a.evaluations@[z],
        forall|z: int| 0 <= z < a.links@.len() && z != x ==> b.links@[z] == a.links@[z],
        b.links@[x].pawn_index == a.links@[x].pawn_index,
        b.links@[x].direction == a.links@[x].direction,
    ensures
        b.expanded_ok(y),
{
    let e = a.evaluations@[y];
    let l = a.links@[y];
    let moves = searched_moves(e.board@, mover_at(a.color, e.depth as nat));
    assert(b.links@[y] == l);
    assert(l.end_child <= a.links@.len());
    assert forall|j: int| 0 <= j < moves.len() implies b.evaluations@[l.first_child + j].board@ == (#[trigger] moves[j]).2
        && b.links@[l.first_child + j].pawn_index == moves[j].0 && b.links@[l.first_child + j].direction == moves[j].1 by {
        let z = l.first_child + j;
        assert(b.evaluations@[z] == a.evaluations@[z]);
    }
    assert forall|j: int| l.first_child <= j < l.end_child implies #[trigger] b.evaluations@[j].depth == e.depth + 1 by {
        assert(b.evaluations@[j] == a.evaluations@[j]);
        assert(a.evaluations@[j].depth == e.depth + 1);
    }
}

} // verus!
