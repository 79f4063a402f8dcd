use vstd::prelude::*;
use crate::logic::{aligned, board_words, color_code, pawn_words, positions_of, BoardView, Color, Direction, Pawn, Position};

verus! {

/// On a valid board a step is allowed exactly when the cell ahead is free.
proof fn lemma_step_ok_iff_free(v: BoardView, i: int, dr: int, dc: int)
    requires
        v.is_valid(),
        0 <= i < v.pawns.len(),
    ensures
        v.step_ok(i, dr, dc) == v.free_cell(i, v.pawns[i].position.row + dr, v.pawns[i].position.column + dc),
{
    let r = v.pawns[i].position.row + dr;
    let c = v.pawns[i].position.column + dc;
    if 0 <= r < v.rows && 0 <= c < v.cols && r <= usize::MAX && c <= usize::MAX {
        let q = Position { row: r as usize, column: c as usize };
        let w = v.with_pawn_at(i, q);
        if v.free_cell(i, r, c) {
            assert forall|a: int, b: int| 0 <= a < b < w.pawns.len() implies w.pawns[a].position != w.pawns[b].position by {
                if a != i && b != i {
                    assert(w.pawns[a] == v.pawns[a]);
                    assert(w.pawns[b] == v.pawns[b]);
                } else if a == i {
                    assert(v.pawns[b].position != q);
                } else {
                    assert(v.pawns[a].position != q);
                }
            }
            assert forall|a: int| 0 <= a < w.pawns.len() implies w.in_bounds(#[trigger] w.pawns[a].position) by {
                if a != i {
                    assert(w.pawns[a] == v.pawns[a]);
                }
            }
        }
        if w.is_valid() {
            assert forall|j: int| 0 <= j < v.pawns.len() && j != i implies (#[trigger] v.pawns[j]).position != q by {
                assert(w.pawns[j] == v.pawns[j]);
                assert(w.pawns[i].position == q);
                if j < i {
                    assert(w.pawns[j].position != w.pawns[i].position);
                } else {
                    assert(w.pawns[i].position != w.pawns[j].position);
                }
            }
        }
    }
}

/// Stepping pawn `i` leaves the other pawns where they are.
proof fn lemma_stepped_keeps_others(v: BoardView, i: int, dr: int, dc: int, r: int, c: int)
    requires
        0 <= i < v.pawns.len(),
    ensures
        v.stepped(i, dr, dc).free_cell(i, r, c) == v.free_cell(i, r, c),
        v.stepped(i, dr, dc).pawns.len() == v.pawns.len(),
{
    let n = v.stepped(i, dr, dc);
    assert forall|j: int| 0 <= j < v.pawns.len() && j != i implies n.pawns[j] == v.pawns[j] by {}
    if n.free_cell(i, r, c) {
        assert forall|j: int| 0 <= j < v.pawns.len() && j != i implies (#[trigger] v.pawns[j]).position != (Position { row: r as usize, column: c as usize }) by {
            assert(n.pawns[j] == v.pawns[j]);
        }
    }
    if v.free_cell(i, r, c) {
        assert forall|j: int| 0 <= j < n.pawns.len() && j != i implies (#[trigger] n.pawns[j]).position != (Position { row: r as usize, column: c as usize }) by {
            assert(n.pawns[j] == v.pawns[j]);
        }
    }
}

/// Sliding pawn `i` in direction `d` moves it to the farthest cell reachable through free
/// cells: every cell on the way is free, the next one is not, and sliding again from the
/// result is refused.
pub proof fn lemma_slide_until_blocked(v: BoardView, i: int, d: Direction)
    requires
        v.is_valid(),
        0 <= i < v.pawns.len(),
    ensures
        v.slid(i, d.delta().0, d.delta().1) == v.with_pawn_at(i, v.slide_target(i, d)),
        forall|j: int| 1 <= j <= v.slide_distance(i, d.delta().0, d.delta().1) ==> #[trigger] v.free_cell(i, v.pawns[i].position.row + j * d.delta().0, v.pawns[i].position.column + j * d.delta().1),
        !v.free_cell(i, v.pawns[i].position.row + (v.slide_distance(i, d.delta().0, d.delta().1) + 1) * d.delta().0,
            v.pawns[i].position.column + (v.slide_distance(i, d.delta().0, d.delta().1) + 1) * d.delta().1),
        !v.slid(i, d.delta().0, d.delta().1).step_ok(i, d.delta().0, d.delta().1),
    decreases v.room(i, d.delta().0, d.delta().1),
{
    let dr = d.delta().0;
    let dc = d.delta().1;
    let p = v.pawns[i].position;
    lemma_step_ok_iff_free(v, i, dr, dc);
    if v.step_ok(i, dr, dc) {
        let n = v.stepped(i, dr, dc);
        v.lemma_step_shrinks_room(i, dr, dc);
        assert(n.is_valid());
        lemma_slide_until_blocked(n, i, d);
        let k2 = n.slide_distance(i, dr, dc) as int;
        let q = n.pawns[i].position;
        assert(q.row == p.row + dr && q.column == p.column + dc);
        let k = k2 + 1;
        assert(v.slide_distance(i, dr, dc) == k);
        let target = Position { row: (q.row + k2 * dr) as usize, column: (q.column + k2 * dc) as usize };
        assert(q.row + k2 * dr == p.row + k * dr) by (nonlinear_arith)
            requires q.row == p.row + dr, k == k2 + 1;
        assert(q.column + k2 * dc == p.column + k * dc) by (nonlinear_arith)
            requires q.column == p.column + dc, k == k2 + 1;
        assert(n.with_pawn_at(i, target).pawns =~= v.with_pawn_at(i, target).pawns);
        assert(n.with_pawn_at(i, target) == v.with_pawn_at(i, target));
        assert(v.slid(i, dr, dc) == n.slid(i, dr, dc));
        assert(target == v.slide_target(i, d));
        assert(n.slide_target(i, d) == target);
        assert(v.slid(i, dr, dc) == v.with_pawn_at(i, v.slide_target(i, d)));
        assert forall|j: int| 1 <= j <= k implies #[trigger] v.free_cell(i, p.row + j * dr, p.column + j * dc) by {
            if j == 1 {
            } else {
                let j2 = j - 1;
                assert(q.row + j2 * dr == p.row + j * dr) by (nonlinear_arith)
                    requires q.row == p.row + dr, j == j2 + 1;
                assert(q.column + j2 * dc == p.column + j * dc) by (nonlinear_arith)
                    requires q.column == p.column + dc, j == j2 + 1;
                assert(n.free_cell(i, q.row + j2 * dr, q.column + j2 * dc));
                lemma_stepped_keeps_others(v, i, dr, dc, p.row + j * dr, p.column + j * dc);
            }
        }
        assert(q.row + (k2 + 1) * dr == p.row + (k + 1) * dr) by (nonlinear_arith)
            requires q.row == p.row + dr, k == k2 + 1;
        assert(q.column + (k2 + 1) * dc == p.column + (k + 1) * dc) by (nonlinear_arith)
            requires q.column == p.column + dc, k == k2 + 1;
        lemma_stepped_keeps_others(v, i, dr, dc, p.row + (k + 1) * dr, p.column + (k + 1) * dc);
        assert(!v.free_cell(i, p.row + (k + 1) * dr, p.column + (k + 1) * dc));
    } else {
        assert(v.pawns.update(i, Pawn { color: v.pawns[i].color, position: p }) =~= v.pawns);
        assert(v.slide_distance(i, dr, dc) == 0);
        let k0 = v.slide_distance(i, dr, dc) as int;
        assert(k0 * dr == 0 && k0 * dc == 0) by (nonlinear_arith)
            requires k0 == 0;
        assert(v.slide_target(i, d).row == p.row);
        assert(v.slide_target(i, d) == p);
        assert(v.with_pawn_at(i, p) == v);
        assert((0 + 1) * dr == dr && (0 + 1) * dc == dc);
        assert(!v.free_cell(i, p.row + dr, p.column + dc));
    }
}


proof fn lemma_slid_valid(v: BoardView, i: int, dr: int, dc: int)
    requires
        0 <= i < v.pawns.len(),
        v.is_valid() || ((dr != 0 || dc != 0) && v.step_ok(i, dr, dc)),
    ensures
        v.slid(i, dr, dc).is_valid(),
    decreases v.room(i, dr, dc),
{
    if (dr != 0 || dc != 0) && v.step_ok(i, dr, dc) {
        v.lemma_step_shrinks_room(i, dr, dc);
        let n = v.stepped(i, dr, dc);
        assert(n.pawns.len() == v.pawns.len());
        lemma_slid_valid(n, i, dr, dc);
    }
}

proof fn lemma_play_valid(v: BoardView, i: int, d: Direction)
    requires
        0 <= i < v.pawns.len(),
    ensures
        v.play(i, d).is_some() ==> v.play(i, d).unwrap().is_valid(),
{
    if v.play(i, d).is_some() {
        lemma_slid_valid(v, i, d.delta().0, d.delta().1);
    }
}

proof fn lemma_legal_for_pawn_valid(v: BoardView, i: int, k: nat)
    requires
        0 <= i < v.pawns.len(),
    ensures
        forall|t: int| 0 <= t < v.legal_for_pawn_upto(i, k).len() ==> (#[trigger] v.legal_for_pawn_upto(i, k)[t]).1.is_valid(),
    decreases k,
{
    if k > 0 {
        lemma_legal_for_pawn_valid(v, i, (k - 1) as nat);
        let d = crate::logic::direction_order()[k - 1];
        lemma_play_valid(v, i, d);
        let prev = v.legal_for_pawn_upto(i, (k - 1) as nat);
        assert forall|t: int| 0 <= t < v.legal_for_pawn_upto(i, k).len() implies (#[trigger] v.legal_for_pawn_upto(i, k)[t]).1.is_valid() by {
            if t < prev.len() {
                assert(v.legal_for_pawn_upto(i, k)[t] == prev[t]);
            }
        }
    }
}

proof fn lemma_legal_upto_valid(v: BoardView, n: nat)
    requires
        n <= v.pawns.len(),
    ensures
        forall|t: int| 0 <= t < v.legal_upto(n).len() ==> (#[trigger] v.legal_upto(n)[t]).2.is_valid(),
    decreases n,
{
    if n > 0 {
        lemma_legal_upto_valid(v, (n - 1) as nat);
        lemma_legal_for_pawn_valid(v, n - 1, 8);
        let prev = v.legal_upto((n - 1) as nat);
        if v.next == Some(v.pawns[n - 1].color) {
            let pm = v.legal_for_pawn(n - 1);
            let mapped = pm.map_values(|m: (Direction, BoardView)| ((n - 1) as usize, m.0, m.1));
            assert forall|t: int| 0 <= t < v.legal_upto(n).len() implies (#[trigger] v.legal_upto(n)[t]).2.is_valid() by {
                if t >= prev.len() {
                    assert(v.legal_upto(n)[t] == mapped[t - prev.len()]);
                    assert(pm[t - prev.len()].1.is_valid());
                } else {
                    assert(v.legal_upto(n)[t] == prev[t]);
                }
            }
        }
    }
}

/// No generated move leads to an invalid board: every resulting board keeps its pawns on
/// the board and on distinct cells.
pub proof fn lemma_legal_moves_valid(v: BoardView)
    ensures
        forall|t: int| 0 <= t < v.all_legal().len() ==> (#[trigger] v.all_legal()[t]).2.is_valid(),
{
    lemma_legal_upto_valid(v, v.pawns.len());
}

/// Whether three positions are aligned does not depend on their order.
pub proof fn lemma_aligned_any_order(a: Position, b: Position, c: Position)
    ensures
        aligned(a, b, c) == aligned(b, a, c),
        aligned(a, b, c) == aligned(a, c, b),
        aligned(a, b, c) == aligned(b, c, a),
        aligned(a, b, c) == aligned(c, a, b),
        aligned(a, b, c) == aligned(c, b, a),
{
}

/// The board with every pawn moved by `f`, and the given size.
pub open spec fn map_board(v: BoardView, rows: nat, cols: nat, f: spec_fn(Position) -> Position) -> BoardView {
    BoardView {
        rows,
        cols,
        pawns: v.pawns.map_values(|p: Pawn| Pawn { color: p.color, position: f(p.position) }),
        next: v.next,
    }
}

/// Mirror image across the horizontal axis: row `r` becomes row `rows - 1 - r`.
pub open spec fn flip_rows(v: BoardView) -> BoardView {
    map_board(v, v.rows, v.cols, |p: Position| Position { row: (v.rows - 1 - p.row) as usize, column: p.column })
}

/// Mirror image across the vertical axis: column `c` becomes column `cols - 1 - c`.
pub open spec fn flip_columns(v: BoardView) -> BoardView {
    map_board(v, v.rows, v.cols, |p: Position| Position { row: p.row, column: (v.cols - 1 - p.column) as usize })
}

/// Mirror image across the main diagonal: rows become columns.
pub open spec fn transpose(v: BoardView) -> BoardView {
    map_board(v, v.cols, v.rows, |p: Position| Position { row: p.column, column: p.row })
}

proof fn lemma_positions_of_map(s: Seq<Pawn>, c: Color, f: spec_fn(Position) -> Position)
    ensures
        positions_of(s.map_values(|p: Pawn| Pawn { color: p.color, position: f(p.position) }), c)
            == positions_of(s, c).map_values(f),
    decreases s.len(),
{
    let g = |p: Pawn| Pawn { color: p.color, position: f(p.position) };
    if s.len() > 0 {
        lemma_positions_of_map(s.drop_last(), c, f);
        assert(s.map_values(g).drop_last() =~= s.drop_last().map_values(g));
        assert(positions_of(s.drop_last(), c).map_values(f).push(f(s.last().position))
            =~= positions_of(s.drop_last(), c).push(s.last().position).map_values(f));
    } else {
        assert(positions_of(s, c).map_values(f) =~= seq![]);
    }
}

proof fn lemma_map_board_winner(v: BoardView, w: BoardView, f: spec_fn(Position) -> Position)
    requires
        v.is_valid(),
        w.is_valid(),
        w.pawns == v.pawns.map_values(|p: Pawn| Pawn { color: p.color, position: f(p.position) }),
        forall|a: Position, b: Position, c: Position| v.in_bounds(a) && v.in_bounds(b) && v.in_bounds(c)
            ==> aligned(f(a), f(b), f(c)) == #[trigger] aligned(a, b, c),
    ensures
        w.winner() == v.winner(),
{
    assert(v.pawns.take(v.pawns.len() as int) =~= v.pawns);
    lemma_positions_of_map(v.pawns, Color::Green, f);
    lemma_positions_of_map(v.pawns, Color::Yellow, f);
    lemma_positions_of_in_bounds(v, v.pawns.len(), Color::Green);
    lemma_positions_of_in_bounds(v, v.pawns.len(), Color::Yellow);
    let g = positions_of(v.pawns, Color::Green);
    let y = positions_of(v.pawns, Color::Yellow);
    if g.len() == 3 {
        assert(v.in_bounds(g[0]) && v.in_bounds(g[1]) && v.in_bounds(g[2]));
        assert(aligned(f(g[0]), f(g[1]), f(g[2])) == aligned(g[0], g[1], g[2]));
    }
    if y.len() == 3 {
        assert(v.in_bounds(y[0]) && v.in_bounds(y[1]) && v.in_bounds(y[2]));
        assert(aligned(f(y[0]), f(y[1]), f(y[2])) == aligned(y[0], y[1], y[2]));
    }
    assert(w.color_aligned(Color::Green) == v.color_aligned(Color::Green));
    assert(w.color_aligned(Color::Yellow) == v.color_aligned(Color::Yellow));
}

proof fn lemma_positions_of_in_bounds(v: BoardView, n: nat, c: Color)
    requires
        v.is_valid(),
        n <= v.pawns.len(),
    ensures
        forall|t: int| 0 <= t < positions_of(v.pawns.take(n as int), c).len() ==> v.in_bounds(#[trigger] positions_of(v.pawns.take(n as int), c)[t]),
    decreases n,
{
    if n > 0 {
        lemma_positions_of_in_bounds(v, (n - 1) as nat, c);
        let tk = v.pawns.take(n as int);
        assert(tk.drop_last() =~= v.pawns.take(n - 1));
        assert(tk.last() == v.pawns[n - 1]);
        assert(v.in_bounds(v.pawns[n - 1].position));
        let prev = positions_of(v.pawns.take(n - 1), c);
        assert forall|t: int| 0 <= t < positions_of(tk, c).len() implies v.in_bounds(#[trigger] positions_of(tk, c)[t]) by {
            if t < prev.len() {
                assert(positions_of(tk, c)[t] == prev[t]);
            }
        }
    } else {
        assert(positions_of(v.pawns.take(0), c) =~= seq![]);
    }
    if n == v.pawns.len() {
        assert(v.pawns.take(n as int) =~= v.pawns);
    }
}

proof fn lemma_winner_symmetric_valid(v: BoardView)
    requires
        v.is_valid(),
        v.rows <= usize::MAX,
        v.cols <= usize::MAX,
    ensures
        flip_rows(v).winner() == v.winner(),
        flip_columns(v).winner() == v.winner(),
        transpose(v).winner() == v.winner(),
{
    lemma_positions_of_in_bounds(v, v.pawns.len(), Color::Green);
    assert(v.pawns.take(v.pawns.len() as int) =~= v.pawns);
    let fr = |p: Position| Position { row: (v.rows - 1 - p.row) as usize, column: p.column };
    let fc = |p: Position| Position { row: p.row, column: (v.cols - 1 - p.column) as usize };
    let ft = |p: Position| Position { row: p.column, column: p.row };
    assert forall|a: Position, b: Position| v.in_bounds(a) && v.in_bounds(b) && a != b implies #[trigger] fr(a) != #[trigger] fr(b) by {}
    assert forall|a: Position, b: Position| v.in_bounds(a) && v.in_bounds(b) && a != b implies #[trigger] fc(a) != #[trigger] fc(b) by {}
    assert forall|a: Position, b: Position| v.in_bounds(a) && v.in_bounds(b) && a != b implies #[trigger] ft(a) != #[trigger] ft(b) by {}
    assert forall|a: Position, b: Position, c: Position| v.in_bounds(a) && v.in_bounds(b) && v.in_bounds(c)
        implies aligned(fr(a), fr(b), fr(c)) == #[trigger] aligned(a, b, c) by {}
    assert forall|a: Position, b: Position, c: Position| v.in_bounds(a) && v.in_bounds(b) && v.in_bounds(c)
        implies aligned(fc(a), fc(b), fc(c)) == #[trigger] aligned(a, b, c) by {}
    assert forall|a: Position, b: Position, c: Position| v.in_bounds(a) && v.in_bounds(b) && v.in_bounds(c)
        implies aligned(ft(a), ft(b), ft(c)) == #[trigger] aligned(a, b, c) by {}
    lemma_map_valid(v, flip_rows(v), fr);
    lemma_map_valid(v, flip_columns(v), fc);
    lemma_map_valid(v, transpose(v), ft);
    lemma_map_board_winner(v, flip_rows(v), fr);
    lemma_map_board_winner(v, flip_columns(v), fc);
    lemma_map_board_winner(v, transpose(v), ft);
}

proof fn lemma_map_valid(v: BoardView, w: BoardView, f: spec_fn(Position) -> Position)
    requires
        v.is_valid(),
        w.pawns == v.pawns.map_values(|p: Pawn| Pawn { color: p.color, position: f(p.position) }),
        forall|a: Position| v.in_bounds(a) ==> w.in_bounds(#[trigger] f(a)),
        forall|a: Position, b: Position| v.in_bounds(a) && v.in_bounds(b) && a != b ==> #[trigger] f(a) != #[trigger] f(b),
    ensures
        w.is_valid(),
{
    assert forall|i: int| 0 <= i < w.pawns.len() implies w.in_bounds(#[trigger] w.pawns[i].position) by {
        assert(v.in_bounds(v.pawns[i].position));
    }
    assert forall|i: int, j: int| 0 <= i < j < w.pawns.len() implies w.pawns[i].position != w.pawns[j].position by {
        assert(v.in_bounds(v.pawns[i].position));
        assert(v.in_bounds(v.pawns[j].position));
        assert(v.pawns[i].position != v.pawns[j].position);
    }
}


proof fn lemma_pawn_words_len(s: Seq<Pawn>)
    ensures
        pawn_words(s).len() == 3 * s.len(),
    decreases s.len(),
{
    if s.len() > 0 {
        lemma_pawn_words_len(s.drop_last());
    }
}

proof fn lemma_pawn_words_injective(s: Seq<Pawn>, t: Seq<Pawn>)
    requires
        pawn_words(s) == pawn_words(t),
    ensures
        s == t,
    decreases s.len(),
{
    lemma_pawn_words_len(s);
    lemma_pawn_words_len(t);
    if s.len() == 0 {
        assert(s =~= t);
    } else {
        let ws = pawn_words(s.drop_last());
        let wt = pawn_words(t.drop_last());
        lemma_pawn_words_len(s.drop_last());
        lemma_pawn_words_len(t.drop_last());
        let n = ws.len() as int;
        assert(pawn_words(s).subrange(0, n) =~= ws);
        assert(pawn_words(t).subrange(0, n) =~= wt);
        lemma_pawn_words_injective(s.drop_last(), t.drop_last());
        assert(pawn_words(s)[n] == color_code(Some(s.last().color)));
        assert(pawn_words(t)[n] == color_code(Some(t.last().color)));
        assert(pawn_words(s)[n + 1] == s.last().position.row as u64);
        assert(pawn_words(t)[n + 1] == t.last().position.row as u64);
        assert(pawn_words(s)[n + 2] == s.last().position.column as u64);
        assert(pawn_words(t)[n + 2] == t.last().position.column as u64);
        assert(s.last() == t.last());
        assert(s =~= s.drop_last().push(s.last()));
        assert(t =~= t.drop_last().push(t.last()));
    }
}

/// Two boards with the same content words are the same board: the content hash is taken
/// of a complete description.
pub proof fn lemma_board_words_injective(a: BoardView, b: BoardView)
    requires
        a.rows <= usize::MAX,
        a.cols <= usize::MAX,
        b.rows <= usize::MAX,
        b.cols <= usize::MAX,
        board_words(a) == board_words(b),
    ensures
        a == b,
{
    let ha = seq![a.rows as u64, a.cols as u64, color_code(a.next)];
    let hb = seq![b.rows as u64, b.cols as u64, color_code(b.next)];
    assert(board_words(a).subrange(0, 3) =~= ha);
    assert(board_words(b).subrange(0, 3) =~= hb);
    assert(board_words(a).subrange(3, board_words(a).len() as int) =~= pawn_words(a.pawns));
    assert(board_words(b).subrange(3, board_words(b).len() as int) =~= pawn_words(b.pawns));
    lemma_pawn_words_injective(a.pawns, b.pawns);
    assert(ha[2] == hb[2]);
}


/// The winner of a board is the same in its mirror image across the main diagonal, and,
/// when every pawn is on the board (so that the mirror images exist), across either axis.
pub proof fn lemma_winner_symmetric(v: BoardView)
    requires
        v.rows <= usize::MAX,
        v.cols <= usize::MAX,
    ensures
        transpose(v).winner() == v.winner(),
        (forall|i: int| 0 <= i < v.pawns.len() ==> v.in_bounds(#[trigger] v.pawns[i].position))
            ==> flip_rows(v).winner() == v.winner() && flip_columns(v).winner() == v.winner(),
{
    if v.is_valid() {
        lemma_winner_symmetric_valid(v);
    } else {
        let t = transpose(v);
        if exists|i: int| 0 <= i < v.pawns.len() && !v.in_bounds(#[trigger] v.pawns[i].position) {
            let i = choose|i: int| 0 <= i < v.pawns.len() && !v.in_bounds(#[trigger] v.pawns[i].position);
            assert(!t.in_bounds(t.pawns[i].position));
        } else {
            let (i, j) = choose|i: int, j: int| 0 <= i < j < v.pawns.len() && v.pawns[i].position == v.pawns[j].position;
            assert(t.pawns[i].position == t.pawns[j].position);
            let fr = flip_rows(v);
            let fc = flip_columns(v);
            assert(fr.pawns[i].position == fr.pawns[j].position);
            assert(fc.pawns[i].position == fc.pawns[j].position);
        }
    }
}


proof fn lemma_direction_order_ordinals()
    ensures
        forall|k: int| 0 <= k < 8 ==> (#[trigger] crate::logic::direction_order()[k]).ordinal() == k,
{
    let o = crate::logic::direction_order();
    assert(o[0].ordinal() == 0 && o[1].ordinal() == 1 && o[2].ordinal() == 2 && o[3].ordinal() == 3);
    assert(o[4].ordinal() == 4 && o[5].ordinal() == 5 && o[6].ordinal() == 6 && o[7].ordinal() == 7);
}

proof fn lemma_pawn_moves_ordered(v: BoardView, i: int, k: nat)
    requires
        k <= 8,
    ensures
        forall|t: int| 0 <= t < v.legal_for_pawn_upto(i, k).len() ==> (#[trigger] v.legal_for_pawn_upto(i, k)[t]).0.ordinal() < k,
        forall|s: int, t: int| 0 <= s < t < v.legal_for_pawn_upto(i, k).len()
            ==> (#[trigger] v.legal_for_pawn_upto(i, k)[s]).0.ordinal() < (#[trigger] v.legal_for_pawn_upto(i, k)[t]).0.ordinal(),
    decreases k,
{
    if k > 0 {
        lemma_pawn_moves_ordered(v, i, (k - 1) as nat);
        lemma_direction_order_ordinals();
        let prev = v.legal_for_pawn_upto(i, (k - 1) as nat);
        let cur = v.legal_for_pawn_upto(i, k);
        assert forall|t: int| 0 <= t < cur.len() implies (#[trigger] cur[t]).0.ordinal() < k by {
            if t < prev.len() {
                assert(cur[t] == prev[t]);
            }
        }
        assert forall|s: int, t: int| 0 <= s < t < cur.len() implies (#[trigger] cur[s]).0.ordinal() < (#[trigger] cur[t]).0.ordinal() by {
            assert(cur[s] == prev[s]);
            if t < prev.len() {
                assert(cur[t] == prev[t]);
            }
        }
    }
}

proof fn lemma_moves_ordered(v: BoardView, n: nat)
    requires
        n <= v.pawns.len(),
        v.pawns.len() <= usize::MAX,
    ensures
        forall|t: int| 0 <= t < v.legal_upto(n).len() ==> (#[trigger] v.legal_upto(n)[t]).0 < n,
        forall|s: int, t: int| 0 <= s < t < v.legal_upto(n).len() ==> ({
            let a = #[trigger] v.legal_upto(n)[s];
            let b = #[trigger] v.legal_upto(n)[t];
            a.0 < b.0 || (a.0 == b.0 && a.1.ordinal() < b.1.ordinal())
        }),
    decreases n,
{
    if n > 0 {
        lemma_moves_ordered(v, (n - 1) as nat);
        lemma_pawn_moves_ordered(v, n - 1, 8);
        let prev = v.legal_upto((n - 1) as nat);
        let cur = v.legal_upto(n);
        if v.next == Some(v.pawns[n - 1].color) {
            let pm = v.legal_for_pawn(n - 1);
            let mapped = pm.map_values(|m: (Direction, BoardView)| ((n - 1) as usize, m.0, m.1));
            assert(cur == prev + mapped);
            assert forall|t: int| 0 <= t < cur.len() implies (#[trigger] cur[t]).0 < n by {
                if t < prev.len() {
                    assert(cur[t] == prev[t]);
                } else {
                    assert(cur[t] == mapped[t - prev.len()]);
                }
            }
            assert forall|s: int, t: int| 0 <= s < t < cur.len() implies ({
                let a = #[trigger] cur[s];
                let b = #[trigger] cur[t];
                a.0 < b.0 || (a.0 == b.0 && a.1.ordinal() < b.1.ordinal())
            }) by {
                if t < prev.len() {
                    assert(cur[s] == prev[s] && cur[t] == prev[t]);
                } else if s < prev.len() {
                    assert(cur[s] == prev[s]);
                    assert(prev[s].0 < n - 1);
                    assert(cur[t] == mapped[t - prev.len()]);
                    assert(cur[t].0 == n - 1);
                } else {
                    let pk = v.legal_for_pawn_upto(n - 1, 8);
                    assert(pm == pk);
                    assert(cur[s] == mapped[s - prev.len()]);
                    assert(cur[t] == mapped[t - prev.len()]);
                    assert(pk[s - prev.len()].0.ordinal() < pk[t - prev.len()].0.ordinal());
                }
            }
        } else {
            assert(cur == prev);
        }
    }
}

/// No move is generated twice: the (pawn, direction) pairs of the legal moves are distinct.
pub proof fn lemma_legal_moves_distinct(v: BoardView)
    requires
        v.pawns.len() <= usize::MAX,
    ensures
        forall|s: int, t: int| 0 <= s < t < v.all_legal().len() ==>
            ((#[trigger] v.all_legal()[s]).0, v.all_legal()[s].1) != ((#[trigger] v.all_legal()[t]).0, v.all_legal()[t].1),
{
    lemma_moves_ordered(v, v.pawns.len());
}


proof fn lemma_pawn_moves_are_plays(v: BoardView, i: int, k: nat)
    ensures
        forall|t: int| 0 <= t < v.legal_for_pawn_upto(i, k).len() ==>
            v.play(i, (#[trigger] v.legal_for_pawn_upto(i, k)[t]).0) == Some(v.legal_for_pawn_upto(i, k)[t].1),
    decreases k,
{
    if k > 0 {
        lemma_pawn_moves_are_plays(v, i, (k - 1) as nat);
        let prev = v.legal_for_pawn_upto(i, (k - 1) as nat);
        let cur = v.legal_for_pawn_upto(i, k);
        assert forall|t: int| 0 <= t < cur.len() implies v.play(i, (#[trigger] cur[t]).0) == Some(cur[t].1) by {
            if t < prev.len() {
                assert(cur[t] == prev[t]);
            }
        }
    }
}

proof fn lemma_moves_are_plays(v: BoardView, n: nat)
    requires
        n <= v.pawns.len(),
        v.pawns.len() <= usize::MAX,
    ensures
        forall|t: int| 0 <= t < v.legal_upto(n).len() ==> {
            let m = #[trigger] v.legal_upto(n)[t];
            &&& m.0 < n
            &&& v.play(m.0 as int, m.1) == Some(m.2)
        },
    decreases n,
{
    if n > 0 {
        lemma_moves_are_plays(v, (n - 1) as nat);
        lemma_pawn_moves_are_plays(v, n - 1, 8);
        let prev = v.legal_upto((n - 1) as nat);
        let cur = v.legal_upto(n);
        if v.next == Some(v.pawns[n - 1].color) {
            let pm = v.legal_for_pawn(n - 1);
            let mapped = pm.map_values(|m: (Direction, BoardView)| ((n - 1) as usize, m.0, m.1));
            assert(cur == prev + mapped);
            assert forall|t: int| 0 <= t < cur.len() implies {
                let m = #[trigger] cur[t];
                &&& m.0 < n
                &&& v.play(m.0 as int, m.1) == Some(m.2)
            } by {
                if t < prev.len() {
                    assert(cur[t] == prev[t]);
                } else {
                    let u = t - prev.len();
                    assert(cur[t] == mapped[u]);
                    assert(pm == v.legal_for_pawn_upto(n - 1, 8));
                    assert(v.play(n - 1, pm[u].0) == Some(pm[u].1));
                }
            }
        } else {
            assert(cur == prev);
        }
    }
}

/// On a valid board, a legal move of pawn `i` leaves the other pawns in place and moves pawn
/// `i` at least one cell.
proof fn lemma_play_moves_one_pawn(v: BoardView, i: int, d: Direction)
    requires
        v.is_valid(),
        0 <= i < v.pawns.len(),
        v.play(i, d).is_some(),
    ensures
        v.play(i, d).unwrap().pawns == v.pawns.update(i, Pawn { color: v.pawns[i].color, position: v.slide_target(i, d) }),
        v.slide_distance(i, d.delta().0, d.delta().1) >= 1,
        v.play(i, d).unwrap().is_valid(),
{
    lemma_slide_until_blocked(v, i, d);
    lemma_play_valid(v, i, d);
}

/// On a valid board, no two legal moves lead to the same board.
pub proof fn lemma_legal_boards_distinct(v: BoardView)
    requires
        v.is_valid(),
        v.pawns.len() <= usize::MAX,
    ensures
        forall|s: int, t: int| 0 <= s < t < v.all_legal().len() ==> (#[trigger] v.all_legal()[s]).2 != (#[trigger] v.all_legal()[t]).2,
{
    lemma_moves_ordered(v, v.pawns.len());
    lemma_moves_are_plays(v, v.pawns.len());
    assert forall|s: int, t: int| 0 <= s < t < v.all_legal().len() implies (#[trigger] v.all_legal()[s]).2 != (#[trigger] v.all_legal()[t]).2 by {
        let a = v.all_legal()[s];
        let b = v.all_legal()[t];
        let i = a.0 as int;
        let j = b.0 as int;
        lemma_play_moves_one_pawn(v, i, a.1);
        lemma_play_moves_one_pawn(v, j, b.1);
        lemma_slide_until_blocked(v, i, a.1);
        lemma_slide_until_blocked(v, j, b.1);
        let p = v.pawns[i].position;
        let ta = v.slide_target(i, a.1);
        let ka = v.slide_distance(i, a.1.delta().0, a.1.delta().1) as int;
        let kb = v.slide_distance(j, b.1.delta().0, b.1.delta().1) as int;
        // The cells on the way are on the board, so the target's coordinates are exact.
        assert(v.free_cell(i, p.row + ka * a.1.delta().0, p.column + ka * a.1.delta().1));
        assert(a.2.pawns[i].position == ta);
        assert(a.2.in_bounds(a.2.pawns[i].position));
        assert(v.in_bounds(p));
        if i != j {
            assert(b.2.pawns[i] == v.pawns[i]);
            assert(ta.row == p.row + ka * a.1.delta().0 && ta.column == p.column + ka * a.1.delta().1);
            assert(ta != p) by (nonlinear_arith)
                requires
                    ta.row == p.row + ka * a.1.delta().0,
                    ta.column == p.column + ka * a.1.delta().1,
                    ka >= 1,
                    a.1.delta().0 != 0 || a.1.delta().1 != 0;
        } else {
            let tb = v.slide_target(j, b.1);
            assert(v.free_cell(j, p.row + kb * b.1.delta().0, p.column + kb * b.1.delta().1));
            assert(b.2.pawns[i].position == tb);
            assert(b.2.in_bounds(b.2.pawns[i].position));
            assert(a.1 != b.1);
            assert(ta.row == p.row + ka * a.1.delta().0 && ta.column == p.column + ka * a.1.delta().1);
            assert(tb.row == p.row + kb * b.1.delta().0 && tb.column == p.column + kb * b.1.delta().1);
            lemma_steps_differ(ka, kb, a.1, b.1);
        }
    }
}


/// Going one or more steps in two different directions never lands on the same offset.
proof fn lemma_steps_differ(ka: int, kb: int, d1: Direction, d2: Direction)
    requires
        ka >= 1,
        kb >= 1,
        d1 != d2,
    ensures
        ka * d1.delta().0 != kb * d2.delta().0 || ka * d1.delta().1 != kb * d2.delta().1,
{
    let (r1, c1) = d1.delta();
    let (r2, c2) = d2.delta();
    assert(r1 != r2 || c1 != c2);
    if r1 == 0 {
        assert(ka * r1 == 0);
    } else {
        assert(ka * r1 != 0) by (nonlinear_arith)
            requires ka >= 1, r1 != 0;
    }
    if r2 == 0 {
        assert(kb * r2 == 0);
    } else {
        assert(kb * r2 != 0) by (nonlinear_arith)
            requires kb >= 1, r2 != 0;
    }
    if c1 == 0 {
        assert(ka * c1 == 0);
    } else {
        assert(ka * c1 != 0) by (nonlinear_arith)
            requires ka >= 1, c1 != 0;
    }
    if c2 == 0 {
        assert(kb * c2 == 0);
    } else {
        assert(kb * c2 != 0) by (nonlinear_arith)
            requires kb >= 1, c2 != 0;
    }
    if ka * r1 == kb * r2 && ka * c1 == kb * c2 {
        assert(false) by (nonlinear_arith)
            requires
                ka >= 1, kb >= 1,
                -1 <= r1 <= 1, -1 <= r2 <= 1, -1 <= c1 <= 1, -1 <= c2 <= 1,
                r1 != 0 || c1 != 0,
                r1 != r2 || c1 != c2,
                ka * r1 == kb * r2, ka * c1 == kb * c2;
    }
}

} // verus!
