use vstd::prelude::*;

verus! {

/// The two sides of the game.
#[derive(PartialEq, Eq, Hash, Clone, Copy, Debug, Structural)]
pub enum Color {
    Yellow,
    Green,
}

impl Color {
    pub open spec fn other(self) -> Color {
        match self {
            Color::Green => Color::Yellow,
            Color::Yellow => Color::Green,
        }
    }

    /// The opposite color.
    pub fn other_color(&self) -> (r: Color)
        ensures
            r == self.other(),
    {
        match self {
            Color::Green => Color::Yellow,
            Color::Yellow => Color::Green,
        }
    }
}

/// A cell of the board, counted from the top-left corner.
#[derive(PartialEq, Eq, Hash, Clone, Copy, Debug, Structural)]
pub struct Position {
    pub row: usize,
    pub column: usize,
}

#[derive(PartialEq, Eq, Hash, Clone, Copy, Debug, Structural)]
pub struct Pawn {
    pub color: Color,
    pub position: Position,
}

impl Pawn {
    pub fn new(color: Color, position: Position) -> (r: Pawn)
        ensures
            r == (Pawn { color, position }),
    {
        Pawn { color, position }
    }
}

/// The eight directions a pawn can slide in. Rows grow downwards.
#[derive(PartialEq, Eq, Hash, Clone, Copy, Debug, Structural)]
pub enum Direction {
    Up,
    Down,
    Left,
    Right,
    UpLeft,
    UpRight,
    DownLeft,
    DownRight,
}

/// The canonical order in which directions are tried.
pub open spec fn direction_order() -> Seq<Direction> {
    seq![
        Direction::Up,
        Direction::Down,
        Direction::Left,
        Direction::Right,
        Direction::UpLeft,
        Direction::UpRight,
        Direction::DownLeft,
        Direction::DownRight,
    ]
}

/// The direction with the given delta, if the delta is a unit step.
pub open spec fn direction_of_delta(dr: int, dc: int) -> Direction
    recommends
        -1 <= dr <= 1,
        -1 <= dc <= 1,
        dr != 0 || dc != 0,
{
    if dr == -1 && dc == 0 {
        Direction::Up
    } else if dr == 1 && dc == 0 {
        Direction::Down
    } else if dr == 0 && dc == -1 {
        Direction::Left
    } else if dr == 0 && dc == 1 {
        Direction::Right
    } else if dr == -1 && dc == -1 {
        Direction::UpLeft
    } else if dr == -1 && dc == 1 {
        Direction::UpRight
    } else if dr == 1 && dc == -1 {
        Direction::DownLeft
    } else {
        Direction::DownRight
    }
}

/// Turning a delta a quarter turn clockwise.
pub open spec fn rotated_delta(d: (int, int)) -> (int, int) {
    (d.1, -d.0)
}

pub open spec fn rotated_delta_times(d: (int, int), n: nat) -> (int, int)
    decreases n,
{
    if n == 0 {
        d
    } else {
        rotated_delta(rotated_delta_times(d, (n - 1) as nat))
    }
}

impl Direction {
    /// The (row, column) change of one step in this direction.
    pub open spec fn delta(self) -> (int, int) {
        match self {
            Direction::Up => (-1, 0),
            Direction::Down => (1, 0),
            Direction::Left => (0, -1),
            Direction::Right => (0, 1),
            Direction::UpLeft => (-1, -1),
            Direction::UpRight => (-1, 1),
            Direction::DownLeft => (1, -1),
            Direction::DownRight => (1, 1),
        }
    }

    /// Position of this direction in the canonical order.
    pub open spec fn ordinal(self) -> nat {
        match self {
            Direction::Up => 0,
            Direction::Down => 1,
            Direction::Left => 2,
            Direction::Right => 3,
            Direction::UpLeft => 4,
            Direction::UpRight => 5,
            Direction::DownLeft => 6,
            Direction::DownRight => 7,
        }
    }

    /// The direction at index `k` of the canonical order.
    pub fn nth(k: usize) -> (r: Direction)
        requires
            k < 8,
        ensures
            r == direction_order()[k as int],
            r.ordinal() == k,
    {
        match k {
            0 => Direction::Up,
            1 => Direction::Down,
            2 => Direction::Left,
            3 => Direction::Right,
            4 => Direction::UpLeft,
            5 => Direction::UpRight,
            6 => Direction::DownLeft,
            _ => Direction::DownRight,
        }
    }

    /// Index of this direction in the canonical order.
    pub fn index(&self) -> (r: usize)
        ensures
            r == self.ordinal(),
            r < 8,
    {
        match self {
            Direction::Up => 0,
            Direction::Down => 1,
            Direction::Left => 2,
            Direction::Right => 3,
            Direction::UpLeft => 4,
            Direction::UpRight => 5,
            Direction::DownLeft => 6,
            Direction::DownRight => 7,
        }
    }

    /// The row and column increments of one step.
    pub fn increments(&self) -> (r: (isize, isize))
        ensures
            r.0 as int == self.delta().0,
            r.1 as int == self.delta().1,
    {
        match self {
            Direction::Up => (-1, 0),
            Direction::Down => (1, 0),
            Direction::Left => (0, -1),
            Direction::Right => (0, 1),
            Direction::UpLeft => (-1, -1),
            Direction::UpRight => (-1, 1),
            Direction::DownLeft => (1, -1),
            Direction::DownRight => (1, 1),
        }
    }

    /// Mirror the direction: `horizontal` swaps up and down, `vertical` swaps left and right.
    pub fn flip(&self, horizontal: bool, vertical: bool) -> (r: Direction)
        ensures
            r.delta().0 == if horizontal { -self.delta().0 } else { self.delta().0 },
            r.delta().1 == if vertical { -self.delta().1 } else { self.delta().1 },
    {
        let mut after_horizontal_flip = *self;
        if horizontal {
            after_horizontal_flip = match self {
                Direction::Up => Direction::Down,
                Direction::UpRight => Direction::DownRight,
                Direction::Right => Direction::Right,
                Direction::DownRight => Direction::UpRight,
                Direction::Down => Direction::Up,
                Direction::DownLeft => Direction::UpLeft,
                Direction::Left => Direction::Left,
                Direction::UpLeft => Direction::DownLeft,
            };
        }
        let mut after_vertical_flip = after_horizontal_flip;
        if vertical {
            after_vertical_flip = match after_horizontal_flip {
                Direction::Up => Direction::Up,
                Direction::UpRight => Direction::UpLeft,
                Direction::Right => Direction::Left,
                Direction::DownRight => Direction::DownLeft,
                Direction::Down => Direction::Down,
                Direction::DownLeft => Direction::DownRight,
                Direction::Left => Direction::Right,
                Direction::UpLeft => Direction::UpRight,
            };
        }
        after_vertical_flip
    }

    fn rotate_clockwise_once(&self) -> (r: Direction)
        ensures
            r.delta() == rotated_delta(self.delta()),
    {
        match self {
            Direction::Up => Direction::Right,
            Direction::UpRight => Direction::DownRight,
            Direction::Right => Direction::Down,
            Direction::DownRight => Direction::DownLeft,
            Direction::Down => Direction::Left,
            Direction::DownLeft => Direction::UpLeft,
            Direction::Left => Direction::Up,
            Direction::UpLeft => Direction::UpRight,
        }
    }

    /// Turn the direction clockwise by the given number of quarter turns (negative turns
    /// go counter-clockwise).
    pub fn rotate_clockwise(&self, quarter_turns: i32) -> (r: Direction)
        ensures
            r.delta() == rotated_delta_times(self.delta(), (quarter_turns as int % 4) as nat),
    {
        let m: i32 = quarter_turns % 4;
        let turns: i32 = if m < 0 { m + 4 } else { m };
        assert(turns as int == quarter_turns as int % 4);
        let mut resulting_direction = *self;
        let mut done: i32 = 0;
        while done < turns
            invariant
                0 <= done <= turns,
                turns < 4,
                resulting_direction.delta() == rotated_delta_times(self.delta(), done as nat),
            decreases turns - done,
        {
            resulting_direction = resulting_direction.rotate_clockwise_once();
            done = done + 1;
        }
        resulting_direction
    }

    /// Mirror the direction across the up-left/down-right diagonal, then across the
    /// up-right/down-left diagonal, each when asked.
    pub fn flip_diagonal(&self, upleft_downright_diag: bool, upright_downleft_diag: bool) -> (r:
        Direction)
        ensures
            ({
                let d1 = if upleft_downright_diag {
                    (self.delta().1, self.delta().0)
                } else {
                    self.delta()
                };
                r.delta() == if upright_downleft_diag {
                    (-d1.1, -d1.0)
                } else {
                    d1
                }
            }),
    {
        let mut after_upleft_flip = *self;
        proof {
            reveal_with_fuel(rotated_delta_times, 2);
        }
        if upleft_downright_diag {
            after_upleft_flip = after_upleft_flip.rotate_clockwise(1).flip(false, true);
        }
        let mut after_upright_flip = after_upleft_flip;
        if upright_downleft_diag {
            after_upright_flip = after_upright_flip.rotate_clockwise(1).flip(true, false);
        }
        after_upright_flip
    }
}


/// A game position: the board's size, the pawns in a fixed order and whose turn it is.
/// `next_player` is `None` once the game is over.
#[derive(Clone, Debug, PartialEq, Hash)]
pub struct Board {
    pub number_of_rows: usize,
    pub number_of_columns: usize,
    pub pawns: Vec<Pawn>,
    pub next_player: Option<Color>,
}

/// The mathematical content of a [`Board`].
pub struct BoardView {
    pub rows: nat,
    pub cols: nat,
    pub pawns: Seq<Pawn>,
    pub next: Option<Color>,
}

impl View for Board {
    type V = BoardView;

    open spec fn view(&self) -> BoardView {
        BoardView {
            rows: self.number_of_rows as nat,
            cols: self.number_of_columns as nat,
            pawns: self.pawns@,
            next: self.next_player,
        }
    }
}

/// Three positions form a contiguous line with `m` in the middle.
pub open spec fn middle_of(a: Position, m: Position, c: Position) -> bool {
    let dr = m.row as int - a.row as int;
    let dc = m.column as int - a.column as int;
    &&& c.row as int - m.row as int == dr
    &&& c.column as int - m.column as int == dc
    &&& -1 <= dr <= 1
    &&& -1 <= dc <= 1
    &&& (dr != 0 || dc != 0)
}

/// Three positions are aligned: same row, column or diagonal, with no gap.
pub open spec fn aligned(a: Position, b: Position, c: Position) -> bool {
    middle_of(a, b, c) || middle_of(b, a, c) || middle_of(a, c, b)
}

/// The positions of the pawns of color `c`, in pawn order.
pub open spec fn positions_of(s: Seq<Pawn>, c: Color) -> Seq<Position>
    decreases s.len(),
{
    if s.len() == 0 {
        seq![]
    } else {
        let rest = positions_of(s.drop_last(), c);
        if s.last().color == c {
            rest.push(s.last().position)
        } else {
            rest
        }
    }
}

impl BoardView {
    pub open spec fn in_bounds(self, p: Position) -> bool {
        p.row < self.rows && p.column < self.cols
    }

    /// Every pawn is on the board and no two pawns share a cell.
    pub open spec fn is_valid(self) -> bool {
        &&& forall|i: int| 0 <= i < self.pawns.len() ==> self.in_bounds(#[trigger] self.pawns[i].position)
        &&& forall|i: int, j: int|
            0 <= i < j < self.pawns.len() ==> self.pawns[i].position != self.pawns[j].position
    }

    /// The three pawns of color `c` are aligned.
    pub open spec fn color_aligned(self, c: Color) -> bool {
        let ps = positions_of(self.pawns, c);
        ps.len() == 3 && aligned(ps[0], ps[1], ps[2])
    }

    pub open spec fn winner(self) -> Option<Color> {
        if !self.is_valid() {
            None
        } else if self.color_aligned(Color::Green) {
            Some(Color::Green)
        } else if self.color_aligned(Color::Yellow) {
            Some(Color::Yellow)
        } else {
            None
        }
    }

    /// The board with pawn `i` put on `p`.
    pub open spec fn with_pawn_at(self, i: int, p: Position) -> BoardView {
        BoardView {
            pawns: self.pawns.update(i, Pawn { color: self.pawns[i].color, position: p }),
            ..self
        }
    }

    /// One step of pawn `i` by `(dr, dc)` lands on the board, on a free cell of a valid board.
    pub open spec fn step_ok(self, i: int, dr: int, dc: int) -> bool {
        let r = self.pawns[i].position.row + dr;
        let c = self.pawns[i].position.column + dc;
        &&& 0 <= r < self.rows
        &&& 0 <= c < self.cols
        &&& r <= usize::MAX
        &&& c <= usize::MAX
        &&& self.with_pawn_at(i, Position { row: r as usize, column: c as usize }).is_valid()
    }

    pub open spec fn stepped(self, i: int, dr: int, dc: int) -> BoardView {
        let r = self.pawns[i].position.row + dr;
        let c = self.pawns[i].position.column + dc;
        self.with_pawn_at(i, Position { row: r as usize, column: c as usize })
    }

    /// How many cells lie ahead of pawn `i` in the step's row and column components.
    pub open spec fn room(self, i: int, dr: int, dc: int) -> int {
        let p = self.pawns[i].position;
        (if dr < 0 {
            p.row as int
        } else if dr > 0 {
            self.rows - p.row
        } else {
            0
        }) + (if dc < 0 {
            p.column as int
        } else if dc > 0 {
            self.cols - p.column
        } else {
            0
        })
    }

    /// Pawn `i` slid by `(dr, dc)` until the next step is blocked.
    pub open spec fn slid(self, i: int, dr: int, dc: int) -> BoardView
        decreases self.room(i, dr, dc),
        via Self::lemma_slid_decreases
    {
        if 0 <= i < self.pawns.len() && (dr != 0 || dc != 0) && self.step_ok(i, dr, dc) {
            self.stepped(i, dr, dc).slid(i, dr, dc)
        } else {
            self
        }
    }

    #[via_fn]
    proof fn lemma_slid_decreases(self, i: int, dr: int, dc: int) {
        self.lemma_step_shrinks_room(i, dr, dc);
    }

    /// A successful step leaves strictly less room ahead.
    pub proof fn lemma_step_shrinks_room(self, i: int, dr: int, dc: int)
        ensures
            0 <= i < self.pawns.len() && (dr != 0 || dc != 0) && self.step_ok(i, dr, dc) ==>
                0 <= self.stepped(i, dr, dc).room(i, dr, dc) < self.room(i, dr, dc),
    {
        if 0 <= i < self.pawns.len() && (dr != 0 || dc != 0) && self.step_ok(i, dr, dc) {
            let n = self.stepped(i, dr, dc);
            assert(n.pawns[i].position.row == self.pawns[i].position.row + dr);
            assert(n.pawns[i].position.column == self.pawns[i].position.column + dc);
            assert(0 <= n.room(i, dr, dc) < self.room(i, dr, dc));
        }
    }

    /// Cell `(r, c)` is on the board and holds no pawn other than pawn `i`.
    pub open spec fn free_cell(self, i: int, r: int, c: int) -> bool {
        &&& 0 <= r < self.rows
        &&& 0 <= c < self.cols
        &&& r <= usize::MAX
        &&& c <= usize::MAX
        &&& forall|j: int| 0 <= j < self.pawns.len() && j != i ==> (#[trigger] self.pawns[j]).position != (Position { row: r as usize, column: c as usize })
    }

    /// The cell where pawn `i` stops when slid in direction `d`.
    pub open spec fn slide_target(self, i: int, d: Direction) -> Position {
        let k = self.slide_distance(i, d.delta().0, d.delta().1) as int;
        let p = self.pawns[i].position;
        Position { row: (p.row + k * d.delta().0) as usize, column: (p.column + k * d.delta().1) as usize }
    }

    /// How many cells pawn `i` travels when slid by `(dr, dc)`.
    pub open spec fn slide_distance(self, i: int, dr: int, dc: int) -> nat
        decreases self.room(i, dr, dc),
        via Self::lemma_slide_distance_decreases
    {
        if 0 <= i < self.pawns.len() && (dr != 0 || dc != 0) && self.step_ok(i, dr, dc) {
            1 + self.stepped(i, dr, dc).slide_distance(i, dr, dc)
        } else {
            0
        }
    }

    #[via_fn]
    proof fn lemma_slide_distance_decreases(self, i: int, dr: int, dc: int) {
        self.lemma_step_shrinks_room(i, dr, dc);
    }

    /// The board after moving pawn `i` in direction `d`, when that move is legal.
    pub open spec fn play(self, i: int, d: Direction) -> Option<BoardView> {
        match self.next {
            None => None,
            Some(c) => {
                if self.pawns[i].color != c || !self.step_ok(i, d.delta().0, d.delta().1) {
                    None
                } else {
                    let s = self.slid(i, d.delta().0, d.delta().1);
                    Some(
                        BoardView {
                            next: if s.winner().is_some() {
                                None
                            } else {
                                Some(c.other())
                            },
                            ..s
                        },
                    )
                }
            },
        }
    }

    /// The legal moves of pawn `i` among the first `k` directions of the canonical order.
    pub open spec fn legal_for_pawn_upto(self, i: int, k: nat) -> Seq<(Direction, BoardView)>
        decreases k,
    {
        if k == 0 {
            seq![]
        } else {
            let prev = self.legal_for_pawn_upto(i, (k - 1) as nat);
            let d = direction_order()[k - 1];
            match self.play(i, d) {
                Some(b) => prev.push((d, b)),
                None => prev,
            }
        }
    }

    /// The legal moves of pawn `i`, with the resulting boards, in canonical direction order.
    pub open spec fn legal_for_pawn(self, i: int) -> Seq<(Direction, BoardView)> {
        self.legal_for_pawn_upto(i, 8)
    }

    /// The legal moves of the first `n` pawns.
    pub open spec fn legal_upto(self, n: nat) -> Seq<(usize, Direction, BoardView)>
        decreases n,
    {
        if n == 0 {
            seq![]
        } else {
            let prev = self.legal_upto((n - 1) as nat);
            if self.next == Some(self.pawns[n - 1].color) {
                prev + self.legal_for_pawn(n - 1).map_values(
                    |m: (Direction, BoardView)| ((n - 1) as usize, m.0, m.1),
                )
            } else {
                prev
            }
        }
    }

    /// All legal moves of the player to move: pawns in index order, directions in canonical order.
    pub open spec fn all_legal(self) -> Seq<(usize, Direction, BoardView)> {
        self.legal_upto(self.pawns.len())
    }

    /// The legal moves of the first `n` pawns that have color `c`.
    pub open spec fn color_moves_upto(self, c: Color, n: nat) -> Seq<(usize, Direction, BoardView)>
        decreases n,
    {
        if n == 0 {
            seq![]
        } else {
            let prev = self.color_moves_upto(c, (n - 1) as nat);
            if self.pawns[n - 1].color == c {
                prev + self.legal_for_pawn(n - 1).map_values(
                    |m: (Direction, BoardView)| ((n - 1) as usize, m.0, m.1),
                )
            } else {
                prev
            }
        }
    }

    /// The legal moves of the pawns of color `c`: all legal moves when `c` is to move, none otherwise.
    pub open spec fn color_moves(self, c: Color) -> Seq<(usize, Direction, BoardView)> {
        self.color_moves_upto(c, self.pawns.len())
    }

    pub proof fn lemma_color_moves_of_mover(self, c: Color, n: nat)
        requires
            self.next == Some(c),
        ensures
            self.color_moves_upto(c, n) == self.legal_upto(n),
        decreases n,
    {
        if n > 0 {
            self.lemma_color_moves_of_mover(c, (n - 1) as nat);
        }
    }
}

/// `(pawn, direction)` is a legal move of `v` that leads to `b`.
pub open spec fn is_legal_move(v: BoardView, pawn: usize, direction: Direction, b: BoardView) -> bool {
    exists|k: int| 0 <= k < v.all_legal().len() && #[trigger] v.all_legal()[k] == (pawn, direction, b)
}

/// `(pawn, direction)` is a legal move of `v`.
pub open spec fn is_legal_pair(v: BoardView, pawn: usize, direction: Direction) -> bool {
    exists|b: BoardView| #[trigger] is_legal_move(v, pawn, direction, b)
}

/// Are the three positions aligned?
fn aligned_positions(a: &Position, b: &Position, c: &Position) -> (r: bool)
    ensures
        r == aligned(*a, *b, *c),
{
    is_middle(a, b, c) || is_middle(b, a, c) || is_middle(a, c, b)
}

fn is_middle(a: &Position, m: &Position, c: &Position) -> (r: bool)
    ensures
        r == middle_of(*a, *m, *c),
{
    let dr: i128 = m.row as i128 - a.row as i128;
    let dc: i128 = m.column as i128 - a.column as i128;
    c.row as i128 - m.row as i128 == dr && c.column as i128 - m.column as i128 == dc && -1 <= dr
        && dr <= 1 && -1 <= dc && dc <= 1 && (dr != 0 || dc != 0)
}

impl Board {
    /// A board with the given contents, which must be valid.
    pub fn new(
        number_of_rows: usize,
        number_of_columns: usize,
        pawns: Vec<Pawn>,
        next_player: Option<Color>,
    ) -> (r: Board)
        requires
            (BoardView {
                rows: number_of_rows as nat,
                cols: number_of_columns as nat,
                pawns: pawns@,
                next: next_player,
            }).is_valid(),
        ensures
            r.number_of_rows == number_of_rows,
            r.number_of_columns == number_of_columns,
            r.pawns@ == pawns@,
            r.next_player == next_player,
    {
        Board { number_of_rows, number_of_columns, pawns, next_player }
    }

    /// Every pawn is on the board and no two pawns share a cell.
    pub fn is_valid(&self) -> (r: bool)
        ensures
            r == self@.is_valid(),
    {
        let n = self.pawns.len();
        let mut i: usize = 0;
        while i < n
            invariant
                n == self.pawns@.len(),
                i <= n,
                forall|k: int| 0 <= k < i ==> self@.in_bounds(#[trigger] self.pawns@[k].position),
                forall|k: int, j: int|
                    0 <= k < j < n && k < i ==> self.pawns@[k].position != self.pawns@[j].position,
            decreases n - i,
        {
            let p = self.pawns[i].position;
            if p.row >= self.number_of_rows || p.column >= self.number_of_columns {
                return false;
            }
            let mut j: usize = i + 1;
            while j < n
                invariant
                    n == self.pawns@.len(),
                    i < j <= n,
                    p == self.pawns@[i as int].position,
                    forall|l: int| i < l < j ==> self.pawns@[l].position != p,
                decreases n - j,
            {
                if self.pawns[j].position == p {
                    return false;
                }
                j = j + 1;
            }
            i = i + 1;
        }
        true
    }

    /// The positions of the pawns of color `c`, in pawn order.
    fn positions_of_color(&self, c: Color) -> (r: Vec<Position>)
        ensures
            r@ == positions_of(self.pawns@, c),
    {
        let mut out: Vec<Position> = Vec::new();
        let n = self.pawns.len();
        let mut i: usize = 0;
        while i < n
            invariant
                n == self.pawns@.len(),
                i <= n,
                out@ == positions_of(self.pawns@.take(i as int), c),
            decreases n - i,
        {
            assert(self.pawns@.take(i + 1).drop_last() == self.pawns@.take(i as int));
            if self.pawns[i].color == c {
                out.push(self.pawns[i].position);
            }
            i = i + 1;
        }
        assert(self.pawns@.take(n as int) == self.pawns@);
        out
    }

    fn color_aligned(&self, c: Color) -> (r: bool)
        ensures
            r == self@.color_aligned(c),
    {
        let ps = self.positions_of_color(c);
        ps.len() == 3 && aligned_positions(&ps[0], &ps[1], &ps[2])
    }

    /// The color whose three pawns are aligned, if any; `None` on an invalid board.
    pub fn winner(&self) -> (r: Option<Color>)
        ensures
            r == self@.winner(),
    {
        if !self.is_valid() {
            return None;
        }
        if self.color_aligned(Color::Green) {
            return Some(Color::Green);
        }
        if self.color_aligned(Color::Yellow) {
            return Some(Color::Yellow);
        }
        None
    }
}


/// The boards of `r` hold the moves `s`, in the same order.
pub open spec fn moves_match(r: Seq<(usize, Direction, Board)>, s: Seq<(usize, Direction, BoardView)>) -> bool {
    &&& r.len() == s.len()
    &&& forall|j: int|
        0 <= j < r.len() ==> (#[trigger] r[j]).0 == s[j].0 && r[j].1 == s[j].1 && r[j].2@ == s[j].2
}

/// The boards of `r` hold the moves `s` of one pawn, in the same order.
pub open spec fn pawn_moves_match(r: Seq<(Direction, Board)>, s: Seq<(Direction, BoardView)>) -> bool {
    &&& r.len() == s.len()
    &&& forall|j: int| 0 <= j < r.len() ==> (#[trigger] r[j]).0 == s[j].0 && r[j].1@ == s[j].1
}

impl Board {
    /// A copy of the board.
    pub fn snapshot(&self) -> (r: Board)
        ensures
            r@ == self@,
    {
        let mut pawns: Vec<Pawn> = Vec::new();
        let n = self.pawns.len();
        let mut i: usize = 0;
        while i < n
            invariant
                n == self.pawns@.len(),
                i <= n,
                pawns@ == self.pawns@.take(i as int),
            decreases n - i,
        {
            pawns.push(self.pawns[i]);
            i = i + 1;
            assert(pawns@ =~= self.pawns@.take(i as int));
        }
        assert(self.pawns@.take(n as int) =~= self.pawns@);
        Board {
            number_of_rows: self.number_of_rows,
            number_of_columns: self.number_of_columns,
            pawns,
            next_player: self.next_player,
        }
    }

    /// Move pawn `pawn_index` one cell; refused (and nothing changes) when the cell is off
    /// the board or the resulting board is not valid.
    fn move_pawn(&mut self, pawn_index: usize, row_increment: isize, column_increment: isize) -> (r: bool)
        requires
            pawn_index < old(self).pawns@.len(),
            -1 <= row_increment <= 1,
            -1 <= column_increment <= 1,
        ensures
            r == old(self)@.step_ok(pawn_index as int, row_increment as int, column_increment as int),
            r ==> final(self)@ == old(self)@.stepped(pawn_index as int, row_increment as int, column_increment as int),
            !r ==> final(self)@ == old(self)@,
    {
        let init_pawn = self.pawns[pawn_index];
        let final_row: i128 = init_pawn.position.row as i128 + row_increment as i128;
        let final_column: i128 = init_pawn.position.column as i128 + column_increment as i128;
        if final_row < 0 || final_row >= self.number_of_rows as i128 || final_column < 0
            || final_column >= self.number_of_columns as i128 {
            return false;
        }
        let final_position = Position { row: final_row as usize, column: final_column as usize };
        self.pawns.set(pawn_index, Pawn { color: init_pawn.color, position: final_position });
        assert(self@ == old(self)@.stepped(pawn_index as int, row_increment as int, column_increment as int));
        if self.is_valid() {
            true
        } else {
            self.pawns.set(pawn_index, init_pawn);
            assert(self.pawns@ =~= old(self).pawns@);
            false
        }
    }

    /// Slide pawn `pawn_index` in `direction` until blocked, if it is that pawn's turn and it
    /// can move at least one cell. Then the turn passes, or the game ends on a win.
    /// Returns whether the pawn moved; when it did not, the board is unchanged.
    pub fn move_pawn_until_blocked(&mut self, pawn_index: usize, direction: &Direction) -> (r: bool)
        requires
            pawn_index < old(self).pawns@.len(),
        ensures
            match old(self)@.play(pawn_index as int, *direction) {
                Some(b) => r && final(self)@ == b,
                None => !r && final(self)@ == old(self)@,
            },
    {
        let color = match self.next_player {
            None => return false,
            Some(c) => c,
        };
        if self.pawns[pawn_index].color != color {
            return false;
        }
        let (row_increment, column_increment) = direction.increments();
        let ghost orig = self@;
        let ghost i = pawn_index as int;
        let ghost dr = row_increment as int;
        let ghost dc = column_increment as int;
        let mut has_moved = false;
        loop
            invariant
                self.pawns@.len() == orig.pawns.len(),
                i == pawn_index,
                i < orig.pawns.len(),
                dr == direction.delta().0,
                dc == direction.delta().1,
                dr == row_increment,
                dc == column_increment,
                -1 <= dr <= 1,
                -1 <= dc <= 1,
                dr != 0 || dc != 0,
                self@.rows == orig.rows,
                self@.cols == orig.cols,
                self@.next == orig.next,
                self@.slid(i, dr, dc) == orig.slid(i, dr, dc),
                !has_moved ==> self@ == orig,
                has_moved ==> orig.step_ok(i, dr, dc),
            ensures
                self@ == orig.slid(i, dr, dc),
                !has_moved ==> self@ == orig,
                !has_moved ==> !orig.step_ok(i, dr, dc),
                has_moved ==> orig.step_ok(i, dr, dc),
            decreases self@.room(i, dr, dc),
        {
            let ghost before = self@;
            if !self.move_pawn(pawn_index, row_increment, column_increment) {
                assert(before.slid(i, dr, dc) == before);
                break;
            }
            proof {
                before.lemma_step_shrinks_room(i, dr, dc);
                assert(before.slid(i, dr, dc) == before.stepped(i, dr, dc).slid(i, dr, dc));
            }
            has_moved = true;
        }
        if has_moved {
            if self.winner().is_some() {
                self.next_player = None;
            } else {
                self.next_player = Some(color.other_color());
            }
        }
        has_moved
    }

    /// The directions in which pawn `pawn_index` can legally move, in canonical order.
    pub fn get_valid_directions(&self, pawn_index: usize) -> (r: Vec<Direction>)
        requires
            pawn_index < self.pawns@.len(),
        ensures
            r@ == self@.legal_for_pawn(pawn_index as int).map_values(|m: (Direction, BoardView)| m.0),
    {
        let mut valid_directions: Vec<Direction> = Vec::new();
        let mut k: usize = 0;
        while k < 8
            invariant
                k <= 8,
                pawn_index < self.pawns@.len(),
                valid_directions@ == self@.legal_for_pawn_upto(pawn_index as int, k as nat).map_values(
                    |m: (Direction, BoardView)| m.0,
                ),
            decreases 8 - k,
        {
            let direction = Direction::nth(k);
            let mut new_board = self.snapshot();
            let moved = new_board.move_pawn_until_blocked(pawn_index, &direction);
            if moved {
                valid_directions.push(direction);
            }
            k = k + 1;
            assert(valid_directions@ =~= self@.legal_for_pawn_upto(pawn_index as int, k as nat).map_values(
                |m: (Direction, BoardView)| m.0,
            ));
        }
        valid_directions
    }

    /// The legal moves of pawn `pawn_index` with the boards they lead to, in canonical order.
    pub fn get_valid_directions_and_resulting_boards(&self, pawn_index: usize) -> (r: Vec<(Direction, Board)>)
        requires
            pawn_index < self.pawns@.len(),
        ensures
            pawn_moves_match(r@, self@.legal_for_pawn(pawn_index as int)),
    {
        let mut valid_directions: Vec<(Direction, Board)> = Vec::new();
        let mut k: usize = 0;
        while k < 8
            invariant
                k <= 8,
                pawn_index < self.pawns@.len(),
                pawn_moves_match(valid_directions@, self@.legal_for_pawn_upto(pawn_index as int, k as nat)),
            decreases 8 - k,
        {
            let direction = Direction::nth(k);
            let mut new_board = self.snapshot();
            let moved = new_board.move_pawn_until_blocked(pawn_index, &direction);
            if moved {
                valid_directions.push((direction, new_board));
            }
            k = k + 1;
        }
        valid_directions
    }

    /// All legal moves of the player to move: pawns in index order, directions in canonical
    /// order, each with the board it leads to. Empty once the game is over.
    pub fn get_all_valid_directions_and_resulting_boards(&self) -> (r: Vec<(usize, Direction, Board)>)
        ensures
            moves_match(r@, self@.all_legal()),
    {
        let mut valid_directions: Vec<(usize, Direction, Board)> = Vec::new();
        let n = self.pawns.len();
        let mut pawn_index: usize = 0;
        while pawn_index < n
            invariant
                n == self.pawns@.len(),
                pawn_index <= n,
                moves_match(valid_directions@, self@.legal_upto(pawn_index as nat)),
            decreases n - pawn_index,
        {
            let ghost before = valid_directions@;
            let is_turn = match self.next_player {
                Some(c) => c == self.pawns[pawn_index].color,
                None => false,
            };
            if is_turn {
                let directions = self.get_valid_directions_and_resulting_boards(pawn_index);
                let ghost pm = self@.legal_for_pawn(pawn_index as int);
                let m = directions.len();
                let mut j: usize = 0;
                while j < m
                    invariant
                        m == directions@.len(),
                        j <= m,
                        pawn_index < n,
                        pawn_moves_match(directions@, pm),
                        moves_match(before, self@.legal_upto(pawn_index as nat)),
                        valid_directions@.len() == before.len() + j,
                        forall|t: int| 0 <= t < before.len() ==> valid_directions@[t] == before[t],
                        forall|t: int| 0 <= t < j ==> (#[trigger] valid_directions@[before.len() + t]).0 == pawn_index
                            && valid_directions@[before.len() + t].1 == pm[t].0
                            && valid_directions@[before.len() + t].2@ == pm[t].1,
                    decreases m - j,
                {
                    let d = directions[j].0;
                    let b = directions[j].1.snapshot();
                    valid_directions.push((pawn_index, d, b));
                    j = j + 1;
                }
                proof {
                    let p = pawn_index as int;
                    let spec = self@.legal_upto((p + 1) as nat);
                    let prev = self@.legal_upto(p as nat);
                    let mapped = pm.map_values(|m: (Direction, BoardView)| (p as usize, m.0, m.1));
                    assert(spec == prev + mapped);
                    assert forall|j: int| 0 <= j < valid_directions@.len() implies (#[trigger] valid_directions@[j]).0 == spec[j].0
                        && valid_directions@[j].1 == spec[j].1 && valid_directions@[j].2@ == spec[j].2 by {
                        if j < before.len() {
                            assert(spec[j] == prev[j]);
                            assert(valid_directions@[j] == before[j]);
                            assert(before[j].0 == prev[j].0);
                        } else {
                            let t = j - before.len();
                            assert(spec[j] == mapped[t]);
                            assert(mapped[t] == (p as usize, pm[t].0, pm[t].1));
                            assert(valid_directions@[before.len() + t].0 == pawn_index);
                            assert(valid_directions@[before.len() + t].1 == pm[t].0);
                        }
                    }
                }
            } else {
                assert(self@.legal_upto((pawn_index + 1) as nat) == self@.legal_upto(pawn_index as nat));
            }
            pawn_index = pawn_index + 1;
        }
        valid_directions
    }
}


/// The opening position: Green at (0,1), (0,3), (3,2); Yellow at (1,2), (4,1), (4,3);
/// Green to move on a 5x5 board.
pub open spec fn start_position() -> BoardView {
    BoardView {
        rows: 5,
        cols: 5,
        pawns: seq![
            Pawn { color: Color::Green, position: Position { row: 0, column: 1 } },
            Pawn { color: Color::Green, position: Position { row: 0, column: 3 } },
            Pawn { color: Color::Green, position: Position { row: 3, column: 2 } },
            Pawn { color: Color::Yellow, position: Position { row: 1, column: 2 } },
            Pawn { color: Color::Yellow, position: Position { row: 4, column: 1 } },
            Pawn { color: Color::Yellow, position: Position { row: 4, column: 3 } },
        ],
        next: Some(Color::Green),
    }
}

/// The words that identify a board: size, whose turn, then color and cell of each pawn.
pub open spec fn board_words(v: BoardView) -> Seq<u64> {
    seq![v.rows as u64, v.cols as u64, color_code(v.next)] + pawn_words(v.pawns)
}

pub open spec fn color_code(c: Option<Color>) -> u64 {
    match c {
        None => 0,
        Some(Color::Yellow) => 1,
        Some(Color::Green) => 2,
    }
}

pub open spec fn pawn_words(s: Seq<Pawn>) -> Seq<u64>
    decreases s.len(),
{
    if s.len() == 0 {
        seq![]
    } else {
        pawn_words(s.drop_last()) + seq![
            color_code(Some(s.last().color)),
            s.last().position.row as u64,
            s.last().position.column as u64,
        ]
    }
}

/// What `DefaultHasher` makes of a sequence of words.
pub uninterp spec fn words_hash(w: Seq<u64>) -> u64;

/// Relies on `BuildHasher::hash_one` with a `DefaultHasher`, whose instances made by
/// `default` all start from the same state, so the hash depends on the words alone.
#[verifier::external_body]
fn hash_words(words: &Vec<u64>) -> (r: u64)
    ensures
        r == words_hash(words@),
{
    std::hash::BuildHasher::hash_one(
        &std::hash::BuildHasherDefault::<std::hash::DefaultHasher>::default(),
        words,
    )
}

fn color_word(c: Option<Color>) -> (r: u64)
    ensures
        r == color_code(c),
{
    match c {
        None => 0,
        Some(Color::Yellow) => 1,
        Some(Color::Green) => 2,
    }
}

impl Board {
    /// The opening position.
    pub fn default_new() -> (r: Board)
        ensures
            r@ == start_position(),
    {
        let mut pawns: Vec<Pawn> = Vec::new();
        pawns.push(Pawn::new(Color::Green, Position { row: 0, column: 1 }));
        pawns.push(Pawn::new(Color::Green, Position { row: 0, column: 3 }));
        pawns.push(Pawn::new(Color::Green, Position { row: 3, column: 2 }));
        pawns.push(Pawn::new(Color::Yellow, Position { row: 1, column: 2 }));
        pawns.push(Pawn::new(Color::Yellow, Position { row: 4, column: 1 }));
        pawns.push(Pawn::new(Color::Yellow, Position { row: 4, column: 3 }));
        assert(pawns@ == start_position().pawns);
        Self::new(5, 5, pawns, Some(Color::Green))
    }

    /// The words that identify this board.
    pub fn content_words(&self) -> (r: Vec<u64>)
        ensures
            r@ == board_words(self@),
    {
        let mut words: Vec<u64> = Vec::new();
        words.push(self.number_of_rows as u64);
        words.push(self.number_of_columns as u64);
        words.push(color_word(self.next_player));
        let ghost head = words@;
        let n = self.pawns.len();
        let mut i: usize = 0;
        while i < n
            invariant
                n == self.pawns@.len(),
                i <= n,
                head == seq![self.number_of_rows as u64, self.number_of_columns as u64, color_code(self.next_player)],
                words@ == head + pawn_words(self.pawns@.take(i as int)),
            decreases n - i,
        {
            let p = self.pawns[i];
            assert(self.pawns@.take(i + 1).drop_last() == self.pawns@.take(i as int));
            words.push(color_word(Some(p.color)));
            words.push(p.position.row as u64);
            words.push(p.position.column as u64);
            i = i + 1;
            assert(words@ =~= head + pawn_words(self.pawns@.take(i as int)));
        }
        assert(self.pawns@.take(n as int) == self.pawns@);
        words
    }

    /// A fingerprint of the board's content (size, pawns and whose turn it is).
    pub fn get_hash(&self) -> (r: u64)
        ensures
            r == words_hash(board_words(self@)),
    {
        let words = self.content_words();
        hash_words(&words)
    }
}


/// The 5x5 board with Green on the first three cells and Yellow on the last three, Green to move.
pub open spec fn board_of_cells(cells: Seq<(usize, usize)>) -> BoardView {
    BoardView {
        rows: 5,
        cols: 5,
        pawns: Seq::new(
            6,
            |k: int| Pawn {
                color: if k < 3 { Color::Green } else { Color::Yellow },
                position: Position { row: cells[k].0, column: cells[k].1 },
            },
        ),
        next: Some(Color::Green),
    }
}

/// The 5x5 board with Green pawns on the first three of `cells` and Yellow pawns on the
/// other three, Green to move; `None` unless that board is valid and nobody has won yet.
pub fn board_from_cells(cells: &Vec<(usize, usize)>) -> (r: Option<Board>)
    requires
        cells@.len() == 6,
    ensures
        r.is_some() <==> board_of_cells(cells@).is_valid() && board_of_cells(cells@).winner().is_none(),
        r.is_some() ==> r.unwrap()@ == board_of_cells(cells@),
{
    let mut pawns: Vec<Pawn> = Vec::new();
    let mut k: usize = 0;
    while k < 6
        invariant
            cells@.len() == 6,
            k <= 6,
            pawns@ == board_of_cells(cells@).pawns.take(k as int),
        decreases 6 - k,
    {
        let color = if k < 3 { Color::Green } else { Color::Yellow };
        pawns.push(Pawn::new(color, Position { row: cells[k].0, column: cells[k].1 }));
        k = k + 1;
        assert(pawns@ =~= board_of_cells(cells@).pawns.take(k as int));
    }
    assert(pawns@ =~= board_of_cells(cells@).pawns);
    let board = Board { number_of_rows: 5, number_of_columns: 5, pawns, next_player: Some(Color::Green) };
    if board.is_valid() && board.winner().is_none() {
        Some(board)
    } else {
        None
    }
}

/// The decimal digits of `n`.
pub open spec fn decimal(n: nat) -> Seq<char>
    decreases n,
{
    if n < 10 {
        seq![digit_char(n)]
    } else {
        decimal(n / 10).push(digit_char(n % 10))
    }
}

pub open spec fn digit_char(d: nat) -> char {
    if d == 0 { '0' } else if d == 1 { '1' } else if d == 2 { '2' } else if d == 3 { '3' } else if d == 4 {
        '4'
    } else if d == 5 { '5' } else if d == 6 { '6' } else if d == 7 { '7' } else if d == 8 { '8' } else {
        '9'
    }
}

/// The label of pawn `k`: its color's initial and its index.
pub open spec fn pawn_label(c: Color, k: nat) -> Seq<char> {
    seq![if c == Color::Green { 'G' } else { 'Y' }] + decimal(k)
}

/// What cell `(r, c)` shows, given the first `k` pawns: the label of the last of them on
/// it, or a dot and a space.
pub open spec fn cell_text(pawns: Seq<Pawn>, k: nat, r: nat, c: nat) -> Seq<char>
    decreases k,
{
    if k == 0 {
        seq!['.', ' ']
    } else if pawns[k - 1].position.row == r && pawns[k - 1].position.column == c {
        pawn_label(pawns[k - 1].color, (k - 1) as nat)
    } else {
        cell_text(pawns, (k - 1) as nat, r, c)
    }
}

/// The first `c` cells of row `r`, each followed by a space.
pub open spec fn row_text(v: BoardView, r: nat, c: nat) -> Seq<char>
    decreases c,
{
    if c == 0 {
        seq![]
    } else {
        row_text(v, r, (c - 1) as nat) + cell_text(v.pawns, v.pawns.len(), r, (c - 1) as nat) + seq![' ']
    }
}

/// The first `r` rows, each ended by a newline.
pub open spec fn grid_text(v: BoardView, r: nat) -> Seq<char>
    decreases r,
{
    if r == 0 {
        seq![]
    } else {
        grid_text(v, (r - 1) as nat) + row_text(v, (r - 1) as nat, v.cols) + seq!['\n']
    }
}

pub open spec fn status_text(next: Option<Color>) -> Seq<char> {
    match next {
        Some(Color::Green) => seq!['N', 'e', 'x', 't', ' ', 'p', 'l', 'a', 'y', 'e', 'r', ':', ' ', 'G', 'r', 'e', 'e', 'n', '\n'],
        Some(Color::Yellow) => seq!['N', 'e', 'x', 't', ' ', 'p', 'l', 'a', 'y', 'e', 'r', ':', ' ', 'Y', 'e', 'l', 'l', 'o', 'w', '\n'],
        None => seq!['G', 'a', 'm', 'e', ' ', 'o', 'v', 'e', 'r', '\n'],
    }
}

/// The text picture of a board: a grid of cells, then whose turn it is.
pub open spec fn board_text(v: BoardView) -> Seq<char> {
    grid_text(v, v.rows) + status_text(v.next)
}

/// Relies on `String::from_iter` over `char`s, which collects the characters in order.
#[verifier::external_body]
fn string_of_chars(chars: &Vec<char>) -> (r: String)
    ensures
        r@ == chars@,
{
    String::from_iter(chars.iter())
}

fn digit(d: usize) -> (r: char)
    requires
        d < 10,
    ensures
        r == digit_char(d as nat),
{
    if d == 0 { '0' } else if d == 1 { '1' } else if d == 2 { '2' } else if d == 3 { '3' } else if d == 4 {
        '4'
    } else if d == 5 { '5' } else if d == 6 { '6' } else if d == 7 { '7' } else if d == 8 { '8' } else {
        '9'
    }
}

fn push_decimal(out: &mut Vec<char>, n: usize)
    ensures
        final(out)@ == old(out)@ + decimal(n as nat),
    decreases n,
{
    if n < 10 {
        out.push(digit(n));
    } else {
        push_decimal(out, n / 10);
        out.push(digit(n % 10));
        assert(final(out)@ =~= old(out)@ + decimal(n as nat));
    }
}

fn push_chars(out: &mut Vec<char>, text: &Vec<char>)
    ensures
        final(out)@ == old(out)@ + text@,
{
    let n = text.len();
    let mut i: usize = 0;
    while i < n
        invariant
            n == text@.len(),
            i <= n,
            out@ == old(out)@ + text@.take(i as int),
        decreases n - i,
    {
        out.push(text[i]);
        i = i + 1;
        assert(out@ =~= old(out)@ + text@.take(i as int));
    }
    assert(text@.take(n as int) =~= text@);
}

impl Board {
    /// Append what cell `(r, c)` shows.
    fn push_cell(&self, out: &mut Vec<char>, r: usize, c: usize)
        ensures
            final(out)@ == old(out)@ + cell_text(self.pawns@, self.pawns@.len(), r as nat, c as nat),
    {
        let n = self.pawns.len();
        let mut found: Option<usize> = None;
        let mut k: usize = 0;
        while k < n
            invariant
                n == self.pawns@.len(),
                k <= n,
                match found {
                    Some(j) => j < k && cell_text(self.pawns@, k as nat, r as nat, c as nat)
                        == pawn_label(self.pawns@[j as int].color, j as nat),
                    None => cell_text(self.pawns@, k as nat, r as nat, c as nat) == seq!['.', ' '],
                },
            decreases n - k,
        {
            if self.pawns[k].position.row == r && self.pawns[k].position.column == c {
                found = Some(k);
            }
            k = k + 1;
        }
        match found {
            Some(j) => {
                let g = self.pawns[j].color == Color::Green;
                out.push(if g { 'G' } else { 'Y' });
                push_decimal(out, j);
                assert(final(out)@ =~= old(out)@ + pawn_label(self.pawns@[j as int].color, j as nat));
            },
            None => {
                out.push('.');
                out.push(' ');
                assert(final(out)@ =~= old(out)@ + seq!['.', ' ']);
            },
        }
    }

    /// A text picture of the board: one line per row, each cell shown as its pawn's label
    /// (`G` or `Y` and the pawn's index) or a dot, then whose turn it is.
    pub fn str_rep(&self) -> (r: String)
        ensures
            r@ == board_text(self@),
    {
        let mut out: Vec<char> = Vec::new();
        let mut r: usize = 0;
        while r < self.number_of_rows
            invariant
                r <= self.number_of_rows,
                out@ == grid_text(self@, r as nat),
            decreases self.number_of_rows - r,
        {
            let ghost row_start = out@;
            let mut c: usize = 0;
            while c < self.number_of_columns
                invariant
                    c <= self.number_of_columns,
                    r < self.number_of_rows,
                    out@ == row_start + row_text(self@, r as nat, c as nat),
                decreases self.number_of_columns - c,
            {
                self.push_cell(&mut out, r, c);
                out.push(' ');
                c = c + 1;
                assert(out@ =~= row_start + row_text(self@, r as nat, c as nat));
            }
            out.push('\n');
            r = r + 1;
            assert(out@ =~= grid_text(self@, r as nat));
        }
        let status: Vec<char> = match self.next_player {
            Some(Color::Green) => vec!['N', 'e', 'x', 't', ' ', 'p', 'l', 'a', 'y', 'e', 'r', ':', ' ', 'G', 'r', 'e', 'e', 'n', '\n'],
            Some(Color::Yellow) => vec!['N', 'e', 'x', 't', ' ', 'p', 'l', 'a', 'y', 'e', 'r', ':', ' ', 'Y', 'e', 'l', 'l', 'o', 'w', '\n'],
            None => vec!['G', 'a', 'm', 'e', ' ', 'o', 'v', 'e', 'r', '\n'],
        };
        assert(status@ == status_text(self.next_player));
        push_chars(&mut out, &status);
        string_of_chars(&out)
    }
}

} // verus!
