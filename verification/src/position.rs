//! Board representation, static evaluation and move generation.

use vstd::prelude::*;

verus! {

/// One of the two sides. The first player (White) moves first.
#[derive(Clone, Copy, Debug, PartialEq, Eq, Structural)]
pub enum Player {
    White,
    Black,
}

/// One cell of the cube: empty, or occupied by a piece that is never removed.
#[derive(Clone, Copy, Debug, PartialEq, Eq, Structural)]
pub enum Slot {
    Occupied(Player),
    Empty,
}

/// The value of a position from the perspective of its active player.
///
/// `Win` is the unique maximum and `Loss` the unique minimum of a total
/// preorder given by `eval_key`; `Draw` ranks exactly like a heuristic score
/// of zero.
#[derive(Clone, Copy, Debug, PartialEq, Eq, Structural)]
pub enum Evaluation {
    Win,
    Loss,
    Draw,
    HeuristicScore(i16),
}

/// The rank of an evaluation in the total order used by the search.
///
/// Heuristic scores rank by their value, `Draw` ranks like a score of zero,
/// and the sentinels for `Win` and `Loss` lie outside every `i16` score.
pub open spec fn eval_key(e: Evaluation) -> int {
    match e {
        Evaluation::Win => 100000,
        Evaluation::Loss => -100000,
        Evaluation::Draw => 0,
        Evaluation::HeuristicScore(s) => s as int,
    }
}

/// Negation: swaps the players' points of view.
pub open spec fn eval_negated(e: Evaluation) -> Evaluation {
    match e {
        Evaluation::Win => Evaluation::Loss,
        Evaluation::Loss => Evaluation::Win,
        Evaluation::Draw => Evaluation::Draw,
        Evaluation::HeuristicScore(s) => Evaluation::HeuristicScore((-(s as int)) as i16),
    }
}

/// A heuristic payload whose negation is again representable.
pub open spec fn eval_small(e: Evaluation) -> bool {
    e is HeuristicScore ==> e->0 != i16::MIN
}

impl Evaluation {
    /// The evaluation for the other player.
    pub fn negate(&self) -> (r: Evaluation)
        requires
            eval_small(*self),
        ensures
            r == eval_negated(*self),
    {
        match self {
            Evaluation::Win => Evaluation::Loss,
            Evaluation::Loss => Evaluation::Win,
            Evaluation::Draw => Evaluation::Draw,
            Evaluation::HeuristicScore(s) => Evaluation::HeuristicScore(-*s),
        }
    }

    /// The rank of this evaluation in the total order; two evaluations
    /// compare as their keys compare.
    pub fn order_key(&self) -> (k: i32)
        ensures
            k as int == eval_key(*self),
    {
        match self {
            Evaluation::Win => 100000,
            Evaluation::Loss => -100000,
            Evaluation::Draw => 0,
            Evaluation::HeuristicScore(s) => *s as i32,
        }
    }
}

/// Negating an evaluation negates its rank.
pub proof fn lemma_negation_reflects_key(e: Evaluation)
    requires
        eval_small(e),
    ensures
        eval_key(eval_negated(e)) == -eval_key(e),
{
}

/// Negation is an involution on evaluations.
pub proof fn lemma_negation_involution(e: Evaluation)
    requires
        eval_small(e),
    ensures
        eval_negated(eval_negated(e)) == e,
{
}

/// Negation reverses the evaluation order.
pub proof fn lemma_negation_reverses_order(a: Evaluation, b: Evaluation)
    requires
        eval_small(a),
        eval_small(b),
        eval_key(a) <= eval_key(b),
    ensures
        eval_key(eval_negated(b)) <= eval_key(eval_negated(a)),
{
}

/// Except for `Draw` and a zero heuristic score, which rank equal, the rank
/// determines the evaluation.
pub proof fn lemma_key_determines_evaluation(a: Evaluation, b: Evaluation)
    requires
        eval_key(a) == eval_key(b),
    ensures
        a == b || eval_key(a) == 0,
{
}

/// The side that moves after `p`.
pub open spec fn player_other(p: Player) -> Player {
    match p {
        Player::White => Player::Black,
        Player::Black => Player::White,
    }
}

/// A validated column of the cube: a (file, rank) pair, each in [0, 4).
/// Gravity chooses the floor, so a move never names one.
#[derive(Clone, Copy)]
pub struct Coordinates {
    pub file: usize,
    pub rank: usize,
}

impl Coordinates {
    /// Column coordinates are only constructed with indices in range.
    pub fn new(file: usize, rank: usize) -> (c: Coordinates)
        requires
            file < 4,
            rank < 4,
        ensures
            c.file == file,
            c.rank == rank,
    {
        Coordinates { file, rank }
    }

    /// Both indices lie in [0, 4).
    pub open spec fn wf(self) -> bool {
        self.file < 4 && self.rank < 4
    }
}

/// The mathematical model of a position: the 64 cells of the cube as one
/// sequence, the active player, and the number of moves played so far.
///
/// Cell (floor, file, rank) lives at index `16*floor + 4*file + rank`.
pub ghost struct PosModel {
    pub board: Seq<Slot>,
    pub active: Player,
    pub moves: int,
}

/// The flat index of cell (floor, file, rank).
pub open spec fn cell_index(floor: int, file: int, rank: int) -> int {
    16 * floor + 4 * file + rank
}

/// The cell of `b` at (floor, file, rank).
pub open spec fn cell(b: Seq<Slot>, floor: int, file: int, rank: int) -> Slot {
    b[cell_index(floor, file, rank)]
}

/// How many of the first `n` cells are occupied.
pub open spec fn occupied_count(b: Seq<Slot>, n: int) -> int
    decreases n,
{
    if n <= 0 {
        0
    } else {
        occupied_count(b, n - 1) + if b[n - 1] is Occupied {
            1int
        } else {
            0int
        }
    }
}

/// The lowest floor at or above `floor` whose cell in column (file, rank) is
/// empty, or 4 if the column is full from `floor` upward.
pub open spec fn first_empty_from(b: Seq<Slot>, file: int, rank: int, floor: int) -> int
    decreases 4 - floor,
{
    if floor >= 4 {
        4
    } else if cell(b, floor, file, rank) is Empty {
        floor
    } else {
        first_empty_from(b, file, rank, floor + 1)
    }
}

/// Gravity within one column: above an empty cell every cell is empty, so
/// the occupied cells are contiguous from floor 0 upward.
pub open spec fn column_gravity_ok(b: Seq<Slot>, file: int, rank: int) -> bool {
    &&& (cell(b, 0, file, rank) is Empty ==> cell(b, 1, file, rank) is Empty)
    &&& (cell(b, 1, file, rank) is Empty ==> cell(b, 2, file, rank) is Empty)
    &&& (cell(b, 2, file, rank) is Empty ==> cell(b, 3, file, rank) is Empty)
}

impl PosModel {
    /// Gravity holds in every column.
    pub open spec fn gravity_ok(self) -> bool {
        forall|file: int, rank: int|
            0 <= file < 4 && 0 <= rank < 4 ==> #[trigger] column_gravity_ok(self.board, file, rank)
    }

    /// The invariant of every reachable position: 64 cells, gravity holds,
    /// and exactly `moves` cells are occupied.
    pub open spec fn wf(self) -> bool {
        &&& self.board.len() == 64
        &&& self.gravity_ok()
        &&& occupied_count(self.board, 64) == self.moves
        &&& 0 <= self.moves <= 64
    }

    /// A column can be played iff its topmost cell is empty.
    pub open spec fn can_play(self, c: Coordinates) -> bool {
        cell(self.board, 3, c.file as int, c.rank as int) is Empty
    }

    /// The floor a piece dropped into column `c` lands on.
    pub open spec fn landing_floor(self, c: Coordinates) -> int {
        first_empty_from(self.board, c.file as int, c.rank as int, 0)
    }
}

/// The position after dropping the active player's piece into column `c`:
/// the lowest empty cell of the column is filled, the active player flips,
/// and the move count grows by one.
pub open spec fn spec_play(m: PosModel, c: Coordinates) -> PosModel {
    PosModel {
        board: m.board.update(
            cell_index(m.landing_floor(c), c.file as int, c.rank as int),
            Slot::Occupied(m.active),
        ),
        active: player_other(m.active),
        moves: m.moves + 1,
    }
}

proof fn lemma_occupied_count_le(b: Seq<Slot>, n: int)
    ensures
        0 <= occupied_count(b, n) <= n || n < 0,
    decreases n,
{
    if n > 0 {
        lemma_occupied_count_le(b, n - 1);
    }
}

proof fn lemma_occupied_count_all_empty(b: Seq<Slot>, n: int)
    requires
        forall|j: int| 0 <= j < n ==> b[j] is Empty,
    ensures
        occupied_count(b, n) == 0,
    decreases n,
{
    if n > 0 {
        lemma_occupied_count_all_empty(b, n - 1);
    }
}

proof fn lemma_occupied_count_with_empty(b: Seq<Slot>, i: int, n: int)
    requires
        0 <= i < n,
        b[i] is Empty,
    ensures
        occupied_count(b, n) <= n - 1,
    decreases n,
{
    lemma_occupied_count_le(b, n - 1);
    if i < n - 1 {
        lemma_occupied_count_with_empty(b, i, n - 1);
    }
}

proof fn lemma_occupied_count_full(b: Seq<Slot>, n: int)
    requires
        occupied_count(b, n) == n,
    ensures
        forall|j: int| 0 <= j < n ==> b[j] is Occupied,
    decreases n,
{
    if n > 0 {
        lemma_occupied_count_le(b, n - 1);
        lemma_occupied_count_full(b, n - 1);
    }
}

proof fn lemma_occupied_count_update(b: Seq<Slot>, i: int, s: Slot, n: int)
    requires
        0 <= i < b.len(),
        b[i] is Empty,
        s is Occupied,
        n <= b.len(),
    ensures
        occupied_count(b.update(i, s), n) == occupied_count(b, n) + if i < n {
            1int
        } else {
            0int
        },
    decreases n,
{
    if n > 0 {
        lemma_occupied_count_update(b, i, s, n - 1);
    }
}

/// Under gravity, an empty cell anywhere in a column leaves the column's top
/// cell empty.
proof fn lemma_empty_rises(m: PosModel, file: int, rank: int, floor: int)
    requires
        m.wf(),
        0 <= file < 4,
        0 <= rank < 4,
        0 <= floor < 4,
        cell(m.board, floor, file, rank) is Empty,
    ensures
        cell(m.board, 3, file, rank) is Empty,
{
    assert(column_gravity_ok(m.board, file, rank));
}

/// Distinct cells of the cube have distinct flat indices.
proof fn lemma_cell_index_injective(l1: int, f1: int, r1: int, l2: int, f2: int, r2: int)
    requires
        0 <= l1 < 4,
        0 <= f1 < 4,
        0 <= r1 < 4,
        0 <= l2 < 4,
        0 <= f2 < 4,
        0 <= r2 < 4,
        cell_index(l1, f1, r1) == cell_index(l2, f2, r2),
    ensures
        l1 == l2 && f1 == f2 && r1 == r2,
{
    assert(l1 == l2 && f1 == f2 && r1 == r2) by (nonlinear_arith)
        requires
            0 <= l1 < 4,
            0 <= f1 < 4,
            0 <= r1 < 4,
            0 <= l2 < 4,
            0 <= f2 < 4,
            0 <= r2 < 4,
            16 * l1 + 4 * f1 + r1 == 16 * l2 + 4 * f2 + r2,
    ;
}

/// In a reachable position a column can be played iff its four cells are not
/// all occupied.
pub proof fn lemma_can_play_iff_column_not_full(m: PosModel, c: Coordinates)
    requires
        m.wf(),
        c.wf(),
    ensures
        m.can_play(c) <==> exists|floor: int|
            0 <= floor < 4 && cell(m.board, floor, c.file as int, c.rank as int) is Empty,
{
    if m.can_play(c) {
        assert(cell(m.board, 3, c.file as int, c.rank as int) is Empty);
    }
    if exists|floor: int|
        0 <= floor < 4 && cell(m.board, floor, c.file as int, c.rank as int) is Empty {
        let floor = choose|floor: int|
            0 <= floor < 4 && cell(m.board, floor, c.file as int, c.rank as int) is Empty;
        lemma_empty_rises(m, c.file as int, c.rank as int, floor);
    }
}

/// A position with fewer than 64 moves played has a playable column.
pub proof fn lemma_unfilled_has_move(m: PosModel)
    requires
        m.wf(),
        m.moves < 64,
    ensures
        exists|c: Coordinates| c.wf() && m.can_play(c),
{
    if forall|j: int| 0 <= j < 64 ==> m.board[j] is Occupied {
        assert(occupied_count(m.board, 64) == 64) by {
            lemma_occupied_count_all_occupied(m.board, 64);
        }
    } else {
        let j = choose|j: int| 0 <= j < 64 && !(m.board[j] is Occupied);
        let floor = j / 16;
        let file = (j % 16) / 4;
        let rank = j % 4;
        assert(16 * floor + 4 * file + rank == j && 0 <= floor < 4 && 0 <= file < 4 && 0 <= rank
            < 4) by (nonlinear_arith)
            requires
                0 <= j < 64,
                floor == j / 16,
                file == (j % 16) / 4,
                rank == j % 4,
        ;
        lemma_empty_rises(m, file, rank, floor);
        let c = Coordinates { file: file as usize, rank: rank as usize };
        assert(c.wf() && m.can_play(c));
    }
}

proof fn lemma_occupied_count_all_occupied(b: Seq<Slot>, n: int)
    requires
        forall|j: int| 0 <= j < n ==> b[j] is Occupied,
    ensures
        occupied_count(b, n) == n || n < 0,
    decreases n,
{
    if n > 0 {
        lemma_occupied_count_all_occupied(b, n - 1);
    }
}

/// An immutable snapshot of the game: the cube of cells, the player to move,
/// and how many plies have been played. Every value of this type reachable
/// through `new` and `play` satisfies `wf` of its model.
pub struct Position {
    pub active_player: Player,
    board: Vec<Slot>,
    num_moves_played: u8,
}

impl View for Position {
    type V = PosModel;

    closed spec fn view(&self) -> PosModel {
        PosModel {
            board: self.board@,
            active: self.active_player,
            moves: self.num_moves_played as int,
        }
    }
}

impl Position {
    /// The player to move. Returns the public `active_player` field, and
    /// ties it to the model: the field always shows `self@.active`.
    pub fn to_move(&self) -> (p: Player)
        ensures
            p == self@.active,
    {
        self.active_player
    }

    /// The starting position: an all-empty cube, White to move, no moves
    /// played.
    pub fn new() -> (p: Position)
        ensures
            p@.wf(),
            p@.active == Player::White,
            p@.moves == 0,
            forall|i: int| 0 <= i < 64 ==> p@.board[i] is Empty,
    {
        let mut board: Vec<Slot> = Vec::new();
        let mut i: usize = 0;
        while i < 64
            invariant
                i <= 64,
                board@.len() == i,
                forall|j: int| 0 <= j < i ==> board@[j] is Empty,
            decreases 64 - i,
        {
            board.push(Slot::Empty);
            i = i + 1;
        }
        proof {
            lemma_occupied_count_all_empty(board@, 64);
        }
        Position { active_player: Player::White, board, num_moves_played: 0 }
    }

    /// The cell at (floor, file, rank), for rendering the board.
    pub fn slot(&self, floor: usize, file: usize, rank: usize) -> (s: Slot)
        requires
            self@.wf(),
            floor < 4,
            file < 4,
            rank < 4,
        ensures
            s == cell(self@.board, floor as int, file as int, rank as int),
    {
        self.board[16 * floor + 4 * file + rank]
    }

    /// A column is playable iff its topmost cell is empty; nothing else is
    /// consulted.
    pub fn can_play(&self, coordinates: Coordinates) -> (r: bool)
        requires
            self@.wf(),
            coordinates.wf(),
        ensures
            r == self@.can_play(coordinates),
    {
        self.board[48 + 4 * coordinates.file + coordinates.rank] == Slot::Empty
    }

    /// Drop the active player's piece into the chosen column: the lowest
    /// empty cell of the column is filled, the active player flips, and the
    /// move count grows by one. The active player thus alternates strictly
    /// with every ply.
    pub fn play(&self, coordinates: Coordinates) -> (p: Position)
        requires
            self@.wf(),
            coordinates.wf(),
            self@.can_play(coordinates),
        ensures
            p@ == spec_play(self@, coordinates),
            p@.wf(),
            p@.moves == self@.moves + 1,
            p@.active == player_other(self@.active),
    {
        let base: usize = 4 * coordinates.file + coordinates.rank;
        let floor: usize = if self.board[base] == Slot::Empty {
            0
        } else if self.board[16 + base] == Slot::Empty {
            1
        } else if self.board[32 + base] == Slot::Empty {
            2
        } else {
            3
        };
        let target: usize = 16 * floor + base;
        proof {
            reveal_with_fuel(first_empty_from, 5);
            assert(self@.landing_floor(coordinates) == floor as int);
            assert(self@.board[target as int] is Empty);
        }

        let mut new_board: Vec<Slot> = Vec::new();
        let mut i: usize = 0;
        while i < 64
            invariant
                i <= 64,
                new_board@.len() == i,
                target < 64,
                self@.board.len() == 64,
                self@.board == self.board@,
                forall|j: int|
                    0 <= j < i ==> new_board@[j] == if j == target as int {
                        Slot::Occupied(self.active_player)
                    } else {
                        self@.board[j]
                    },
            decreases 64 - i,
        {
            if i == target {
                new_board.push(Slot::Occupied(self.active_player));
            } else {
                new_board.push(self.board[i]);
            }
            i = i + 1;
        }

        let new_active = match self.active_player {
            Player::White => Player::Black,
            Player::Black => Player::White,
        };

        proof {
            let m = self@;
            let t = target as int;
            let fl0 = floor as int;
            let cf = coordinates.file as int;
            let cr = coordinates.rank as int;
            assert(new_board@ =~= m.board.update(t, Slot::Occupied(m.active)));
            lemma_occupied_count_update(m.board, t, Slot::Occupied(m.active), 64);
            lemma_occupied_count_with_empty(m.board, t, 64);
            let nb = m.board.update(t, Slot::Occupied(m.active));
            assert forall|file: int, rank: int| 0 <= file < 4 && 0 <= rank < 4 implies #[trigger]
            column_gravity_ok(nb, file, rank) by {
                assert(column_gravity_ok(m.board, file, rank));
                if file == cf && rank == cr {
                    // the played column: every floor below the landing floor
                    // was occupied, the landing floor is occupied now, and
                    // the floors above are unchanged
                    assert forall|fl: int| 0 <= fl < 4 && fl != fl0 implies cell(nb, fl, cf, cr)
                        == cell(m.board, fl, cf, cr) by {
                        if cell_index(fl, cf, cr) == t {
                            lemma_cell_index_injective(fl, cf, cr, fl0, cf, cr);
                        }
                    }
                    assert(cell(nb, fl0, cf, cr) is Occupied);
                    assert(forall|fl: int|
                        0 <= fl < fl0 ==> !(#[trigger] cell(m.board, fl, cf, cr) is Empty));
                } else {
                    // an untouched column
                    assert forall|fl: int| 0 <= fl < 4 implies cell(nb, fl, file, rank) == cell(
                        m.board,
                        fl,
                        file,
                        rank,
                    ) by {
                        if cell_index(fl, file, rank) == t {
                            lemma_cell_index_injective(fl, file, rank, fl0, cf, cr);
                        }
                    }
                }
            }
        }

        Position {
            active_player: new_active,
            board: new_board,
            num_moves_played: self.num_moves_played + 1,
        }
    }
}

/// The fold state of one 4-cell line: no piece seen yet, pieces of one
/// player only (with their number), four pieces of one player, or pieces of
/// both players (a dead line).
#[derive(Clone, Copy)]
pub enum LineState {
    Uncontrolled,
    Controlled { controlling_player: Player, degree: i16 },
    Completed,
    Plugged,
}

/// One step of the fold over a line's cells.
pub open spec fn ls_add(ls: LineState, s: Slot) -> LineState {
    match s {
        Slot::Empty => ls,
        Slot::Occupied(p) => match ls {
            LineState::Uncontrolled => LineState::Controlled { controlling_player: p, degree: 1 },
            LineState::Controlled { controlling_player, degree } => {
                if controlling_player == p {
                    if degree == 3 {
                        LineState::Completed
                    } else {
                        LineState::Controlled { controlling_player, degree: (degree + 1) as i16 }
                    }
                } else {
                    LineState::Plugged
                }
            },
            LineState::Plugged => LineState::Plugged,
            LineState::Completed => LineState::Completed,
        },
    }
}

/// The state of a line with cells `c0, c1, c2, c3`, folded left to right.
pub open spec fn line4(c0: Slot, c1: Slot, c2: Slot, c3: Slot) -> LineState {
    ls_add(ls_add(ls_add(ls_add(LineState::Uncontrolled, c0), c1), c2), c3)
}

/// What a fold state can look like after `k` cells: a controlled line has
/// between 1 and min(k, 3) pieces, and completion takes all four cells.
pub open spec fn ls_degree_ok(ls: LineState, k: int) -> bool {
    match ls {
        LineState::Uncontrolled => true,
        LineState::Controlled { degree, .. } => 1 <= degree && degree <= k && degree <= 3,
        LineState::Completed => k >= 4,
        LineState::Plugged => k >= 2,
    }
}

proof fn lemma_ls_add_degree_ok(ls: LineState, s: Slot, k: int)
    requires
        ls_degree_ok(ls, k),
        0 <= k,
    ensures
        ls_degree_ok(ls_add(ls, s), k + 1),
{
}

/// What one line adds to the heuristic score: its piece count, for the
/// active player's lines, or its negation for the opponent's.
pub open spec fn line_contrib(ls: LineState, active: Player) -> int {
    match ls {
        LineState::Controlled { controlling_player, degree } => {
            if controlling_player == active {
                degree as int
            } else {
                -(degree as int)
            }
        },
        _ => 0,
    }
}

impl LineState {
    /// Fold one more cell into the accumulator. A completed line is a
    /// terminal state: folding anything further into it is a caller error.
    pub fn add_slot(&mut self, s: Slot)
        requires
            !(*old(self) is Completed),
            *old(self) matches LineState::Controlled { degree, .. } ==> 1 <= degree <= 3,
        ensures
            *final(self) == ls_add(*old(self), s),
    {
        let player = match s {
            Slot::Empty => {
                return ;
            },
            Slot::Occupied(p) => p,
        };

        match *self {
            LineState::Uncontrolled => {
                *self = LineState::Controlled { controlling_player: player, degree: 1 };
            },
            LineState::Controlled { controlling_player, degree } => {
                if controlling_player == player {
                    if degree == 3 {
                        *self = LineState::Completed;
                    } else {
                        *self = LineState::Controlled { controlling_player, degree: degree + 1 };
                    }
                } else {
                    *self = LineState::Plugged;
                }
            },
            LineState::Plugged => {},
            LineState::Completed => {},
        }
    }
}

/// The state of the line through cells `i0, i1, i2, i3` of `board`.
fn line_state(board: &Vec<Slot>, i0: usize, i1: usize, i2: usize, i3: usize) -> (r: LineState)
    requires
        board@.len() == 64,
        i0 < 64,
        i1 < 64,
        i2 < 64,
        i3 < 64,
    ensures
        r == line4(board@[i0 as int], board@[i1 as int], board@[i2 as int], board@[i3 as int]),
        r matches LineState::Controlled { degree, .. } ==> 1 <= degree <= 3,
{
    let mut ls = LineState::Uncontrolled;
    ls.add_slot(board[i0]);
    proof {
        lemma_ls_add_degree_ok(LineState::Uncontrolled, board@[i0 as int], 0);
    }
    let ghost ls1 = ls;
    ls.add_slot(board[i1]);
    proof {
        lemma_ls_add_degree_ok(ls1, board@[i1 as int], 1);
    }
    let ghost ls2 = ls;
    ls.add_slot(board[i2]);
    proof {
        lemma_ls_add_degree_ok(ls2, board@[i2 as int], 2);
    }
    let ghost ls3 = ls;
    ls.add_slot(board[i3]);
    proof {
        lemma_ls_add_degree_ok(ls3, board@[i3 as int], 3);
    }
    ls
}

/// Cell `m` of straight line `t`, for `t` in [0, 48): line `t` fixes two
/// axes at `t / 12` and `(t % 12) / 3` and varies the axis chosen by
/// `t % 3` (ranks, files, or floors).
pub open spec fn straight_cell(b: Seq<Slot>, t: int, m: int) -> Slot {
    let f1 = t / 12;
    let f2 = (t % 12) / 3;
    let axis = t % 3;
    if axis == 0 {
        cell(b, f1, f2, m)
    } else if axis == 1 {
        cell(b, f1, m, f2)
    } else {
        cell(b, m, f1, f2)
    }
}

/// The fold state of straight line `t`.
pub open spec fn straight_state(b: Seq<Slot>, t: int) -> LineState {
    line4(straight_cell(b, t, 0), straight_cell(b, t, 1), straight_cell(b, t, 2), straight_cell(b, t, 3))
}

/// Cell `m` of face diagonal `u`, for `u` in [0, 24): diagonal `u` fixes the
/// axis chosen by `(u % 6) / 2` at index `u / 6` and varies the other two in
/// lock-step, descending in the second when `u % 2 == 1`.
pub open spec fn diag_cell(b: Seq<Slot>, u: int, m: int) -> Slot {
    let fi = u / 6;
    let fa = (u % 6) / 2;
    let mm = if u % 2 == 0 {
        m
    } else {
        3 - m
    };
    if fa == 0 {
        cell(b, m, mm, fi)
    } else if fa == 1 {
        cell(b, m, fi, mm)
    } else {
        cell(b, fi, m, mm)
    }
}

/// The fold state of face diagonal `u`.
pub open spec fn diag_state(b: Seq<Slot>, u: int) -> LineState {
    line4(diag_cell(b, u, 0), diag_cell(b, u, 1), diag_cell(b, u, 2), diag_cell(b, u, 3))
}

/// Cell `m` of space diagonal `v`, for `v` in [0, 4): the four main
/// diagonals of the cube, descending in file for `v >= 2` and in rank for
/// odd `v`.
pub open spec fn space_cell(b: Seq<Slot>, v: int, m: int) -> Slot {
    let file = if v == 2 || v == 3 {
        3 - m
    } else {
        m
    };
    let rank = if v == 1 || v == 3 {
        3 - m
    } else {
        m
    };
    cell(b, m, file, rank)
}

/// The fold state of space diagonal `v`.
pub open spec fn space_state(b: Seq<Slot>, v: int) -> LineState {
    line4(space_cell(b, v, 0), space_cell(b, v, 1), space_cell(b, v, 2), space_cell(b, v, 3))
}

/// Some straight line is complete.
pub open spec fn straight_completed(b: Seq<Slot>) -> bool {
    exists|t: int| 0 <= t < 48 && #[trigger] straight_state(b, t) is Completed
}

/// Some face diagonal is complete.
pub open spec fn diag_completed(b: Seq<Slot>) -> bool {
    exists|u: int| 0 <= u < 24 && #[trigger] diag_state(b, u) is Completed
}

/// Some space diagonal is complete.
pub open spec fn space_completed(b: Seq<Slot>) -> bool {
    exists|v: int| 0 <= v < 4 && #[trigger] space_state(b, v) is Completed
}

/// Some of the 76 winning lines is complete.
pub open spec fn any_line_completed(b: Seq<Slot>) -> bool {
    straight_completed(b) || diag_completed(b) || space_completed(b)
}

/// The heuristic contribution of the first `n` straight lines.
pub open spec fn straight_score(b: Seq<Slot>, active: Player, n: int) -> int
    decreases n,
{
    if n <= 0 {
        0
    } else {
        straight_score(b, active, n - 1) + line_contrib(straight_state(b, n - 1), active)
    }
}

/// The heuristic contribution of the first `n` face diagonals.
pub open spec fn diag_score(b: Seq<Slot>, active: Player, n: int) -> int
    decreases n,
{
    if n <= 0 {
        0
    } else {
        diag_score(b, active, n - 1) + line_contrib(diag_state(b, n - 1), active)
    }
}

/// The heuristic contribution of the first `n` space diagonals.
pub open spec fn space_score(b: Seq<Slot>, active: Player, n: int) -> int
    decreases n,
{
    if n <= 0 {
        0
    } else {
        space_score(b, active, n - 1) + line_contrib(space_state(b, n - 1), active)
    }
}

/// The full heuristic score: the sum over all 76 lines.
pub open spec fn total_heuristic(b: Seq<Slot>, active: Player) -> int {
    straight_score(b, active, 48) + diag_score(b, active, 24) + space_score(b, active, 4)
}

/// The static evaluation of a position, from its active player's point of
/// view: `Loss` if any line is complete (the player who just moved owns it),
/// otherwise `Draw` on a full board, otherwise the heuristic score.
pub open spec fn spec_eval(m: PosModel) -> Evaluation {
    if any_line_completed(m.board) {
        Evaluation::Loss
    } else if m.moves == 64 {
        Evaluation::Draw
    } else {
        Evaluation::HeuristicScore(total_heuristic(m.board, m.active) as i16)
    }
}

proof fn lemma_line4_degree_ok(c0: Slot, c1: Slot, c2: Slot, c3: Slot)
    ensures
        ls_degree_ok(line4(c0, c1, c2, c3), 4),
{
    lemma_ls_add_degree_ok(LineState::Uncontrolled, c0, 0);
    lemma_ls_add_degree_ok(ls_add(LineState::Uncontrolled, c0), c1, 1);
    lemma_ls_add_degree_ok(ls_add(ls_add(LineState::Uncontrolled, c0), c1), c2, 2);
    lemma_ls_add_degree_ok(ls_add(ls_add(ls_add(LineState::Uncontrolled, c0), c1), c2), c3, 3);
}

/// Each line contributes at most 3 in absolute value.
proof fn lemma_line_contrib_bound(ls: LineState, active: Player)
    requires
        ls_degree_ok(ls, 4),
    ensures
        -3 <= line_contrib(ls, active) <= 3,
{
}

proof fn lemma_straight_score_bound(b: Seq<Slot>, active: Player, n: int)
    requires
        0 <= n,
    ensures
        -3 * n <= straight_score(b, active, n) <= 3 * n,
    decreases n,
{
    if n > 0 {
        lemma_straight_score_bound(b, active, n - 1);
        lemma_line4_degree_ok(
            straight_cell(b, n - 1, 0),
            straight_cell(b, n - 1, 1),
            straight_cell(b, n - 1, 2),
            straight_cell(b, n - 1, 3),
        );
        lemma_line_contrib_bound(straight_state(b, n - 1), active);
    }
}

proof fn lemma_diag_score_bound(b: Seq<Slot>, active: Player, n: int)
    requires
        0 <= n,
    ensures
        -3 * n <= diag_score(b, active, n) <= 3 * n,
    decreases n,
{
    if n > 0 {
        lemma_diag_score_bound(b, active, n - 1);
        lemma_line4_degree_ok(
            diag_cell(b, n - 1, 0),
            diag_cell(b, n - 1, 1),
            diag_cell(b, n - 1, 2),
            diag_cell(b, n - 1, 3),
        );
        lemma_line_contrib_bound(diag_state(b, n - 1), active);
    }
}

proof fn lemma_space_score_bound(b: Seq<Slot>, active: Player, n: int)
    requires
        0 <= n,
    ensures
        -3 * n <= space_score(b, active, n) <= 3 * n,
    decreases n,
{
    if n > 0 {
        lemma_space_score_bound(b, active, n - 1);
        lemma_line4_degree_ok(
            space_cell(b, n - 1, 0),
            space_cell(b, n - 1, 1),
            space_cell(b, n - 1, 2),
            space_cell(b, n - 1, 3),
        );
        lemma_line_contrib_bound(space_state(b, n - 1), active);
    }
}

/// A static evaluation never carries a heuristic payload near the `i16`
/// limits: the 76 lines contribute at most 228 in absolute value.
pub proof fn lemma_spec_eval_bounded(m: PosModel)
    ensures
        eval_small(spec_eval(m)),
        spec_eval(m) is HeuristicScore ==> -228 <= spec_eval(m)->0 <= 228,
{
    lemma_straight_score_bound(m.board, m.active, 48);
    lemma_diag_score_bound(m.board, m.active, 24);
    lemma_space_score_bound(m.board, m.active, 4);
}

proof fn lemma_straight_decompose(t: int, f1: int, f2: int, axis: int)
    requires
        0 <= f1 < 4,
        0 <= f2 < 4,
        0 <= axis < 3,
        t == 12 * f1 + 3 * f2 + axis,
    ensures
        t / 12 == f1,
        (t % 12) / 3 == f2,
        t % 3 == axis,
        0 <= t < 48,
{
    assert(t / 12 == f1 && (t % 12) / 3 == f2 && t % 3 == axis) by (nonlinear_arith)
        requires
            0 <= f1 < 4,
            0 <= f2 < 4,
            0 <= axis < 3,
            t == 12 * f1 + 3 * f2 + axis,
    ;
}

proof fn lemma_diag_decompose(u: int, fi: int, fa: int, w: int)
    requires
        0 <= fi < 4,
        0 <= fa < 3,
        0 <= w < 2,
        u == 6 * fi + 2 * fa + w,
    ensures
        u / 6 == fi,
        (u % 6) / 2 == fa,
        u % 2 == w,
        0 <= u < 24,
{
    assert(u / 6 == fi && (u % 6) / 2 == fa && u % 2 == w) by (nonlinear_arith)
        requires
            0 <= fi < 4,
            0 <= fa < 3,
            0 <= w < 2,
            u == 6 * fi + 2 * fa + w,
    ;
}

impl Position {
    /// The static evaluation of this position, from the active player's
    /// point of view: `Loss` the instant any of the 76 lines is complete
    /// (the player who just moved owns it), `Draw` on a full board without
    /// one, otherwise the heuristic sum over all lines. The result is a
    /// function of the position alone.
    pub fn get_static_evaluation(&self) -> (r: Evaluation)
        requires
            self@.wf(),
        ensures
            r == spec_eval(self@),
    {
        let mut heuristic_score: i16 = 0;

        match self.evaluate_straight_lines() {
            Evaluation::HeuristicScore(s) => {
                proof {
                    lemma_straight_score_bound(self@.board, self@.active, 48);
                }
                heuristic_score = heuristic_score + s;
            },
            terminal_eval => {
                return terminal_eval;
            },
        }

        match self.evaluate_first_degree_diagonals() {
            Evaluation::HeuristicScore(s) => {
                proof {
                    lemma_diag_score_bound(self@.board, self@.active, 24);
                }
                heuristic_score = heuristic_score + s;
            },
            terminal_eval => {
                return terminal_eval;
            },
        }

        match self.evaluate_second_degree_diagonals() {
            Evaluation::HeuristicScore(s) => {
                proof {
                    lemma_space_score_bound(self@.board, self@.active, 4);
                }
                heuristic_score = heuristic_score + s;
            },
            terminal_eval => {
                return terminal_eval;
            },
        }

        if self.num_moves_played == 64 {
            return Evaluation::Draw;
        }

        Evaluation::HeuristicScore(heuristic_score)
    }

    /// A position is terminal exactly when its static evaluation is `Win`,
    /// `Loss` or `Draw`.
    pub fn is_terminal(&self) -> (r: bool)
        requires
            self@.wf(),
        ensures
            r == !(spec_eval(self@) is HeuristicScore),
    {
        match self.get_static_evaluation() {
            Evaluation::HeuristicScore(_) => false,
            _ => true,
        }
    }

    /// All currently playable columns, sorted ascending by the static
    /// evaluation of the position each one leads to, so that the opponent's
    /// least favorable replies come first; columns of equal evaluation keep
    /// their file-major order. The ordering only accelerates the search; it
    /// never changes the search value.
    pub fn generate_moves(&self) -> (moves: Vec<Coordinates>)
        requires
            self@.wf(),
        ensures
            moves@ == spec_moves(self@),
            forall|i: int|
                0 <= i < moves@.len() ==> ((#[trigger] moves@[i]).wf() && self@.can_play(
                    moves@[i],
                )),
    {
        let mut playable_coords: Vec<Coordinates> = Vec::new();

        let mut file: usize = 0;
        while file < 4
            invariant
                file <= 4,
                self@.wf(),
                playable_coords@ == legal_cols(self@, 4 * (file as int)),
                forall|i: int|
                    0 <= i < playable_coords@.len() ==> ((#[trigger] playable_coords@[i]).wf()
                        && self@.can_play(playable_coords@[i])),
            decreases 4 - file,
        {
            let mut rank: usize = 0;
            while rank < 4
                invariant
                    file < 4,
                    rank <= 4,
                    self@.wf(),
                    playable_coords@ == legal_cols(self@, 4 * (file as int) + (rank as int)),
                    forall|i: int|
                        0 <= i < playable_coords@.len() ==> ((#[trigger] playable_coords@[i]).wf()
                            && self@.can_play(playable_coords@[i])),
                decreases 4 - rank,
            {
                let coords = Coordinates::new(file, rank);
                proof {
                    lemma_col_decompose(
                        4 * (file as int) + (rank as int),
                        file as int,
                        rank as int,
                    );
                    assert(col_coord(4 * (file as int) + (rank as int)) == coords);
                }
                if self.can_play(coords) {
                    playable_coords.push(coords);
                }
                rank = rank + 1;
            }
            file = file + 1;
        }

        let mut moves: Vec<Coordinates> = Vec::new();
        let mut k: usize = 0;
        while k < playable_coords.len()
            invariant
                k <= playable_coords@.len(),
                self@.wf(),
                playable_coords@ == legal_cols(self@, 16),
                forall|i: int|
                    0 <= i < playable_coords@.len() ==> ((#[trigger] playable_coords@[i]).wf()
                        && self@.can_play(playable_coords@[i])),
                moves@ == sort_moves(self@, playable_coords@.take(k as int)),
                forall|i: int|
                    0 <= i < moves@.len() ==> ((#[trigger] moves@[i]).wf() && self@.can_play(
                        moves@[i],
                    )),
            decreases playable_coords@.len() - k,
        {
            let c = playable_coords[k];
            insert_by_child_eval(self, &mut moves, c);
            proof {
                let base = playable_coords@;
                assert(base.take(k as int + 1).drop_last() =~= base.take(k as int));
                assert(base.take(k as int + 1).last() == base[k as int]);
            }
            k = k + 1;
        }
        proof {
            assert(playable_coords@.take(playable_coords@.len() as int) =~= playable_coords@);
        }
        moves
    }

    /// Fold the 48 straight lines: `Loss` at the first complete one,
    /// otherwise the sum of their heuristic contributions.
    fn evaluate_straight_lines(&self) -> (r: Evaluation)
        requires
            self@.board.len() == 64,
        ensures
            r == if straight_completed(self@.board) {
                Evaluation::Loss
            } else {
                Evaluation::HeuristicScore(straight_score(self@.board, self@.active, 48) as i16)
            },
    {
        let mut heuristic_score: i16 = 0;

        let mut fixed_index_1: usize = 0;
        while fixed_index_1 < 4
            invariant
                fixed_index_1 <= 4,
                self@.board.len() == 64,
                heuristic_score as int == straight_score(
                    self@.board,
                    self@.active,
                    12 * (fixed_index_1 as int),
                ),
                forall|q: int|
                    0 <= q < 12 * (fixed_index_1 as int) ==> !(#[trigger] straight_state(
                        self@.board,
                        q,
                    ) is Completed),
            decreases 4 - fixed_index_1,
        {
            let mut fixed_index_2: usize = 0;
            while fixed_index_2 < 4
                invariant
                    fixed_index_1 < 4,
                    fixed_index_2 <= 4,
                    self@.board.len() == 64,
                    heuristic_score as int == straight_score(
                        self@.board,
                        self@.active,
                        12 * (fixed_index_1 as int) + 3 * (fixed_index_2 as int),
                    ),
                    forall|q: int|
                        0 <= q < 12 * (fixed_index_1 as int) + 3 * (fixed_index_2 as int) ==> !(
                        #[trigger] straight_state(self@.board, q) is Completed),
                decreases 4 - fixed_index_2,
            {
                let mut axis: usize = 0;
                while axis < 3
                    invariant
                        fixed_index_1 < 4,
                        fixed_index_2 < 4,
                        axis <= 3,
                        self@.board.len() == 64,
                        heuristic_score as int == straight_score(
                            self@.board,
                            self@.active,
                            12 * (fixed_index_1 as int) + 3 * (fixed_index_2 as int) + (
                            axis as int),
                        ),
                        forall|q: int|
                            0 <= q < 12 * (fixed_index_1 as int) + 3 * (fixed_index_2 as int) + (
                            axis as int) ==> !(#[trigger] straight_state(
                                self@.board,
                                q,
                            ) is Completed),
                    decreases 3 - axis,
                {
                    let ghost t = 12 * (fixed_index_1 as int) + 3 * (fixed_index_2 as int) + (
                    axis as int);
                    let (i0, i1, i2, i3): (usize, usize, usize, usize) = if axis == 0 {
                        let b0: usize = 16 * fixed_index_1 + 4 * fixed_index_2;
                        (b0, b0 + 1, b0 + 2, b0 + 3)
                    } else if axis == 1 {
                        let b0: usize = 16 * fixed_index_1 + fixed_index_2;
                        (b0, b0 + 4, b0 + 8, b0 + 12)
                    } else {
                        let b0: usize = 4 * fixed_index_1 + fixed_index_2;
                        (b0, b0 + 16, b0 + 32, b0 + 48)
                    };
                    let linestate = line_state(&self.board, i0, i1, i2, i3);
                    proof {
                        lemma_straight_decompose(
                            t,
                            fixed_index_1 as int,
                            fixed_index_2 as int,
                            axis as int,
                        );
                        assert(straight_cell(self@.board, t, 0) == self@.board[i0 as int]);
                        assert(straight_cell(self@.board, t, 1) == self@.board[i1 as int]);
                        assert(straight_cell(self@.board, t, 2) == self@.board[i2 as int]);
                        assert(straight_cell(self@.board, t, 3) == self@.board[i3 as int]);
                        assert(linestate == straight_state(self@.board, t));
                    }
                    match linestate {
                        LineState::Completed => {
                            return Evaluation::Loss;
                        },
                        LineState::Controlled { controlling_player, degree } => {
                            proof {
                                lemma_straight_score_bound(self@.board, self@.active, t);
                            }
                            if controlling_player == self.active_player {
                                heuristic_score = heuristic_score + degree;
                            } else {
                                heuristic_score = heuristic_score - degree;
                            }
                        },
                        _ => {},
                    }
                    axis = axis + 1;
                }
                fixed_index_2 = fixed_index_2 + 1;
            }
            fixed_index_1 = fixed_index_1 + 1;
        }

        proof {
            lemma_straight_score_bound(self@.board, self@.active, 48);
        }
        Evaluation::HeuristicScore(heuristic_score)
    }

    /// Fold the 24 face diagonals: `Loss` at the first complete one,
    /// otherwise the sum of their heuristic contributions.
    fn evaluate_first_degree_diagonals(&self) -> (r: Evaluation)
        requires
            self@.board.len() == 64,
        ensures
            r == if diag_completed(self@.board) {
                Evaluation::Loss
            } else {
                Evaluation::HeuristicScore(diag_score(self@.board, self@.active, 24) as i16)
            },
    {
        let mut heuristic_score: i16 = 0;

        let mut fixed_index: usize = 0;
        while fixed_index < 4
            invariant
                fixed_index <= 4,
                self@.board.len() == 64,
                heuristic_score as int == diag_score(
                    self@.board,
                    self@.active,
                    6 * (fixed_index as int),
                ),
                forall|q: int|
                    0 <= q < 6 * (fixed_index as int) ==> !(#[trigger] diag_state(
                        self@.board,
                        q,
                    ) is Completed),
            decreases 4 - fixed_index,
        {
            let mut fixed_axis: usize = 0;
            while fixed_axis < 3
                invariant
                    fixed_index < 4,
                    fixed_axis <= 3,
                    self@.board.len() == 64,
                    heuristic_score as int == diag_score(
                        self@.board,
                        self@.active,
                        6 * (fixed_index as int) + 2 * (fixed_axis as int),
                    ),
                    forall|q: int|
                        0 <= q < 6 * (fixed_index as int) + 2 * (fixed_axis as int) ==> !(
                        #[trigger] diag_state(self@.board, q) is Completed),
                decreases 3 - fixed_axis,
            {
                let ghost u0 = 6 * (fixed_index as int) + 2 * (fixed_axis as int);
                let (i0, i1, i2, i3): (usize, usize, usize, usize) = if fixed_axis == 0 {
                    (fixed_index, 20 + fixed_index, 40 + fixed_index, 60 + fixed_index)
                } else if fixed_axis == 1 {
                    let b0: usize = 4 * fixed_index;
                    (b0, 17 + b0, 34 + b0, 51 + b0)
                } else {
                    let b0: usize = 16 * fixed_index;
                    (b0, b0 + 5, b0 + 10, b0 + 15)
                };
                let linestate_1 = line_state(&self.board, i0, i1, i2, i3);
                proof {
                    lemma_diag_decompose(u0, fixed_index as int, fixed_axis as int, 0);
                    assert(diag_cell(self@.board, u0, 0) == self@.board[i0 as int]);
                    assert(diag_cell(self@.board, u0, 1) == self@.board[i1 as int]);
                    assert(diag_cell(self@.board, u0, 2) == self@.board[i2 as int]);
                    assert(diag_cell(self@.board, u0, 3) == self@.board[i3 as int]);
                    assert(linestate_1 == diag_state(self@.board, u0));
                }
                match linestate_1 {
                    LineState::Completed => {
                        return Evaluation::Loss;
                    },
                    LineState::Controlled { controlling_player, degree } => {
                        proof {
                            lemma_diag_score_bound(self@.board, self@.active, u0);
                        }
                        if controlling_player == self.active_player {
                            heuristic_score = heuristic_score + degree;
                        } else {
                            heuristic_score = heuristic_score - degree;
                        }
                    },
                    _ => {},
                }
                proof {
                    assert(heuristic_score as int == diag_score(
                        self@.board,
                        self@.active,
                        u0 + 1,
                    ));
                }

                let ghost u1 = u0 + 1;
                let (j0, j1, j2, j3): (usize, usize, usize, usize) = if fixed_axis == 0 {
                    (12 + fixed_index, 24 + fixed_index, 36 + fixed_index, 48 + fixed_index)
                } else if fixed_axis == 1 {
                    let b0: usize = 4 * fixed_index;
                    (b0 + 3, b0 + 18, b0 + 33, b0 + 48)
                } else {
                    let b0: usize = 16 * fixed_index;
                    (b0 + 3, b0 + 6, b0 + 9, b0 + 12)
                };
                let linestate_2 = line_state(&self.board, j0, j1, j2, j3);
                proof {
                    lemma_diag_decompose(u1, fixed_index as int, fixed_axis as int, 1);
                    assert(diag_cell(self@.board, u1, 0) == self@.board[j0 as int]);
                    assert(diag_cell(self@.board, u1, 1) == self@.board[j1 as int]);
                    assert(diag_cell(self@.board, u1, 2) == self@.board[j2 as int]);
                    assert(diag_cell(self@.board, u1, 3) == self@.board[j3 as int]);
                    assert(linestate_2 == diag_state(self@.board, u1));
                }
                match linestate_2 {
                    LineState::Completed => {
                        return Evaluation::Loss;
                    },
                    LineState::Controlled { controlling_player, degree } => {
                        proof {
                            lemma_diag_score_bound(self@.board, self@.active, u1);
                        }
                        if controlling_player == self.active_player {
                            heuristic_score = heuristic_score + degree;
                        } else {
                            heuristic_score = heuristic_score - degree;
                        }
                    },
                    _ => {},
                }
                proof {
                    assert(heuristic_score as int == diag_score(
                        self@.board,
                        self@.active,
                        u0 + 2,
                    ));
                }
                fixed_axis = fixed_axis + 1;
            }
            fixed_index = fixed_index + 1;
        }

        proof {
            lemma_diag_score_bound(self@.board, self@.active, 24);
        }
        Evaluation::HeuristicScore(heuristic_score)
    }

    /// Fold the four space diagonals: `Loss` at the first complete one,
    /// otherwise the sum of their heuristic contributions.
    fn evaluate_second_degree_diagonals(&self) -> (r: Evaluation)
        requires
            self@.board.len() == 64,
        ensures
            r == if space_completed(self@.board) {
                Evaluation::Loss
            } else {
                Evaluation::HeuristicScore(space_score(self@.board, self@.active, 4) as i16)
            },
    {
        let mut heuristic_score: i16 = 0;

        let linestate_1 = line_state(&self.board, 0, 21, 42, 63);
        let linestate_2 = line_state(&self.board, 3, 22, 41, 60);
        let linestate_3 = line_state(&self.board, 12, 25, 38, 51);
        let linestate_4 = line_state(&self.board, 15, 26, 37, 48);
        proof {
            reveal_with_fuel(space_score, 5);
            assert(linestate_1 == space_state(self@.board, 0));
            assert(linestate_2 == space_state(self@.board, 1));
            assert(linestate_3 == space_state(self@.board, 2));
            assert(linestate_4 == space_state(self@.board, 3));
        }

        match linestate_1 {
            LineState::Completed => {
                return Evaluation::Loss;
            },
            LineState::Controlled { controlling_player, degree } => {
                if controlling_player == self.active_player {
                    heuristic_score = heuristic_score + degree;
                } else {
                    heuristic_score = heuristic_score - degree;
                }
            },
            _ => {},
        }
        proof {
            assert(heuristic_score as int == space_score(self@.board, self@.active, 1));
        }

        match linestate_2 {
            LineState::Completed => {
                return Evaluation::Loss;
            },
            LineState::Controlled { controlling_player, degree } => {
                if controlling_player == self.active_player {
                    heuristic_score = heuristic_score + degree;
                } else {
                    heuristic_score = heuristic_score - degree;
                }
            },
            _ => {},
        }
        proof {
            assert(heuristic_score as int == space_score(self@.board, self@.active, 2));
        }

        match linestate_3 {
            LineState::Completed => {
                return Evaluation::Loss;
            },
            LineState::Controlled { controlling_player, degree } => {
                if controlling_player == self.active_player {
                    heuristic_score = heuristic_score + degree;
                } else {
                    heuristic_score = heuristic_score - degree;
                }
            },
            _ => {},
        }
        proof {
            assert(heuristic_score as int == space_score(self@.board, self@.active, 3));
        }

        match linestate_4 {
            LineState::Completed => {
                return Evaluation::Loss;
            },
            LineState::Controlled { controlling_player, degree } => {
                if controlling_player == self.active_player {
                    heuristic_score = heuristic_score + degree;
                } else {
                    heuristic_score = heuristic_score - degree;
                }
            },
            _ => {},
        }
        proof {
            assert(heuristic_score as int == space_score(self@.board, self@.active, 4));
        }

        Evaluation::HeuristicScore(heuristic_score)
    }
}

/// The column with linear index `i`, enumerating files outermost.
pub open spec fn col_coord(i: int) -> Coordinates {
    Coordinates { file: (i / 4) as usize, rank: (i % 4) as usize }
}

/// The playable columns among the first `n` of the file-major enumeration.
pub open spec fn legal_cols(m: PosModel, n: int) -> Seq<Coordinates>
    decreases n,
{
    if n <= 0 {
        Seq::empty()
    } else {
        let s = legal_cols(m, n - 1);
        if m.can_play(col_coord(n - 1)) {
            s.push(col_coord(n - 1))
        } else {
            s
        }
    }
}

/// The sort key of a legal move: the rank of the static evaluation of the
/// position it leads to.
pub open spec fn move_key(m: PosModel, c: Coordinates) -> int {
    eval_key(spec_eval(spec_play(m, c)))
}

/// Insert `c` into the key-sorted sequence `s`, after every entry whose key
/// is at most `c`'s — the stable insertion step.
pub open spec fn insert_move(m: PosModel, s: Seq<Coordinates>, c: Coordinates) -> Seq<Coordinates>
    decreases s.len(),
{
    if s.len() == 0 {
        seq![c]
    } else if move_key(m, s.last()) <= move_key(m, c) {
        s.push(c)
    } else {
        insert_move(m, s.drop_last(), c).push(s.last())
    }
}

/// Stable insertion sort of `base` by move key.
pub open spec fn sort_moves(m: PosModel, base: Seq<Coordinates>) -> Seq<Coordinates>
    decreases base.len(),
{
    if base.len() == 0 {
        Seq::empty()
    } else {
        insert_move(m, sort_moves(m, base.drop_last()), base.last())
    }
}

/// The ordered move list of a position: all playable columns, sorted by the
/// static evaluation of the child position, ties kept in file-major order.
pub open spec fn spec_moves(m: PosModel) -> Seq<Coordinates> {
    sort_moves(m, legal_cols(m, 16))
}

proof fn lemma_insert_move_len(m: PosModel, s: Seq<Coordinates>, c: Coordinates)
    ensures
        insert_move(m, s, c).len() == s.len() + 1,
    decreases s.len(),
{
    if s.len() != 0 && !(move_key(m, s.last()) <= move_key(m, c)) {
        lemma_insert_move_len(m, s.drop_last(), c);
    }
}

proof fn lemma_sort_moves_len(m: PosModel, base: Seq<Coordinates>)
    ensures
        sort_moves(m, base).len() == base.len(),
    decreases base.len(),
{
    if base.len() != 0 {
        lemma_sort_moves_len(m, base.drop_last());
        lemma_insert_move_len(m, sort_moves(m, base.drop_last()), base.last());
    }
}

proof fn lemma_legal_cols_contains(m: PosModel, n: int, i: int)
    requires
        0 <= i < n,
        m.can_play(col_coord(i)),
    ensures
        legal_cols(m, n).len() >= 1,
    decreases n,
{
    if i < n - 1 {
        lemma_legal_cols_contains(m, n - 1, i);
    }
}

proof fn lemma_legal_cols_len_le(m: PosModel, n: int)
    ensures
        legal_cols(m, n).len() <= n || n < 0,
    decreases n,
{
    if n > 0 {
        lemma_legal_cols_len_le(m, n - 1);
    }
}

/// A position offers at most 16 moves: one per column.
pub proof fn lemma_spec_moves_len_le(m: PosModel)
    ensures
        spec_moves(m).len() <= 16,
{
    lemma_legal_cols_len_le(m, 16);
    lemma_sort_moves_len(m, legal_cols(m, 16));
}

/// A non-terminal position offers at least one move.
pub proof fn lemma_nonterminal_has_moves(m: PosModel)
    requires
        m.wf(),
        spec_eval(m) is HeuristicScore,
    ensures
        spec_moves(m).len() >= 1,
{
    lemma_unfilled_has_move(m);
    let c = choose|c: Coordinates| c.wf() && m.can_play(c);
    let i = 4 * (c.file as int) + (c.rank as int);
    lemma_col_decompose(i, c.file as int, c.rank as int);
    assert(col_coord(i) == c);
    lemma_legal_cols_contains(m, 16, i);
    lemma_sort_moves_len(m, legal_cols(m, 16));
}

proof fn lemma_col_decompose(i: int, file: int, rank: int)
    requires
        0 <= file < 4,
        0 <= rank < 4,
        i == 4 * file + rank,
    ensures
        i / 4 == file,
        i % 4 == rank,
        0 <= i < 16,
{
    assert(i / 4 == file && i % 4 == rank) by (nonlinear_arith)
        requires
            0 <= file < 4,
            0 <= rank < 4,
            i == 4 * file + rank,
    ;
}

/// The stable insertion step, written as a split at the insertion point.
proof fn lemma_insert_move_split(m: PosModel, s: Seq<Coordinates>, c: Coordinates, j: int)
    requires
        0 <= j <= s.len(),
        forall|i: int| j <= i < s.len() ==> move_key(m, #[trigger] s[i]) > move_key(m, c),
        j > 0 ==> move_key(m, s[j - 1]) <= move_key(m, c),
    ensures
        insert_move(m, s, c) == s.insert(j, c),
    decreases s.len(),
{
    if s.len() == 0 {
        assert(insert_move(m, s, c) =~= s.insert(j, c));
    } else if move_key(m, s.last()) <= move_key(m, c) {
        assert(j == s.len());
        assert(insert_move(m, s, c) =~= s.insert(j, c));
    } else {
        assert(j < s.len());
        lemma_insert_move_split(m, s.drop_last(), c, j);
        assert(insert_move(m, s.drop_last(), c).push(s.last()) =~= s.insert(j, c));
    }
}

/// Insert a playable column into a move list kept sorted by the child
/// position's evaluation, after any entries of equal key.
fn insert_by_child_eval(position: &Position, v: &mut Vec<Coordinates>, coordinates: Coordinates)
    requires
        position@.wf(),
        coordinates.wf(),
        position@.can_play(coordinates),
        forall|i: int|
            0 <= i < old(v)@.len() ==> ((#[trigger] old(v)@[i]).wf() && position@.can_play(
                old(v)@[i],
            )),
    ensures
        final(v)@ == insert_move(position@, old(v)@, coordinates),
        forall|i: int|
            0 <= i < final(v)@.len() ==> ((#[trigger] final(v)@[i]).wf() && position@.can_play(
                final(v)@[i],
            )),
{
    let child = position.play(coordinates);
    let new_key: i32 = child.get_static_evaluation().order_key();

    let mut j: usize = v.len();
    while j > 0
        invariant_except_break
            j <= v@.len(),
            position@.wf(),
            coordinates.wf(),
            position@.can_play(coordinates),
            new_key as int == move_key(position@, coordinates),
            forall|i: int|
                0 <= i < v@.len() ==> ((#[trigger] v@[i]).wf() && position@.can_play(v@[i])),
            forall|i: int|
                j <= i < v@.len() ==> move_key(position@, #[trigger] v@[i]) > move_key(
                    position@,
                    coordinates,
                ),
        ensures
            j <= v@.len(),
            forall|i: int|
                j <= i < v@.len() ==> move_key(position@, #[trigger] v@[i]) > move_key(
                    position@,
                    coordinates,
                ),
            j > 0 ==> move_key(position@, v@[j - 1]) <= move_key(position@, coordinates),
        decreases j,
    {
        let prev = v[j - 1];
        let prev_child = position.play(prev);
        let prev_key: i32 = prev_child.get_static_evaluation().order_key();
        if prev_key <= new_key {
            break ;
        }
        j = j - 1;
    }

    proof {
        lemma_insert_move_split(position@, v@, coordinates, j as int);
    }
    v.insert(j, coordinates);
}

} // verus!

