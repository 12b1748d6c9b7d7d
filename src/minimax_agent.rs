//! Depth-limited minimax search with alpha-beta pruning, preceded by
//! one-ply win and block shortcuts.
use vstd::prelude::*;

use crate::game::{Game, GameState, GameView, Player};

verus! {

/// The largest number of rows or columns the evaluator scores; beyond it an
/// `i32` score could overflow.
pub const SEARCH_MAX_SIDE: usize = 1000;

/// Score of a won game for the searching side.
pub const WIN_SCORE: i32 = 1000;

pub open spec fn search_sized(v: GameView) -> bool {
    v.rows() <= SEARCH_MAX_SIDE && v.cols() <= SEARCH_MAX_SIDE
}

pub open spec fn center_of(v: GameView) -> int {
    v.cols() / 2
}

pub open spec fn dist(c: int, center: int) -> int {
    if c >= center {
        c - center
    } else {
        center - c
    }
}

/// The cell at `(r, c)`, `None` off the grid.
pub open spec fn at(v: GameView, r: int, c: int) -> Option<Player> {
    if v.in_bounds(r, c) {
        v.cell(r, c)
    } else {
        None
    }
}

/// A piece of `p` sits left, right, below, below-left or below-right of `(r, c)`.
/// Upward neighbours are left out: they are counted from the piece above.
pub open spec fn has_adjacent(v: GameView, r: int, c: int, p: Player) -> bool {
    ||| at(v, r, c - 1) == Some(p)
    ||| at(v, r, c + 1) == Some(p)
    ||| at(v, r + 1, c) == Some(p)
    ||| at(v, r + 1, c - 1) == Some(p)
    ||| at(v, r + 1, c + 1) == Some(p)
}

/// The worth of the piece at `(r, c)` to the side to move: own pieces gain
/// `5 - distance to the centre column`, opponent pieces cost
/// `6 - distance`; a neighbour of the same colour adds 2 either way.
pub open spec fn piece_score(v: GameView, r: int, c: int) -> int {
    let me = v.current;
    let d = dist(c, center_of(v));
    match at(v, r, c) {
        Some(q) => if q == me {
            5 - d + if has_adjacent(v, r, c, me) {
                2int
            } else {
                0
            }
        } else {
            -(6 - d) - if has_adjacent(v, r, c, q) {
                2int
            } else {
                0
            }
        },
        None => 0,
    }
}

/// Centre control: 5 for an own piece in the centre column, -2 for an opponent's.
pub open spec fn center_score(v: GameView, r: int) -> int {
    match at(v, r, center_of(v)) {
        Some(q) => if q == v.current {
            5
        } else {
            -2
        },
        None => 0,
    }
}

pub open spec fn center_sum(v: GameView, n: int) -> int
    decreases n,
{
    if n <= 0 {
        0
    } else {
        center_sum(v, n - 1) + center_score(v, n - 1)
    }
}

pub open spec fn row_sum(v: GameView, r: int, n: int) -> int
    decreases n,
{
    if n <= 0 {
        0
    } else {
        row_sum(v, r, n - 1) + piece_score(v, r, n - 1)
    }
}

pub open spec fn grid_sum(v: GameView, n: int) -> int
    decreases n,
{
    if n <= 0 {
        0
    } else {
        grid_sum(v, n - 1) + row_sum(v, n - 1, v.cols())
    }
}

/// The static evaluation of a position, from the side to move.
pub open spec fn position_score(v: GameView) -> int {
    center_sum(v, v.rows()) + grid_sum(v, v.rows())
}

pub open spec fn open_column(v: GameView, c: int) -> bool {
    0 <= c < v.cols() && !v.column_full(c)
}

/// `c` is the only column that is not full.
pub open spec fn sole_open_column(v: GameView, c: int) -> bool {
    &&& open_column(v, c)
    &&& forall|x: int| open_column(v, x) ==> x == c
}

/// `c` is the leftmost open column where a piece of `p` wins at once.
pub open spec fn first_win(v: GameView, c: int, p: Player) -> bool {
    &&& open_column(v, c)
    &&& v.drop_wins(c, p)
    &&& forall|x: int| 0 <= x < c && open_column(v, x) ==> !v.drop_wins(x, p)
}

pub open spec fn no_win(v: GameView, p: Player) -> bool {
    forall|x: int| open_column(v, x) ==> !v.drop_wins(x, p)
}

/// Bound on the magnitude of any score the search produces.
pub const SCORE_BOUND: i32 = 1_008_005_000;

/// The minimax value of `v` for `player`, `depth` plies deep, without any
/// pruning: won and drawn games score +-`WIN_SCORE` and 0, a game with depth
/// left but no open column scores 0, depth 0 scores `position_score`;
/// otherwise the best child for the side on ply (highest when maximizing,
/// lowest when not).
pub open spec fn search_value(v: GameView, player: Player, depth: nat, maximizing: bool) -> int
    decreases 2 * depth + 1, 0nat,
{
    match v.status {
        GameState::Won(p) => if p == player {
            WIN_SCORE as int
        } else {
            -WIN_SCORE
        },
        GameState::Draw => 0,
        GameState::InProgress => if depth == 0 {
            position_score(v)
        } else if forall|c: int| !open_column(v, c) {
            0
        } else {
            best_child(v, player, (depth - 1) as nat, maximizing, v.cols() as nat)
        },
    }
}

/// The value of dropping into column `c`, searched `d` plies deep.
pub open spec fn child_value(v: GameView, player: Player, d: nat, maximizing: bool, c: int) -> int
    decreases 2 * d + 1, 1nat,
{
    search_value(v.after_drop(c), player, d, !maximizing)
}

/// The best child value over the open columns `0..n` (an extreme `i32` if none).
pub open spec fn best_child(v: GameView, player: Player, d: nat, maximizing: bool, n: nat) -> int
    decreases 2 * d + 2, n,
{
    if n == 0 {
        if maximizing {
            i32::MIN as int
        } else {
            i32::MAX as int
        }
    } else {
        let rest = best_child(v, player, d, maximizing, (n - 1) as nat);
        if open_column(v, n - 1) {
            let x = child_value(v, player, d, maximizing, n - 1);
            if maximizing {
                if x > rest {
                    x
                } else {
                    rest
                }
            } else {
                if x < rest {
                    x
                } else {
                    rest
                }
            }
        } else {
            rest
        }
    }
}

/// The best child is at most (when maximizing) or at least (when minimizing)
/// any bound that every open child meets.
proof fn lemma_best_child_within(v: GameView, player: Player, d: nat, maximizing: bool, n: nat, x: int)
    requires
        maximizing ==> i32::MIN <= x,
        !maximizing ==> x <= i32::MAX,
        forall|c: int|
            0 <= c < n && open_column(v, c) ==> (maximizing ==> #[trigger] child_value(v, player, d, maximizing, c) <= x)
                && (!maximizing ==> child_value(v, player, d, maximizing, c) >= x),
    ensures
        maximizing ==> best_child(v, player, d, maximizing, n) <= x,
        !maximizing ==> best_child(v, player, d, maximizing, n) >= x,
    decreases n,
{
    if n > 0 {
        lemma_best_child_within(v, player, d, maximizing, (n - 1) as nat, x);
        let rest = best_child(v, player, d, maximizing, (n - 1) as nat);
        assert(maximizing ==> rest <= x);
        assert(!maximizing ==> rest >= x);
        if open_column(v, n - 1) {
            assert(maximizing ==> child_value(v, player, d, maximizing, n - 1) <= x);
            assert(!maximizing ==> child_value(v, player, d, maximizing, n - 1) >= x);
        }
    } else {
        assert(best_child(v, player, d, maximizing, 0) == (if maximizing { i32::MIN as int } else { i32::MAX as int }));
    }
}

/// The best child is at least (maximizing) or at most (minimizing) each open child.
proof fn lemma_best_child_reaches(v: GameView, player: Player, d: nat, maximizing: bool, n: nat, c: int)
    requires
        0 <= c < n,
        open_column(v, c),
    ensures
        maximizing ==> best_child(v, player, d, maximizing, n) >= child_value(v, player, d, maximizing, c),
        !maximizing ==> best_child(v, player, d, maximizing, n) <= child_value(v, player, d, maximizing, c),
    decreases n,
{
    if c < n - 1 {
        lemma_best_child_reaches(v, player, d, maximizing, (n - 1) as nat, c);
    }
}

proof fn lemma_piece_bound(v: GameView, r: int, c: int)
    requires
        search_sized(v),
        0 <= c < v.cols(),
    ensures
        -1008 <= piece_score(v, r, c) <= 1008,
{
}

proof fn lemma_row_bound(v: GameView, r: int, n: int)
    requires
        search_sized(v),
        0 <= n <= v.cols(),
    ensures
        -1008 * n <= row_sum(v, r, n) <= 1008 * n,
    decreases n,
{
    if n > 0 {
        lemma_row_bound(v, r, n - 1);
        lemma_piece_bound(v, r, n - 1);
    }
}

proof fn lemma_grid_bound(v: GameView, n: int)
    requires
        search_sized(v),
        0 <= n,
    ensures
        -1008000 * n <= grid_sum(v, n) <= 1008000 * n,
        -5 * n <= center_sum(v, n) <= 5 * n,
    decreases n,
{
    if n > 0 {
        lemma_grid_bound(v, n - 1);
        lemma_row_bound(v, n - 1, v.cols());
        assert(1008 * v.cols() <= 1008000);
    }
}

/// Every search value lies within `SCORE_BOUND`.
pub proof fn lemma_search_bound(v: GameView, player: Player, depth: nat, maximizing: bool)
    requires
        search_sized(v),
    ensures
        -SCORE_BOUND <= search_value(v, player, depth, maximizing) <= SCORE_BOUND,
    decreases depth,
{
    if v.status == GameState::InProgress {
        if depth == 0 {
            lemma_grid_bound(v, v.rows());
        } else if !(forall|c: int| !open_column(v, c)) {
            let d = (depth - 1) as nat;
            let n = v.cols() as nat;
            assert forall|c: int| 0 <= c < n && open_column(v, c) implies -SCORE_BOUND <= #[trigger] child_value(
                v,
                player,
                d,
                maximizing,
                c,
            ) <= SCORE_BOUND by {
                lemma_search_bound(v.after_drop(c), player, d, !maximizing);
            }
            let bound = if maximizing {
                SCORE_BOUND as int
            } else {
                -SCORE_BOUND
            };
            lemma_best_child_within(v, player, d, maximizing, n, bound);
            let c = choose|c: int| open_column(v, c);
            assert(0 <= c < n);
            lemma_best_child_reaches(v, player, d, maximizing, n, c);
            assert(-SCORE_BOUND <= child_value(v, player, d, maximizing, c) <= SCORE_BOUND);
        }
    }
}

/// The minimax value of dropping into column `c` at the root of a search
/// `depth` plies deep: the opponent moves next, so the child minimizes.
pub open spec fn root_value(v: GameView, depth: nat, c: int) -> int {
    search_value(v.after_drop(c), v.current, (depth - 1) as nat, false)
}

/// `c` is the first open column, left to right, with the best root value.
pub open spec fn search_choice(v: GameView, depth: nat, c: int) -> bool {
    &&& open_column(v, c)
    &&& forall|x: int| open_column(v, x) ==> #[trigger] root_value(v, depth, x) <= root_value(v, depth, c)
    &&& forall|x: int| open_column(v, x) && x < c ==> #[trigger] root_value(v, depth, x) < root_value(v, depth, c)
}

/// What the search agent's pick satisfies: an open column (none only when
/// every column is full); the only open column if just one is left; else the
/// leftmost immediate win; else the leftmost block; else the first column
/// with the best minimax value `depth` plies deep.
pub open spec fn search_post(depth: nat, v: GameView, r: Option<usize>) -> bool {
    &&& r is None <==> forall|c: int| !open_column(v, c)
    &&& r matches Some(c) ==> open_column(v, c as int)
    &&& forall|c: int| #[trigger] sole_open_column(v, c) ==> r == Some(c as usize)
    &&& forall|c: int|
        #[trigger] first_win(v, c, v.current) && !(exists|x: int|
            sole_open_column(v, x)) ==> r == Some(c as usize)
    &&& forall|c: int|
        #[trigger] first_win(v, c, v.current.opponent()) && no_win(
            v,
            v.current,
        ) && !(exists|x: int| sole_open_column(v, x)) ==> r == Some(c as usize)
    &&& r is Some && !(exists|x: int| sole_open_column(v, x)) && no_win(v, v.current)
        && no_win(v, v.current.opponent()) && v.status == GameState::InProgress
        ==> search_choice(v, depth, r->Some_0 as int)
}

/// A search agent that looks `max_depth` plies ahead.
#[derive(Clone, Copy, Debug, PartialEq, Eq, Structural)]
pub struct MinimaxAgent {
    pub max_depth: usize,
}

impl MinimaxAgent {
    pub fn new(max_depth: usize) -> (r: Self)
        ensures
            r.max_depth == max_depth,
    {
        MinimaxAgent { max_depth }
    }

    /// Where the game stands: the engine keeps it up to date.
    fn evaluate_board(&self, board: &Game) -> (r: GameState)
        ensures
            r == board@.status,
    {
        *board.state()
    }

    /// Whether a piece of `color` sits next to `(row, col)` in one of the five
    /// directions that `has_adjacent` reads.
    fn has_adjacent_same_color(&self, board: &Game, row: usize, col: usize, color: Player) -> (b: bool)
        requires
            board.wf(),
            board@.in_bounds(row as int, col as int),
        ensures
            b == has_adjacent(board@, row as int, col as int, color),
    {
        if col > 0 && board.get_cell(row, col - 1) == Some(color) {
            return true;
        }
        if board.get_cell(row, col + 1) == Some(color) {
            return true;
        }
        if board.get_cell(row + 1, col) == Some(color) {
            return true;
        }
        if col > 0 && board.get_cell(row + 1, col - 1) == Some(color) {
            return true;
        }
        if board.get_cell(row + 1, col + 1) == Some(color) {
            return true;
        }
        false
    }

    /// The worth of one piece, as `piece_score` gives it.
    fn piece_value(&self, board: &Game, row: usize, col: usize, center: usize) -> (s: i32)
        requires
            board.wf(),
            search_sized(board@),
            board@.in_bounds(row as int, col as int),
            center == center_of(board@),
        ensures
            s == piece_score(board@, row as int, col as int),
            -1008 <= s <= 1008,
    {
        let me = board.current_player();
        let d: i32 = if col >= center {
            (col - center) as i32
        } else {
            (center - col) as i32
        };
        match board.get_cell(row, col) {
            Some(q) => {
                if q == me {
                    let bonus: i32 = if self.has_adjacent_same_color(board, row, col, me) {
                        2
                    } else {
                        0
                    };
                    5 - d + bonus
                } else {
                    let bonus: i32 = if self.has_adjacent_same_color(board, row, col, q) {
                        2
                    } else {
                        0
                    };
                    -(6 - d) - bonus
                }
            },
            None => 0,
        }
    }

    /// The static evaluation of a position, from the side to move.
    fn eval_position(&self, board: &Game) -> (s: i32)
        requires
            board.wf(),
            search_sized(board@),
        ensures
            s == position_score(board@),
    {
        let ghost v = board@;
        let rows = board.config().rows;
        let cols = board.config().cols;
        let me = board.current_player();
        let center = cols / 2;
        let mut score: i32 = 0;
        let mut r: usize = 0;
        while r < rows
            invariant
                board.wf(),
                v == board@,
                search_sized(v),
                rows == v.rows(),
                cols == v.cols(),
                center == center_of(v),
                me == v.current,
                r <= rows,
                score == center_sum(v, r as int),
                -5 * r <= score <= 5 * r,
            decreases rows - r,
        {
            match board.get_cell(r, center) {
                Some(q) => {
                    if q == me {
                        score = score + 5;
                    } else {
                        score = score - 2;
                    }
                },
                None => {},
            }
            r += 1;
        }
        let ghost base = score as int;
        let mut r: usize = 0;
        while r < rows
            invariant
                board.wf(),
                v == board@,
                search_sized(v),
                rows == v.rows(),
                cols == v.cols(),
                center == center_of(v),
                r <= rows,
                -5000 <= base <= 5000,
                score == base + grid_sum(v, r as int),
                base - 1008000 * r <= score <= base + 1008000 * r,
            decreases rows - r,
        {
            let mut c: usize = 0;
            let ghost before = score as int;
            while c < cols
                invariant
                    board.wf(),
                    v == board@,
                    search_sized(v),
                    rows == v.rows(),
                    cols == v.cols(),
                    center == center_of(v),
                    r < rows,
                    c <= cols,
                    -5000 <= base <= 5000,
                    base - 1008000 * r <= before <= base + 1008000 * r,
                    score == before + row_sum(v, r as int, c as int),
                    before - 1008 * c <= score <= before + 1008 * c,
                decreases cols - c,
            {
                let s = self.piece_value(board, r, c, center);
                score = score + s;
                c += 1;
            }
            r += 1;
        }
        score
    }

    /// Alpha-beta search of `board` for `player`, `depth` plies deep, within
    /// the window `(alpha, beta)`. Inside the window the result is the
    /// minimax value; at or below `alpha` it bounds the value from above,
    /// at or above `beta` from below.
    fn minimax(
        &self,
        player: Player,
        board: &Game,
        depth: usize,
        alpha: i32,
        beta: i32,
        is_maximizing: bool,
    ) -> (s: i32)
        requires
            board.wf(),
            search_sized(board@),
            alpha < beta,
        ensures
            alpha < s < beta ==> s == search_value(board@, player, depth as nat, is_maximizing),
            s <= alpha ==> search_value(board@, player, depth as nat, is_maximizing) <= s,
            s >= beta ==> search_value(board@, player, depth as nat, is_maximizing) >= s,
            board@.status matches GameState::Won(p) ==> s == (if p == player {
                WIN_SCORE as int
            } else {
                -WIN_SCORE
            }),
            board@.status == GameState::Draw ==> s == 0,
            board@.status == GameState::InProgress && depth == 0 ==> s == position_score(board@),
        decreases depth,
    {
        match self.evaluate_board(board) {
            GameState::Won(p) => {
                return if p == player {
                    WIN_SCORE
                } else {
                    -WIN_SCORE
                };
            },
            GameState::Draw => {
                return 0;
            },
            GameState::InProgress => {
                if depth == 0 {
                    return self.eval_position(board);
                }
            },
        }
        let ghost v = board@;
        let ghost d = (depth - 1) as nat;
        let ghost n = v.cols() as nat;
        let moves = board.valid_moves();
        if moves.len() == 0 {
            proof {
                assert forall|c: int| !open_column(v, c) by {
                    if open_column(v, c) {
                        assert(moves@.contains(c as usize));
                    }
                }
            }
            return 0;
        }
        proof {
            assert(open_column(v, moves@[0] as int));
            assert(search_value(v, player, depth as nat, is_maximizing) == best_child(
                v,
                player,
                d,
                is_maximizing,
                n,
            ));
        }
        if is_maximizing {
            let mut max_eval = i32::MIN;
            let mut lower = alpha;
            let ghost alpha0 = alpha;
            let mut i: usize = 0;
            while i < moves.len()
                invariant
                    board.wf(),
                    v == board@,
                    search_sized(v),
                    v.status == GameState::InProgress,
                    depth > 0,
                    d == depth - 1,
                    n == v.cols(),
                    v.is_valid_moves(moves@),
                    i <= moves@.len(),
                    is_maximizing,
                    alpha0 == alpha,
                    search_value(v, player, depth as nat, true) == best_child(v, player, d, true, n),
                    alpha0 < beta,
                    lower == (if max_eval > alpha0 {
                        max_eval
                    } else {
                        alpha0
                    }),
                    lower < beta,
                    forall|j: int|
                        0 <= j < i ==> #[trigger] child_value(v, player, d, true, moves@[j] as int)
                            <= max_eval,
                    max_eval > alpha0 ==> exists|j: int|
                        0 <= j < i && #[trigger] child_value(v, player, d, true, moves@[j] as int)
                            >= max_eval,
                decreases moves.len() - i,
            {
                let c = moves[i];
                proof {
                    assert(open_column(v, c as int));
                }
                let mut child = board.duplicate();
                let placed = child.place(c);
                if placed.is_some() {
                    proof {
                        v.lemma_placed_is_after_drop(c as int, child@);
                    }
                    let eval = self.minimax(player, &child, depth - 1, lower, beta, false);
                    assert(child_value(v, player, d, true, c as int) == search_value(child@, player, d, false));
                    if eval > max_eval {
                        max_eval = eval;
                    }
                    if eval > lower {
                        lower = eval;
                    }
                    if beta <= lower {
                        proof {
                            lemma_best_child_reaches(v, player, d, true, n, c as int);
                        }
                        return max_eval;
                    }
                }
                i += 1;
            }
            proof {
                assert forall|c: int| 0 <= c < n && open_column(v, c) implies #[trigger] child_value(
                    v,
                    player,
                    d,
                    true,
                    c,
                ) <= max_eval by {
                    assert(moves@.contains(c as usize));
                    let j = choose|j: int| 0 <= j < moves@.len() && moves@[j] == c as usize;
                    assert(child_value(v, player, d, true, moves@[j] as int) <= max_eval);
                }
                lemma_best_child_within(v, player, d, true, n, max_eval as int);
                if max_eval > alpha0 {
                    let j = choose|j: int|
                        0 <= j < i && #[trigger] child_value(v, player, d, true, moves@[j] as int)
                            >= max_eval;
                    assert(open_column(v, moves@[j] as int));
                    lemma_best_child_reaches(v, player, d, true, n, moves@[j] as int);
                }
            }
            max_eval
        } else {
            let mut min_eval = i32::MAX;
            let mut upper = beta;
            let ghost beta0 = beta;
            let mut i: usize = 0;
            while i < moves.len()
                invariant
                    board.wf(),
                    v == board@,
                    search_sized(v),
                    v.status == GameState::InProgress,
                    depth > 0,
                    d == depth - 1,
                    n == v.cols(),
                    v.is_valid_moves(moves@),
                    i <= moves@.len(),
                    !is_maximizing,
                    beta0 == beta,
                    search_value(v, player, depth as nat, false) == best_child(v, player, d, false, n),
                    alpha < beta0,
                    upper == (if min_eval < beta0 {
                        min_eval
                    } else {
                        beta0
                    }),
                    alpha < upper,
                    forall|j: int|
                        0 <= j < i ==> #[trigger] child_value(v, player, d, false, moves@[j] as int)
                            >= min_eval,
                    min_eval < beta0 ==> exists|j: int|
                        0 <= j < i && #[trigger] child_value(v, player, d, false, moves@[j] as int)
                            <= min_eval,
                decreases moves.len() - i,
            {
                let c = moves[i];
                proof {
                    assert(open_column(v, c as int));
                }
                let mut child = board.duplicate();
                let placed = child.place(c);
                if placed.is_some() {
                    proof {
                        v.lemma_placed_is_after_drop(c as int, child@);
                    }
                    let eval = self.minimax(player, &child, depth - 1, alpha, upper, true);
                    assert(child_value(v, player, d, false, c as int) == search_value(child@, player, d, true));
                    if eval < min_eval {
                        min_eval = eval;
                    }
                    if eval < upper {
                        upper = eval;
                    }
                    if upper <= alpha {
                        proof {
                            lemma_best_child_reaches(v, player, d, false, n, c as int);
                        }
                        return min_eval;
                    }
                }
                i += 1;
            }
            proof {
                assert forall|c: int| 0 <= c < n && open_column(v, c) implies #[trigger] child_value(
                    v,
                    player,
                    d,
                    false,
                    c,
                ) >= min_eval by {
                    assert(moves@.contains(c as usize));
                    let j = choose|j: int| 0 <= j < moves@.len() && moves@[j] == c as usize;
                    assert(child_value(v, player, d, false, moves@[j] as int) >= min_eval);
                }
                lemma_best_child_within(v, player, d, false, n, min_eval as int);
                if min_eval < beta0 {
                    let j = choose|j: int|
                        0 <= j < i && #[trigger] child_value(v, player, d, false, moves@[j] as int)
                            <= min_eval;
                    assert(open_column(v, moves@[j] as int));
                    lemma_best_child_reaches(v, player, d, false, n, moves@[j] as int);
                }
            }
            min_eval
        }
    }
}

/// Every open column of `v` is listed in `moves`, which is `v`'s list of
/// open columns in order: an open column left of `moves[i]` is `moves[j]`
/// for some `j < i`.
proof fn lemma_earlier_open(v: GameView, moves: Seq<usize>, i: int, x: int)
    requires
        v.is_valid_moves(moves),
        0 <= i < moves.len(),
        0 <= x < moves[i],
        open_column(v, x),
    ensures
        exists|j: int| 0 <= j < i && moves[j] == x,
{
    assert(moves.contains(x as usize));
    let j = choose|j: int| 0 <= j < moves.len() && moves[j] == x as usize;
    if j >= i {
        if j > i {
            assert(moves[i] < moves[j]);
        }
    }
}

/// The leftmost open column where a piece of `p` wins at once, if any.
pub(crate) fn first_winning(board: &Game, moves: &Vec<usize>, p: Player) -> (r: Option<usize>)
    requires
        board.wf(),
        board@.is_valid_moves(moves@),
    ensures
        r matches Some(c) ==> first_win(board@, c as int, p),
        r is None ==> no_win(board@, p),
{
    let mut i: usize = 0;
    while i < moves.len()
        invariant
            board.wf(),
            board@.is_valid_moves(moves@),
            i <= moves@.len(),
            forall|j: int| 0 <= j < i ==> !board@.drop_wins(#[trigger] moves@[j] as int, p),
        decreases moves.len() - i,
    {
        if board.wins_by_dropping(moves[i], p) {
            proof {
                assert forall|x: int|
                    0 <= x < moves@[i as int] && open_column(board@, x) implies !board@.drop_wins(
                    x,
                    p,
                ) by {
                    lemma_earlier_open(board@, moves@, i as int, x);
                }
            }
            return Some(moves[i]);
        }
        i += 1;
    }
    proof {
        assert forall|x: int| open_column(board@, x) implies !board@.drop_wins(x, p) by {
            assert(moves@.contains(x as usize));
        }
    }
    None
}

impl MinimaxAgent {
    /// Picks a column: the only open one if just one is left; else the
    /// leftmost immediate win; else the leftmost column where the opponent
    /// would win at once (a block); else the first column, left to right,
    /// with the best alpha-beta value `max_depth` plies deep.
    pub fn get_action(&self, board: &Game) -> (r: Option<usize>)
        requires
            board.wf(),
            search_sized(board@),
            self.max_depth >= 1,
        ensures
            search_post(self.max_depth as nat, board@, r),
    {
        let ghost v = board@;
        let moves = board.valid_moves();
        if moves.len() == 0 {
            proof {
                assert forall|c: int| !open_column(v, c) by {
                    if open_column(v, c) {
                        assert(moves@.contains(c as usize));
                    }
                }
            }
            return None;
        }
        proof {
            assert(open_column(v, moves@[0] as int));
            assert forall|c: int| #[trigger] sole_open_column(v, c) implies moves@.len() == 1 by {
                if moves@.len() > 1 {
                    assert(open_column(v, moves@[1] as int));
                    assert(moves@[0] < moves@[1]);
                }
            }
            assert forall|c: int| #[trigger] first_win(v, c, v.current) implies open_column(v, c) by {}
        }
        if moves.len() == 1 {
            proof {
                assert forall|c: int| #[trigger] sole_open_column(v, c) implies c == moves@[0] by {}
                assert forall|x: int| open_column(v, x) implies x == moves@[0] by {
                    assert(moves@.contains(x as usize));
                }
                assert(sole_open_column(v, moves@[0] as int));
            }
            return Some(moves[0]);
        }
        let me = board.current_player();
        match first_winning(board, &moves, me) {
            Some(c) => {
                return Some(c);
            },
            None => {},
        }
        let opponent = me.other();
        match first_winning(board, &moves, opponent) {
            Some(c) => {
                return Some(c);
            },
            None => {},
        }
        if *board.state() != GameState::InProgress {
            return Some(moves[moves.len() - 1]);
        }
        let mut best_col = moves[moves.len() - 1];
        let mut best_value = i32::MIN;
        let mut alpha = i32::MIN;
        let beta = i32::MAX;
        let ghost d = (self.max_depth - 1) as nat;
        let mut i: usize = 0;
        proof {
            assert(open_column(v, moves@[moves@.len() - 1] as int));
        }
        while i < moves.len()
            invariant
                board.wf(),
                v == board@,
                search_sized(v),
                self.max_depth >= 1,
                d == self.max_depth - 1,
                me == v.current,
                v.status == GameState::InProgress,
                v.is_valid_moves(moves@),
                i <= moves@.len(),
                beta == i32::MAX,
                best_value == i32::MIN || -SCORE_BOUND <= best_value <= SCORE_BOUND,
                alpha == best_value,
                open_column(v, best_col as int),
                i == 0 ==> best_value == i32::MIN,
                i > 0 ==> root_value(v, self.max_depth as nat, best_col as int) == best_value,
                i > 0 ==> exists|j: int| 0 <= j < i && moves@[j] == best_col,
                forall|j: int|
                    0 <= j < i ==> #[trigger] root_value(v, self.max_depth as nat, moves@[j] as int)
                        <= best_value,
                forall|j: int|
                    0 <= j < i && moves@[j] < best_col ==> #[trigger] root_value(
                        v,
                        self.max_depth as nat,
                        moves@[j] as int,
                    ) < best_value,
            decreases moves.len() - i,
        {
            let c = moves[i];
            proof {
                assert(open_column(v, c as int));
            }
            let mut child = board.duplicate();
            if child.place(c).is_some() {
                proof {
                    v.lemma_placed_is_after_drop(c as int, child@);
                    lemma_search_bound(child@, me, d, false);
                    assert(root_value(v, self.max_depth as nat, c as int) == search_value(child@, me, d, false));
                }
                let value = self.minimax(me, &child, self.max_depth - 1, alpha, beta, false);
                let ghost w = root_value(v, self.max_depth as nat, c as int);
                proof {
                    if value > best_value {
                        assert(value == w);
                    } else {
                        assert(w <= value);
                        assert(i > 0);
                    }
                }
                let ghost prev_col = best_col;
                if value > best_value {
                    best_value = value;
                    best_col = c;
                    proof {
                        if i > 0 {
                            let jb = choose|j: int| 0 <= j < i && moves@[j] == prev_col;
                            assert(moves@[jb] < moves@[i as int]);
                        }
                        assert forall|j: int| 0 <= j < i + 1 && moves@[j] < best_col implies #[trigger] root_value(
                            v,
                            self.max_depth as nat,
                            moves@[j] as int,
                        ) < best_value by {
                            assert(j < i);
                        }
                    }
                } else {
                    proof {
                        if i > 0 {
                            let jb = choose|j: int| 0 <= j < i && moves@[j] == best_col;
                            assert(moves@[jb] < moves@[i as int]);
                        }
                    }
                }
                if best_value > alpha {
                    alpha = best_value;
                }
            }
            i += 1;
        }
        proof {
            assert forall|x: int| open_column(v, x) implies #[trigger] root_value(v, self.max_depth as nat, x)
                <= root_value(v, self.max_depth as nat, best_col as int) by {
                assert(moves@.contains(x as usize));
                let j = choose|j: int| 0 <= j < moves@.len() && moves@[j] == x as usize;
                assert(root_value(v, self.max_depth as nat, moves@[j] as int) <= best_value);
            }
            assert forall|x: int| open_column(v, x) && x < best_col implies #[trigger] root_value(
                v,
                self.max_depth as nat,
                x,
            ) < root_value(v, self.max_depth as nat, best_col as int) by {
                assert(moves@.contains(x as usize));
                let j = choose|j: int| 0 <= j < moves@.len() && moves@[j] == x as usize;
                assert(root_value(v, self.max_depth as nat, moves@[j] as int) < best_value);
            }
        }
        Some(best_col)
    }
}

} // verus!
