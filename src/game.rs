//! The board engine: grid, turn order, gravity, and win/draw detection.
use vstd::prelude::*;

verus! {

/// One of the two sides.
#[derive(Clone, Copy, PartialEq, Eq, Debug, Structural)]
pub enum Player {
    Red,
    Yellow,
}

impl Player {
    /// The other side.
    pub open spec fn opponent(self) -> Player {
        match self {
            Player::Red => Player::Yellow,
            Player::Yellow => Player::Red,
        }
    }

    /// The display name of a side.
    pub open spec fn name(self) -> Seq<char> {
        match self {
            Player::Red => seq!['R', 'e', 'd'],
            Player::Yellow => seq!['Y', 'e', 'l', 'l', 'o', 'w'],
        }
    }

    pub fn other(self) -> (r: Player)
        ensures
            r == self.opponent(),
    {
        match self {
            Player::Red => Player::Yellow,
            Player::Yellow => Player::Red,
        }
    }

    pub fn to_string(&self) -> (r: String)
        ensures
            r@ == self.name(),
    {
        match self {
            Player::Red => {
                let s = "Red".to_owned();
                proof {
                    reveal_strlit("Red");
                    assert(s@ =~= self.name());
                }
                s
            },
            Player::Yellow => {
                let s = "Yellow".to_owned();
                proof {
                    reveal_strlit("Yellow");
                    assert(s@ =~= self.name());
                }
                s
            },
        }
    }
}

impl Default for Player {
    fn default() -> (r: Player)
        ensures
            r == Player::Red,
    {
        Player::Red
    }
}

/// Where a game stands.
#[derive(Clone, Copy, PartialEq, Eq, Debug, Structural)]
pub enum GameState {
    InProgress,
    Won(Player),
    Draw,
}

/// The geometry of a game: the grid's size and how many in a row win.
#[derive(Clone, Copy, PartialEq, Eq, Debug, Structural)]
pub struct GameConfig {
    pub rows: usize,
    pub cols: usize,
    pub connect_length: usize,
}

impl GameConfig {
    /// The standard geometry: six rows, seven columns, four to connect.
    pub open spec fn standard() -> GameConfig {
        GameConfig { rows: 6, cols: 7, connect_length: 4 }
    }
}

impl Default for GameConfig {
    fn default() -> (r: GameConfig)
        ensures
            r == GameConfig::standard(),
    {
        GameConfig { rows: 6, cols: 7, connect_length: 4 }
    }
}

/// Named geometries.
#[derive(Clone, Copy, PartialEq, Eq, Debug, Structural)]
pub enum GameConfigPreset {
    Standard,
    Small,
    Large,
    Huge,
}

impl Default for GameConfigPreset {
    fn default() -> (r: GameConfigPreset)
        ensures
            r == GameConfigPreset::Standard,
    {
        GameConfigPreset::Standard
    }
}

impl GameConfigPreset {
    pub open spec fn spec_config(self) -> GameConfig {
        match self {
            GameConfigPreset::Standard => GameConfig::standard(),
            GameConfigPreset::Small => GameConfig { rows: 4, cols: 4, connect_length: 3 },
            GameConfigPreset::Large => GameConfig { rows: 8, cols: 8, connect_length: 5 },
            GameConfigPreset::Huge => GameConfig { rows: 10, cols: 10, connect_length: 6 },
        }
    }

    pub fn amount_of_presets() -> (r: usize)
        ensures
            r == 4,
    {
        4
    }

    /// The preset at a position of the list Standard, Small, Large, Huge;
    /// any other index gives Standard.
    pub fn from_index(index: usize) -> (r: Self)
        ensures
            r == (if index == 1 {
                GameConfigPreset::Small
            } else if index == 2 {
                GameConfigPreset::Large
            } else if index == 3 {
                GameConfigPreset::Huge
            } else {
                GameConfigPreset::Standard
            }),
    {
        match index {
            0 => GameConfigPreset::Standard,
            1 => GameConfigPreset::Small,
            2 => GameConfigPreset::Large,
            3 => GameConfigPreset::Huge,
            _ => GameConfigPreset::Standard,
        }
    }

    pub fn into_config(self) -> (r: GameConfig)
        ensures
            r == self.spec_config(),
    {
        match self {
            GameConfigPreset::Standard => GameConfig::default(),
            GameConfigPreset::Small => GameConfig { rows: 4, cols: 4, connect_length: 3 },
            GameConfigPreset::Large => GameConfig { rows: 8, cols: 8, connect_length: 5 },
            GameConfigPreset::Huge => GameConfig { rows: 10, cols: 10, connect_length: 6 },
        }
    }
}

/// Row and column step of each of the four axes, in scan order:
/// horizontal, vertical, diagonal up (toward row 0), diagonal down.
pub open spec fn axis_dr(k: int) -> int {
    if k == 0 {
        0
    } else if k == 1 {
        1
    } else if k == 2 {
        -1
    } else {
        1
    }
}

pub open spec fn axis_dc(k: int) -> int {
    if k == 1 {
        0
    } else {
        1
    }
}

/// How many more cells an index can move in direction `d` within `0..n`,
/// plus one; used only as a termination measure.
pub open spec fn steps_left(n: int, i: int, d: int) -> int {
    if d > 0 {
        n - i
    } else if d < 0 {
        i + 1
    } else {
        0
    }
}

/// `(a, b, k)` comes before `(r, c, k2)` in the order row, then column, then axis.
pub open spec fn scan_before(a: int, b: int, k: int, r: int, c: int, k2: int) -> bool {
    a < r || (a == r && b < c) || (a == r && b == c && k < k2)
}

/// The mathematical content of a game. Row 0 is the top row; pieces fall
/// toward row `rows - 1`.
pub struct GameView {
    pub board: Seq<Seq<Option<Player>>>,
    pub current: Player,
    pub status: GameState,
    pub config: GameConfig,
}

impl GameView {
    pub open spec fn rows(self) -> int {
        self.config.rows as int
    }

    pub open spec fn cols(self) -> int {
        self.config.cols as int
    }

    pub open spec fn connect(self) -> int {
        self.config.connect_length as int
    }

    pub open spec fn in_bounds(self, r: int, c: int) -> bool {
        0 <= r < self.rows() && 0 <= c < self.cols()
    }

    pub open spec fn cell(self, r: int, c: int) -> Option<Player> {
        self.board[r][c]
    }

    /// The grid has `rows` rows of `cols` cells each.
    pub open spec fn shaped(self) -> bool {
        &&& self.board.len() == self.rows()
        &&& forall|r: int| 0 <= r < self.rows() ==> (#[trigger] self.board[r]).len() == self.cols()
    }

    pub open spec fn column_full(self, c: int) -> bool {
        forall|r: int| 0 <= r < self.rows() ==> (#[trigger] self.cell(r, c)) is Some
    }

    pub open spec fn board_full(self) -> bool {
        forall|r: int, c: int| self.in_bounds(r, c) ==> (#[trigger] self.cell(r, c)) is Some
    }

    /// A piece may be dropped in column `c`.
    pub open spec fn can_place(self, c: int) -> bool {
        &&& self.status == GameState::InProgress
        &&& 0 <= c < self.cols()
        &&& !self.column_full(c)
    }

    /// The lowest empty row of column `c` at or above row `r`, or -1.
    pub open spec fn lowest_empty_from(self, c: int, r: int) -> int
        decreases r + 1,
    {
        if r < 0 {
            -1
        } else if self.cell(r, c) is None {
            r
        } else {
            self.lowest_empty_from(c, r - 1)
        }
    }

    /// The row where a piece dropped in column `c` comes to rest, or -1.
    pub open spec fn lowest_empty(self, c: int) -> int {
        self.lowest_empty_from(c, self.rows() - 1)
    }

    /// How many cells of `p` follow `(r, c)` in a row in direction `(dr, dc)`.
    pub open spec fn ray(self, r: int, c: int, dr: int, dc: int, p: Player) -> nat
        decreases steps_left(self.rows(), r, dr) + steps_left(self.cols(), c, dc),
    {
        let nr = r + dr;
        let nc = c + dc;
        if (dr != 0 || dc != 0) && self.in_bounds(nr, nc) && self.cell(nr, nc) == Some(p) {
            1 + self.ray(nr, nc, dr, dc, p)
        } else {
            0
        }
    }

    /// The length of the run of `p` through `(r, c)` along axis `k`, the cell included.
    pub open spec fn line_len(self, r: int, c: int, k: int, p: Player) -> int {
        1 + self.ray(r, c, axis_dr(k), axis_dc(k), p) as int + self.ray(
            r,
            c,
            -axis_dr(k),
            -axis_dc(k),
            p,
        ) as int
    }

    /// A piece of `p` at `(r, c)` completes a line of `connect_length` on some axis.
    pub open spec fn wins_through(self, r: int, c: int, p: Player) -> bool {
        exists|k: int| 0 <= k < 4 && #[trigger] self.line_len(r, c, k, p) >= self.connect()
    }

    /// The `connect_length` cells from `(r, c)` along axis `k` are all `p`'s.
    pub open spec fn run_at(self, r: int, c: int, k: int, p: Player) -> bool {
        forall|i: int|
            0 <= i < self.connect() ==> {
                &&& self.in_bounds(r + i * axis_dr(k), c + i * axis_dc(k))
                &&& #[trigger] self.cell(r + i * axis_dr(k), c + i * axis_dc(k)) == Some(p)
            }
    }

    /// `(r, c)` holds a piece of `p` from which a winning run starts along axis `k`.
    pub open spec fn winning_start(self, r: int, c: int, k: int, p: Player) -> bool {
        &&& self.in_bounds(r, c)
        &&& 0 <= k < 4
        &&& self.cell(r, c) == Some(p)
        &&& self.run_at(r, c, k, p)
    }

    pub open spec fn has_run(self, p: Player) -> bool {
        exists|r: int, c: int, k: int| #[trigger] self.winning_start(r, c, k, p)
    }

    /// The cells of the run from `(r, c)` along axis `k`.
    pub open spec fn run_cells(self, r: int, c: int, k: int) -> Seq<(usize, usize)> {
        Seq::new(
            self.connect() as nat,
            |i: int| ((r + i * axis_dr(k)) as usize, (c + i * axis_dc(k)) as usize),
        )
    }

    /// The columns that are not full, left to right.
    pub open spec fn is_valid_moves(self, s: Seq<usize>) -> bool {
        &&& forall|i: int, j: int| 0 <= i < j < s.len() ==> s[i] < s[j]
        &&& forall|i: int| 0 <= i < s.len() ==> (#[trigger] s[i]) < self.cols() && !self.column_full(s[i] as int)
        &&& forall|c: int| 0 <= c < self.cols() && !self.column_full(c) ==> s.contains(c as usize)
    }

    /// Well-formed: the grid has its shape, and a won game holds a winning run.
    pub open spec fn wf(self) -> bool {
        &&& self.shaped()
        &&& (self.status matches GameState::Won(p) ==> self.has_run(p))
    }

    /// What a drop in column `c` makes of `self`: the piece of the player to
    /// move rests in the lowest empty row; the game is won if it completes a
    /// line, drawn if the grid is then full; the turn passes only while the
    /// game goes on.
    pub open spec fn placed(self, c: int, next: GameView) -> bool {
        let row = self.lowest_empty(c);
        let p = self.current;
        &&& next.config == self.config
        &&& next.board == self.board.update(row, self.board[row].update(c, Some(p)))
        &&& next.status == (if next.wins_through(row, c, p) {
            GameState::Won(p)
        } else if next.board_full() {
            GameState::Draw
        } else {
            GameState::InProgress
        })
        &&& next.current == (if next.status == GameState::InProgress {
            p.opponent()
        } else {
            p
        })
    }
}

/// A game in play: the grid, whose turn it is, and where the game stands.
#[derive(Clone, PartialEq, Debug)]
pub struct Game {
    board: Vec<Vec<Option<Player>>>,
    current_player: Player,
    state: GameState,
    config: GameConfig,
}

impl View for Game {
    type V = GameView;

    closed spec fn view(&self) -> GameView {
        GameView {
            board: self.board@.map_values(|row: Vec<Option<Player>>| row@),
            current: self.current_player,
            status: self.state,
            config: self.config,
        }
    }
}

impl Game {
    pub open spec fn wf(&self) -> bool {
        self@.wf()
    }

    /// A fresh standard game.
    pub fn new() -> (r: Self)
        ensures
            r.wf(),
            r@.config == GameConfig::standard(),
            r@.fresh(),
    {
        Self::with_config(GameConfig::default())
    }

    /// A fresh game of the given geometry: an empty grid, Yellow to move.
    pub fn with_config(config: GameConfig) -> (r: Self)
        ensures
            r.wf(),
            r@.config == config,
            r@.fresh(),
    {
        let mut board: Vec<Vec<Option<Player>>> = Vec::new();
        let mut i: usize = 0;
        while i < config.rows
            invariant
                i <= config.rows,
                board@.len() == i,
                forall|r: int| 0 <= r < i ==> (#[trigger] board@[r])@.len() == config.cols,
                forall|r: int, c: int|
                    0 <= r < i && 0 <= c < config.cols ==> (#[trigger] board@[r]@[c]) is None,
            decreases config.rows - i,
        {
            let mut row: Vec<Option<Player>> = Vec::new();
            let mut j: usize = 0;
            while j < config.cols
                invariant
                    j <= config.cols,
                    row@.len() == j,
                    forall|c: int| 0 <= c < j ==> (#[trigger] row@[c]) is None,
                decreases config.cols - j,
            {
                row.push(None);
                j += 1;
            }
            board.push(row);
            i += 1;
        }
        let g = Game { board, current_player: Player::Yellow, state: GameState::InProgress, config };
        proof {
            assert(g@.shaped());
            assert forall|r: int, c: int| g@.in_bounds(r, c) implies #[trigger] g@.cell(r, c) is None by {
                assert(g@.board[r] == g.board@[r]@);
            }
        }
        g
    }

    /// An explicit copy, for trying moves without touching the game itself.
    pub fn duplicate(&self) -> (r: Self)
        ensures
            r@ == self@,
    {
        let mut board: Vec<Vec<Option<Player>>> = Vec::new();
        let mut i: usize = 0;
        while i < self.board.len()
            invariant
                i <= self.board@.len(),
                board@.len() == i,
                forall|r: int| 0 <= r < i ==> (#[trigger] board@[r])@ == self.board@[r]@,
            decreases self.board@.len() - i,
        {
            let src = &self.board[i];
            let mut row: Vec<Option<Player>> = Vec::new();
            let mut j: usize = 0;
            while j < src.len()
                invariant
                    j <= src@.len(),
                    row@ == src@.subrange(0, j as int),
                decreases src@.len() - j,
            {
                row.push(src[j]);
                j += 1;
                proof {
                    assert(row@ =~= src@.subrange(0, j as int));
                }
            }
            proof {
                assert(row@ =~= src@);
            }
            board.push(row);
            i += 1;
        }
        let g = Game {
            board,
            current_player: self.current_player,
            state: self.state,
            config: self.config,
        };
        proof {
            assert(g@.board =~= self@.board);
        }
        g
    }

    pub fn current_player(&self) -> (r: Player)
        ensures
            r == self@.current,
    {
        self.current_player
    }

    pub fn state(&self) -> (r: &GameState)
        ensures
            *r == self@.status,
    {
        &self.state
    }

    pub fn config(&self) -> (r: &GameConfig)
        ensures
            *r == self@.config,
    {
        &self.config
    }

    /// The piece at `(row, col)`; `None` for an empty cell or one off the grid.
    pub fn get_cell(&self, row: usize, col: usize) -> (r: Option<Player>)
        requires
            self.wf(),
        ensures
            r == (if self@.in_bounds(row as int, col as int) {
                self@.cell(row as int, col as int)
            } else {
                None
            }),
    {
        if row < self.config.rows && col < self.config.cols {
            proof {
                assert(self@.board[row as int] == self.board@[row as int]@);
            }
            self.board[row][col]
        } else {
            None
        }
    }

    pub fn is_column_full(&self, col: usize) -> (r: bool)
        requires
            self.wf(),
            col < self@.cols(),
        ensures
            r == self@.column_full(col as int),
    {
        let mut i: usize = 0;
        while i < self.config.rows
            invariant
                self.wf(),
                col < self@.cols(),
                i <= self@.rows(),
                forall|r: int| 0 <= r < i ==> (#[trigger] self@.cell(r, col as int)) is Some,
            decreases self@.rows() - i,
        {
            if self.get_cell(i, col).is_none() {
                return false;
            }
            i += 1;
        }
        true
    }

    fn is_board_full(&self) -> (r: bool)
        requires
            self.wf(),
        ensures
            r == self@.board_full(),
    {
        let mut i: usize = 0;
        while i < self.config.rows
            invariant
                self.wf(),
                i <= self@.rows(),
                forall|r: int, c: int|
                    0 <= r < i && 0 <= c < self@.cols() ==> (#[trigger] self@.cell(r, c)) is Some,
            decreases self@.rows() - i,
        {
            let mut j: usize = 0;
            while j < self.config.cols
                invariant
                    self.wf(),
                    i < self@.rows(),
                    j <= self@.cols(),
                    forall|r: int, c: int|
                        0 <= r < i && 0 <= c < self@.cols() ==> (#[trigger] self@.cell(r, c)) is Some,
                    forall|c: int| 0 <= c < j ==> (#[trigger] self@.cell(i as int, c)) is Some,
                decreases self@.cols() - j,
            {
                if self.get_cell(i, j).is_none() {
                    return false;
                }
                j += 1;
            }
            i += 1;
        }
        true
    }

    /// The columns that are not full, left to right.
    pub fn valid_moves(&self) -> (r: Vec<usize>)
        requires
            self.wf(),
        ensures
            self@.is_valid_moves(r@),
            r@.len() == self@.open_count(self@.cols()),
            forall|j: int| 0 <= j < r@.len() ==> self@.open_count(#[trigger] r@[j] as int) == j,
    {
        let mut moves: Vec<usize> = Vec::new();
        let mut c: usize = 0;
        while c < self.config.cols
            invariant
                self.wf(),
                c <= self@.cols(),
                forall|i: int, j: int| 0 <= i < j < moves@.len() ==> moves@[i] < moves@[j],
                forall|i: int|
                    0 <= i < moves@.len() ==> (#[trigger] moves@[i]) < c && !self@.column_full(
                        moves@[i] as int,
                    ),
                forall|x: int| 0 <= x < c && !self@.column_full(x) ==> moves@.contains(x as usize),
                moves@.len() == self@.open_count(c as int),
                forall|j: int| 0 <= j < moves@.len() ==> self@.open_count(#[trigger] moves@[j] as int) == j,
            decreases self@.cols() - c,
        {
            let ghost prev = moves@;
            let full = self.is_column_full(c);
            if !full {
                moves.push(c);
            }
            proof {
                assert forall|x: int|
                    0 <= x < c + 1 && !self@.column_full(x) implies moves@.contains(x as usize) by {
                    if x < c {
                        let k = choose|k: int| 0 <= k < prev.len() && prev[k] == x as usize;
                        assert(moves@[k] == x as usize);
                    } else {
                        assert(moves@[moves@.len() - 1] == c);
                    }
                }
            }
            c += 1;
        }
        moves
    }
}

impl GameView {
    /// An empty grid of the configured shape, Yellow to move, game on.
    pub open spec fn fresh(self) -> bool {
        &&& self.current == Player::Yellow
        &&& self.status == GameState::InProgress
        &&& forall|r: int, c: int| self.in_bounds(r, c) ==> (#[trigger] self.cell(r, c)) is None
    }
}

proof fn lemma_offsets(x: int, i: int, m: int, d: int)
    ensures
        x - m * d + i * d == x + (i - m) * d,
        x + (m - i) * (-d) == x - m * d + i * d,
        x + m * (-d) == x - m * d,
        x + 1 * d == x + d,
        x + d + (i - 1) * d == x + i * d,
{
    assert(x - m * d + i * d == x + (i - m) * d) by (nonlinear_arith);
    assert(x + (m - i) * (-d) == x - m * d + i * d) by (nonlinear_arith);
    assert(x + m * (-d) == x - m * d) by (nonlinear_arith);
    assert(x + d + (i - 1) * d == x + i * d) by (nonlinear_arith);
}

impl GameView {
    /// The row found by `lowest_empty_from` is empty and all rows below it,
    /// up to `r`, are occupied; -1 means the column is occupied up to `r`.
    proof fn lemma_lowest_empty_from(self, c: int, r: int)
        requires
            -1 <= r < self.rows(),
        ensures
            -1 <= self.lowest_empty_from(c, r) <= r,
            self.lowest_empty_from(c, r) >= 0 ==> self.cell(self.lowest_empty_from(c, r), c) is None,
            forall|x: int| self.lowest_empty_from(c, r) < x <= r ==> (#[trigger] self.cell(x, c)) is Some,
        decreases r + 1,
    {
        if r >= 0 && self.cell(r, c) is Some {
            self.lemma_lowest_empty_from(c, r - 1);
        }
    }

    pub proof fn lemma_lowest_empty(self, c: int)
        requires
            0 <= c < self.cols(),
        ensures
            -1 <= self.lowest_empty(c) < self.rows(),
            self.lowest_empty(c) >= 0 ==> self.cell(self.lowest_empty(c), c) is None,
            forall|x: int| self.lowest_empty(c) < x < self.rows() ==> (#[trigger] self.cell(x, c)) is Some,
            self.column_full(c) <==> self.lowest_empty(c) < 0,
    {
        self.lemma_lowest_empty_from(c, self.rows() - 1);
        if self.lowest_empty(c) >= 0 {
            assert(self.cell(self.lowest_empty(c), c) is None);
        }
    }

    proof fn lemma_ray_same_grid(self, other: GameView, r: int, c: int, dr: int, dc: int, p: Player)
        requires
            self.board == other.board,
            self.config == other.config,
        ensures
            self.ray(r, c, dr, dc, p) == other.ray(r, c, dr, dc, p),
        decreases steps_left(self.rows(), r, dr) + steps_left(self.cols(), c, dc),
    {
        let nr = r + dr;
        let nc = c + dc;
        if (dr != 0 || dc != 0) && self.in_bounds(nr, nc) && self.cell(nr, nc) == Some(p) {
            self.lemma_ray_same_grid(other, nr, nc, dr, dc, p);
        }
    }

    proof fn lemma_lowest_same_grid(self, other: GameView, c: int, r: int)
        requires
            self.board == other.board,
            self.config == other.config,
        ensures
            self.lowest_empty_from(c, r) == other.lowest_empty_from(c, r),
        decreases r + 1,
    {
        if r >= 0 {
            self.lemma_lowest_same_grid(other, c, r - 1);
        }
    }

    /// Scoring reads the grid and the geometry only.
    pub proof fn lemma_same_grid(self, other: GameView)
        requires
            self.board == other.board,
            self.config == other.config,
        ensures
            forall|r: int, c: int, p: Player|
                #[trigger] self.wins_through(r, c, p) == other.wins_through(r, c, p),
            forall|p: Player| #[trigger] self.has_run(p) == other.has_run(p),
            self.board_full() == other.board_full(),
            forall|c: int| #[trigger] self.lowest_empty(c) == other.lowest_empty(c),
            forall|c: int| #[trigger] self.column_full(c) == other.column_full(c),
    {
        assert forall|c: int| #[trigger] self.lowest_empty(c) == other.lowest_empty(c) by {
            self.lemma_lowest_same_grid(other, c, self.rows() - 1);
        }
        assert forall|r: int, c: int|
            #![trigger self.cell(r, c)]
            #![trigger other.cell(r, c)]
            self.cell(r, c) == other.cell(r, c) by {}
        assert forall|r: int, c: int, p: Player|
            #[trigger] self.wins_through(r, c, p) == other.wins_through(r, c, p) by {
            assert forall|k: int|
                #![trigger self.line_len(r, c, k, p)]
                #![trigger other.line_len(r, c, k, p)]
                self.line_len(r, c, k, p) == other.line_len(r, c, k, p) by {
                self.lemma_ray_same_grid(other, r, c, axis_dr(k), axis_dc(k), p);
                self.lemma_ray_same_grid(other, r, c, -axis_dr(k), -axis_dc(k), p);
            }
        }
        assert forall|p: Player| #[trigger] self.has_run(p) == other.has_run(p) by {
            if self.has_run(p) {
                let (r, c, k) = choose|r: int, c: int, k: int| #[trigger] self.winning_start(r, c, k, p);
                assert(other.winning_start(r, c, k, p));
            }
            if other.has_run(p) {
                let (r, c, k) = choose|r: int, c: int, k: int| #[trigger] other.winning_start(r, c, k, p);
                assert(self.winning_start(r, c, k, p));
            }
        }
    }

    proof fn lemma_ray_bound(self, r: int, c: int, dr: int, dc: int, p: Player)
        requires
            self.in_bounds(r, c),
            -1 <= dr <= 1,
            -1 <= dc <= 1,
            dr != 0 || dc != 0,
        ensures
            dr != 0 ==> self.ray(r, c, dr, dc, p) < steps_left(self.rows(), r, dr),
            dc != 0 ==> self.ray(r, c, dr, dc, p) < steps_left(self.cols(), c, dc),
        decreases steps_left(self.rows(), r, dr) + steps_left(self.cols(), c, dc),
    {
        let nr = r + dr;
        let nc = c + dc;
        if self.in_bounds(nr, nc) && self.cell(nr, nc) == Some(p) {
            self.lemma_ray_bound(nr, nc, dr, dc, p);
        }
    }

    proof fn lemma_ray_cells(self, r: int, c: int, dr: int, dc: int, p: Player, j: int)
        requires
            1 <= j <= self.ray(r, c, dr, dc, p),
        ensures
            self.in_bounds(r + j * dr, c + j * dc),
            self.cell(r + j * dr, c + j * dc) == Some(p),
        decreases j,
    {
        let nr = r + dr;
        let nc = c + dc;
        lemma_offsets(r, j, 0, dr);
        lemma_offsets(c, j, 0, dc);
        if j > 1 {
            self.lemma_ray_cells(nr, nc, dr, dc, p, j - 1);
        }
    }

    /// A line of `connect_length` through a piece is a winning run.
    proof fn lemma_win_has_run(self, r: int, c: int, p: Player)
        requires
            self.in_bounds(r, c),
            self.cell(r, c) == Some(p),
            self.wins_through(r, c, p),
        ensures
            self.has_run(p),
    {
        let k = choose|k: int| 0 <= k < 4 && #[trigger] self.line_len(r, c, k, p) >= self.connect();
        let dr = axis_dr(k);
        let dc = axis_dc(k);
        let a = self.ray(r, c, dr, dc, p) as int;
        let m = self.ray(r, c, -dr, -dc, p) as int;
        let sr = r - m * dr;
        let sc = c - m * dc;
        lemma_offsets(r, 0, m, dr);
        lemma_offsets(c, 0, m, dc);
        if m > 0 {
            self.lemma_ray_cells(r, c, -dr, -dc, p, m);
        }
        assert forall|i: int| 0 <= i < self.connect() implies {
            &&& self.in_bounds(sr + i * axis_dr(k), sc + i * axis_dc(k))
            &&& #[trigger] self.cell(sr + i * axis_dr(k), sc + i * axis_dc(k)) == Some(p)
        } by {
            lemma_offsets(r, i, m, dr);
            lemma_offsets(c, i, m, dc);
            if i < m {
                self.lemma_ray_cells(r, c, -dr, -dc, p, m - i);
            } else if i > m {
                self.lemma_ray_cells(r, c, dr, dc, p, i - m);
            }
        }
        assert(self.winning_start(sr, sc, k, p));
    }
}

/// `i + d` when it stays within `0..n`.
fn step(i: usize, d: i32, n: usize) -> (r: Option<usize>)
    requires
        -1 <= d <= 1,
    ensures
        r == (if 0 <= i + d < n {
            Some((i + d) as usize)
        } else {
            None
        }),
{
    if d > 0 {
        if i < n && n - i > 1 {
            Some(i + 1)
        } else {
            None
        }
    } else if d < 0 {
        if i > 0 && i - 1 < n {
            Some(i - 1)
        } else {
            None
        }
    } else {
        if i < n {
            Some(i)
        } else {
            None
        }
    }
}

/// The row and column step of axis `k`.
fn axis(k: usize) -> (r: (i32, i32))
    requires
        k < 4,
    ensures
        r.0 == axis_dr(k as int),
        r.1 == axis_dc(k as int),
{
    if k == 0 {
        (0, 1)
    } else if k == 1 {
        (1, 0)
    } else if k == 2 {
        (-1, 1)
    } else {
        (1, 1)
    }
}

impl Game {
    /// How many pieces of `player` follow `(row, col)` in a row in direction `(dr, dc)`.
    fn count_direction(&self, row: usize, col: usize, dr: i32, dc: i32, player: Player) -> (n: usize)
        requires
            self.wf(),
            self@.in_bounds(row as int, col as int),
            -1 <= dr <= 1,
            -1 <= dc <= 1,
            dr != 0 || dc != 0,
        ensures
            n == self@.ray(row as int, col as int, dr as int, dc as int, player),
    {
        let ghost v = self@;
        let mut count: usize = 0;
        let mut r = row;
        let mut c = col;
        proof {
            v.lemma_ray_bound(row as int, col as int, dr as int, dc as int, player);
        }
        loop
            invariant
                self.wf(),
                v == self@,
                -1 <= dr <= 1,
                -1 <= dc <= 1,
                dr != 0 || dc != 0,
                v.in_bounds(r as int, c as int),
                count + v.ray(r as int, c as int, dr as int, dc as int, player) == v.ray(
                    row as int,
                    col as int,
                    dr as int,
                    dc as int,
                    player,
                ),
                dr != 0 ==> v.ray(row as int, col as int, dr as int, dc as int, player) < v.rows(),
                dc != 0 ==> v.ray(row as int, col as int, dr as int, dc as int, player) < v.cols(),
            decreases steps_left(v.rows(), r as int, dr as int) + steps_left(v.cols(), c as int, dc as int),
        {
            let nr = step(r, dr, self.config.rows);
            let nc = step(c, dc, self.config.cols);
            match (nr, nc) {
                (Some(a), Some(b)) => {
                    match self.get_cell(a, b) {
                        Some(q) => {
                            if q == player {
                                count += 1;
                                r = a;
                                c = b;
                            } else {
                                return count;
                            }
                        },
                        None => {
                            return count;
                        },
                    }
                },
                _ => {
                    return count;
                },
            }
        }
    }

    /// Whether the run through `(row, col)` along axis `k` reaches `connect_length`.
    fn line_reaches(&self, row: usize, col: usize, k: usize, player: Player) -> (b: bool)
        requires
            self.wf(),
            self@.in_bounds(row as int, col as int),
            k < 4,
        ensures
            b == (self@.line_len(row as int, col as int, k as int, player) >= self@.connect()),
    {
        let (dr, dc) = axis(k);
        proof {
            self@.lemma_ray_bound(row as int, col as int, dr as int, dc as int, player);
            self@.lemma_ray_bound(row as int, col as int, -dr, -dc, player);
        }
        let ahead = self.count_direction(row, col, dr, dc, player);
        let behind = self.count_direction(row, col, -dr, -dc, player);
        ahead + behind + 1 >= self.config.connect_length
    }

    /// Whether the piece at `(row, col)` completes a line of `connect_length`.
    fn check_win(&self, row: usize, col: usize, player: Player) -> (b: bool)
        requires
            self.wf(),
            self@.in_bounds(row as int, col as int),
        ensures
            b == self@.wins_through(row as int, col as int, player),
    {
        let mut k: usize = 0;
        while k < 4
            invariant
                self.wf(),
                self@.in_bounds(row as int, col as int),
                k <= 4,
                forall|j: int|
                    0 <= j < k ==> !(#[trigger] self@.line_len(row as int, col as int, j, player)
                        >= self@.connect()),
            decreases 4 - k,
        {
            if self.line_reaches(row, col, k, player) {
                return true;
            }
            k += 1;
        }
        false
    }

    /// Drops the mover's piece into `column`. Fails, changing nothing, when the
    /// game is over, the column is off the grid, or the column is full.
    /// Otherwise the piece rests in the lowest empty row, the game is scored,
    /// and the turn passes only if the game goes on.
    pub fn place(&mut self, column: usize) -> (r: Option<GameState>)
        requires
            old(self).wf(),
        ensures
            final(self).wf(),
            place_post(old(self)@, column as int, final(self)@, r),
    {
        if self.state != GameState::InProgress {
            return None;
        }
        if column >= self.config.cols {
            return None;
        }
        let ghost v = self@;
        let mut i: usize = self.config.rows;
        proof {
            v.lemma_lowest_empty(column as int);
        }
        while i > 0 && self.get_cell(i - 1, column).is_some()
            invariant
                self.wf(),
                v == self@,
                column < v.cols(),
                i <= v.rows(),
                v.lowest_empty(column as int) == v.lowest_empty_from(column as int, i - 1),
            decreases i,
        {
            i -= 1;
        }
        if i == 0 {
            return None;
        }
        let row = i - 1;
        let p = self.current_player;
        proof {
            assert(v.lowest_empty(column as int) == row);
            assert(self.board@[row as int]@ == v.board[row as int]);
        }
        self.board[row][column] = Some(p);
        proof {
            assert(self@.board =~= v.board.update(
                row as int,
                v.board[row as int].update(column as int, Some(p)),
            ));
            assert(self@.shaped());
            assert(self@.cell(row as int, column as int) == Some(p));
        }
        let ghost w = self@;
        if self.check_win(row, column, p) {
            proof {
                w.lemma_win_has_run(row as int, column as int, p);
            }
            self.state = GameState::Won(p);
        } else if self.is_board_full() {
            self.state = GameState::Draw;
        }
        if self.state == GameState::InProgress {
            self.current_player = p.other();
        }
        proof {
            assert(self@.board == w.board);
            w.lemma_same_grid(self@);
        }
        Some(self.state)
    }
}

/// What a drop in `column` does: it fails and changes nothing exactly when
/// the drop is not allowed; otherwise the game moves on as `placed` says
/// and the new status is returned.
pub open spec fn place_post(before: GameView, column: int, after: GameView, r: Option<GameState>) -> bool {
    &&& r is None <==> !before.can_place(column)
    &&& r is None ==> after == before
    &&& r is Some ==> before.placed(column, after) && r == Some(after.status)
}

/// A drop into a full column fails and leaves the game as it was, whatever
/// the geometry.
pub proof fn lemma_full_column_rejected(
    before: GameView,
    column: int,
    after: GameView,
    r: Option<GameState>,
)
    requires
        before.wf(),
        0 <= column < before.cols(),
        before.column_full(column),
        place_post(before, column, after, r),
    ensures
        r is None,
        after == before,
{
}

/// A successful drop changes exactly one cell, from empty to the mover's
/// piece, and passes the turn exactly when the game goes on.
pub proof fn lemma_placement_changes_one_cell(
    before: GameView,
    column: int,
    after: GameView,
    s: GameState,
)
    requires
        before.wf(),
        place_post(before, column, after, Some(s)),
    ensures
        after.shaped(),
        exists|r: int, c: int|
            {
                &&& #[trigger] before.in_bounds(r, c)
                &&& before.cell(r, c) is None
                &&& after.cell(r, c) == Some(before.current)
                &&& forall|a: int, b: int|
                    before.in_bounds(a, b) && (a != r || b != c) ==> #[trigger] after.cell(a, b)
                        == before.cell(a, b)
            },
        after.current == (if s == GameState::InProgress {
            before.current.opponent()
        } else {
            before.current
        }),
{
    before.lemma_lowest_empty(column);
    let row = before.lowest_empty(column);
    assert(before.in_bounds(row, column));
    assert forall|a: int, b: int|
        before.in_bounds(a, b) && (a != row || b != column) implies #[trigger] after.cell(a, b)
        == before.cell(a, b) by {
        if a == row {
            assert(before.board[row].len() == before.cols());
        }
    }
    assert forall|x: int| 0 <= x < after.rows() implies (#[trigger] after.board[x]).len() == after.cols() by {
        if x == row {
            assert(before.board[row].len() == before.cols());
        }
    }
}

proof fn lemma_unit_mul(i: int, d: int)
    requires
        -1 <= d <= 1,
    ensures
        d == 1 ==> i * d == i,
        d == 0 ==> i * d == 0,
        d == -1 ==> i * d == -i,
{
    assert(d == 1 ==> i * d == i) by (nonlinear_arith);
    assert(d == 0 ==> i * d == 0) by (nonlinear_arith);
    assert(d == -1 ==> i * d == -i) by (nonlinear_arith);
}

/// `x + i * d` when it lies within `0..n`.
fn offset(x: usize, d: i32, i: usize, n: usize) -> (r: Option<usize>)
    requires
        -1 <= d <= 1,
    ensures
        r == (if 0 <= x + i * d < n {
            Some((x + i * d) as usize)
        } else {
            None
        }),
{
    proof {
        lemma_unit_mul(i as int, d as int);
    }
    if d > 0 {
        if x < n && i < n - x {
            Some(x + i)
        } else {
            None
        }
    } else if d < 0 {
        if i <= x && x - i < n {
            Some(x - i)
        } else {
            None
        }
    } else {
        if x < n {
            Some(x)
        } else {
            None
        }
    }
}

impl GameView {
    /// `(r, c, k)` is the first winning start of `p` in scan order.
    pub open spec fn first_run(self, r: int, c: int, k: int, p: Player) -> bool {
        &&& self.winning_start(r, c, k, p)
        &&& forall|a: int, b: int, j: int|
            scan_before(a, b, j, r, c, k) ==> !#[trigger] self.winning_start(a, b, j, p)
    }
}

impl Game {
    /// Whether a run of `connect_length` pieces of `p` starts at `(r, c)` along axis `k`.
    fn run_from(&self, r: usize, c: usize, k: usize, p: Player) -> (b: bool)
        requires
            self.wf(),
            k < 4,
        ensures
            b == self@.run_at(r as int, c as int, k as int, p),
    {
        let (dr, dc) = axis(k);
        let mut i: usize = 0;
        while i < self.config.connect_length
            invariant
                self.wf(),
                k < 4,
                dr == axis_dr(k as int),
                dc == axis_dc(k as int),
                i <= self@.connect(),
                forall|j: int|
                    0 <= j < i ==> {
                        &&& self@.in_bounds(r + j * dr, c + j * dc)
                        &&& #[trigger] self@.cell(r + j * dr, c + j * dc) == Some(p)
                    },
            decreases self@.connect() - i,
        {
            let rr = offset(r, dr, i, self.config.rows);
            let cc = offset(c, dc, i, self.config.cols);
            match (rr, cc) {
                (Some(a), Some(b)) => {
                    match self.get_cell(a, b) {
                        Some(q) => {
                            if q != p {
                                return false;
                            }
                        },
                        None => {
                            return false;
                        },
                    }
                },
                _ => {
                    return false;
                },
            }
            i += 1;
        }
        true
    }

    /// The cells of the first winning run of the winner, in scan order (row,
    /// then column, then axis: horizontal, vertical, diagonal up, diagonal
    /// down); `None` unless the game is won.
    pub fn get_winning_combination(&self) -> (r: Option<Vec<(usize, usize)>>)
        requires
            self.wf(),
        ensures
            self@.status is Won <==> r is Some,
            r matches Some(v) ==> {
                let p = self@.status->Won_0;
                &&& v@.len() == self@.connect()
                &&& forall|i: int|
                    0 <= i < v@.len() ==> #[trigger] self@.cell(v@[i].0 as int, v@[i].1 as int)
                        == Some(p)
                &&& exists|sr: int, sc: int, k: int|
                    #[trigger] self@.first_run(sr, sc, k, p) && v@ == self@.run_cells(sr, sc, k)
            },
    {
        let p = match self.state {
            GameState::Won(p) => p,
            _ => {
                return None;
            },
        };
        let ghost v = self@;
        let mut r: usize = 0;
        while r < self.config.rows
            invariant
                self.wf(),
                v == self@,
                v.status == GameState::Won(p),
                r <= v.rows(),
                forall|a: int, b: int, j: int|
                    scan_before(a, b, j, r as int, 0, 0) ==> !#[trigger] v.winning_start(a, b, j, p),
            decreases v.rows() - r,
        {
            let mut c: usize = 0;
            while c < self.config.cols
                invariant
                    self.wf(),
                    v == self@,
                    v.status == GameState::Won(p),
                    r < v.rows(),
                    c <= v.cols(),
                    forall|a: int, b: int, j: int|
                        scan_before(a, b, j, r as int, c as int, 0) ==> !#[trigger] v.winning_start(
                            a,
                            b,
                            j,
                            p,
                        ),
                decreases v.cols() - c,
            {
                let here = self.get_cell(r, c);
                let mut k: usize = 0;
                while k < 4
                    invariant
                        self.wf(),
                        v == self@,
                        v.status == GameState::Won(p),
                        r < v.rows(),
                        c < v.cols(),
                        here == v.cell(r as int, c as int),
                        k <= 4,
                        forall|a: int, b: int, j: int|
                            scan_before(a, b, j, r as int, c as int, k as int)
                                ==> !#[trigger] v.winning_start(a, b, j, p),
                    decreases 4 - k,
                {
                    if here == Some(p) && self.run_from(r, c, k, p) {
                        let (dr, dc) = axis(k);
                        let mut cells: Vec<(usize, usize)> = Vec::new();
                        let mut i: usize = 0;
                        while i < self.config.connect_length
                            invariant
                                self.wf(),
                                v == self@,
                                k < 4,
                                dr == axis_dr(k as int),
                                dc == axis_dc(k as int),
                                v.run_at(r as int, c as int, k as int, p),
                                i <= v.connect(),
                                cells@.len() == i,
                                forall|j: int|
                                    0 <= j < i ==> #[trigger] cells@[j] == v.run_cells(
                                        r as int,
                                        c as int,
                                        k as int,
                                    )[j],
                            decreases v.connect() - i,
                        {
                            assert(v.cell(r + i * axis_dr(k as int), c + i * axis_dc(k as int))
                                == Some(p));
                            let a = offset(r, dr, i, self.config.rows);
                            let b = offset(c, dc, i, self.config.cols);
                            cells.push((a.unwrap(), b.unwrap()));
                            i += 1;
                        }
                        proof {
                            assert(cells@ =~= v.run_cells(r as int, c as int, k as int));
                            assert(v.first_run(r as int, c as int, k as int, p));
                            assert forall|i: int| 0 <= i < cells@.len() implies #[trigger] v.cell(
                                cells@[i].0 as int,
                                cells@[i].1 as int,
                            ) == Some(p) by {
                                assert(v.cell(r + i * axis_dr(k as int), c + i * axis_dc(k as int))
                                    == Some(p));
                            }
                        }
                        return Some(cells);
                    }
                    k += 1;
                }
                c += 1;
            }
            r += 1;
        }
        proof {
            let (a, b, j) = choose|a: int, b: int, j: int| #[trigger] v.winning_start(a, b, j, p);
            assert(scan_before(a, b, j, r as int, 0, 0));
        }
        None
    }
}

impl GameView {
    /// Dropping a piece of `p` (whoever's turn it is) into column `c` of a
    /// game in progress completes a line of `connect_length`.
    pub open spec fn drop_wins(self, c: int, p: Player) -> bool {
        let row = self.lowest_empty(c);
        let next = GameView {
            board: self.board.update(row, self.board[row].update(c, Some(p))),
            ..self
        };
        &&& self.can_place(c)
        &&& next.wins_through(row, c, p)
    }
}

impl Game {
    /// Whether a piece of `player` dropped into `column` would win at once.
    pub fn wins_by_dropping(&self, column: usize, player: Player) -> (b: bool)
        requires
            self.wf(),
        ensures
            b == self@.drop_wins(column as int, player),
    {
        let mut trial = self.duplicate();
        trial.current_player = player;
        let ghost v = self@;
        let ghost t = trial@;
        assert(t.board == v.board);
        proof {
            v.lemma_same_grid(t);
        }
        let r = trial.place(column);
        proof {
            if r is Some {
                let row = v.lowest_empty(column as int);
                let next = GameView {
                    board: v.board.update(row, v.board[row].update(column as int, Some(player))),
                    ..v
                };
                assert(trial@.board == next.board);
                next.lemma_same_grid(trial@);
            }
        }
        match r {
            Some(GameState::Won(q)) => q == player,
            _ => false,
        }
    }
}

impl GameView {
    /// The game after the mover drops a piece into column `c`, as `placed` describes it.
    pub open spec fn after_drop(self, c: int) -> GameView {
        let row = self.lowest_empty(c);
        let p = self.current;
        let board = self.board.update(row, self.board[row].update(c, Some(p)));
        let grid = GameView { board, ..self };
        let status = if grid.wins_through(row, c, p) {
            GameState::Won(p)
        } else if grid.board_full() {
            GameState::Draw
        } else {
            GameState::InProgress
        };
        GameView {
            board,
            current: if status == GameState::InProgress {
                p.opponent()
            } else {
                p
            },
            status,
            config: self.config,
        }
    }

    /// How many of the columns `0..n` are open.
    pub open spec fn open_count(self, n: int) -> nat
        decreases n,
    {
        if n <= 0 {
            0
        } else {
            self.open_count(n - 1) + if !self.column_full(n - 1) {
                1nat
            } else {
                0
            }
        }
    }

    /// `placed` leaves a single possible result.
    pub proof fn lemma_placed_is_after_drop(self, c: int, next: GameView)
        requires
            self.placed(c, next),
        ensures
            next == self.after_drop(c),
    {
        let row = self.lowest_empty(c);
        let grid = GameView { board: next.board, ..self };
        grid.lemma_same_grid(next);
    }
}

/// A view of a game for drawing: each cell's piece, and whether the cell
/// belongs to the winning run.
pub struct GridWidget<'a> {
    pub game: &'a Game,
}

impl<'a> GridWidget<'a> {
    /// The piece at `(row, col)` and whether it lies on `winning`, the
    /// winning run as `get_winning_combination` gives it.
    pub fn cell_view(&self, winning: &Option<Vec<(usize, usize)>>, row: usize, col: usize) -> (r: (
        Option<Player>,
        bool,
    ))
        requires
            self.game.wf(),
        ensures
            r.0 == (if self.game@.in_bounds(row as int, col as int) {
                self.game@.cell(row as int, col as int)
            } else {
                None
            }),
            r.1 == (winning matches Some(cells) && cells@.contains((row, col))),
    {
        let piece = self.game.get_cell(row, col);
        let mut lit = false;
        match winning {
            Some(cells) => {
                let mut i: usize = 0;
                while i < cells.len()
                    invariant
                        i <= cells@.len(),
                        lit == (exists|j: int| 0 <= j < i && cells@[j] == (row, col)),
                    decreases cells.len() - i,
                {
                    if cells[i].0 == row && cells[i].1 == col {
                        lit = true;
                    }
                    i += 1;
                }
            },
            None => {},
        }
        (piece, lit)
    }
}

} // verus!
