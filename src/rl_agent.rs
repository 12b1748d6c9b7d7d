//! A tabular Q-learning agent.
//!
//! Values are fixed-point integers: `VALUE_SCALE` stands for one unit of
//! reward. The table maps a position's fingerprint to one value per column.
use vstd::prelude::*;

use crate::chance::random_below;
use crate::game::{Game, GameConfig, GameState, GameView, Player};
use crate::minimax_agent::{dist, first_win, first_winning, no_win, open_column};

verus! {

/// One unit of reward, in table values.
pub const VALUE_SCALE: i64 = 1_000_000;

/// Learning rate, in hundredths: each update moves a value 15% of the way
/// toward its target.
pub const LEARNING_RATE_PERCENT: i64 = 15;

pub const WIN_REWARD: i64 = 5_000_000;

pub const LOSS_REWARD: i64 = -10_000_000;

pub const DRAW_REWARD: i64 = 1_000_000;

/// Reward per turn played, added in full after a loss or draw and halved after a win.
pub const DURATION_REWARD: i64 = 20_000;

/// No move of a lost game is credited with more than this.
pub const LOSS_FLOOR: i64 = -500_000;

/// Values closer than this count as tied.
pub const TIE_MARGIN: i64 = 1_000;

/// How many of its latest moves the agent credits at the end of a game.
pub const MAX_HISTORY: usize = 3;

/// The duration reward counts at most this many turns.
pub const TURN_CAP: usize = 1_000_000;

/// Largest magnitude a stored value may have.
pub const VALUE_LIMIT: i64 = 1_000_000_000_000;

/// Epsilon is given in parts per million of this.
pub const EPSILON_SCALE: usize = 1_000_000;

/// The character of digit `d`.
pub open spec fn digit_char(d: int) -> char {
    if d == 0 {
        '0'
    } else if d == 1 {
        '1'
    } else if d == 2 {
        '2'
    } else if d == 3 {
        '3'
    } else if d == 4 {
        '4'
    } else if d == 5 {
        '5'
    } else if d == 6 {
        '6'
    } else if d == 7 {
        '7'
    } else if d == 8 {
        '8'
    } else {
        '9'
    }
}

/// `n` written in decimal.
pub open spec fn decimal(n: nat) -> Seq<char>
    decreases n,
{
    if n < 10 {
        seq![digit_char(n as int)]
    } else {
        decimal(n / 10) + seq![digit_char((n % 10) as int)]
    }
}

/// 'm' for a piece of `me`, 'o' for the other side's, nothing for an empty cell.
pub open spec fn mark(v: GameView, me: Player, r: int, c: int) -> Seq<char> {
    match v.cell(r, c) {
        Some(q) => if q == me {
            seq!['m']
        } else {
            seq!['o']
        },
        None => Seq::empty(),
    }
}

/// The marks of the lowest `n` cells of column `c`, bottom first.
pub open spec fn column_marks(v: GameView, me: Player, c: int, n: int) -> Seq<char>
    decreases n,
{
    if n <= 0 {
        Seq::empty()
    } else {
        column_marks(v, me, c, n - 1) + mark(v, me, v.rows() - n, c)
    }
}

/// A column's code: how many pieces it holds, then their marks from the bottom.
pub open spec fn column_code(v: GameView, me: Player, c: int) -> Seq<char> {
    let marks = column_marks(v, me, c, v.rows());
    decimal(marks.len()) + marks
}

pub open spec fn fingerprint_of(v: GameView, me: Player, n: int) -> Seq<char>
    decreases n,
{
    if n <= 0 {
        Seq::empty()
    } else {
        fingerprint_of(v, me, n - 1) + column_code(v, me, n - 1)
    }
}

/// The position as `me` sees it: the codes of all columns, left to right.
pub open spec fn fingerprint(v: GameView, me: Player) -> Seq<char> {
    fingerprint_of(v, me, v.cols())
}

/// The one-character string of digit `d`.
fn digit_str(d: usize) -> (s: &'static str)
    requires
        d < 10,
    ensures
        s@ == seq![digit_char(d as int)],
{
    proof {
        reveal_strlit("0");
        reveal_strlit("1");
        reveal_strlit("2");
        reveal_strlit("3");
        reveal_strlit("4");
        reveal_strlit("5");
        reveal_strlit("6");
        reveal_strlit("7");
        reveal_strlit("8");
        reveal_strlit("9");
    }
    let s = if d == 0 {
        "0"
    } else if d == 1 {
        "1"
    } else if d == 2 {
        "2"
    } else if d == 3 {
        "3"
    } else if d == 4 {
        "4"
    } else if d == 5 {
        "5"
    } else if d == 6 {
        "6"
    } else if d == 7 {
        "7"
    } else if d == 8 {
        "8"
    } else {
        "9"
    };
    assert(s@ =~= seq![digit_char(d as int)]);
    s
}

/// `n` written in decimal.
pub fn decimal_string(n: usize) -> (s: String)
    ensures
        s@ == decimal(n as nat),
    decreases n,
{
    if n < 10 {
        digit_str(n).to_owned()
    } else {
        let mut s = decimal_string(n / 10);
        s.append(digit_str(n % 10));
        s
    }
}

/// A position's fingerprint and one value per column.
pub type TableEntry = (String, Vec<i64>);

/// The mathematical content of a learning agent.
pub struct RLView {
    pub table: Seq<(Seq<char>, Seq<i64>)>,
    pub epsilon: nat,
    pub learning: bool,
    pub turn: nat,
    pub color: Player,
    pub history: Seq<(Seq<char>, usize)>,
    pub config: GameConfig,
}

pub open spec fn entries_view(t: Seq<TableEntry>) -> Seq<(Seq<char>, Seq<i64>)> {
    t.map_values(|e: TableEntry| (e.0@, e.1@))
}

/// No fingerprint occurs twice and every value is within `VALUE_LIMIT`.
pub open spec fn valid_table(t: Seq<(Seq<char>, Seq<i64>)>) -> bool {
    &&& forall|i: int, j: int| 0 <= i < j < t.len() ==> t[i].0 != t[j].0
    &&& forall|i: int, k: int|
        0 <= i < t.len() && 0 <= k < t[i].1.len() ==> -VALUE_LIMIT <= #[trigger] t[i].1[k]
            <= VALUE_LIMIT
}

/// The values stored for `key`; none stored reads as all zeros.
pub open spec fn values_for(t: Seq<(Seq<char>, Seq<i64>)>, key: Seq<char>) -> Seq<i64>
    decreases t.len(),
{
    if t.len() == 0 {
        Seq::empty()
    } else if t.last().0 == key {
        t.last().1
    } else {
        values_for(t.drop_last(), key)
    }
}

/// The value of column `c` in `vals`, 0 past its end.
pub open spec fn value_at(vals: Seq<i64>, c: int) -> int {
    if 0 <= c < vals.len() {
        vals[c] as int
    } else {
        0
    }
}

/// An agent that learns by tabular Q-learning.
pub struct RLAgent {
    q_table: Vec<TableEntry>,
    epsilon: usize,
    learning: bool,
    turn: usize,
    agent_color: Player,
    move_history: Vec<(String, usize)>,
    board_config: GameConfig,
}

impl View for RLAgent {
    type V = RLView;

    closed spec fn view(&self) -> RLView {
        RLView {
            table: entries_view(self.q_table@),
            epsilon: self.epsilon as nat,
            learning: self.learning,
            turn: self.turn as nat,
            color: self.agent_color,
            history: self.move_history@.map_values(|h: (String, usize)| (h.0@, h.1)),
            config: self.board_config,
        }
    }
}

impl RLView {
    pub open spec fn wf(self) -> bool {
        &&& valid_table(self.table)
        &&& self.epsilon <= EPSILON_SCALE
        &&& self.history.len() <= MAX_HISTORY
        &&& forall|i: int| 0 <= i < self.history.len() ==> (#[trigger] self.history[i]).1 < self.config.cols
    }
}

impl RLAgent {
    pub open spec fn wf(&self) -> bool {
        self@.wf()
    }

    /// A fresh agent with an empty table. `epsilon` is the exploration rate
    /// in parts per million; `learning` turns the recording of moves and the
    /// end-of-game updates on.
    pub fn new(epsilon: usize, learning: bool, agent_color: Player, board_config: GameConfig) -> (r: Self)
        requires
            epsilon <= EPSILON_SCALE,
        ensures
            r.wf(),
            r@.table.len() == 0,
            r@.epsilon == epsilon,
            r@.learning == learning,
            r@.turn == 0,
            r@.color == agent_color,
            r@.history.len() == 0,
            r@.config == board_config,
    {
        RLAgent {
            q_table: Vec::new(),
            epsilon,
            learning,
            turn: 0,
            agent_color,
            move_history: Vec::new(),
            board_config,
        }
    }

    /// The fingerprint of `board` from this agent's side.
    pub fn board_to_state(&self, board: &Game) -> (s: String)
        requires
            board.wf(),
        ensures
            s@ == fingerprint(board@, self@.color),
    {
        let ghost v = board@;
        let me = self.agent_color;
        let rows = board.config().rows;
        let cols = board.config().cols;
        let mut state = String::new();
        let mut c: usize = 0;
        while c < cols
            invariant
                board.wf(),
                v == board@,
                me == self@.color,
                rows == v.rows(),
                cols == v.cols(),
                c <= cols,
                state@ == fingerprint_of(v, me, c as int),
            decreases cols - c,
        {
            let mut marks = String::new();
            let mut count: usize = 0;
            let mut k: usize = 0;
            while k < rows
                invariant
                    board.wf(),
                    v == board@,
                    rows == v.rows(),
                    c < cols,
                    cols == v.cols(),
                    k <= rows,
                    marks@ == column_marks(v, me, c as int, k as int),
                    count == marks@.len(),
                    count <= k,
                decreases rows - k,
            {
                let row = rows - 1 - k;
                match board.get_cell(row, c) {
                    Some(q) => {
                        if q == me {
                            proof {
                                reveal_strlit("m");
                            }
                            marks.append("m");
                        } else {
                            proof {
                                reveal_strlit("o");
                            }
                            marks.append("o");
                        }
                        count += 1;
                    },
                    None => {},
                }
                k += 1;
                proof {
                    assert(marks@ =~= column_marks(v, me, c as int, k as int));
                }
            }
            let digits = decimal_string(count);
            state.append(digits.as_str());
            state.append(marks.as_str());
            c += 1;
            proof {
                assert(state@ =~= fingerprint_of(v, me, c as int));
            }
        }
        state
    }
}

/// The value the agent's table gives column `c` in position `v`.
pub open spec fn q_value(a: RLView, v: GameView, c: int) -> int {
    value_at(values_for(a.table, fingerprint(v, a.color)), c)
}

/// No open column's value reaches `TIE_MARGIN` above column `c`'s.
pub open spec fn near_best(a: RLView, v: GameView, c: int) -> bool {
    forall|x: int| open_column(v, x) ==> #[trigger] q_value(a, v, x) < q_value(a, v, c) + TIE_MARGIN
}

/// `c` is the column the table picks: near the best value, and of all such
/// columns the nearest the centre column, the leftmost of equals.
pub open spec fn exploit_choice(a: RLView, v: GameView, c: int) -> bool {
    &&& open_column(v, c)
    &&& near_best(a, v, c)
    &&& forall|x: int|
        open_column(v, x) && #[trigger] near_best(a, v, x) ==> dist(c, v.cols() / 2) < dist(
            x,
            v.cols() / 2,
        ) || (dist(c, v.cols() / 2) == dist(x, v.cols() / 2) && c <= x)
}

proof fn lemma_values_for(t: Seq<(Seq<char>, Seq<i64>)>, key: Seq<char>)
    requires
        forall|i: int, j: int| 0 <= i < j < t.len() ==> t[i].0 != t[j].0,
    ensures
        forall|i: int| 0 <= i < t.len() && t[i].0 == key ==> values_for(t, key) == t[i].1,
        (forall|i: int| 0 <= i < t.len() ==> t[i].0 != key) ==> values_for(t, key) == Seq::<i64>::empty(),
    decreases t.len(),
{
    if t.len() > 0 {
        let u = t.drop_last();
        lemma_values_for(u, key);
        assert forall|i: int| 0 <= i < t.len() && t[i].0 == key implies values_for(t, key) == t[i].1 by {
            if i < t.len() - 1 {
                assert(u[i] == t[i]);
                assert(t[i].0 != t[t.len() - 1].0);
            }
        }
        if forall|i: int| 0 <= i < t.len() ==> t[i].0 != key {
            assert forall|i: int| 0 <= i < u.len() implies u[i].0 != key by {
                assert(u[i] == t[i]);
            }
        }
    }
}

impl RLAgent {
    /// Where `key` sits in the table, if it does.
    fn find(&self, key: &String) -> (r: Option<usize>)
        requires
            self.wf(),
        ensures
            r matches Some(i) ==> i < self@.table.len() && self@.table[i as int].0 == key@
                && values_for(self@.table, key@) == self@.table[i as int].1,
            r is None ==> values_for(self@.table, key@) == Seq::<i64>::empty() && forall|i: int|
                0 <= i < self@.table.len() ==> self@.table[i].0 != key@,
    {
        proof {
            lemma_values_for(self@.table, key@);
        }
        let mut i: usize = 0;
        while i < self.q_table.len()
            invariant
                self.wf(),
                i <= self@.table.len(),
                self@.table.len() == self.q_table@.len(),
                forall|j: int| 0 <= j < i ==> self@.table[j].0 != key@,
            decreases self.q_table.len() - i,
        {
            assert(self@.table[i as int].0 == self.q_table@[i as int].0@);
            if self.q_table[i].0 == *key {
                proof {
                    lemma_values_for(self@.table, key@);
                    assert(self@.table[i as int].0 == key@);
                }
                return Some(i);
            }
            i += 1;
        }
        None
    }

    /// The values stored for `board`'s fingerprint; empty if there are none.
    fn values_of(&self, board: &Game) -> (r: Vec<i64>)
        requires
            self.wf(),
            board.wf(),
        ensures
            r@ == values_for(self@.table, fingerprint(board@, self@.color)),
    {
        let key = self.board_to_state(board);
        match self.find(&key) {
            Some(i) => {
                assert(self@.table[i as int].1 == self.q_table@[i as int].1@);
                self.q_table[i].1.clone()
            },
            None => Vec::new(),
        }
    }

    /// The column the table picks among the open `moves` (see `exploit_choice`).
    pub fn best_action(&self, board: &Game, moves: &Vec<usize>) -> (c: usize)
        requires
            self.wf(),
            board.wf(),
            board@.is_valid_moves(moves@),
            moves@.len() > 0,
        ensures
            exploit_choice(self@, board@, c as int),
    {
        let ghost v = board@;
        let ghost a = self@;
        let vals = self.values_of(board);
        let ghost key = fingerprint(v, a.color);
        proof {
            assert forall|k: int| 0 <= k < vals@.len() implies -VALUE_LIMIT <= #[trigger] vals@[k]
                <= VALUE_LIMIT by {
                lemma_values_for(a.table, key);
                if exists|i: int| 0 <= i < a.table.len() && a.table[i].0 == key {
                    let i = choose|i: int| 0 <= i < a.table.len() && a.table[i].0 == key;
                    assert(a.table[i].1[k] == vals@[k]);
                }
            }
        }
        let mut best: i64 = if moves[0] < vals.len() {
            vals[moves[0]]
        } else {
            0
        };
        let mut i: usize = 1;
        proof {
            assert(open_column(v, moves@[0] as int));
        }
        while i < moves.len()
            invariant
                v.is_valid_moves(moves@),
                1 <= i <= moves@.len(),
                vals@ == values_for(a.table, key),
                key == fingerprint(v, a.color),
                forall|k: int| 0 <= k < vals@.len() ==> -VALUE_LIMIT <= #[trigger] vals@[k] <= VALUE_LIMIT,
                -VALUE_LIMIT <= best <= VALUE_LIMIT,
                exists|j: int| 0 <= j < i && best == q_value(a, v, #[trigger] moves@[j] as int),
                forall|j: int| 0 <= j < i ==> q_value(a, v, #[trigger] moves@[j] as int) <= best,
            decreases moves.len() - i,
        {
            let c = moves[i];
            let q: i64 = if c < vals.len() {
                vals[c]
            } else {
                0
            };
            if q > best {
                best = q;
            }
            i += 1;
        }
        let center = board.config().cols / 2;
        let ghost jm = choose|j: int| 0 <= j < moves@.len() && best == q_value(a, v, #[trigger] moves@[j] as int);
        proof {
            assert(open_column(v, moves@[jm] as int));
            assert forall|x: int| open_column(v, x) implies #[trigger] q_value(a, v, x) <= best by {
                assert(moves@.contains(x as usize));
                let j = choose|j: int| 0 <= j < moves@.len() && moves@[j] == x as usize;
                assert(q_value(a, v, moves@[j] as int) <= best);
            }
            assert forall|x: int| open_column(v, x) implies (near_best(a, v, x) <==> q_value(a, v, x)
                > best - TIE_MARGIN) by {
                if near_best(a, v, x) {
                    assert(q_value(a, v, moves@[jm] as int) < q_value(a, v, x) + TIE_MARGIN);
                }
            }
        }
        let mut chosen: Option<usize> = None;
        let mut i: usize = 0;
        while i < moves.len()
            invariant
                v.is_valid_moves(moves@),
                i <= moves@.len(),
                0 <= jm < moves@.len(),
                best == q_value(a, v, moves@[jm] as int),
                vals@ == values_for(a.table, key),
                key == fingerprint(v, a.color),
                center == v.cols() / 2,
                -VALUE_LIMIT <= best <= VALUE_LIMIT,
                forall|x: int| open_column(v, x) ==> (near_best(a, v, x) <==> q_value(a, v, x) > best
                    - TIE_MARGIN),
                jm < i ==> chosen is Some,
                chosen matches Some(c) ==> {
                    &&& open_column(v, c as int)
                    &&& near_best(a, v, c as int)
                    &&& exists|j: int| 0 <= j < i && moves@[j] == c
                    &&& forall|j: int|
                        0 <= j < i && #[trigger] near_best(a, v, moves@[j] as int) ==> dist(
                            c as int,
                            center as int,
                        ) < dist(moves@[j] as int, center as int) || (dist(c as int, center as int)
                            == dist(moves@[j] as int, center as int) && c <= moves@[j])
                },
                chosen is None ==> forall|j: int|
                    0 <= j < i ==> !near_best(a, v, #[trigger] moves@[j] as int),
            decreases moves.len() - i,
        {
            let c = moves[i];
            proof {
                assert(open_column(v, c as int));
            }
            let q: i64 = if c < vals.len() {
                vals[c]
            } else {
                0
            };
            if q > best - TIE_MARGIN {
                let d = if c >= center {
                    c - center
                } else {
                    center - c
                };
                match chosen {
                    None => {
                        chosen = Some(c);
                    },
                    Some(b) => {
                        let bd = if b >= center {
                            b - center
                        } else {
                            center - b
                        };
                        let ghost jb = choose|j: int| 0 <= j < i && moves@[j] == b;
                        proof {
                            assert(moves@[jb] < moves@[i as int]);
                        }
                        if d < bd {
                            proof {
                                assert forall|j: int|
                                    0 <= j < i + 1 && #[trigger] near_best(a, v, moves@[j] as int) implies dist(
                                    c as int,
                                    center as int,
                                ) < dist(moves@[j] as int, center as int) || (dist(c as int, center as int)
                                    == dist(moves@[j] as int, center as int) && c <= moves@[j]) by {
                                    if j < i {
                                        if j > jb {
                                            assert(moves@[jb] < moves@[j]);
                                        } else if j < jb {
                                            assert(moves@[j] < moves@[jb]);
                                        }
                                    }
                                }
                            }
                            chosen = Some(c);
                        }
                    },
                }
            }
            i += 1;
        }
        let c = chosen.unwrap();
        proof {
            assert forall|x: int| open_column(v, x) && #[trigger] near_best(a, v, x) implies dist(
                c as int,
                v.cols() / 2,
            ) < dist(x, v.cols() / 2) || (dist(c as int, v.cols() / 2) == dist(x, v.cols() / 2) && c
                <= x) by {
                assert(moves@.contains(x as usize));
                let j = choose|j: int| 0 <= j < moves@.len() && moves@[j] == x as usize;
                assert(near_best(a, v, moves@[j] as int));
            }
        }
        c
    }
}

/// The history after recording `e`: the oldest entry leaves once there are
/// more than `MAX_HISTORY`.
pub open spec fn recorded(h: Seq<(Seq<char>, usize)>, e: (Seq<char>, usize)) -> Seq<(Seq<char>, usize)> {
    let h2 = h.push(e);
    if h2.len() > MAX_HISTORY {
        h2.subrange(1, h2.len() as int)
    } else {
        h2
    }
}

/// What holds of the learning agent's pick, whatever the random draws give:
/// an open column, and the leftmost immediate win when there is one; with
/// no win and no exploration, the table's pick.
pub open spec fn select_post(a: RLView, v: GameView, r: Option<usize>) -> bool {
    &&& r is None <==> forall|c: int| !open_column(v, c)
    &&& r matches Some(c) ==> open_column(v, c as int)
    &&& forall|c: int| #[trigger] first_win(v, c, v.current) ==> r == Some(c as usize)
    &&& (no_win(v, v.current) && a.epsilon == 0 && r is Some) ==> exploit_choice(a, v, r->Some_0 as int)
}

/// The learning agent's pick for given random draws: `coin` (in
/// `0..EPSILON_SCALE`) decides exploration, `pick` indexes the open columns.
/// The leftmost immediate win first; else, if `coin` is below epsilon, the
/// open column with `pick` open columns left of it; else the table's pick.
pub open spec fn drawn_pick(a: RLView, v: GameView, coin: nat, pick: nat, r: Option<usize>) -> bool {
    &&& r is None <==> forall|c: int| !open_column(v, c)
    &&& r matches Some(c) ==> open_column(v, c as int)
    &&& forall|c: int| #[trigger] first_win(v, c, v.current) ==> r == Some(c as usize)
    &&& (no_win(v, v.current) && coin < a.epsilon && r is Some) ==> v.open_count(r->Some_0 as int)
        == pick
    &&& (no_win(v, v.current) && coin >= a.epsilon && r is Some) ==> exploit_choice(
        a,
        v,
        r->Some_0 as int,
    )
}

/// What asking the learning agent for a move does: the pick meets
/// `select_post`; the turn counter grows by one (up to `usize::MAX`); while
/// learning, a pick is recorded with the position's fingerprint; the table
/// and the settings stay.
pub open spec fn rl_pick_post(a: RLView, v: GameView, r: Option<usize>, b: RLView) -> bool {
    &&& select_post(a, v, r)
    &&& b == RLView {
        turn: if a.turn < usize::MAX {
            a.turn + 1
        } else {
            a.turn
        },
        history: if a.learning && r is Some {
            recorded(a.history, (fingerprint(v, a.color), r->Some_0))
        } else {
            a.history
        },
        ..a
    }
}

impl RLAgent {
    /// Picks a column for the draws `coin` and `pick` (see `drawn_pick`).
    /// `pick` must name one of the open columns when there are any.
    pub fn select_with(&self, board: &Game, coin: usize, pick: usize) -> (r: Option<usize>)
        requires
            self.wf(),
            board.wf(),
            board@.open_count(board@.cols()) == 0 || pick < board@.open_count(board@.cols()),
        ensures
            drawn_pick(self@, board@, coin as nat, pick as nat, r),
    {
        let ghost v = board@;
        let moves = board.valid_moves();
        if moves.len() == 0 {
            proof {
                assert forall|c: int| !open_column(v, c) by {
                    if open_column(v, c) {
                        assert(moves@.contains(c as usize));
                    }
                }
            }
            return None;
        }
        proof {
            assert(open_column(v, moves@[0] as int));
        }
        let me = board.current_player();
        match first_winning(board, &moves, me) {
            Some(c) => {
                proof {
                    assert forall|x: int| #[trigger] first_win(v, x, v.current) implies x == c by {
                        if x < c {
                            assert(!v.drop_wins(x, v.current));
                        } else if x > c {
                            assert(!v.drop_wins(c as int, v.current));
                        }
                    }
                }
                return Some(c);
            },
            None => {},
        }
        if coin < self.epsilon {
            proof {
                assert(open_column(v, moves@[pick as int] as int));
                assert(v.open_count(moves@[pick as int] as int) == pick);
            }
            return Some(moves[pick]);
        }
        Some(self.best_action(board, &moves))
    }

    /// Picks a column: the leftmost immediate win; else, with probability
    /// epsilon, a uniformly random open column; else the table's pick.
    fn select_action(&self, board: &Game) -> (r: Option<usize>)
        requires
            self.wf(),
            board.wf(),
        ensures
            select_post(self@, board@, r),
    {
        let open = board.valid_moves().len();
        let coin = random_below(EPSILON_SCALE);
        let pick = if open > 0 {
            random_below(open)
        } else {
            0
        };
        self.select_with(board, coin, pick)
    }

    /// Picks a column as `select_action` does, counts the turn, and, while
    /// learning, records the fingerprint and the pick.
    pub fn get_action(&mut self, board: &Game) -> (r: Option<usize>)
        requires
            old(self).wf(),
            board.wf(),
            board@.config == old(self)@.config,
        ensures
            final(self).wf(),
            rl_pick_post(old(self)@, board@, r, final(self)@),
    {
        let action = self.select_action(board);
        if self.turn < usize::MAX {
            self.turn += 1;
        }
        if self.learning {
            match action {
                Some(a) => {
                    let state = self.board_to_state(board);
                    let ghost h0 = self.move_history@;
                    self.move_history.push((state, a));
                    if self.move_history.len() > MAX_HISTORY {
                        self.move_history.remove(0);
                    }
                    proof {
                        let e = (fingerprint(board@, self@.color), a);
                        let hv0 = h0.map_values(|h: (String, usize)| (h.0@, h.1));
                        assert(self@.history =~= recorded(hv0, e));
                    }
                },
                None => {},
            }
        }
        action
    }
}

/// `LEARNING_RATE_PERCENT` hundredths of `d`, rounded toward zero.
pub open spec fn rate_step(d: int) -> int {
    if d >= 0 {
        d * LEARNING_RATE_PERCENT / 100
    } else {
        -((-d) * LEARNING_RATE_PERCENT / 100)
    }
}

/// One learning step from `old` toward `target`.
pub open spec fn moved_toward(old: int, target: int) -> int {
    old + rate_step(target - old)
}

pub open spec fn zeros(n: int) -> Seq<i64> {
    Seq::new(n as nat, |i: int| 0i64)
}

/// `vals` after updating column `action` toward `reward`; a list too short
/// to hold that column is first padded with zeros to `cols` entries.
pub open spec fn updated_values(vals: Seq<i64>, action: int, cols: int, reward: int) -> Seq<i64> {
    let p = if vals.len() <= action {
        vals + zeros(cols - vals.len())
    } else {
        vals
    };
    p.update(action, moved_toward(p[action] as int, reward) as i64)
}

/// The table after updating `(key, action)` toward `reward`; an unseen key
/// gets a fresh entry.
pub open spec fn table_update(
    t: Seq<(Seq<char>, Seq<i64>)>,
    key: Seq<char>,
    action: int,
    cols: int,
    reward: int,
) -> Seq<(Seq<char>, Seq<i64>)> {
    if exists|i: int| 0 <= i < t.len() && t[i].0 == key {
        let i = choose|i: int| 0 <= i < t.len() && t[i].0 == key;
        t.update(i, (key, updated_values(t[i].1, action, cols, reward)))
    } else {
        t.push((key, updated_values(Seq::empty(), action, cols, reward)))
    }
}

/// The turns that count toward the duration reward: all of them, up to `TURN_CAP`.
pub open spec fn capped_turns(turn: nat) -> int {
    if turn < TURN_CAP {
        turn as int
    } else {
        TURN_CAP as int
    }
}

/// The reward of a finished game to `player`, with the duration bonus:
/// `turns * DURATION_REWARD`, halved after a win.
pub open spec fn final_reward(status: GameState, player: Player, turns: int) -> int {
    match status {
        GameState::Won(w) => if w == player {
            WIN_REWARD + turns * DURATION_REWARD / 2
        } else {
            LOSS_REWARD + turns * DURATION_REWARD
        },
        GameState::Draw => DRAW_REWARD + turns * DURATION_REWARD,
        GameState::InProgress => 0,
    }
}

/// The credit of the move at index `i` of a history of `len` moves: the
/// reward scaled by `(i + 1) / len` (rounded toward zero), but after a loss
/// never above `LOSS_FLOOR`.
pub open spec fn credit(reward: int, i: int, len: int) -> int {
    let m = if reward >= 0 {
        reward * (i + 1) / len
    } else {
        -((-reward) * (i + 1) / len)
    };
    if reward < 0 && m > LOSS_FLOOR {
        LOSS_FLOOR as int
    } else {
        m
    }
}

/// The table after crediting the newest `n` moves of `h`, newest first.
pub open spec fn replay(
    t: Seq<(Seq<char>, Seq<i64>)>,
    h: Seq<(Seq<char>, usize)>,
    n: int,
    reward: int,
    cols: int,
) -> Seq<(Seq<char>, Seq<i64>)>
    decreases n,
{
    if n <= 0 {
        t
    } else {
        let i = h.len() - n;
        table_update(replay(t, h, n - 1, reward, cols), h[i].0, h[i].1 as int, cols, credit(reward, i, h.len() as int))
    }
}

/// What `learn` does: nothing unless the agent is learning, has recorded
/// moves and the game is over; then every recorded move is credited, the
/// history is cleared and the turn counter reset.
pub open spec fn learn_post(a: RLView, status: GameState, player: Player, b: RLView, r: bool) -> bool {
    &&& r == (a.learning && a.history.len() > 0 && status != GameState::InProgress)
    &&& !r ==> b == a
    &&& r ==> b == RLView {
        table: replay(
            a.table,
            a.history,
            a.history.len() as int,
            final_reward(status, player, capped_turns(a.turn)),
            a.config.cols as int,
        ),
        history: Seq::empty(),
        turn: 0,
        ..a
    }
}

/// Learning right after learning changes nothing: the first call, made on a
/// finished game, leaves no recorded moves for the second.
pub proof fn lemma_learn_twice_is_noop(
    a0: RLView,
    s1: GameState,
    first_player: Player,
    a1: RLView,
    r1: bool,
    s2: GameState,
    second_player: Player,
    a2: RLView,
    r2: bool,
)
    requires
        s1 != GameState::InProgress,
        learn_post(a0, s1, first_player, a1, r1),
        learn_post(a1, s2, second_player, a2, r2),
    ensures
        !r2,
        a2 == a1,
        a2.table == a1.table,
{
}

proof fn lemma_moved_toward_between(old: int, target: int)
    ensures
        old <= target ==> old <= moved_toward(old, target) <= target,
        target <= old ==> target <= moved_toward(old, target) <= old,
{
    let d = target - old;
    if d >= 0 {
        assert(d * 15 / 100 <= d) by (nonlinear_arith)
            requires
                d >= 0,
        ;
        assert(d * 15 / 100 >= 0) by (nonlinear_arith)
            requires
                d >= 0,
        ;
    } else {
        let e = -d;
        assert(e * 15 / 100 <= e) by (nonlinear_arith)
            requires
                e >= 0,
        ;
        assert(e * 15 / 100 >= 0) by (nonlinear_arith)
            requires
                e >= 0,
        ;
    }
}

impl RLAgent {
    /// Moves the stored value of `(state, action)` toward `reward`.
    fn update_q_value(&mut self, state: &String, action: usize, reward: i64)
        requires
            old(self).wf(),
            action < old(self)@.config.cols,
            -VALUE_LIMIT <= reward <= VALUE_LIMIT,
        ensures
            final(self).wf(),
            final(self)@ == (RLView {
                table: table_update(
                    old(self)@.table,
                    state@,
                    action as int,
                    old(self)@.config.cols as int,
                    reward as int,
                ),
                ..old(self)@
            }),
    {
        let ghost a = self@;
        let cols = self.board_config.cols;
        let found = self.find(state);
        let mut vals: Vec<i64> = match found {
            Some(i) => {
                assert(a.table[i as int].1 == self.q_table@[i as int].1@);
                self.q_table[i].1.clone()
            },
            None => Vec::new(),
        };
        let ghost v0 = vals@;
        proof {
            assert forall|k: int| 0 <= k < v0.len() implies -VALUE_LIMIT <= #[trigger] v0[k] <= VALUE_LIMIT by {
                if let Some(i) = found {
                    assert(a.table[i as int].1[k] == v0[k]);
                }
            }
        }
        if vals.len() <= action {
            while vals.len() < cols
                invariant
                    v0.len() <= vals@.len() <= cols,
                    vals@ == v0 + zeros(vals@.len() - v0.len()),
                decreases cols - vals.len(),
            {
                vals.push(0);
                proof {
                    assert(vals@ =~= v0 + zeros(vals@.len() - v0.len()));
                }
            }
        }
        let ghost padded = vals@;
        proof {
            assert(padded == (if v0.len() <= action {
                v0 + zeros(cols - v0.len())
            } else {
                v0
            }));
            assert forall|k: int| 0 <= k < padded.len() implies -VALUE_LIMIT <= #[trigger] padded[k]
                <= VALUE_LIMIT by {
                if k >= v0.len() {
                    assert(padded[k] == 0);
                } else {
                    assert(padded[k] == v0[k]);
                }
            }
        }
        let old_value = vals[action];
        let d = reward - old_value;
        let step = if d >= 0 {
            d * LEARNING_RATE_PERCENT / 100
        } else {
            -((-d) * LEARNING_RATE_PERCENT / 100)
        };
        proof {
            lemma_moved_toward_between(old_value as int, reward as int);
        }
        let new_value = old_value + step;
        vals.set(action, new_value);
        proof {
            assert(vals@ == updated_values(v0, action as int, cols as int, reward as int));
        }
        let ghost nv = vals@;
        match found {
            Some(i) => {
                let key = state.clone();
                self.q_table.set(i, (key, vals));
                proof {
                    assert(self@.table =~= a.table.update(i as int, (state@, nv)));
                    assert(exists|j: int| 0 <= j < a.table.len() && a.table[j].0 == state@);
                    let j = choose|j: int| 0 <= j < a.table.len() && a.table[j].0 == state@;
                    assert(j == i);
                }
            },
            None => {
                let key = state.clone();
                self.q_table.push((key, vals));
                proof {
                    assert(self@.table =~= a.table.push((state@, nv)));
                }
            },
        }
        proof {
            let t = self@.table;
            assert forall|k: int| 0 <= k < nv.len() implies -VALUE_LIMIT <= #[trigger] nv[k] <= VALUE_LIMIT by {
                if k != action {
                    assert(nv[k] == padded[k]);
                }
            }
            assert forall|x: int, k: int|
                0 <= x < t.len() && 0 <= k < t[x].1.len() implies -VALUE_LIMIT <= #[trigger] t[x].1[k]
                <= VALUE_LIMIT by {
                if x < a.table.len() && t[x] == a.table[x] {
                } else {
                    assert(t[x].1 == nv);
                }
            }
            assert forall|x: int, y: int| 0 <= x < y < t.len() implies t[x].0 != t[y].0 by {
                if y == a.table.len() {
                    assert(t[x] == a.table[x]);
                }
            }
        }
    }
}

proof fn lemma_credit_bounds(reward: int, i: int, len: int)
    requires
        0 <= i < len,
        -VALUE_LIMIT <= reward <= VALUE_LIMIT,
    ensures
        -VALUE_LIMIT <= credit(reward, i, len) <= VALUE_LIMIT,
{
    if reward >= 0 {
        assert(0 <= reward * (i + 1) / len <= reward) by (nonlinear_arith)
            requires
                reward >= 0,
                0 <= i < len,
        ;
    } else {
        let e = -reward;
        assert(0 <= e * (i + 1) / len <= e) by (nonlinear_arith)
            requires
                e >= 0,
                0 <= i < len,
        ;
    }
}

impl RLAgent {
    /// Credits the recorded moves for the outcome of `board` to `player`,
    /// newest first, then clears the history and the turn counter. Returns
    /// whether the table was updated (and so is worth saving).
    pub fn learn(&mut self, board: &Game, player: Player) -> (r: bool)
        requires
            old(self).wf(),
            board.wf(),
        ensures
            final(self).wf(),
            learn_post(old(self)@, board@.status, player, final(self)@, r),
    {
        if !self.learning || self.move_history.len() == 0 {
            return false;
        }
        let status = *board.state();
        if status == GameState::InProgress {
            return false;
        }
        let turns = if self.turn < TURN_CAP {
            self.turn
        } else {
            TURN_CAP
        };
        let reward = outcome_reward(status, player, turns);
        let ghost a = self@;
        let len = self.move_history.len();
        let mut remaining = len;
        proof {
            assert(a.history.subrange(0, len as int) =~= a.history);
        }
        while remaining > 0
            invariant
                self.wf(),
                1 <= len <= MAX_HISTORY,
                len == a.history.len(),
                remaining <= len,
                -VALUE_LIMIT <= reward <= VALUE_LIMIT,
                reward == final_reward(status, player, capped_turns(a.turn)),
                self.move_history@.len() == remaining,
                self@.history == a.history.subrange(0, remaining as int),
                self@ == (RLView {
                    table: replay(a.table, a.history, len - remaining, reward as int, a.config.cols as int),
                    history: a.history.subrange(0, remaining as int),
                    ..a
                }),
            decreases remaining,
        {
            let ghost before = self@;
            let ghost mh = self.move_history@;
            let entry = self.move_history.pop().unwrap();
            let i = remaining - 1;
            proof {
                assert(mh[i as int] == entry);
                assert(before.history[i as int] == (mh[i as int].0@, mh[i as int].1));
                assert(a.history[i as int] == (entry.0@, entry.1));
                assert(self@.history =~= a.history.subrange(0, i as int));
            }
            let adjusted = move_credit(reward, i, len);
            self.update_q_value(&entry.0, entry.1, adjusted);
            remaining = i;
        }
        self.turn = 0;
        proof {
            assert(self@.history =~= Seq::<(Seq<char>, usize)>::empty());
        }
        true
    }
}

/// What loading a table does: a valid table replaces the agent's; any
/// other leaves the agent with an empty table.
pub open spec fn load_post(a: RLView, entries: Seq<(Seq<char>, Seq<i64>)>, b: RLView, r: bool) -> bool {
    &&& r == valid_table(entries)
    &&& b == RLView {
        table: if r {
            entries
        } else {
            Seq::empty()
        },
        ..a
    }
}

/// Loading a saved table and exporting it again, with no learning between,
/// gives back exactly what was loaded.
pub proof fn lemma_load_then_export(
    a: RLView,
    entries: Seq<(Seq<char>, Seq<i64>)>,
    b: RLView,
    exported: Seq<(Seq<char>, Seq<i64>)>,
)
    requires
        load_post(a, entries, b, true),
        exported == b.table,
    ensures
        exported == entries,
{
}

/// Epsilon in tenths, rounded half up.
pub open spec fn epsilon_tenths(eps: nat) -> nat {
    (eps + 50_000) / 100_000
}

/// The display name: `RL (ε=x.y)`, with `, Learning` before the closing
/// parenthesis while learning.
pub open spec fn rl_type_name(eps: nat, learning: bool) -> Seq<char> {
    let t = epsilon_tenths(eps);
    seq!['R', 'L', ' ', '(', 'ε', '='] + decimal(t / 10) + seq!['.', digit_char((t % 10) as int)] + if learning {
        seq![',', ' ', 'L', 'e', 'a', 'r', 'n', 'i', 'n', 'g', ')']
    } else {
        seq![')']
    }
}

impl RLAgent {
    pub fn epsilon(&self) -> (r: usize)
        ensures
            r == self@.epsilon,
    {
        self.epsilon
    }

    /// How many moves the agent was asked for since it last learned.
    pub fn turn(&self) -> (r: usize)
        ensures
            r == self@.turn,
    {
        self.turn
    }

    pub fn is_learning(&self) -> (r: bool)
        ensures
            r == self@.learning,
    {
        self.learning
    }

    pub fn config(&self) -> (r: GameConfig)
        ensures
            r == self@.config,
    {
        self.board_config
    }

    /// A copy of the value table, for saving.
    pub fn export_table(&self) -> (r: Vec<TableEntry>)
        ensures
            entries_view(r@) == self@.table,
    {
        let mut out: Vec<TableEntry> = Vec::new();
        let mut i: usize = 0;
        while i < self.q_table.len()
            invariant
                i <= self.q_table@.len(),
                out@.len() == i,
                entries_view(out@) == entries_view(self.q_table@).subrange(0, i as int),
            decreases self.q_table.len() - i,
        {
            let key = self.q_table[i].0.clone();
            let src = &self.q_table[i].1;
            let mut vals: Vec<i64> = Vec::new();
            let mut k: usize = 0;
            while k < src.len()
                invariant
                    i < self.q_table@.len(),
                    *src == self.q_table@[i as int].1,
                    entries_view(out@) == entries_view(self.q_table@).subrange(0, i as int),
                    out@.len() == i,
                    k <= src@.len(),
                    vals@ == src@.subrange(0, k as int),
                decreases src@.len() - k,
            {
                vals.push(src[k]);
                k += 1;
                proof {
                    assert(vals@ =~= src@.subrange(0, k as int));
                }
            }
            proof {
                assert(vals@ =~= src@);
            }
            let ghost prev = out@;
            out.push((key, vals));
            proof {
                assert forall|j: int| 0 <= j <= i implies #[trigger] entries_view(out@)[j]
                    == entries_view(self.q_table@)[j] by {
                    if j < i {
                        assert(out@[j] == prev[j]);
                        assert(entries_view(prev)[j] == entries_view(self.q_table@).subrange(0, i as int)[j]);
                    }
                }
            }
            i += 1;
            proof {
                assert(entries_view(out@) =~= entries_view(self.q_table@).subrange(0, i as int));
            }
        }
        proof {
            assert(entries_view(self.q_table@).subrange(0, i as int) =~= entries_view(self.q_table@));
        }
        out
    }

    /// Replaces the table with `entries` if no fingerprint occurs twice and
    /// every value is within `VALUE_LIMIT`; otherwise empties it. Returns
    /// whether `entries` was taken.
    pub fn load_table(&mut self, entries: Vec<TableEntry>) -> (r: bool)
        requires
            old(self).wf(),
        ensures
            final(self).wf(),
            load_post(old(self)@, entries_view(entries@), final(self)@, r),
    {
        let ghost t = entries_view(entries@);
        let mut ok = true;
        let mut i: usize = 0;
        while i < entries.len()
            invariant
                t == entries_view(entries@),
                i <= entries@.len(),
                ok ==> forall|x: int, y: int| 0 <= x < y < i ==> t[x].0 != t[y].0,
                ok ==> forall|x: int, k: int|
                    0 <= x < i && 0 <= k < t[x].1.len() ==> -VALUE_LIMIT <= #[trigger] t[x].1[k]
                        <= VALUE_LIMIT,
                !ok ==> !valid_table(t),
            decreases entries.len() - i,
        {
            let mut j: usize = 0;
            while j < i
                invariant
                    t == entries_view(entries@),
                    j <= i < entries@.len(),
                    ok ==> forall|x: int| 0 <= x < j ==> t[x].0 != t[i as int].0,
                    ok ==> forall|x: int, y: int| 0 <= x < y < i ==> t[x].0 != t[y].0,
                    ok ==> forall|x: int, k: int|
                        0 <= x < i && 0 <= k < t[x].1.len() ==> -VALUE_LIMIT <= #[trigger] t[x].1[k]
                            <= VALUE_LIMIT,
                    !ok ==> !valid_table(t),
                decreases i - j,
            {
                assert(t[j as int].0 == entries@[j as int].0@);
                assert(t[i as int].0 == entries@[i as int].0@);
                if entries[j].0 == entries[i].0 {
                    ok = false;
                }
                j += 1;
            }
            let vals = &entries[i].1;
            let mut k: usize = 0;
            while k < vals.len()
                invariant
                    t == entries_view(entries@),
                    i < entries@.len(),
                    *vals == entries@[i as int].1,
                    k <= vals@.len(),
                    ok ==> forall|m: int| 0 <= m < k ==> -VALUE_LIMIT <= #[trigger] t[i as int].1[m] <= VALUE_LIMIT,
                    ok ==> forall|x: int, y: int| 0 <= x < y <= i ==> t[x].0 != t[y].0,
                    ok ==> forall|x: int, k: int|
                        0 <= x < i && 0 <= k < t[x].1.len() ==> -VALUE_LIMIT <= #[trigger] t[x].1[k]
                            <= VALUE_LIMIT,
                    !ok ==> !valid_table(t),
                decreases vals@.len() - k,
            {
                assert(t[i as int].1 == vals@);
                if vals[k] < -VALUE_LIMIT || vals[k] > VALUE_LIMIT {
                    ok = false;
                }
                k += 1;
            }
            i += 1;
        }
        if ok {
            self.q_table = entries;
        } else {
            self.q_table = Vec::new();
            proof {
                assert(entries_view(self.q_table@) =~= Seq::<(Seq<char>, Seq<i64>)>::empty());
            }
        }
        ok
    }

    /// The agent's display name, `RL (ε=x.y)` or `RL (ε=x.y, Learning)`.
    pub fn get_type(&self) -> (r: String)
        requires
            self.wf(),
        ensures
            r@ == rl_type_name(self@.epsilon, self@.learning),
    {
        let t = (self.epsilon + 50_000) / 100_000;
        proof {
            reveal_strlit("RL (ε=");
            reveal_strlit(".");
            reveal_strlit(", Learning)");
            reveal_strlit(")");
        }
        let mut s = "RL (ε=".to_owned();
        let whole = decimal_string(t / 10);
        s.append(whole.as_str());
        s.append(".");
        s.append(digit_str(t % 10));
        if self.learning {
            s.append(", Learning)");
        } else {
            s.append(")");
        }
        proof {
            assert(s@ =~= rl_type_name(self@.epsilon, self@.learning));
        }
        s
    }
}

/// The reward of a finished game to `player` after `turns` turns (see `final_reward`).
pub fn outcome_reward(status: GameState, player: Player, turns: usize) -> (r: i64)
    requires
        turns <= TURN_CAP,
        status != GameState::InProgress,
    ensures
        r == final_reward(status, player, turns as int),
        -VALUE_LIMIT <= r <= VALUE_LIMIT,
{
    let t = turns as i64;
    match status {
        GameState::Won(w) => {
            if w == player {
                WIN_REWARD + t * DURATION_REWARD / 2
            } else {
                LOSS_REWARD + t * DURATION_REWARD
            }
        },
        GameState::Draw => DRAW_REWARD + t * DURATION_REWARD,
        GameState::InProgress => 0,
    }
}

/// The credit of the move at index `i` of `len` recorded moves (see `credit`).
pub fn move_credit(reward: i64, i: usize, len: usize) -> (r: i64)
    requires
        i < len <= MAX_HISTORY,
        -VALUE_LIMIT <= reward <= VALUE_LIMIT,
    ensures
        r == credit(reward as int, i as int, len as int),
        -VALUE_LIMIT <= r <= VALUE_LIMIT,
{
    proof {
        lemma_credit_bounds(reward as int, i as int, len as int);
        let k = (i + 1) as int;
        assert(-3 * VALUE_LIMIT <= reward * k <= 3 * VALUE_LIMIT) by (nonlinear_arith)
            requires
                1 <= k <= 3,
                -VALUE_LIMIT <= reward <= VALUE_LIMIT,
        ;
        assert(-3 * VALUE_LIMIT <= (-reward) * k <= 3 * VALUE_LIMIT) by (nonlinear_arith)
            requires
                1 <= k <= 3,
                -VALUE_LIMIT <= reward <= VALUE_LIMIT,
        ;
    }
    let scaled: i64 = if reward >= 0 {
        reward * ((i + 1) as i64) / (len as i64)
    } else {
        -((-reward) * ((i + 1) as i64) / (len as i64))
    };
    if reward < 0 && scaled > LOSS_FLOOR {
        LOSS_FLOOR
    } else {
        scaled
    }
}

} // verus!
