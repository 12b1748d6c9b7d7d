//! The simple agents (human, random, greedy) and the shared agent façade.
use vstd::prelude::*;

use crate::chance::random_below;
use crate::game::{Game, GameConfig, GameState, GameView, Player};
use crate::minimax_agent::{at, dist, open_column, search_post, search_sized, MinimaxAgent};
use crate::rl_agent::{
    decimal, decimal_string, learn_post, rl_pick_post, rl_type_name, RLAgent, EPSILON_SCALE,
};

verus! {

/// The column a key selects: '1' to '7' pick columns 0 to 6.
pub open spec fn key_column(key: Option<char>) -> Option<usize> {
    match key {
        Some(ch) => if '1' <= ch <= '7' {
            Some((ch as u32 - '1' as u32) as usize)
        } else {
            None
        },
        None => None,
    }
}

/// 1 if `(r + dr, c + dc)` holds a piece of `p`.
pub open spec fn same_neighbor(v: GameView, r: int, c: int, dr: int, dc: int, p: Player) -> int {
    if at(v, r + dr, c + dc) == Some(p) {
        1
    } else {
        0
    }
}

/// How many of the eight cells around `(r, c)` hold a piece of `p`.
pub open spec fn same_neighbors(v: GameView, r: int, c: int, p: Player) -> int {
    same_neighbor(v, r, c, -1, -1, p) + same_neighbor(v, r, c, -1, 0, p) + same_neighbor(
        v,
        r,
        c,
        -1,
        1,
        p,
    ) + same_neighbor(v, r, c, 0, -1, p) + same_neighbor(v, r, c, 0, 1, p) + same_neighbor(
        v,
        r,
        c,
        1,
        -1,
        p,
    ) + same_neighbor(v, r, c, 1, 0, p) + same_neighbor(v, r, c, 1, 1, p)
}

pub open spec fn cluster_cell(v: GameView, r: int, c: int, p: Player) -> int {
    if at(v, r, c) == Some(p) {
        same_neighbors(v, r, c, p)
    } else {
        0
    }
}

pub open spec fn cluster_row(v: GameView, r: int, n: int, p: Player) -> int
    decreases n,
{
    if n <= 0 {
        0
    } else {
        cluster_row(v, r, n - 1, p) + cluster_cell(v, r, n - 1, p)
    }
}

pub open spec fn cluster_rows(v: GameView, n: int, p: Player) -> int
    decreases n,
{
    if n <= 0 {
        0
    } else {
        cluster_rows(v, n - 1, p) + cluster_row(v, n - 1, v.cols(), p)
    }
}

/// Same-colour neighbour pairs of `p` over the whole grid, each piece
/// counting its eight neighbours.
pub open spec fn cluster_score(v: GameView, p: Player) -> int {
    cluster_rows(v, v.rows(), p)
}

/// The greedy score of dropping into column `c`: the mover's clustering
/// after the drop.
pub open spec fn greedy_score(v: GameView, c: int) -> int {
    cluster_score(v.after_drop(c), v.current)
}

/// What the greedy agent gives a column: its greedy score where a drop is
/// allowed, -1 where it is not.
pub open spec fn greedy_value(v: GameView, c: int) -> int {
    if v.can_place(c) {
        greedy_score(v, c)
    } else {
        -1
    }
}

/// `c` beats or ties `x` for the greedy agent: a higher value, or an equal
/// value and nearer the centre, or as near and not to the right of `x`.
pub open spec fn greedy_prefers(v: GameView, c: int, x: int, center: int) -> bool {
    ||| greedy_value(v, x) < greedy_value(v, c)
    ||| (greedy_value(v, x) == greedy_value(v, c) && dist(c, center) < dist(x, center))
    ||| (greedy_value(v, x) == greedy_value(v, c) && dist(c, center) == dist(x, center) && c <= x)
}

/// What the greedy agent's pick satisfies: an open column (none only when
/// every column is full) that `greedy_prefers` over every open column, with
/// the centre taken as half the number of open columns.
pub open spec fn greedy_post(v: GameView, r: Option<usize>) -> bool {
    &&& r is None <==> forall|c: int| !open_column(v, c)
    &&& r matches Some(c) ==> {
        &&& open_column(v, c as int)
        &&& forall|x: int|
            open_column(v, x) ==> #[trigger] greedy_prefers(v, c as int, x, (v.open_count(v.cols()) / 2) as int)
    }
}

/// An open column, none only when every column is full.
pub open spec fn open_pick(v: GameView, r: Option<usize>) -> bool {
    &&& r is None <==> forall|c: int| !open_column(v, c)
    &&& r matches Some(c) ==> open_column(v, c as int)
}

/// The agent driven by a person's key presses.
#[derive(Clone, Copy, Debug, PartialEq, Eq, Structural)]
pub struct HumanAgent;

impl HumanAgent {
    /// The column the pressed key names, if it names one.
    pub fn get_action(&self, key: Option<char>) -> (r: Option<usize>)
        ensures
            r == key_column(key),
    {
        match key {
            Some(ch) => {
                if '1' <= ch && ch <= '7' {
                    Some((ch as u32 - '1' as u32) as usize)
                } else {
                    None
                }
            },
            None => None,
        }
    }
}

/// The agent that plays a uniformly random open column.
#[derive(Clone, Copy, Debug, PartialEq, Eq, Structural)]
pub struct RandomAgent;

impl RandomAgent {
    /// A random open column; `None` when every column is full.
    pub fn get_action(&self, board: &Game) -> (r: Option<usize>)
        requires
            board.wf(),
        ensures
            open_pick(board@, r),
    {
        let moves = board.valid_moves();
        if moves.len() == 0 {
            proof {
                assert forall|c: int| !open_column(board@, c) by {
                    if open_column(board@, c) {
                        assert(moves@.contains(c as usize));
                    }
                }
            }
            return None;
        }
        proof {
            assert(open_column(board@, moves@[0] as int));
        }
        let i = random_below(moves.len());
        Some(moves[i])
    }
}

/// The agent that plays where its pieces cluster most.
#[derive(Clone, Copy, Debug, PartialEq, Eq, Structural)]
pub struct GreedyAgent;

impl GreedyAgent {
    /// How many of the eight cells around `(row, col)` hold a piece of `p`.
    fn count_neighbors(&self, board: &Game, row: usize, col: usize, p: Player) -> (n: i32)
        requires
            board.wf(),
            board@.in_bounds(row as int, col as int),
        ensures
            n == same_neighbors(board@, row as int, col as int, p),
            0 <= n <= 8,
    {
        let mut n: i32 = 0;
        if row > 0 && col > 0 && board.get_cell(row - 1, col - 1) == Some(p) {
            n += 1;
        }
        if row > 0 && board.get_cell(row - 1, col) == Some(p) {
            n += 1;
        }
        if row > 0 && board.get_cell(row - 1, col + 1) == Some(p) {
            n += 1;
        }
        if col > 0 && board.get_cell(row, col - 1) == Some(p) {
            n += 1;
        }
        if board.get_cell(row, col + 1) == Some(p) {
            n += 1;
        }
        if col > 0 && board.get_cell(row + 1, col - 1) == Some(p) {
            n += 1;
        }
        if board.get_cell(row + 1, col) == Some(p) {
            n += 1;
        }
        if board.get_cell(row + 1, col + 1) == Some(p) {
            n += 1;
        }
        n
    }

    /// The mover's clustering after a drop into `col`, or -1 if the drop fails.
    fn evaluate_move(&self, board: &Game, col: usize) -> (s: i32)
        requires
            board.wf(),
            board@.rows() <= 1000,
            board@.cols() <= 1000,
        ensures
            s == greedy_value(board@, col as int),
    {
        let mut copy = board.duplicate();
        let placed = copy.place(col);
        if placed.is_none() {
            return -1;
        }
        proof {
            board@.lemma_placed_is_after_drop(col as int, copy@);
        }
        let player = board.current_player();
        let ghost v = copy@;
        let rows = copy.config().rows;
        let cols = copy.config().cols;
        let mut score: i32 = 0;
        let mut r: usize = 0;
        while r < rows
            invariant
                copy.wf(),
                v == copy@,
                rows == v.rows(),
                cols == v.cols(),
                rows <= 1000,
                cols <= 1000,
                r <= rows,
                score == cluster_rows(v, r as int, player),
                0 <= score <= 8000 * r,
            decreases rows - r,
        {
            let ghost before = score as int;
            let mut c: usize = 0;
            while c < cols
                invariant
                    copy.wf(),
                    v == copy@,
                    rows == v.rows(),
                    cols == v.cols(),
                    cols <= 1000,
                    r < rows,
                    rows <= 1000,
                    c <= cols,
                    0 <= before <= 8000 * r,
                    score == before + cluster_row(v, r as int, c as int, player),
                    before <= score <= before + 8 * c,
                decreases cols - c,
            {
                if copy.get_cell(r, c) == Some(player) {
                    let n = self.count_neighbors(&copy, r, c, player);
                    score = score + n;
                }
                c += 1;
            }
            r += 1;
        }
        score
    }

    /// The open column with the best greedy score; ties go to the column
    /// nearest `open columns / 2`, then to the leftmost.
    pub fn get_action(&self, board: &Game) -> (r: Option<usize>)
        requires
            board.wf(),
            board@.rows() <= 1000,
            board@.cols() <= 1000,
        ensures
            greedy_post(board@, r),
    {
        let ghost v = board@;
        let moves = board.valid_moves();
        if moves.len() == 0 {
            proof {
                assert forall|c: int| !open_column(v, c) by {
                    if open_column(v, c) {
                        assert(moves@.contains(c as usize));
                    }
                }
            }
            return None;
        }
        let center = moves.len() / 2;
        proof {
            assert(open_column(v, moves@[0] as int));
        }
        let mut best_col = moves[0];
        let mut best_score = self.evaluate_move(board, best_col);
        let mut best_dist = if best_col >= center {
            best_col - center
        } else {
            center - best_col
        };
        let mut i: usize = 1;
        while i < moves.len()
            invariant
                board.wf(),
                v == board@,
                v.rows() <= 1000,
                v.cols() <= 1000,
                v.is_valid_moves(moves@),
                center == moves@.len() / 2,
                1 <= i <= moves@.len(),
                open_column(v, best_col as int),
                best_score == greedy_value(v, best_col as int),
                best_dist == dist(best_col as int, center as int),
                exists|j: int| 0 <= j < i && moves@[j] == best_col,
                forall|j: int|
                    0 <= j < i ==> greedy_prefers(v, best_col as int, #[trigger] moves@[j] as int, center as int),
            decreases moves.len() - i,
        {
            let col = moves[i];
            proof {
                assert(open_column(v, col as int));
            }
            let score = self.evaluate_move(board, col);
            let d = if col >= center {
                col - center
            } else {
                center - col
            };
            let ghost jb = choose|j: int| 0 <= j < i && moves@[j] == best_col;
            proof {
                assert(moves@[jb] < moves@[i as int]);
            }
            if score > best_score || (score == best_score && d < best_dist) {
                proof {
                    assert forall|j: int| 0 <= j < i + 1 implies greedy_prefers(
                        v,
                        col as int,
                        #[trigger] moves@[j] as int,
                        center as int,
                    ) by {
                        if j < i {
                            assert(greedy_prefers(v, best_col as int, moves@[j] as int, center as int));
                            if j > jb {
                                assert(moves@[jb] < moves@[j]);
                            } else if j < jb {
                                assert(moves@[j] < moves@[jb]);
                            }
                        }
                    }
                }
                best_col = col;
                best_score = score;
                best_dist = d;
            }
            i += 1;
        }
        proof {
            assert forall|x: int| open_column(v, x) implies #[trigger] greedy_prefers(
                v,
                best_col as int,
                x,
                (v.open_count(v.cols()) / 2) as int,
            ) by {
                assert(moves@.contains(x as usize));
                let j = choose|j: int| 0 <= j < moves@.len() && moves@[j] == x as usize;
                assert(greedy_prefers(v, best_col as int, moves@[j] as int, center as int));
            }
        }
        Some(best_col)
    }
}

/// The kinds of agent one can choose, with their parameters: a search
/// depth, or an exploration rate (parts per million) and whether to learn.
#[derive(Clone, Copy, Debug, PartialEq, Eq, Structural)]
pub enum Agents {
    Human,
    Random,
    Greedy,
    Minimax(usize),
    RL(usize, bool),
}

/// An agent of any kind, asked for moves through one interface.
pub enum Agent {
    Human(HumanAgent),
    Random(RandomAgent),
    Greedy(GreedyAgent),
    Minimax(MinimaxAgent),
    Learning(RLAgent),
}

pub open spec fn agent_catalogue() -> Seq<Agents> {
    seq![
        Agents::Human,
        Agents::Random,
        Agents::Greedy,
        Agents::Minimax(1),
        Agents::Minimax(3),
        Agents::Minimax(5),
        Agents::Minimax(7),
        Agents::Minimax(9),
        Agents::RL(200_000, false),
        Agents::RL(400_000, true),
    ]
}

/// The display name of a search agent: `Minimax (d)`.
pub open spec fn minimax_name(depth: nat) -> Seq<char> {
    seq!['M', 'i', 'n', 'i', 'm', 'a', 'x', ' ', '('] + decimal(depth) + seq![')']
}

/// The menu label of the kind at index `i` of `agent_catalogue`.
pub open spec fn menu_label(i: int) -> Seq<char> {
    if i == 0 {
        "Human"@
    } else if i == 1 {
        "Random"@
    } else if i == 2 {
        "Greedy"@
    } else if i == 3 {
        "Minimax (1)"@
    } else if i == 4 {
        "Minimax (3)"@
    } else if i == 5 {
        "Minimax (5)"@
    } else if i == 6 {
        "Minimax (7)"@
    } else if i == 7 {
        "Minimax (9)"@
    } else if i == 8 {
        "Q-table RL (Trained) (0.2)"@
    } else {
        "Q-table RL (Learning) (0.4)"@
    }
}

/// The kind a configuration name stands for, if any.
pub open spec fn named_kind(name: Seq<char>) -> Option<Agents> {
    if name == "Human"@ {
        Some(Agents::Human)
    } else if name == "Random"@ {
        Some(Agents::Random)
    } else if name == "Greedy"@ {
        Some(Agents::Greedy)
    } else if name == "Minimax (1)"@ {
        Some(Agents::Minimax(1))
    } else if name == "Minimax (3)"@ {
        Some(Agents::Minimax(3))
    } else if name == "Minimax (5)"@ {
        Some(Agents::Minimax(5))
    } else if name == "Minimax (7)"@ {
        Some(Agents::Minimax(7))
    } else if name == "Minimax (9)"@ {
        Some(Agents::Minimax(9))
    } else if name == "RL (0.2)"@ {
        Some(Agents::RL(200_000, false))
    } else if name == "RL (Learning)"@ {
        Some(Agents::RL(400_000, true))
    } else {
        None
    }
}

impl Agents {
    /// Every kind on offer, in menu order.
    pub fn agent_types() -> (r: Vec<Self>)
        ensures
            r@ == agent_catalogue(),
    {
        let r = vec![
            Agents::Human,
            Agents::Random,
            Agents::Greedy,
            Agents::Minimax(1),
            Agents::Minimax(3),
            Agents::Minimax(5),
            Agents::Minimax(7),
            Agents::Minimax(9),
            Agents::RL(200_000, false),
            Agents::RL(400_000, true),
        ];
        assert(r@ =~= agent_catalogue());
        r
    }

    /// The menu label of each kind of `agent_types`, in the same order.
    pub fn agent_names() -> (r: Vec<String>)
        ensures
            r@.len() == agent_catalogue().len(),
            forall|i: int| 0 <= i < r@.len() ==> #[trigger] r@[i]@ == menu_label(i),
    {
        let labels = [
            "Human",
            "Random",
            "Greedy",
            "Minimax (1)",
            "Minimax (3)",
            "Minimax (5)",
            "Minimax (7)",
            "Minimax (9)",
            "Q-table RL (Trained) (0.2)",
            "Q-table RL (Learning) (0.4)",
        ];
        let mut r: Vec<String> = Vec::new();
        let mut i: usize = 0;
        while i < 10
            invariant
                i <= 10,
                r@.len() == i,
                forall|j: int| 0 <= j < 10 ==> (#[trigger] labels@[j])@ == menu_label(j),
                forall|j: int| 0 <= j < i ==> #[trigger] r@[j]@ == menu_label(j),
            decreases 10 - i,
        {
            r.push(labels[i].to_owned());
            i += 1;
        }
        r
    }

    /// The agent a configuration name stands for. Names: `Human`, `Random`,
    /// `Greedy`, `Minimax (d)` for d in 1, 3, 5, 7, 9, `RL (0.2)` (not
    /// learning), `RL (Learning)` (epsilon 0.4, learning).
    pub fn create_agent(agent_type: &str, agent_color: Player, game_config: GameConfig) -> (r: Agent)
        requires
            named_kind(agent_type@) is Some,
        ensures
            r.wf(),
            Some(r.kind()) == named_kind(agent_type@),
    {
        proof {
            reveal_strlit("Human");
            reveal_strlit("Random");
            reveal_strlit("Greedy");
            reveal_strlit("Minimax (1)");
            reveal_strlit("Minimax (3)");
            reveal_strlit("Minimax (5)");
            reveal_strlit("Minimax (7)");
            reveal_strlit("Minimax (9)");
            reveal_strlit("RL (0.2)");
        }
        let name = agent_type.to_owned();
        let kind = if name == "Human".to_owned() {
            Agents::Human
        } else if name == "Random".to_owned() {
            Agents::Random
        } else if name == "Greedy".to_owned() {
            Agents::Greedy
        } else if name == "Minimax (1)".to_owned() {
            Agents::Minimax(1)
        } else if name == "Minimax (3)".to_owned() {
            Agents::Minimax(3)
        } else if name == "Minimax (5)".to_owned() {
            Agents::Minimax(5)
        } else if name == "Minimax (7)".to_owned() {
            Agents::Minimax(7)
        } else if name == "Minimax (9)".to_owned() {
            Agents::Minimax(9)
        } else if name == "RL (0.2)".to_owned() {
            Agents::RL(200_000, false)
        } else {
            Agents::RL(400_000, true)
        };
        kind.into_agent(agent_color, game_config)
    }

    /// An agent of this kind, playing `agent_color` on a grid of `game_config`.
    pub fn into_agent(self, agent_color: Player, game_config: GameConfig) -> (r: Agent)
        requires
            self matches Agents::RL(eps, _) ==> eps <= EPSILON_SCALE,
        ensures
            r.wf(),
            r.kind() == self,
            r matches Agent::Learning(a) ==> a@.table.len() == 0 && a@.turn == 0 && a@.history.len()
                == 0 && a@.color == agent_color && a@.config == game_config,
    {
        match self {
            Agents::Human => Agent::Human(HumanAgent),
            Agents::Random => Agent::Random(RandomAgent),
            Agents::Greedy => Agent::Greedy(GreedyAgent),
            Agents::Minimax(depth) => Agent::Minimax(MinimaxAgent::new(depth)),
            Agents::RL(epsilon, learning) => Agent::Learning(
                RLAgent::new(epsilon, learning, agent_color, game_config),
            ),
        }
    }
}

/// What asking `before` for a move on `v` returns and leaves behind: a
/// person's agent reads the key; the random agent gives an open column; the
/// greedy, search and learning agents meet their own contracts. Only a
/// learning agent changes, as `rl_pick_post` says.
pub open spec fn picked(before: Agent, v: GameView, key: Option<char>, r: Option<usize>, after: Agent) -> bool {
    match before {
        Agent::Human(_) => r == key_column(key) && after == before,
        Agent::Random(_) => open_pick(v, r) && after == before,
        Agent::Greedy(_) => greedy_post(v, r) && after == before,
        Agent::Minimax(m) => search_post(m.max_depth as nat, v, r) && after == before,
        Agent::Learning(a0) => match after {
            Agent::Learning(a1) => rl_pick_post(a0@, v, r, a1@),
            _ => false,
        },
    }
}

/// What handing a finished game (`status`) to `before`, playing `player`,
/// does: a learning agent learns as `learn_post` says; any other agent is
/// left as it was and reports no change.
pub open spec fn learned(before: Agent, status: GameState, player: Player, after: Agent, r: bool) -> bool {
    match before {
        Agent::Learning(a0) => match after {
            Agent::Learning(a1) => learn_post(a0@, status, player, a1@, r),
            _ => false,
        },
        _ => !r && after == before,
    }
}

impl Agent {
    pub open spec fn wf(&self) -> bool {
        match self {
            Agent::Learning(a) => a.wf(),
            _ => true,
        }
    }

    /// The kind and parameters of this agent.
    pub open spec fn kind(&self) -> Agents {
        match self {
            Agent::Human(_) => Agents::Human,
            Agent::Random(_) => Agents::Random,
            Agent::Greedy(_) => Agents::Greedy,
            Agent::Minimax(m) => Agents::Minimax(m.max_depth),
            Agent::Learning(a) => Agents::RL(a@.epsilon as usize, a@.learning),
        }
    }

    /// The agent can be asked for a move on `v`.
    pub open spec fn ready_for(&self, v: GameView) -> bool {
        match self {
            Agent::Minimax(m) => m.max_depth >= 1 && search_sized(v),
            Agent::Greedy(_) => v.rows() <= 1000 && v.cols() <= 1000,
            Agent::Learning(a) => a.wf() && a@.config == v.config,
            _ => true,
        }
    }

    /// Asks the agent for a column. Only a human agent reads `key`, and may
    /// name a column that cannot take a piece; every other agent names an
    /// open column, or none when every column is full.
    pub fn get_action(&mut self, board: &Game, key: Option<char>) -> (r: Option<usize>)
        requires
            board.wf(),
            old(self).ready_for(board@),
        ensures
            final(self).wf(),
            final(self).ready_for(board@),
            final(self).kind() == old(self).kind(),
            !(*old(self) is Human) ==> open_pick(board@, r),
            picked(*old(self), board@, key, r, *final(self)),
    {
        match self {
            Agent::Human(h) => h.get_action(key),
            Agent::Random(a) => a.get_action(board),
            Agent::Greedy(a) => a.get_action(board),
            Agent::Minimax(m) => m.get_action(board),
            Agent::Learning(a) => a.get_action(board),
        }
    }

    /// Whether the agent waits for a person's input.
    pub fn is_human(&self) -> (r: bool)
        ensures
            r == (*self is Human),
    {
        match self {
            Agent::Human(_) => true,
            _ => false,
        }
    }

    /// The agent's display name.
    pub fn get_type(&self) -> (r: String)
        requires
            self.wf(),
        ensures
            self matches Agent::Human(_) ==> r@ == seq!['H', 'u', 'm', 'a', 'n'],
            self matches Agent::Random(_) ==> r@ == seq!['R', 'a', 'n', 'd', 'o', 'm'],
            self matches Agent::Greedy(_) ==> r@ == seq!['G', 'r', 'e', 'e', 'd', 'y'],
            self matches Agent::Minimax(m) ==> r@ == minimax_name(m.max_depth as nat),
            self matches Agent::Learning(a) ==> r@ == rl_type_name(a@.epsilon, a@.learning),
    {
        match self {
            Agent::Human(_) => {
                let s = "Human".to_owned();
                proof {
                    reveal_strlit("Human");
                    assert(s@ =~= seq!['H', 'u', 'm', 'a', 'n']);
                }
                s
            },
            Agent::Random(_) => {
                let s = "Random".to_owned();
                proof {
                    reveal_strlit("Random");
                    assert(s@ =~= seq!['R', 'a', 'n', 'd', 'o', 'm']);
                }
                s
            },
            Agent::Greedy(_) => {
                let s = "Greedy".to_owned();
                proof {
                    reveal_strlit("Greedy");
                    assert(s@ =~= seq!['G', 'r', 'e', 'e', 'd', 'y']);
                }
                s
            },
            Agent::Minimax(m) => {
                proof {
                    reveal_strlit("Minimax (");
                    reveal_strlit(")");
                }
                let mut s = "Minimax (".to_owned();
                let depth = decimal_string(m.max_depth);
                s.append(depth.as_str());
                s.append(")");
                proof {
                    assert(s@ =~= minimax_name(m.max_depth as nat));
                }
                s
            },
            Agent::Learning(a) => a.get_type(),
        }
    }

    /// Hands a finished game to the agent. Only a learning agent learns from
    /// it; the result says whether its table changed.
    pub fn learn(&mut self, board: &Game, player: Player) -> (r: bool)
        requires
            board.wf(),
            old(self).wf(),
            old(self).ready_for(board@),
        ensures
            final(self).wf(),
            final(self).ready_for(board@),
            final(self).kind() == old(self).kind(),
            learned(*old(self), board@.status, player, *final(self), r),
    {
        match self {
            Agent::Learning(a) => a.learn(board, player),
            _ => false,
        }
    }
}

} // verus!
