//! One game between two agents: whose turn it is, asking that side's agent
//! for a column, applying it, and handing a finished game to the mover.
use vstd::prelude::*;

use crate::agent::{key_column, learned, picked, Agent, Agents};
use crate::minimax_agent::open_column;
use crate::game::{Game, GameConfigPreset, GameState, GameView, Player};
use crate::rl_agent::{load_post, entries_view, TableEntry, EPSILON_SCALE};

verus! {

/// A kind of agent that can be built and play any preset.
pub open spec fn playable(kind: Agents) -> bool {
    match kind {
        Agents::Minimax(d) => d >= 1,
        Agents::RL(eps, _) => eps <= EPSILON_SCALE,
        _ => true,
    }
}

/// What giving `before` a saved table made of it: a learning agent loads
/// it as `load_post` says; any other agent is left as it was and refuses.
pub open spec fn restored(before: Agent, after: Agent, entries: Seq<TableEntry>, r: bool) -> bool {
    match before {
        Agent::Learning(a0) => match after {
            Agent::Learning(a1) => load_post(a0@, entries_view(entries), a1@, r),
            _ => false,
        },
        _ => !r && after == before,
    }
}

/// How one turn ends once the mover picked `pick` on `g` and its agent
/// became `mid`: a pick that can be dropped is dropped, and if that ends the
/// game the mover's agent learns from it (`a2` is the agent afterwards) and
/// `r` names the mover exactly when its table changed; any other pick leaves
/// the game as it was.
pub open spec fn turn_outcome(
    g: GameView,
    mover: Player,
    pick: Option<usize>,
    mid: Agent,
    g2: GameView,
    a2: Agent,
    r: Option<Player>,
) -> bool {
    match pick {
        Some(c) => if g.can_place(c as int) {
            &&& g.placed(c as int, g2)
            &&& if g2.status != GameState::InProgress {
                &&& learned(mid, g2.status, mover, a2, r is Some)
                &&& r is Some ==> r == Some(mover)
            } else {
                a2 == mid && r is None
            }
        } else {
            g2 == g && a2 == mid && r is None
        },
        None => g2 == g && a2 == mid && r is None,
    }
}

/// What one turn does: the side to move is asked for a column (with the
/// key only if a person plays it), the pick is played as `turn_outcome`
/// says, and the other side's agent is not touched.
pub open spec fn step_post(before: App, key: Option<char>, after: App, r: Option<Player>) -> bool {
    &&& after.agent_of(before.game@.current.opponent()) == before.agent_of(before.game@.current.opponent())
    &&& exists|pick: Option<usize>, mid: Agent|
        #[trigger] picked(before.agent_of(before.game@.current), before.game@, before.turn_key(key), pick, mid)
            && turn_outcome(
            before.game@,
            before.game@.current,
            pick,
            mid,
            after.game@,
            after.agent_of(before.game@.current),
            r,
        )
}

/// A game, the two agents playing it, and the menu choices behind them.
pub struct App {
    pub game: Game,
    pub yellow_agent: Agent,
    pub red_agent: Agent,
    pub yellow_agent_type: Agents,
    pub red_agent_type: Agents,
    pub menu_open: bool,
    pub selected_game: GameConfigPreset,
    pub selected_player: Player,
}

impl App {
    pub open spec fn wf(&self) -> bool {
        &&& self.game.wf()
        &&& self.game@.config == self.selected_game.spec_config()
        &&& self.yellow_agent.ready_for(self.game@)
        &&& self.red_agent.ready_for(self.game@)
        &&& self.yellow_agent.wf()
        &&& self.red_agent.wf()
        &&& self.yellow_agent.kind() == self.yellow_agent_type
        &&& self.red_agent.kind() == self.red_agent_type
        &&& playable(self.yellow_agent_type)
        &&& playable(self.red_agent_type)
    }

    /// A standard game: a person plays Yellow, a one-ply search plays Red.
    pub fn new() -> (r: Self)
        ensures
            r.wf(),
            r.game@.fresh(),
            r.yellow_agent_type == Agents::Human,
            r.red_agent_type == Agents::Minimax(1),
    {
        let game = Game::new();
        let config = *game.config();
        let yellow_agent = Agents::Human.into_agent(Player::Yellow, config);
        let red_agent = Agents::Minimax(1).into_agent(Player::Red, config);
        App {
            game,
            yellow_agent,
            red_agent,
            yellow_agent_type: Agents::Human,
            red_agent_type: Agents::Minimax(1),
            menu_open: false,
            selected_game: GameConfigPreset::Standard,
            selected_player: Player::Yellow,
        }
    }

    /// A fresh game of the selected preset, with fresh agents of the chosen kinds.
    pub fn reset(&mut self)
        requires
            old(self).wf(),
        ensures
            final(self).wf(),
            final(self).game@.fresh(),
            final(self).game@.config == old(self).selected_game.spec_config(),
            final(self).yellow_agent_type == old(self).yellow_agent_type,
            final(self).red_agent_type == old(self).red_agent_type,
            final(self).selected_game == old(self).selected_game,
    {
        let config = self.selected_game.into_config();
        self.game = Game::with_config(config);
        self.yellow_agent = self.yellow_agent_type.into_agent(Player::Yellow, config);
        self.red_agent = self.red_agent_type.into_agent(Player::Red, config);
    }

    /// Puts an agent of `agent` kind on `player`'s side.
    pub fn set_agent(&mut self, player: Player, agent: Agents)
        requires
            old(self).wf(),
            playable(agent),
        ensures
            final(self).wf(),
            final(self).game@ == old(self).game@,
            player == Player::Yellow ==> final(self).yellow_agent_type == agent
                && final(self).red_agent_type == old(self).red_agent_type,
            player == Player::Red ==> final(self).red_agent_type == agent
                && final(self).yellow_agent_type == old(self).yellow_agent_type,
    {
        let config = self.selected_game.into_config();
        match player {
            Player::Yellow => {
                self.yellow_agent_type = agent;
                self.yellow_agent = agent.into_agent(Player::Yellow, config);
            },
            Player::Red => {
                self.red_agent_type = agent;
                self.red_agent = agent.into_agent(Player::Red, config);
            },
        }
    }

    /// Gives `player`'s learning agent a saved table; see `RLAgent::load_table`.
    /// Returns false, changing nothing, when that side does not learn.
    pub fn restore_table(&mut self, player: Player, entries: Vec<TableEntry>) -> (r: bool)
        requires
            old(self).wf(),
        ensures
            final(self).wf(),
            final(self).game@ == old(self).game@,
            final(self).yellow_agent_type == old(self).yellow_agent_type,
            final(self).red_agent_type == old(self).red_agent_type,
            player == Player::Yellow ==> restored(old(self).yellow_agent, final(self).yellow_agent, entries@, r),
            player == Player::Red ==> restored(old(self).red_agent, final(self).red_agent, entries@, r),
    {
        let agent = match player {
            Player::Yellow => &mut self.yellow_agent,
            Player::Red => &mut self.red_agent,
        };
        match agent {
            Agent::Learning(a) => a.load_table(entries),
            _ => false,
        }
    }

    /// The agent playing `p`.
    pub open spec fn agent_of(&self, p: Player) -> Agent {
        if p == Player::Yellow {
            self.yellow_agent
        } else {
            self.red_agent
        }
    }

    /// The key as the side to move sees it: only a person's side reads keys.
    pub open spec fn turn_key(&self, key: Option<char>) -> Option<char> {
        if self.current_player_is_human_spec() {
            key
        } else {
            None
        }
    }

    /// The side to move waits for a person.
    pub open spec fn current_player_is_human_spec(&self) -> bool {
        if self.game@.current == Player::Yellow {
            self.yellow_agent is Human
        } else {
            self.red_agent is Human
        }
    }

    pub fn current_player_is_human(&self) -> (r: bool)
        ensures
            r == self.current_player_is_human_spec(),
    {
        match self.game.current_player() {
            Player::Yellow => self.yellow_agent.is_human(),
            Player::Red => self.red_agent.is_human(),
        }
    }

    /// One turn: the side to move picks a column (a person's side from
    /// `key`), the column is dropped, and if that ends the game the mover
    /// learns from it. Returns the side whose table changed, if one did.
    pub fn step(&mut self, key: Option<char>) -> (r: Option<Player>)
        requires
            old(self).wf(),
        ensures
            final(self).wf(),
            final(self).yellow_agent_type == old(self).yellow_agent_type,
            final(self).red_agent_type == old(self).red_agent_type,
            final(self).selected_game == old(self).selected_game,
            step_post(*old(self), key, *final(self), r),
            r matches Some(p) ==> p == old(self).game@.current && final(self).game@.status
                != GameState::InProgress,
            !old(self).current_player_is_human_spec() && old(self).game@.status == GameState::InProgress
                && (exists|c: int| open_column(old(self).game@, c)) ==> exists|c: int|
                old(self).game@.placed(c, #[trigger] final(self).game@),
            forall|c: usize|
                old(self).current_player_is_human_spec() && key_column(key) == Some(c)
                    && old(self).game@.can_place(c as int) ==> #[trigger] old(self).game@.placed(
                    c as int,
                    final(self).game@,
                ),
    {
        let ghost before = *self;
        let human = self.current_player_is_human();
        let event = if human {
            key
        } else {
            None
        };
        let mover = self.game.current_player();
        let ghost g0 = self.game@;
        let ghost other = self.agent_of(mover.opponent());
        let action = match mover {
            Player::Yellow => self.yellow_agent.get_action(&self.game, event),
            Player::Red => self.red_agent.get_action(&self.game, event),
        };
        let ghost mid = self.agent_of(mover);
        let ghost ev = before.turn_key(key);
        proof {
            assert(picked(before.agent_of(before.game@.current), before.game@, ev, action, mid));
            assert(self.agent_of(mover.opponent()) == other);
        }
        match action {
            Some(column) => {
                let state = self.game.place(column);
                proof {
                    if state is Some {
                        assert(g0.placed(column as int, self.game@));
                    }
                }
                match state {
                    Some(s) => {
                        if s != GameState::InProgress {
                            let changed = match mover {
                                Player::Yellow => self.yellow_agent.learn(&self.game, Player::Yellow),
                                Player::Red => self.red_agent.learn(&self.game, Player::Red),
                            };
                            proof {
                                assert(learned(mid, self.game@.status, mover, self.agent_of(mover), changed));
                                assert(self.agent_of(mover.opponent()) == other);
                            }
                            if changed {
                                proof {
                                    assert(turn_outcome(g0, mover, action, mid, self.game@, self.agent_of(mover), Some(mover)));
                                }
                                return Some(mover);
                            }
                            proof {
                                assert(turn_outcome(g0, mover, action, mid, self.game@, self.agent_of(mover), None));
                            }
                        } else {
                            proof {
                                assert(turn_outcome(g0, mover, action, mid, self.game@, self.agent_of(mover), None));
                            }
                        }
                        None
                    },
                    None => {
                        proof {
                            assert(turn_outcome(g0, mover, action, mid, self.game@, self.agent_of(mover), None));
                        }
                        None
                    },
                }
            },
            None => {
                proof {
                    assert(turn_outcome(g0, mover, action, mid, self.game@, self.agent_of(mover), None));
                }
                None
            },
        }
    }
}

} // verus!
