use connect4::agent::{Agent, Agents, GreedyAgent, HumanAgent, RandomAgent};
use connect4::game::{Game, GameConfig, GameState, Player};
use connect4::minimax_agent::MinimaxAgent;
use connect4::speed::RunSpeed;

fn play(g: &mut Game, cols: &[usize]) {
    for &c in cols {
        assert!(g.place(c).is_some(), "drop into column {} failed", c);
    }
}

#[test]
fn minimax_takes_an_immediate_win() {
    let mut g = Game::new();
    play(&mut g, &[0, 6, 0, 6, 0, 5]);
    for depth in [1, 3, 5] {
        assert_eq!(MinimaxAgent::new(depth).get_action(&g), Some(0));
    }
}

#[test]
fn minimax_prefers_its_own_win_over_a_block() {
    let mut g = Game::new();
    // Both sides have three stacked; Yellow is to move and should win in 0.
    play(&mut g, &[0, 6, 0, 6, 0, 6]);
    assert_eq!(MinimaxAgent::new(3).get_action(&g), Some(0));
}

#[test]
fn minimax_blocks_the_opponent() {
    let mut g = Game::new();
    play(&mut g, &[0, 6, 1, 6, 0, 6]);
    // Yellow to move, Red threatens column 6.
    assert_eq!(MinimaxAgent::new(1).get_action(&g), Some(6));
}

#[test]
fn minimax_plays_the_only_open_column() {
    let mut g = Game::with_config(GameConfig { rows: 2, cols: 2, connect_length: 3 });
    play(&mut g, &[0, 0]);
    assert_eq!(MinimaxAgent::new(1).get_action(&g), Some(1));
}

#[test]
fn minimax_never_picks_a_full_column() {
    let mut g = Game::with_config(GameConfig { rows: 3, cols: 4, connect_length: 4 });
    play(&mut g, &[1, 1, 1]);
    for depth in [1, 2, 3, 4] {
        let c = MinimaxAgent::new(depth).get_action(&g).unwrap();
        assert!(c < 4 && c != 1);
    }
    let mut full = Game::with_config(GameConfig { rows: 1, cols: 2, connect_length: 3 });
    play(&mut full, &[0, 1]);
    assert_eq!(*full.state(), GameState::Draw);
    assert_eq!(MinimaxAgent::new(3).get_action(&full), None);
}

#[test]
fn one_ply_search_on_an_empty_board_plays_the_edge() {
    // One ply deep the position is scored for the side to move next (the
    // opponent), which likes the dropped piece furthest from the centre.
    assert_eq!(MinimaxAgent::new(1).get_action(&Game::new()), Some(0));
}

#[test]
fn greedy_opens_in_the_centre() {
    let g = Game::new();
    assert_eq!(GreedyAgent.get_action(&g), Some(3));
}

#[test]
fn greedy_builds_next_to_its_pieces() {
    let mut g = Game::new();
    play(&mut g, &[0, 6]);
    // Yellow at (5,0); dropping in 0 or 1 makes a pair, 1 is nearer the centre.
    assert_eq!(GreedyAgent.get_action(&g), Some(1));
}

#[test]
fn greedy_on_a_full_board_has_no_move() {
    let mut g = Game::with_config(GameConfig { rows: 1, cols: 2, connect_length: 3 });
    play(&mut g, &[0, 1]);
    assert_eq!(GreedyAgent.get_action(&g), None);
}

#[test]
fn random_agent_plays_an_open_column() {
    let mut g = Game::with_config(GameConfig { rows: 1, cols: 5, connect_length: 5 });
    play(&mut g, &[0, 2, 4]);
    for _ in 0..50 {
        let c = RandomAgent.get_action(&g).unwrap();
        assert!(c == 1 || c == 3);
    }
}

#[test]
fn human_keys_name_columns() {
    assert_eq!(HumanAgent.get_action(Some('1')), Some(0));
    assert_eq!(HumanAgent.get_action(Some('7')), Some(6));
    assert_eq!(HumanAgent.get_action(Some('8')), None);
    assert_eq!(HumanAgent.get_action(Some('q')), None);
    assert_eq!(HumanAgent.get_action(None), None);
}

#[test]
fn agent_catalogue_and_names() {
    let kinds = Agents::agent_types();
    assert_eq!(kinds.len(), 10);
    assert_eq!(kinds[3], Agents::Minimax(1));
    assert_eq!(kinds[8], Agents::RL(200_000, false));
    assert_eq!(kinds[9], Agents::RL(400_000, true));
    let names = Agents::agent_names();
    assert_eq!(names[0], "Human");
    assert_eq!(names[7], "Minimax (9)");
    assert_eq!(names[9], "Q-table RL (Learning) (0.4)");
}

#[test]
fn agents_report_their_names() {
    let config = GameConfig::default();
    assert_eq!(Agents::Human.into_agent(Player::Yellow, config).get_type(), "Human");
    assert_eq!(Agents::Random.into_agent(Player::Yellow, config).get_type(), "Random");
    assert_eq!(Agents::Greedy.into_agent(Player::Yellow, config).get_type(), "Greedy");
    assert_eq!(Agents::Minimax(7).into_agent(Player::Red, config).get_type(), "Minimax (7)");
    assert_eq!(Agents::RL(200_000, false).into_agent(Player::Red, config).get_type(), "RL (ε=0.2)");
    assert_eq!(
        Agents::RL(400_000, true).into_agent(Player::Red, config).get_type(),
        "RL (ε=0.4, Learning)"
    );
    assert!(Agents::Human.into_agent(Player::Red, config).is_human());
    assert!(!Agents::Minimax(1).into_agent(Player::Red, config).is_human());
}

#[test]
fn create_agent_by_name() {
    let config = GameConfig::default();
    assert!(matches!(Agents::create_agent("Human", Player::Yellow, config), Agent::Human(_)));
    match Agents::create_agent("Minimax (5)", Player::Red, config) {
        Agent::Minimax(m) => assert_eq!(m.max_depth, 5),
        _ => panic!("expected a search agent"),
    }
    match Agents::create_agent("RL (Learning)", Player::Red, config) {
        Agent::Learning(a) => {
            assert!(a.is_learning());
            assert_eq!(a.epsilon(), 400_000);
        }
        _ => panic!("expected a learning agent"),
    }
}

#[test]
fn facade_dispatches_to_the_agent() {
    let g = Game::new();
    let config = *g.config();
    let mut human = Agents::Human.into_agent(Player::Yellow, config);
    assert_eq!(human.get_action(&g, Some('4')), Some(3));
    let mut greedy = Agents::Greedy.into_agent(Player::Yellow, config);
    assert_eq!(greedy.get_action(&g, Some('1')), Some(3));
    assert!(!greedy.learn(&g, Player::Yellow));
}

#[test]
fn run_speeds() {
    assert_eq!(RunSpeed::Slow.time(), 1000);
    assert_eq!(RunSpeed::Fast.time(), 250);
    assert_eq!(RunSpeed::Instant.time(), 0);
    assert_eq!(RunSpeed::Manual.time(), u64::MAX);
    assert_eq!(RunSpeed::Instant.to_string(), "Instant");
}
