use connect4::game::{Game, GameConfig, GameState, Player};
use connect4::rl_agent::{decimal_string, move_credit, outcome_reward, RLAgent, TableEntry};

fn play(g: &mut Game, cols: &[usize]) {
    for &c in cols {
        assert!(g.place(c).is_some(), "drop into column {} failed", c);
    }
}

fn agent(learning: bool, color: Player) -> RLAgent {
    RLAgent::new(0, learning, color, GameConfig::default())
}

#[test]
fn fingerprint_is_relative_to_the_agent() {
    let mut g = Game::new();
    assert_eq!(agent(true, Player::Yellow).board_to_state(&g), "0000000");
    play(&mut g, &[3, 3, 0]);
    assert_eq!(agent(true, Player::Yellow).board_to_state(&g), "1m002mo000");
    assert_eq!(agent(true, Player::Red).board_to_state(&g), "1o002om000");
}

#[test]
fn decimal_digits() {
    assert_eq!(decimal_string(0), "0");
    assert_eq!(decimal_string(7), "7");
    assert_eq!(decimal_string(10), "10");
    assert_eq!(decimal_string(1234), "1234");
}

#[test]
fn empty_table_opens_in_the_centre() {
    let g = Game::new();
    let mut a = agent(false, Player::Yellow);
    assert_eq!(a.get_action(&g), Some(3));
    assert!(a.export_table().is_empty());
}

#[test]
fn learning_agent_takes_an_immediate_win() {
    let mut g = Game::new();
    play(&mut g, &[1, 0, 6, 0, 6, 0, 2]);
    // Red to move with three stacked in column 0.
    let mut a = RLAgent::new(1_000_000, true, Player::Red, GameConfig::default());
    assert_eq!(a.get_action(&g), Some(0));
}

#[test]
fn rewards_and_credits() {
    assert_eq!(outcome_reward(GameState::Won(Player::Red), Player::Red, 1), 5_010_000);
    assert_eq!(outcome_reward(GameState::Won(Player::Red), Player::Yellow, 10), -9_800_000);
    assert_eq!(outcome_reward(GameState::Draw, Player::Yellow, 5), 1_100_000);
    assert_eq!(move_credit(3_000_000, 0, 3), 1_000_000);
    assert_eq!(move_credit(3_000_000, 2, 3), 3_000_000);
    assert_eq!(move_credit(-9_000_000, 0, 3), -3_000_000);
    // After a loss no move is credited above the floor.
    assert_eq!(move_credit(-600_000, 0, 3), -500_000);
    assert_eq!(move_credit(-600_000, 2, 3), -600_000);
}

#[test]
fn a_won_game_raises_the_winning_move() {
    let mut g = Game::new();
    play(&mut g, &[0, 6, 0, 6, 0, 5]);
    let mut a = agent(true, Player::Yellow);
    let key = a.board_to_state(&g);
    let c = a.get_action(&g).unwrap();
    assert_eq!(c, 0);
    assert_eq!(g.place(c), Some(GameState::Won(Player::Yellow)));
    assert!(a.learn(&g, Player::Yellow));
    let table = a.export_table();
    assert_eq!(table.len(), 1);
    assert_eq!(table[0].0, key);
    // 5.01 reward, moved 15% of the way from zero.
    assert_eq!(table[0].1, vec![751_500, 0, 0, 0, 0, 0, 0]);
}

#[test]
fn learning_twice_changes_nothing_more() {
    let mut g = Game::new();
    play(&mut g, &[0, 6, 0, 6, 0, 5]);
    let mut a = agent(true, Player::Yellow);
    let c = a.get_action(&g).unwrap();
    g.place(c);
    assert!(a.learn(&g, Player::Yellow));
    let first = a.export_table();
    assert!(!a.learn(&g, Player::Yellow));
    assert_eq!(a.export_table(), first);
}

#[test]
fn a_lost_game_penalises_every_recorded_move() {
    let mut g = Game::new();
    let mut a = agent(true, Player::Red);
    // Yellow stacks column 3; Red, the agent, answers each time.
    let mut keys = Vec::new();
    for _ in 0..3 {
        assert!(g.place(3).is_some());
        keys.push(a.board_to_state(&g));
        let c = a.get_action(&g).unwrap();
        assert!(g.place(c).is_some());
    }
    if *g.state() == GameState::InProgress {
        g.place(3);
    }
    if *g.state() == GameState::Won(Player::Yellow) {
        assert!(a.learn(&g, Player::Red));
        let table = a.export_table();
        assert_eq!(table.len(), 3);
        for (_, values) in table {
            assert!(values.iter().any(|&v| v < 0));
        }
    }
}

#[test]
fn not_learning_records_nothing() {
    let mut g = Game::new();
    play(&mut g, &[0, 6, 0, 6, 0, 5]);
    let mut a = agent(false, Player::Yellow);
    let c = a.get_action(&g).unwrap();
    g.place(c);
    assert!(!a.learn(&g, Player::Yellow));
    assert!(a.export_table().is_empty());
}

#[test]
fn learning_waits_for_the_game_to_end() {
    let g = Game::new();
    let mut a = agent(true, Player::Yellow);
    a.get_action(&g);
    assert!(!a.learn(&g, Player::Yellow));
}

#[test]
fn loading_then_exporting_round_trips() {
    let entries: Vec<TableEntry> = vec![
        ("0000000".to_string(), vec![0, 1, -2, 3, 0, 0, 5]),
        ("0001m000".to_string(), vec![751_500]),
    ];
    let mut a = agent(true, Player::Yellow);
    assert!(a.load_table(entries.clone()));
    assert_eq!(a.export_table(), entries);
}

#[test]
fn loaded_values_steer_the_choice() {
    let g = Game::new();
    let mut a = agent(false, Player::Yellow);
    assert!(a.load_table(vec![("0000000".to_string(), vec![0, 0, 0, 0, 0, 2_000_000, 0])]));
    assert_eq!(a.get_action(&g), Some(5));
    // Values within the tie margin go to the column nearer the centre.
    assert!(a.load_table(vec![("0000000".to_string(), vec![0, 0, 0, 0, 0, 500, 0])]));
    assert_eq!(a.get_action(&g), Some(3));
}

#[test]
fn invalid_tables_are_refused() {
    let mut a = agent(true, Player::Yellow);
    let dup: Vec<TableEntry> = vec![("1m".to_string(), vec![1]), ("1m".to_string(), vec![2])];
    assert!(!a.load_table(dup));
    assert!(a.export_table().is_empty());
    let huge: Vec<TableEntry> = vec![("1m".to_string(), vec![i64::MAX])];
    assert!(!a.load_table(huge));
    assert!(a.export_table().is_empty());
}

#[test]
fn learning_agent_names() {
    assert_eq!(RLAgent::new(200_000, false, Player::Red, GameConfig::default()).get_type(), "RL (ε=0.2)");
    assert_eq!(RLAgent::new(400_000, true, Player::Red, GameConfig::default()).get_type(), "RL (ε=0.4, Learning)");
    assert_eq!(RLAgent::new(1_000_000, true, Player::Red, GameConfig::default()).get_type(), "RL (ε=1.0, Learning)");
}

#[test]
fn drawn_exploration_takes_the_indexed_open_column() {
    let mut g = Game::new();
    play(&mut g, &[1, 1, 1, 1, 1, 1]);
    // Column 1 is full; the open columns are 0, 2, 3, 4, 5, 6.
    let a = RLAgent::new(500_000, false, Player::Yellow, GameConfig::default());
    assert_eq!(a.select_with(&g, 499_999, 0), Some(0));
    assert_eq!(a.select_with(&g, 0, 1), Some(2));
    assert_eq!(a.select_with(&g, 10, 5), Some(6));
    // A draw at or above epsilon follows the table (empty: the centre).
    assert_eq!(a.select_with(&g, 500_000, 5), Some(3));
}

#[test]
fn drawn_selection_still_takes_a_win_first() {
    let mut g = Game::new();
    play(&mut g, &[0, 6, 0, 6, 0, 6]);
    let a = RLAgent::new(1_000_000, false, Player::Yellow, GameConfig::default());
    assert_eq!(a.select_with(&g, 0, 4), Some(0));
}

#[test]
fn drawn_selection_follows_the_table() {
    let g = Game::new();
    let mut a = agent(false, Player::Yellow);
    assert!(a.load_table(vec![("0000000".to_string(), vec![0, 900_000, 0, 0, 0, 0, 0])]));
    assert_eq!(a.select_with(&g, 0, 6), Some(1));
}

#[test]
fn every_selection_counts_a_turn() {
    let mut g = Game::new();
    let mut a = agent(true, Player::Yellow);
    assert_eq!(a.turn(), 0);
    a.get_action(&g);
    g.place(3);
    g.place(3);
    a.get_action(&g);
    assert_eq!(a.turn(), 2);
    let mut b = agent(false, Player::Yellow);
    for _ in 0..5 {
        b.get_action(&g);
    }
    assert_eq!(b.turn(), 5);
}

#[test]
fn learning_resets_the_turn_count() {
    let mut g = Game::new();
    play(&mut g, &[0, 6, 0, 6, 0, 5]);
    let mut a = agent(true, Player::Yellow);
    let c = a.get_action(&g).unwrap();
    g.place(c);
    assert_eq!(a.turn(), 1);
    assert!(a.learn(&g, Player::Yellow));
    assert_eq!(a.turn(), 0);
}
