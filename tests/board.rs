use connect4::game::{Game, GameConfig, GameConfigPreset, GameState, GridWidget, Player};

fn cells(g: &Game) -> Vec<Option<Player>> {
    let mut out = Vec::new();
    for r in 0..g.config().rows {
        for c in 0..g.config().cols {
            out.push(g.get_cell(r, c));
        }
    }
    out
}

fn play(g: &mut Game, cols: &[usize]) -> Option<GameState> {
    let mut last = None;
    for &c in cols {
        last = g.place(c);
        assert!(last.is_some(), "drop into column {} failed", c);
    }
    last
}

#[test]
fn standard_vertical_win_in_column_three() {
    let mut g = Game::new();
    // Yellow plays 3 four times, Red answers in column 0.
    let state = play(&mut g, &[3, 0, 3, 0, 3, 0, 3]);
    assert_eq!(state, Some(GameState::Won(Player::Yellow)));
    assert_eq!(*g.state(), GameState::Won(Player::Yellow));
    assert_eq!(g.current_player(), Player::Yellow);
    assert_eq!(
        g.get_winning_combination(),
        Some(vec![(2, 3), (3, 3), (4, 3), (5, 3)])
    );
}

#[test]
fn small_board_fills_to_a_draw() {
    let mut g = Game::with_config(GameConfigPreset::Small.into_config());
    let moves = [0, 0, 0, 0, 1, 1, 1, 2, 1, 3, 2, 2, 3, 3, 3, 2];
    for (i, &c) in moves.iter().enumerate() {
        let s = g.place(c);
        if i + 1 < moves.len() {
            assert_eq!(s, Some(GameState::InProgress));
        } else {
            assert_eq!(s, Some(GameState::Draw));
        }
    }
    assert_eq!(*g.state(), GameState::Draw);
    assert_eq!(g.get_winning_combination(), None);
    assert!(g.valid_moves().is_empty());
}

#[test]
fn full_column_is_rejected_without_change() {
    for preset in 0..GameConfigPreset::amount_of_presets() {
        let config = GameConfigPreset::from_index(preset).into_config();
        let mut g = Game::with_config(config);
        // Alternate between columns 0 and 1 so nobody wins in column 0.
        let mut filled = 0;
        while !g.is_column_full(0) {
            let col = if filled % 4 < 2 { 0 } else { 1 };
            let s = g.place(col);
            assert_eq!(s, Some(GameState::InProgress));
            filled += 1;
        }
        let before = cells(&g);
        let snapshot = g.clone();
        let turn = g.current_player();
        assert_eq!(g.place(0), None);
        assert_eq!(cells(&g), before);
        assert_eq!(g, snapshot);
        assert_eq!(g.current_player(), turn);
        assert_eq!(*g.state(), GameState::InProgress);
    }
}

#[test]
fn out_of_range_and_finished_games_reject_drops() {
    let mut g = Game::new();
    assert_eq!(g.place(7), None);
    assert_eq!(g.place(usize::MAX), None);
    play(&mut g, &[3, 0, 3, 0, 3, 0, 3]);
    let before = cells(&g);
    assert_eq!(g.place(4), None);
    assert_eq!(cells(&g), before);
}

#[test]
fn placement_changes_one_cell_and_passes_the_turn() {
    let mut g = Game::new();
    assert_eq!(g.current_player(), Player::Yellow);
    let before = cells(&g);
    assert_eq!(g.place(2), Some(GameState::InProgress));
    let after = cells(&g);
    let changed: Vec<usize> = (0..before.len()).filter(|&i| before[i] != after[i]).collect();
    assert_eq!(changed, vec![5 * 7 + 2]);
    assert_eq!(g.get_cell(5, 2), Some(Player::Yellow));
    assert_eq!(g.current_player(), Player::Red);
    assert_eq!(g.place(2), Some(GameState::InProgress));
    assert_eq!(g.get_cell(4, 2), Some(Player::Red));
    assert_eq!(g.current_player(), Player::Yellow);
}

#[test]
fn horizontal_win_reports_leftmost_run() {
    let mut g = Game::new();
    let state = play(&mut g, &[1, 1, 2, 2, 3, 3, 4]);
    assert_eq!(state, Some(GameState::Won(Player::Yellow)));
    assert_eq!(
        g.get_winning_combination(),
        Some(vec![(5, 1), (5, 2), (5, 3), (5, 4)])
    );
}

#[test]
fn diagonal_win_is_detected() {
    let mut g = Game::new();
    // Yellow builds (5,0) (4,1) (3,2) (2,3).
    let state = play(&mut g, &[0, 1, 1, 2, 2, 3, 2, 3, 3, 6, 3]);
    assert_eq!(state, Some(GameState::Won(Player::Yellow)));
    let combo = g.get_winning_combination().unwrap();
    assert_eq!(combo, vec![(5, 0), (4, 1), (3, 2), (2, 3)]);
    for (r, c) in combo {
        assert_eq!(g.get_cell(r, c), Some(Player::Yellow));
    }
}

#[test]
fn connect_length_follows_the_config() {
    let mut g = Game::with_config(GameConfig { rows: 4, cols: 4, connect_length: 3 });
    let state = play(&mut g, &[0, 3, 0, 3, 0]);
    assert_eq!(state, Some(GameState::Won(Player::Yellow)));
    assert_eq!(g.get_winning_combination().unwrap().len(), 3);
}

#[test]
fn no_winning_combination_while_in_progress() {
    let mut g = Game::new();
    assert_eq!(g.get_winning_combination(), None);
    play(&mut g, &[3, 3, 4]);
    assert_eq!(g.get_winning_combination(), None);
}

#[test]
fn valid_moves_skip_full_columns() {
    let mut g = Game::with_config(GameConfig { rows: 2, cols: 3, connect_length: 3 });
    assert_eq!(g.valid_moves(), vec![0, 1, 2]);
    play(&mut g, &[1, 1]);
    assert!(g.is_column_full(1));
    assert_eq!(g.valid_moves(), vec![0, 2]);
}

#[test]
fn cells_off_the_grid_read_empty() {
    let g = Game::new();
    assert_eq!(g.get_cell(6, 0), None);
    assert_eq!(g.get_cell(0, 7), None);
    assert_eq!(g.get_cell(5, 6), None);
}

#[test]
fn presets_and_defaults() {
    assert_eq!(GameConfigPreset::amount_of_presets(), 4);
    assert_eq!(GameConfigPreset::from_index(0), GameConfigPreset::Standard);
    assert_eq!(GameConfigPreset::from_index(1), GameConfigPreset::Small);
    assert_eq!(GameConfigPreset::from_index(2), GameConfigPreset::Large);
    assert_eq!(GameConfigPreset::from_index(3), GameConfigPreset::Huge);
    assert_eq!(GameConfigPreset::from_index(9), GameConfigPreset::Standard);
    assert_eq!(
        GameConfigPreset::Large.into_config(),
        GameConfig { rows: 8, cols: 8, connect_length: 5 }
    );
    assert_eq!(
        GameConfigPreset::Huge.into_config(),
        GameConfig { rows: 10, cols: 10, connect_length: 6 }
    );
    assert_eq!(GameConfig::default(), GameConfig { rows: 6, cols: 7, connect_length: 4 });
    assert_eq!(GameConfigPreset::default(), GameConfigPreset::Standard);
    assert_eq!(Player::default(), Player::Red);
    assert_eq!(Player::Red.to_string(), "Red");
    assert_eq!(Player::Yellow.to_string(), "Yellow");
    assert_eq!(Player::Yellow.other(), Player::Red);
    assert_eq!(*Game::new().config(), GameConfig::default());
}

#[test]
fn empty_grid_has_no_moves() {
    let mut g = Game::with_config(GameConfig { rows: 0, cols: 3, connect_length: 2 });
    assert!(g.valid_moves().is_empty());
    assert_eq!(g.place(0), None);
}

#[test]
fn wins_by_dropping_checks_either_side() {
    let mut g = Game::new();
    play(&mut g, &[0, 6, 0, 6, 0, 6]);
    // Yellow to move; both sides threaten to complete a column.
    assert!(g.wins_by_dropping(0, Player::Yellow));
    assert!(g.wins_by_dropping(6, Player::Red));
    assert!(!g.wins_by_dropping(3, Player::Yellow));
}

#[test]
fn grid_widget_marks_winning_cells() {
    let mut g = Game::new();
    play(&mut g, &[3, 0, 3, 0, 3, 0, 3]);
    let winning = g.get_winning_combination();
    let w = GridWidget { game: &g };
    assert_eq!(w.cell_view(&winning, 5, 3), (Some(Player::Yellow), true));
    assert_eq!(w.cell_view(&winning, 5, 0), (Some(Player::Red), false));
    assert_eq!(w.cell_view(&winning, 0, 0), (None, false));
}
