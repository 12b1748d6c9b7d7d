use connect4::agent::{Agent, Agents};
use connect4::controller::App;
use connect4::game::{GameConfigPreset, GameState, Player};

#[test]
fn a_person_and_a_search_take_turns() {
    let mut app = App::new();
    assert!(app.current_player_is_human());
    assert_eq!(app.step(Some('4')), None);
    assert_eq!(app.game.get_cell(5, 3), Some(Player::Yellow));
    assert_eq!(app.game.current_player(), Player::Red);
    assert!(!app.current_player_is_human());
    assert_eq!(app.step(Some('1')), None);
    assert_eq!(app.game.current_player(), Player::Yellow);
}

#[test]
fn keys_that_name_no_open_column_do_nothing() {
    let mut app = App::new();
    app.step(Some('9'));
    assert_eq!(app.game.current_player(), Player::Yellow);
    app.step(None);
    assert_eq!(app.game.current_player(), Player::Yellow);
}

#[test]
fn two_machines_finish_a_game() {
    let mut app = App::new();
    app.set_agent(Player::Yellow, Agents::Greedy);
    app.set_agent(Player::Red, Agents::Minimax(3));
    app.selected_game = GameConfigPreset::Small;
    app.reset();
    assert_eq!(app.game.config().rows, 4);
    for _ in 0..16 {
        if *app.game.state() != GameState::InProgress {
            break;
        }
        app.step(None);
    }
    assert_ne!(*app.game.state(), GameState::InProgress);
}

#[test]
fn a_learning_side_reports_its_update() {
    let mut app = App::new();
    app.set_agent(Player::Yellow, Agents::RL(0, true));
    app.set_agent(Player::Red, Agents::Random);
    let mut updated = None;
    for _ in 0..42 {
        if *app.game.state() != GameState::InProgress {
            break;
        }
        if let Some(p) = app.step(None) {
            updated = Some(p);
        }
    }
    match *app.game.state() {
        GameState::Won(Player::Yellow) | GameState::Draw => assert_eq!(updated, Some(Player::Yellow)),
        _ => assert_eq!(updated, None),
    }
}

#[test]
fn a_step_leaves_the_other_side_alone() {
    let mut app = App::new();
    app.set_agent(Player::Yellow, Agents::RL(0, true));
    app.set_agent(Player::Red, Agents::RL(0, true));
    app.step(None);
    match (&app.yellow_agent, &app.red_agent) {
        (Agent::Learning(y), Agent::Learning(r)) => {
            assert_eq!(y.turn(), 1);
            assert_eq!(r.turn(), 0);
        }
        _ => panic!("expected learning agents"),
    }
    // The empty table picks the centre column.
    assert_eq!(app.game.get_cell(5, 3), Some(Player::Yellow));
}
