use inhouse::board::board_text;
use inhouse::game::{Division, Game, Player, State, Tier};
use inhouse::lobby::{apply_lobby_action, lobby_action, LobbyAction};

fn player(id: u64, score: i32, name: &str) -> Player {
    let mut p = Player::new(id, id, name.to_string(), Tier::Platinum(Division::IV));
    p.score = score;
    p
}

#[test]
fn button_ids_name_actions_of_their_game() {
    assert_eq!(lobby_action(42, "42.join_game"), Some(LobbyAction::JoinGame));
    assert_eq!(lobby_action(42, "42.leave_game"), Some(LobbyAction::LeaveGame));
    assert_eq!(lobby_action(42, "42.kick"), Some(LobbyAction::Kick));
    assert_eq!(lobby_action(42, "42.test"), Some(LobbyAction::FillWithDummies));
    assert_eq!(lobby_action(42, "42.red_win"), Some(LobbyAction::RedWin));
    assert_eq!(lobby_action(42, "42.blue_win"), Some(LobbyAction::BlueWin));
    assert_eq!(lobby_action(42, "42.team_shuffle"), Some(LobbyAction::TeamShuffle));
    assert_eq!(lobby_action(42, "43.red_win"), None);
    assert_eq!(lobby_action(42, "421.red_win"), None);
    assert_eq!(lobby_action(42, "42red_win"), None);
    assert_eq!(lobby_action(42, "42."), None);
    assert_eq!(lobby_action(42, "4"), None);
    assert_eq!(lobby_action(7, "7.unknown"), None);
}

#[test]
fn actions_change_the_game() {
    let mut game = Game::new(3, player(1, 1000, "a"));
    apply_lobby_action(&mut game, LobbyAction::JoinGame);
    assert_eq!(game.players.len(), 1);
    apply_lobby_action(&mut game, LobbyAction::FillWithDummies);
    assert!(game.players.len() <= 10 && game.players.len() >= 2);
    apply_lobby_action(&mut game, LobbyAction::RedWin);
    assert_eq!(game.state, State::result(false));
    apply_lobby_action(&mut game, LobbyAction::BlueWin);
    assert_eq!(game.state, State::result(true));
}

#[test]
fn filling_makes_the_lobby_ready() {
    let mut game = Game::new(3, player(1, 1000, "a"));
    apply_lobby_action(&mut game, LobbyAction::FillWithDummies);
    // nine stand-ins with random ids: all join unless two ids happen to meet
    if game.players.len() == 10 {
        assert_eq!(game.state, State::ready);
        apply_lobby_action(&mut game, LobbyAction::TeamShuffle);
        assert_eq!(game.blue_players().len() + game.red_players().len(), 10);
    }
}

#[test]
fn board_lists_highest_score_first() {
    let players = vec![player(1, 1200, "a"), player(2, 1500, "b"), player(3, 1200, "c"), player(4, -20, "d")];
    assert_eq!(board_text(&players), "b(1500)\na(1200)\nc(1200)\nd(-20)");
    assert_eq!(board_text(&vec![]), "");
    assert_eq!(board_text(&vec![player(9, 0, "z")]), "z(0)");
}


use inhouse::message::{lobby_message, ButtonLook};

fn ids(m: &inhouse::message::LobbyMessage) -> Vec<Vec<String>> {
    m.button_rows.iter().map(|row| row.iter().map(|b| b.id.clone()).collect()).collect()
}

#[test]
fn lobby_message_while_filling() {
    let mut game = Game::new(12, player(1, 1000, "a"));
    game.add_player(player(2, 1000, "b"));
    let m = lobby_message(&game);
    assert_eq!(m.title, "방 #12");
    assert_eq!(m.description.as_deref(), Some("인원: 2 / 10\n참여자: [a, b]"));
    assert!(m.team_names.is_none());
    assert_eq!(m.red_colour, None);
    assert_eq!(ids(&m), vec![vec!["12.join_game".to_string(), "12.leave_game".to_string(), "12.test".to_string()]]);
    assert_eq!(m.button_rows[0][2].label, "더미 테스트용");
    assert_eq!(m.kick_menu_id.as_deref(), Some("12.kick"));
    for row in &m.button_rows {
        for b in row {
            assert!(lobby_action(12, &b.id).is_some());
        }
    }
}

#[test]
fn lobby_message_when_full_and_decided() {
    let mut game = Game::new(5, player(1, 1000, "p1"));
    for id in 2..=10u64 {
        game.add_player(player(id, 1000, &format!("p{}", id)));
    }
    let m = lobby_message(&game);
    assert!(m.description.is_none());
    let (red, blue) = m.team_names.clone().unwrap();
    assert_eq!(red, "p6\np7\np8\np9\np10");
    assert_eq!(blue, "p1\np2\np3\np4\np5");
    assert_eq!(ids(&m)[0], vec!["5.red_win".to_string(), "5.blue_win".to_string(), "5.team_shuffle".to_string()]);
    assert!(m.button_rows[1][0].disabled);
    assert_eq!(m.button_rows[0][0].look, ButtonLook::Danger);

    game.blue_win();
    let m = lobby_message(&game);
    assert!(m.button_rows.is_empty());
    assert!(m.kick_menu_id.is_none());
    assert_eq!(m.description.as_deref(), Some("레드팀 승리!"));
    assert_eq!(m.red_colour, Some(true));
    game.red_win();
    assert_eq!(lobby_message(&game).description.as_deref(), Some("블루팀 승리!"));
}
