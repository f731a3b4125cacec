use inhouse::game::{Division, Game, Player, Tier};
use inhouse::legacy::{migrate_player, player_ids, PlayerLegacy, PlayerV0};

fn player(id: u64, score: i32) -> Player {
    let mut p = Player::new(id, id, format!("p{}", id), Tier::Bronze(Division::I));
    p.score = score;
    p.score_deviation = 100 + id as i32;
    p
}

fn full_game() -> Game {
    let mut game = Game::new(1, player(1, 1001));
    for id in 2..=10u64 {
        game.add_player(player(id, 1000 + id as i32));
    }
    game
}

#[test]
fn blue_is_rated_as_winner_unless_red_won() {
    let game = full_game();
    let (w, l) = game.match_ratings();
    assert_eq!(w, vec![(1001, 101), (1002, 102), (1003, 103), (1004, 104), (1005, 105)]);
    assert_eq!(l, vec![(1006, 106), (1007, 107), (1008, 108), (1009, 109), (1010, 110)]);
    let mut red = full_game();
    red.red_win();
    let (w, l) = red.match_ratings();
    assert_eq!(w[0], (1006, 106));
    assert_eq!(l[0], (1001, 101));
}

#[test]
fn new_ratings_are_written_back() {
    let mut game = full_game();
    game.red_win();
    let new_win = vec![(1100, 90), (1101, 91), (1102, 92), (1103, 93), (1104, 94)];
    let new_lose = vec![(900, 80), (901, 81), (902, 82), (903, 83), (904, 84)];
    game.apply_rating_changes(&new_win, &new_lose);
    // red (positions 5..9) won: 30 points on top, deviation + 15
    assert_eq!((game.players[5].score, game.players[5].score_deviation, game.players[5].win), (1130, 105, 1));
    assert_eq!((game.players[9].score, game.players[9].score_deviation, game.players[9].win), (1134, 109, 1));
    // blue lost: deviation + 15
    assert_eq!((game.players[0].score, game.players[0].score_deviation, game.players[0].lose), (900, 95, 1));
    assert_eq!((game.players[4].score, game.players[4].score_deviation, game.players[4].lose), (904, 99, 1));
    assert_eq!(game.players[4].win, 0);
}

#[test]
fn shorter_rating_lists_rate_fewer_players() {
    let mut game = full_game();
    game.apply_rating_changes(&vec![(1500, 50)], &vec![]);
    assert_eq!((game.players[0].score, game.players[0].win), (1530, 1));
    assert_eq!((game.players[1].score, game.players[1].win), (1002, 0));
    assert_eq!(game.players[5].lose, 0);
}

#[test]
fn legacy_records() {
    let v0 = vec![
        PlayerV0 { id: 4, discord_id: vec![1], summoner_name: "a".to_string(), score: 1, win: 0, lose: 0, score_deviation: 200 },
        PlayerV0 { id: 9, discord_id: vec![], summoner_name: "b".to_string(), score: 1, win: 0, lose: 0, score_deviation: 200 },
    ];
    assert_eq!(player_ids(&v0), vec![4, 9]);
    let legacy = vec![
        PlayerLegacy { id: 1, discord_id: vec![11, 12], summoner_name: "x".to_string(), tier: Tier::Master, score: 1400, win: 3, lose: 2, score_deviation: 120 },
        PlayerLegacy { id: 2, discord_id: vec![], summoner_name: "y".to_string(), tier: Tier::Iron(Division::IV), score: 900, win: 0, lose: 5, score_deviation: 250 },
    ];
    let players = migrate_player(&legacy);
    assert_eq!(players.len(), 2);
    assert_eq!(players[0].discord_id, vec![11]);
    assert_eq!((players[0].id, players[0].score, players[0].win, players[0].lose, players[0].score_deviation), (1, 1400, 3, 2, 120));
    assert_eq!(players[1].discord_id, vec![0]);
    assert_eq!(players[1].summoner_name, "y");
}
