use inhouse::game::{Division, Game, Player, State, Tier};
use glicko2::{GameResult, GlickoRating};

// create game and add player to 10 player, then state will be ready test
#[test]
fn test_game_ready() {
    // Given
    let mut game = Game::new(1, Player::random_dummy());
    let mut game_state_result = vec![game.state];

    // When
    for _i in 2..=10 {
        game.add_player(Player::random_dummy());
        game_state_result.push(game.state);
    }

    // Then
    let mut expected = vec![State::queue; 9];
    expected.push(State::ready);
    assert_eq!(game_state_result, expected);
}

// create game and add player to 10 player, then remove player 10, then state will be queue test
#[test]
fn test_game_queue() {
    // Given
    let mut game = Game::new(1, Player::random_dummy());
    let mut game_state_result = vec![game.state];

    // When
    for _i in 2..=10 {
        game.add_player(Player::random_dummy());
        game_state_result.push(game.state);
    }
    game.remove_player(game.players.last().unwrap().id);
    game_state_result.push(game.state);
    game.add_player(Player::random_dummy());
    game_state_result.push(game.state);

    // Then
    let mut expected = vec![State::queue; 9];
    expected.push(State::ready);
    expected.push(State::queue);
    expected.push(State::ready);
    assert_eq!(game_state_result, expected);
}

#[test]
#[allow(non_snake_case)]
fn test_whenNewGame_Create_redTeam5Players_blueTeam5Players() {
    // Given
    let mut game = Game::new(1, Player::random_dummy());

    // When
    for _i in 2..=10 {
        game.add_player(Player::random_dummy());
    }

    let blue_players = game.blue_players();
    let _ = blue_players[0];

    // Then
    assert_eq!(game.red_players().len(), game.blue_players().len());
    assert_eq!(game.red_players().len(), 5);
}

#[test]
#[allow(non_snake_case)]
fn test_whenOneTeamWin_ScoreChanged() {
    // Given
    let mut game = Game::new(1, Player::random_dummy());

    // When
    for _i in 2..=10 {
        game.add_player(Player::random_dummy());
    }

    let win = game.red_players();
    let lose = game.blue_players();

    let mut new_win_score = Vec::with_capacity(5);
    let mut new_lose_score = Vec::with_capacity(5);

    let mut results = vec![];
    for j in 0..5 {
        results.push(GameResult::win(GlickoRating {
            value: f64::from(lose[j].score),
            deviation: f64::from(lose[j].score_deviation),
        }));
    }

    for i in 0..5 {
        let before_rating = GlickoRating {
            value: f64::from(win[i].score),
            deviation: f64::from(win[i].score_deviation),
        };

        let new_rating: GlickoRating = glicko2::new_rating(before_rating.into(), &results, 0.5).into();
        new_win_score.push(new_rating);
    }

    let mut results = vec![];
    for j in 0..5 {
        results.push(GameResult::loss(GlickoRating {
            value: f64::from(win[j].score),
            deviation: f64::from(win[j].score_deviation),
        }));
    }

    for i in 0..5 {
        let before_rating = GlickoRating {
            value: f64::from(lose[i].score),
            deviation: f64::from(lose[i].score_deviation),
        };

        let new_rating: GlickoRating = glicko2::new_rating(before_rating.into(), &results, 0.5).into();
        new_lose_score.push(new_rating);
    }

    win.iter().for_each(|new_player| {
        println!(
            "Winner rating value: {} New rating deviation: {}",
            new_player.score, new_player.score_deviation
        );
    });

    new_win_score.iter().for_each(|new_rating| {
        println!(
            "Winner rating value: {} New rating deviation: {}",
            new_rating.value, new_rating.deviation
        );
    });

    lose.iter().for_each(|new_player| {
        println!(
            "Winner rating value: {} New rating deviation: {}",
            new_player.score, new_player.score_deviation
        );
    });

    new_lose_score.iter().for_each(|new_rating| {
        println!(
            "Lose rating value: {} New rating deviation: {}",
            new_rating.value, new_rating.deviation
        );
    });
}

#[test]
#[allow(non_snake_case)]
fn test_whenGameIsSet_thenGetSomeRedPlayerRecursively_thenGetSameOrder() {
    // Given
    let mut game = Game::new(1, Player::random_dummy());

    // When
    for _i in 2..=10 {
        game.add_player(Player::random_dummy());
    }

    let red_players = game.red_players();
    let red_players_id = red_players.iter().map(|player| player.id).collect::<Vec<u64>>();
    let mut_red_players = &game.mut_red_players();

    // Then
    assert_eq!(red_players_id, mut_red_players.iter().map(|i| game.players[*i].id).collect::<Vec<u64>>());
}

fn player(id: u64, score: i32) -> Player {
    let mut p = Player::new(id, id * 10, format!("p{}", id), Tier::Gold(Division::I));
    p.score = score;
    p
}

fn full_game() -> Game {
    let mut game = Game::new(7, player(1, 1000));
    for id in 2..=10u64 {
        assert!(game.add_player(player(id, 1000 + 100 * id as i32)));
    }
    game
}

#[test]
fn new_game_waits_with_the_host() {
    let game = Game::new(42, player(3, 1500));
    assert_eq!(game.id, 42);
    assert_eq!(game.players.len(), 1);
    assert_eq!(game.players[0].id, 3);
    assert_eq!(game.state, State::queue);
    assert_eq!(game.team_bit, 0b11111);
}

#[test]
fn add_player_refuses_a_second_copy() {
    let mut game = Game::new(1, player(1, 1000));
    assert!(game.add_player(player(2, 1000)));
    assert!(!game.add_player(player(2, 1200)));
    assert_eq!(game.players.len(), 2);
    assert_eq!(game.state, State::queue);
}

#[test]
fn eleventh_player_keeps_the_game_ready() {
    let mut game = full_game();
    assert_eq!(game.state, State::ready);
    assert!(game.add_player(player(11, 900)));
    assert_eq!(game.players.len(), 11);
    assert_eq!(game.state, State::ready);
}

#[test]
fn remove_player_reports_false_when_one_left() {
    let mut game = full_game();
    assert!(!game.remove_player(4));
    assert_eq!(game.state, State::queue);
    assert_eq!(game.players.iter().map(|p| p.id).collect::<Vec<u64>>(), vec![1, 2, 3, 5, 6, 7, 8, 9, 10]);
    // nobody with that id: true, state unchanged
    game.red_win();
    assert!(game.remove_player(99));
    assert_eq!(game.state, State::result(false));
}

#[test]
fn remove_player_removes_every_copy() {
    let mut game = Game::new(1, player(1, 1000));
    game.players.push(player(2, 1000));
    game.players.push(player(2, 1100));
    game.players.push(player(3, 1100));
    game.state = State::ready;
    assert!(game.remove_player(2));
    assert_eq!(game.players.iter().map(|p| p.id).collect::<Vec<u64>>(), vec![1, 3]);
    assert_eq!(game.state, State::ready);
}

#[test]
fn teams_follow_the_team_bits() {
    let mut game = full_game();
    let blue: Vec<u64> = game.blue_players().iter().map(|p| p.id).collect();
    let red: Vec<u64> = game.red_players().iter().map(|p| p.id).collect();
    assert_eq!(blue, vec![1, 2, 3, 4, 5]);
    assert_eq!(red, vec![6, 7, 8, 9, 10]);
    game.team_bit = 0b1010101010;
    let blue: Vec<u64> = game.blue_players().iter().map(|p| p.id).collect();
    let red: Vec<u64> = game.red_players().iter().map(|p| p.id).collect();
    assert_eq!(blue, vec![2, 4, 6, 8, 10]);
    assert_eq!(red, vec![1, 3, 5, 7, 9]);
    assert_eq!(game.mut_blue_players(), vec![1, 3, 5, 7, 9]);
    assert_eq!(game.mut_red_players(), vec![0, 2, 4, 6, 8]);
}

#[test]
fn positions_past_ten_count_as_red() {
    let mut game = full_game();
    game.add_player(player(11, 900));
    assert_eq!(game.mut_red_players(), vec![5, 6, 7, 8, 9, 10]);
    assert_eq!(game.mut_blue_players(), vec![0, 1, 2, 3, 4]);
    assert_eq!(game.red_players().len(), 5);
}

#[test]
fn winner_marks() {
    let mut game = full_game();
    assert!(!game.is_red_winner());
    game.red_win();
    assert_eq!(game.state, State::result(false));
    assert!(game.is_red_winner());
    game.blue_win();
    assert_eq!(game.state, State::result(true));
    assert!(!game.is_red_winner());
}

#[test]
fn shuffle_team_draws_five_against_five_close_to_half() {
    let base = full_game();
    let scores: Vec<i32> = base.players.iter().map(|p| p.score).collect();
    let half = scores.iter().sum::<i32>() / 2;
    // the distances of all five-player picks, sorted; the drawn pick is in the first third
    let mut distances = Vec::new();
    for a in 0..10 {
        for b in a + 1..10 {
            for c in b + 1..10 {
                for d in c + 1..10 {
                    for e in d + 1..10 {
                        let sum = scores[a] + scores[b] + scores[c] + scores[d] + scores[e];
                        distances.push((half - sum).abs());
                    }
                }
            }
        }
    }
    assert_eq!(distances.len(), 252);
    distances.sort();
    let limit = distances[252 / 3 - 1];
    for _round in 0..20 {
        let mut game = full_game();
        game.shuffle_team();
        assert_eq!(game.blue_players().len(), 5);
        assert_eq!(game.red_players().len(), 5);
        assert_eq!(game.team_bit & !0b1111111111, 0);
        let blue_sum: i32 = game.blue_players().iter().map(|p| p.score).sum();
        assert!((half - blue_sum).abs() <= limit, "blue sum {}", blue_sum);
    }
}

#[test]
fn shuffle_team_with_equal_scores_still_splits_evenly() {
    let mut game = Game::new(1, player(1, 1500));
    for id in 2..=10u64 {
        game.add_player(player(id, 1500));
    }
    game.shuffle_team();
    assert_eq!(game.blue_players().len(), 5);
    assert_eq!(game.red_players().len(), 5);
    // every combination is equally close; ties go by enumeration order, so the blue team
    // is one of the first 84 combinations, all of which hold position 0
    assert_eq!(game.team_bit & 1, 1);
}

#[test]
fn player_constructors() {
    let p = Player::new(5, 77, "Faker".to_string(), Tier::Master);
    assert_eq!(p.id, 5);
    assert_eq!(p.discord_id, vec![77]);
    assert_eq!(p.summoner_name, "Faker");
    assert!(matches!(p.tier, Tier::Master));
    assert_eq!((p.score, p.win, p.lose, p.score_deviation), (1200, 0, 0, 200));

    let q = Player::new_v2(6, 123456789012);
    assert_eq!(q.summoner_name, "<@123456789012>");
    assert_eq!(q.discord_id, vec![123456789012]);
    assert!(matches!(q.tier, Tier::Challenger));
    assert_eq!((q.score, q.win, q.lose, q.score_deviation), (1300, 0, 0, 200));

    let z = Player::new_v2(7, 0);
    assert_eq!(z.summoner_name, "<@0>");
}

#[test]
fn random_dummy_is_a_stand_in() {
    for _ in 0..50 {
        let d = Player::random_dummy();
        assert!(d.id >= 1 && d.id < 100000000);
        assert!([1000, 1100, 1200, 1300, 1400, 1500, 1600].contains(&d.score));
        assert_eq!(d.summoner_name, format!("{}", d.score));
        assert!(d.discord_id.is_empty());
        assert!(matches!(d.tier, Tier::Diamond(Division::II)));
        assert_eq!(d.score_deviation, 200);
    }
}

#[test]
fn win_lose_and_discord_ids() {
    let mut p = player(1, 1000);
    p.win(1100, 180);
    assert_eq!((p.win, p.lose, p.score, p.score_deviation), (1, 0, 1100, 180));
    p.lose(1050, 170);
    assert_eq!((p.win, p.lose, p.score, p.score_deviation), (1, 1, 1050, 170));
    p.add_discord_id(5);
    assert_eq!(p.discord_id, vec![10, 5]);
}

#[test]
fn clone_copies_every_field() {
    let p = player(3, 1234);
    let q = p.clone();
    assert_eq!(q.id, 3);
    assert_eq!(q.discord_id, vec![30]);
    assert_eq!(q.summoner_name, "p3");
    assert_eq!(q.score, 1234);
}

#[test]
fn tier_names_and_reading() {
    let names = Tier::iter_tier_name();
    assert_eq!(names, ["Iron", "Bronze", "Silver", "Gold", "Platinum", "Diamond", "Master", "GrandMaster", "Challenger"]);
    for name in names {
        for d in 1..=4 {
            assert!(Tier::deserialize_with_tier_division(name.to_string(), d).is_some());
        }
        assert!(Tier::deserialize_with_tier_division(name.to_string(), 0).is_none());
        assert!(Tier::deserialize_with_tier_division(name.to_string(), 5).is_none());
    }
    assert_eq!(Tier::deserialize_with_tier_division("Gold".to_string(), 2), Some(Tier::Gold(Division::II)));
    assert_eq!(Tier::deserialize_with_tier_division("Iron".to_string(), 4), Some(Tier::Iron(Division::IV)));
    assert_eq!(Tier::deserialize_with_tier_division("Master".to_string(), 1), Some(Tier::Master));
    assert_eq!(Tier::deserialize_with_tier_division("gold".to_string(), 1), None);
    assert_eq!(Tier::deserialize_with_tier_division("Emerald".to_string(), 1), None);
}

#[test]
fn score_deviation_default() {
    assert_eq!(inhouse::game::score_deviation(), 200);
}

#[test]
fn stand_ins_vary() {
    let dummies: Vec<Player> = (0..60).map(|_| Player::random_dummy()).collect();
    let first_id = dummies[0].id;
    let first_score = dummies[0].score;
    assert!(dummies.iter().any(|d| d.id != first_id));
    assert!(dummies.iter().any(|d| d.score != first_score));
}

#[test]
fn removing_a_new_player_gives_back_the_lobby() {
    let mut game = Game::new(1, player(1, 1000));
    game.add_player(player(2, 1100));
    let before: Vec<u64> = game.players.iter().map(|p| p.id).collect();
    assert!(game.add_player(player(3, 1200)));
    assert!(!game.remove_player(3));
    assert_eq!(game.players.iter().map(|p| p.id).collect::<Vec<u64>>(), before);
}

#[test]
fn game_clone_copies_the_lobby() {
    let mut game = full_game();
    game.blue_win();
    let copy = game.clone();
    assert_eq!(copy.id, 7);
    assert_eq!(copy.players.iter().map(|p| p.score).collect::<Vec<i32>>(), game.players.iter().map(|p| p.score).collect::<Vec<i32>>());
    assert_eq!(copy.state, State::result(true));
    assert_eq!(copy.team_bit, game.team_bit);
}

#[test]
fn shuffle_feasibility() {
    let mut game = Game::new(1, player(1, 1000));
    for id in 2..=5u64 {
        game.add_player(player(id, 1000));
    }
    assert!(!game.can_shuffle_team());
    game.add_player(player(6, 1000));
    assert!(game.can_shuffle_team());
    let mut big = full_game();
    assert!(big.can_shuffle_team());
    big.players[0].score = i32::MAX;
    assert!(!big.can_shuffle_team());
    // large scores of both signs: the running total stays in range, but some pick of five does not
    let mut mixed = full_game();
    for (i, p) in mixed.players.iter_mut().enumerate() {
        p.score = if i % 2 == 0 { 1_000_000_000 } else { -1_000_000_000 };
    }
    assert!(!mixed.can_shuffle_team());
    // scores that fit every pick of five, though their absolute sum passes i32::MAX
    let mut wide = full_game();
    for (i, p) in wide.players.iter_mut().enumerate() {
        p.score = if i % 2 == 0 { 400_000_000 } else { -400_000_000 };
    }
    assert!(wide.can_shuffle_team());
    wide.shuffle_team();
    assert_eq!(wide.blue_players().len(), 5);
}

#[test]
fn teams_of_a_short_lobby() {
    let mut game = Game::new(1, player(1, 1000));
    for id in 2..=6u64 {
        game.add_player(player(id, 1000));
    }
    // blue holds positions 0..5, all present
    assert_eq!(game.blue_players().iter().map(|p| p.id).collect::<Vec<u64>>(), vec![1, 2, 3, 4, 5]);
}
