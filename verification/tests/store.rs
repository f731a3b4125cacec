use inhouse::game::{Division, Player, Tier};
use inhouse::store::{game_id_of_file_name, last_game_id_of_files, GameIdCounter, PlayerStore};

fn player(id: u64, discord: u64, name: &str) -> Player {
    Player::new(id, discord, name.to_string(), Tier::Silver(Division::III))
}

fn store() -> PlayerStore {
    PlayerStore::new(vec![player(1, 100, "Faker"), player(2, 200, "Chovy"), player(3, 300, "faker")], 4)
}

#[test]
fn select_by_discord_id_finds_the_first_linked_player() {
    let mut s = store();
    assert_eq!(s.select_player_with_discord_user_id(200).unwrap().id, 2);
    assert!(s.select_player_with_discord_user_id(999).is_none());
    s.update_discord_id_to_player(3, 200);
    assert_eq!(s.select_player_with_discord_user_id(200).unwrap().id, 2);
    s.update_discord_id_to_player(1, 777);
    assert_eq!(s.select_player_with_discord_user_id(777).unwrap().id, 1);
    assert_eq!(s.select_player_with_discord_user_id(777).unwrap().discord_id, vec![100, 777]);
}

#[test]
fn select_by_name_ignores_case() {
    let s = store();
    assert_eq!(s.select_player_with_summoner_name("FAKER".to_string()).unwrap().id, 1);
    assert_eq!(s.select_player_with_summoner_name("chovy".to_string()).unwrap().id, 2);
    assert!(s.select_player_with_summoner_name("Zeus".to_string()).is_none());
}

#[test]
fn select_all_copies_in_order() {
    let s = store();
    let all = s.select_all_player();
    assert_eq!(all.iter().map(|p| p.id).collect::<Vec<u64>>(), vec![1, 2, 3]);
    assert_eq!(all[2].summoner_name, "faker");
}

#[test]
fn update_score_reads_back() {
    let mut s = store();
    s.update_player_score(2, 1777);
    let all = s.select_all_player();
    assert_eq!(all.iter().map(|p| p.score).collect::<Vec<i32>>(), vec![1200, 1777, 1200]);
}

#[test]
fn update_players_replaces_by_id_and_skips_unknown() {
    let mut s = store();
    let mut a = player(3, 300, "faker");
    a.win(1300, 150);
    let b = player(9, 900, "Nobody");
    s.update_players(&vec![a, b]);
    let all = s.select_all_player();
    assert_eq!(all.len(), 3);
    assert_eq!(all[2].score, 1300);
    assert_eq!(all[2].win, 1);
    assert_eq!(all[0].score, 1200);
}

#[test]
fn created_players_are_numbered_and_found() {
    let mut s = store();
    assert!(s.create_player(&player(10, 1000, "Keria")));
    let p = s.create_player_with_discord_user_id(4000, "Gumayusi".to_string(), Tier::Gold(Division::I));
    assert_eq!(p.id, 5);
    assert_eq!(p.score, 1200);
    let q = s.create_player_with_discord_user_id_v2(5000);
    assert_eq!(q.id, 6);
    assert_eq!(q.summoner_name, "<@5000>");
    assert_eq!(q.score, 1300);
    assert_eq!(s.select_player_with_discord_user_id(5000).unwrap().id, 6);
    assert_eq!(s.select_player_with_discord_user_id(1000).unwrap().id, 10);
    assert_eq!(s.select_all_player().len(), 6);
}

#[test]
fn game_ids_count_up() {
    let mut s = store();
    assert_eq!(s.get_and_increase_new_game_id(), 5);
    assert_eq!(s.get_and_increase_new_game_id(), 6);
    s.record_created_game(40, false);
    assert_eq!(s.get_and_increase_new_game_id(), 7);
    s.record_created_game(40, true);
    assert_eq!(s.get_and_increase_new_game_id(), 41);
    s.record_created_game((1u64 << 32) + 3, true);
    assert_eq!(s.get_and_increase_new_game_id(), 4);
}

#[test]
fn hosted_counter_hands_out_then_moves_on() {
    let mut c = GameIdCounter::after_last(Some(12));
    assert_eq!(c.get_and_increase_new_game_id(), 13);
    assert_eq!(c.get_and_increase_new_game_id(), 14);
    let mut d = GameIdCounter::after_last(None);
    assert_eq!(d.get_and_increase_new_game_id(), 1);
    assert_eq!(d.game_id, 2);
}

#[test]
fn game_file_names() {
    assert_eq!(game_id_of_file_name("12.json"), Some(12));
    assert_eq!(game_id_of_file_name("-3.json"), Some(-3));
    assert_eq!(game_id_of_file_name("notes.txt"), None);
    let names = vec!["3.json".to_string(), "17.json".to_string(), "9.json".to_string()];
    assert_eq!(last_game_id_of_files(&names), Some(17));
    assert_eq!(last_game_id_of_files(&vec![]), Some(0));
    assert_eq!(last_game_id_of_files(&vec!["-5.json".to_string()]), Some(-5));
    assert_eq!(last_game_id_of_files(&vec!["1.json".to_string(), "x.json".to_string()]), None);
}

#[test]
fn file_names_with_signs_and_repeats() {
    assert_eq!(game_id_of_file_name("+7.json"), Some(7));
    assert_eq!(game_id_of_file_name("1.json2.json"), Some(12));
    assert_eq!(game_id_of_file_name("a.json"), None);
    assert_eq!(game_id_of_file_name("-.json"), None);
    assert_eq!(game_id_of_file_name("99999999999.json"), None);
    assert_eq!(inhouse::store::player_id_after(4), 5);
}
