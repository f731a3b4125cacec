//! What the lobby message shows: its title, texts, team lists and buttons, by the game's state.
use vstd::prelude::*;

use crate::game::{Game, Player, State, team_positions, lemma_team_positions_bounded};
use crate::lobby::button_prefix;
use crate::text::{decimal, push_decimal};

verus! {

/// The look of a button.
#[derive(Debug, PartialEq, Eq, Structural, Clone, Copy)]
pub enum ButtonLook {
    Primary,
    Secondary,
    Danger,
}

/// A button of the lobby message.
pub struct LobbyButton {
    pub id: String,
    pub label: String,
    pub look: ButtonLook,
    pub disabled: bool,
}

/// The value of a button.
pub struct LobbyButtonView {
    pub id: Seq<char>,
    pub label: Seq<char>,
    pub look: ButtonLook,
    pub disabled: bool,
}

impl View for LobbyButton {
    type V = LobbyButtonView;

    open spec fn view(&self) -> LobbyButtonView {
        LobbyButtonView { id: self.id@, label: self.label@, look: self.look, disabled: self.disabled }
    }
}

/// The lobby message: a title, an optional description and colour (`true` for red), the red
/// and the blue names when the teams are shown, the rows of buttons, and the id of the kick
/// menu when there is one.
pub struct LobbyMessage {
    pub title: String,
    pub description: Option<String>,
    pub red_colour: Option<bool>,
    pub team_names: Option<(String, String)>,
    pub button_rows: Vec<Vec<LobbyButton>>,
    pub kick_menu_id: Option<String>,
}

/// The value of a lobby message.
pub struct LobbyMessageView {
    pub title: Seq<char>,
    pub description: Option<Seq<char>>,
    pub red_colour: Option<bool>,
    pub team_names: Option<(Seq<char>, Seq<char>)>,
    pub button_rows: Seq<Seq<LobbyButtonView>>,
    pub kick_menu_id: Option<Seq<char>>,
}

pub open spec fn opt_text(t: Option<String>) -> Option<Seq<char>> {
    match t {
        Some(s) => Some(s@),
        None => None,
    }
}

pub open spec fn opt_pair(t: Option<(String, String)>) -> Option<(Seq<char>, Seq<char>)> {
    match t {
        Some(p) => Some((p.0@, p.1@)),
        None => None,
    }
}

impl View for LobbyMessage {
    type V = LobbyMessageView;

    open spec fn view(&self) -> LobbyMessageView {
        LobbyMessageView {
            title: self.title@,
            description: opt_text(self.description),
            red_colour: self.red_colour,
            team_names: opt_pair(self.team_names),
            button_rows: self.button_rows@.map_values(|row: Vec<LobbyButton>| row@.map_values(|b: LobbyButton| b@)),
            kick_menu_id: opt_text(self.kick_menu_id),
        }
    }
}

/// The texts, one after another, with `sep` between two of them.
pub open spec fn join_texts(parts: Seq<Seq<char>>, sep: Seq<char>) -> Seq<char>
    decreases parts.len(),
{
    if parts.len() == 0 {
        Seq::empty()
    } else if parts.len() == 1 {
        parts[0]
    } else {
        join_texts(parts.drop_last(), sep) + sep + parts.last()
    }
}

/// The names of the players at the positions.
pub open spec fn names_at(players: Seq<Player>, positions: Seq<usize>) -> Seq<Seq<char>> {
    Seq::new(positions.len(), |k: int| players[positions[k] as int].summoner_name@)
}

/// The names of the players.
pub open spec fn names_of(players: Seq<Player>) -> Seq<Seq<char>> {
    Seq::new(players.len(), |k: int| players[k].summoner_name@)
}

/// A button of the game: its id is the game's prefix and the name.
pub open spec fn button(game_id: u64, name: Seq<char>, label: Seq<char>, look: ButtonLook, disabled: bool) -> LobbyButtonView {
    LobbyButtonView { id: button_prefix(game_id) + name, label: label, look: look, disabled: disabled }
}

/// The red and the blue names, each one per line.
pub open spec fn team_texts(game: Game) -> (Seq<char>, Seq<char>) {
    (
        join_texts(names_at(game.players@, team_positions(game.team_bit, false, 10)), seq!['\n']),
        join_texts(names_at(game.players@, team_positions(game.team_bit, true, 10)), seq!['\n']),
    )
}

/// The lobby message of a game.
/// - A decided game (`State::result(flag)`) shows both teams and no buttons; its text and colour
///   say the red team won when the flag is set, the blue team otherwise.
/// - A full game (ten players) shows both teams, the result and shuffle buttons, the join
///   button disabled with the leave button, and the kick menu.
/// - Otherwise the message counts the players and lists them, with the join, leave and
///   stand-in buttons and the kick menu.
pub open spec fn lobby_message_of(game: Game) -> LobbyMessageView {
    let title = "방 #"@ + decimal(game.id as nat);
    match game.state {
        State::result(flag) => LobbyMessageView {
            title: title,
            description: Some(if flag { "레드팀 승리!"@ } else { "블루팀 승리!"@ }),
            red_colour: Some(flag),
            team_names: Some(team_texts(game)),
            button_rows: Seq::empty(),
            kick_menu_id: None,
        },
        _ => if game.players@.len() == 10 {
            LobbyMessageView {
                title: title,
                description: None,
                red_colour: None,
                team_names: Some(team_texts(game)),
                button_rows: seq![
                    seq![
                        button(game.id, "red_win"@, "레드팀 승"@, ButtonLook::Danger, false),
                        button(game.id, "blue_win"@, "블루팀 승"@, ButtonLook::Primary, false),
                        button(game.id, "team_shuffle"@, "팀 섞기"@, ButtonLook::Secondary, false),
                    ],
                    seq![
                        button(game.id, "join_game"@, "참가하기"@, ButtonLook::Primary, true),
                        button(game.id, "leave_game"@, "떠나기"@, ButtonLook::Danger, false),
                    ],
                ],
                kick_menu_id: Some(button_prefix(game.id) + "kick"@),
            }
        } else {
            LobbyMessageView {
                title: title,
                description: Some("인원: "@ + decimal(game.players@.len()) + " / 10\n참여자: ["@
                    + join_texts(names_of(game.players@), ", "@) + "]"@),
                red_colour: None,
                team_names: None,
                button_rows: seq![
                    seq![
                        button(game.id, "join_game"@, "참가하기"@, ButtonLook::Primary, false),
                        button(game.id, "leave_game"@, "떠나기"@, ButtonLook::Danger, false),
                        button(game.id, "test"@, "더미 테스트용"@, ButtonLook::Danger, false),
                    ],
                ],
                kick_menu_id: Some(button_prefix(game.id) + "kick"@),
            }
        },
    }
}

/// Marking a result keeps the teams the message shows: a full game lists the same red and
/// blue names before and after it is decided, whichever side won.
pub proof fn lemma_decided_keeps_team_lists(game: Game, flag: bool)
    requires
        game.players@.len() == 10,
        !(game.state is result),
    ensures
        lobby_message_of(Game { state: State::result(flag), ..game }).team_names
            == lobby_message_of(game).team_names,
        lobby_message_of(game).team_names == Some(team_texts(game)),
{
}

/// Appends the names, with `sep` between two of them.
fn push_joined(out: &mut String, names: &Vec<&Player>, sep: &str)
    ensures
        final(out)@ == old(out)@ + join_texts(Seq::new(names@.len(), |k: int| names@[k].summoner_name@), sep@),
{
    let ghost parts = Seq::new(names@.len(), |k: int| names@[k].summoner_name@);
    let ghost start = out@;
    let mut k: usize = 0;
    while k < names.len()
        invariant
            k <= names@.len() == parts.len(),
            parts == Seq::new(names@.len(), |k: int| names@[k].summoner_name@),
            out@ == start + join_texts(parts.take(k as int), sep@),
            start == old(out)@,
        decreases names@.len() - k,
    {
        if k > 0 {
            out.append(sep);
        }
        out.append(names[k].summoner_name.as_str());
        proof {
            let t = parts.take(k + 1);
            assert(t.drop_last() =~= parts.take(k as int));
            assert(t.last() == names@[k as int].summoner_name@);
            if k == 0 {
                assert(join_texts(t, sep@) == t[0]);
            }
            assert(out@ =~= start + join_texts(t, sep@));
        }
        k += 1;
    }
    assert(parts.take(k as int) =~= parts);
}

fn names_text(names: &Vec<&Player>, sep: &str) -> (s: String)
    ensures
        s@ == join_texts(Seq::new(names@.len(), |k: int| names@[k].summoner_name@), sep@),
{
    let mut s = String::new();
    push_joined(&mut s, names, sep);
    assert(s@ =~= join_texts(Seq::new(names@.len(), |k: int| names@[k].summoner_name@), sep@));
    s
}

fn make_button(game_id: u64, name: &str, label: &str, look: ButtonLook, disabled: bool) -> (b: LobbyButton)
    ensures
        b@ == button(game_id, name@, label@, look, disabled),
{
    let mut id = String::new();
    push_decimal(&mut id, game_id);
    proof { reveal_strlit("."); }
    id.append(".");
    id.append(name);
    assert(id@ =~= button_prefix(game_id) + name@);
    LobbyButton { id, label: String::from_str(label), look, disabled }
}

fn kick_menu_id(game_id: u64) -> (id: String)
    ensures
        id@ == button_prefix(game_id) + "kick"@,
{
    let b = make_button(game_id, "kick", "", ButtonLook::Danger, false);
    b.id
}

/// The red and the blue names of a game with ten players at least.
fn team_name_texts(game: &Game) -> (t: (String, String))
    requires
        game.players@.len() >= 10,
    ensures
        (t.0@, t.1@) == team_texts(*game),
{
    proof {
        lemma_team_positions_bounded(game.team_bit, false, 10);
        lemma_team_positions_bounded(game.team_bit, true, 10);
    }
    let red = game.red_players();
    let blue = game.blue_players();
    proof { reveal_strlit("\n"); }
    let red_text = names_text(&red, "\n");
    let blue_text = names_text(&blue, "\n");
    proof {
        assert(Seq::new(red@.len(), |k: int| red@[k].summoner_name@)
            =~= names_at(game.players@, team_positions(game.team_bit, false, 10)));
        assert(Seq::new(blue@.len(), |k: int| blue@[k].summoner_name@)
            =~= names_at(game.players@, team_positions(game.team_bit, true, 10)));
        assert("\n"@ =~= seq!['\n']);
        assert(red_text@ == team_texts(*game).0);
        assert(blue_text@ == team_texts(*game).1);
    }
    (red_text, blue_text)
}

/// The message that shows the lobby. A decided game must have its ten positions filled, as
/// its teams are listed.
pub fn lobby_message(game: &Game) -> (m: LobbyMessage)
    requires
        game.state is result ==> game.players@.len() >= 10,
    ensures
        m@ == lobby_message_of(*game),
        // teams are shown once decided or full: the red names (team bit clear) first, the blue
        // names (team bit set) second, one per line, in position order
        m@.team_names is Some <==> (game.state is result || game.players@.len() == 10),
        m@.team_names matches Some(t) ==> t.0 == join_texts(
            Seq::new(team_positions(game.team_bit, false, 10).len(),
                |k: int| game.players@[team_positions(game.team_bit, false, 10)[k] as int].summoner_name@),
            seq!['\n'],
        ) && t.1 == join_texts(
            Seq::new(team_positions(game.team_bit, true, 10).len(),
                |k: int| game.players@[team_positions(game.team_bit, true, 10)[k] as int].summoner_name@),
            seq!['\n'],
        ),
{
    let mut title = String::new();
    proof { reveal_strlit("방 #"); }
    title.append("방 #");
    push_decimal(&mut title, game.id);
    assert(title@ =~= "방 #"@ + decimal(game.id as nat));
    match game.state {
        State::result(flag) => {
            let teams = team_name_texts(game);
            let description = if flag {
                String::from_str("레드팀 승리!")
            } else {
                String::from_str("블루팀 승리!")
            };
            let m = LobbyMessage {
                title,
                description: Some(description),
                red_colour: Some(flag),
                team_names: Some(teams),
                button_rows: Vec::new(),
                kick_menu_id: None,
            };
            assert(m@.button_rows =~= Seq::<Seq<LobbyButtonView>>::empty());
            m
        },
        _ => {
            if game.players.len() == 10 {
                let teams = team_name_texts(game);
                let mut win_row: Vec<LobbyButton> = Vec::new();
                win_row.push(make_button(game.id, "red_win", "레드팀 승", ButtonLook::Danger, false));
                win_row.push(make_button(game.id, "blue_win", "블루팀 승", ButtonLook::Primary, false));
                win_row.push(make_button(game.id, "team_shuffle", "팀 섞기", ButtonLook::Secondary, false));
                let mut join_row: Vec<LobbyButton> = Vec::new();
                join_row.push(make_button(game.id, "join_game", "참가하기", ButtonLook::Primary, true));
                join_row.push(make_button(game.id, "leave_game", "떠나기", ButtonLook::Danger, false));
                let mut rows: Vec<Vec<LobbyButton>> = Vec::new();
                rows.push(win_row);
                rows.push(join_row);
                let m = LobbyMessage {
                    title,
                    description: None,
                    red_colour: None,
                    team_names: Some(teams),
                    button_rows: rows,
                    kick_menu_id: Some(kick_menu_id(game.id)),
                };
                assert(m@.button_rows[0] =~= lobby_message_of(*game).button_rows[0]);
                assert(m@.button_rows[1] =~= lobby_message_of(*game).button_rows[1]);
                assert(m@.button_rows =~= lobby_message_of(*game).button_rows);
                m
            } else {
                let mut everyone: Vec<&Player> = Vec::new();
                let mut i: usize = 0;
                while i < game.players.len()
                    invariant
                        i <= game.players@.len(),
                        everyone@.len() == i,
                        forall|k: int| 0 <= k < i ==> *#[trigger] everyone@[k] == game.players@[k],
                    decreases game.players@.len() - i,
                {
                    everyone.push(&game.players[i]);
                    i += 1;
                }
                let mut description = String::new();
                proof {
                    reveal_strlit("인원: ");
                    reveal_strlit(" / 10\n참여자: [");
                    reveal_strlit(", ");
                    reveal_strlit("]");
                }
                description.append("인원: ");
                push_decimal(&mut description, game.players.len() as u64);
                description.append(" / 10\n참여자: [");
                let ghost before_names = description@;
                push_joined(&mut description, &everyone, ", ");
                description.append("]");
                proof {
                    assert(Seq::new(everyone@.len(), |k: int| everyone@[k].summoner_name@) =~= names_of(game.players@));
                    assert(description@ =~= "인원: "@ + decimal(game.players@.len()) + " / 10\n참여자: ["@
                        + join_texts(names_of(game.players@), ", "@) + "]"@);
                }
                let mut row: Vec<LobbyButton> = Vec::new();
                row.push(make_button(game.id, "join_game", "참가하기", ButtonLook::Primary, false));
                row.push(make_button(game.id, "leave_game", "떠나기", ButtonLook::Danger, false));
                row.push(make_button(game.id, "test", "더미 테스트용", ButtonLook::Danger, false));
                let mut rows: Vec<Vec<LobbyButton>> = Vec::new();
                rows.push(row);
                let m = LobbyMessage {
                    title,
                    description: Some(description),
                    red_colour: None,
                    team_names: None,
                    button_rows: rows,
                    kick_menu_id: Some(kick_menu_id(game.id)),
                };
                assert(m@.button_rows[0] =~= lobby_message_of(*game).button_rows[0]);
                assert(m@.button_rows =~= lobby_message_of(*game).button_rows);
                m
            }
        },
    }
}

} // verus!
