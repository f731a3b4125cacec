//! The lobby's buttons: which action a pressed button asks for, and what it does to the game.
use vstd::prelude::*;

use crate::balance::{can_shuffle, enumerates_combinations, balanced, comb_mask};
use crate::game::{Game, Player, State, Tier, Division, dummy_score, has_id};
use crate::text::{decimal, push_decimal, text_is, lemma_decimal_digits, lemma_decimal_injective, is_digit_char};

verus! {

/// What a button of the lobby message asks for.
#[derive(Debug, PartialEq, Eq, Structural, Clone, Copy)]
pub enum LobbyAction {
    JoinGame,
    LeaveGame,
    Kick,
    FillWithDummies,
    RedWin,
    BlueWin,
    TeamShuffle,
}

/// The action a button name stands for.
pub open spec fn action_named(name: Seq<char>) -> Option<LobbyAction> {
    if name == "join_game"@ { Some(LobbyAction::JoinGame) }
    else if name == "leave_game"@ { Some(LobbyAction::LeaveGame) }
    else if name == "kick"@ { Some(LobbyAction::Kick) }
    else if name == "test"@ { Some(LobbyAction::FillWithDummies) }
    else if name == "red_win"@ { Some(LobbyAction::RedWin) }
    else if name == "blue_win"@ { Some(LobbyAction::BlueWin) }
    else if name == "team_shuffle"@ { Some(LobbyAction::TeamShuffle) }
    else { None }
}

/// The start of the ids of the buttons of a game: the game id and a dot.
pub open spec fn button_prefix(game_id: u64) -> Seq<char> {
    decimal(game_id as nat).push('.')
}

/// The action a button id asks for: the id starts with the game's prefix and the rest names
/// an action; any other id asks for nothing.
pub open spec fn action_of(game_id: u64, custom_id: Seq<char>) -> Option<LobbyAction> {
    let p = button_prefix(game_id);
    if p.len() <= custom_id.len() && custom_id.take(p.len() as int) == p {
        action_named(custom_id.skip(p.len() as int))
    } else {
        None
    }
}

/// The buttons the lobby message builds are understood: a button id made of the game's prefix
/// and a name asks for the action of that name.
pub proof fn lemma_button_ids_read_back(game_id: u64, name: Seq<char>)
    ensures
        action_of(game_id, button_prefix(game_id) + name) == action_named(name),
{
    let p = button_prefix(game_id);
    assert((p + name).take(p.len() as int) =~= p);
    assert((p + name).skip(p.len() as int) =~= name);
}

/// A button id asks an action of a game only when it starts with the game's decimal id and a
/// dot.
pub proof fn lemma_action_needs_prefix(game_id: u64, id: Seq<char>)
    ensures
        action_of(game_id, id) is Some ==> id.len() > decimal(game_id as nat).len()
            && id.take((decimal(game_id as nat).len() + 1) as int) == decimal(game_id as nat).push('.'),
{
}

/// A button of one game never asks anything of another game.
pub proof fn lemma_buttons_stay_with_their_game(g1: u64, g2: u64, id: Seq<char>)
    requires
        g1 != g2,
        action_of(g1, id) is Some,
    ensures
        action_of(g2, id) is None,
{
    if action_of(g2, id) is Some {
        let d1 = decimal(g1 as nat);
        let d2 = decimal(g2 as nat);
        let p1 = d1.push('.');
        let p2 = d2.push('.');
        lemma_action_needs_prefix(g1, id);
        lemma_action_needs_prefix(g2, id);
        lemma_decimal_digits(g1 as nat);
        lemma_decimal_digits(g2 as nat);
        if p1.len() == p2.len() {
            assert(p1 == p2);
            assert(d1 =~= p1.drop_last());
            assert(d2 =~= p2.drop_last());
            lemma_decimal_injective(g1 as nat, g2 as nat);
        } else if p1.len() < p2.len() {
            let i = d1.len() as int;
            assert(id.take(p1.len() as int)[i] == '.');
            assert(id.take(p2.len() as int)[i] == d2[i]);
            assert(is_digit_char(d2[i]));
        } else {
            let i = d2.len() as int;
            assert(id.take(p2.len() as int)[i] == '.');
            assert(id.take(p1.len() as int)[i] == d1[i]);
            assert(is_digit_char(d1[i]));
        }
    }
}

/// The action named by the rest of a button id.
fn named_action(name: &String) -> (a: Option<LobbyAction>)
    ensures
        a == action_named(name@),
{
    if text_is(name, "join_game") {
        Some(LobbyAction::JoinGame)
    } else if text_is(name, "leave_game") {
        Some(LobbyAction::LeaveGame)
    } else if text_is(name, "kick") {
        Some(LobbyAction::Kick)
    } else if text_is(name, "test") {
        Some(LobbyAction::FillWithDummies)
    } else if text_is(name, "red_win") {
        Some(LobbyAction::RedWin)
    } else if text_is(name, "blue_win") {
        Some(LobbyAction::BlueWin)
    } else if text_is(name, "team_shuffle") {
        Some(LobbyAction::TeamShuffle)
    } else {
        None
    }
}

/// The action that the button with the id asks of the game.
pub fn lobby_action(game_id: u64, custom_id: &str) -> (a: Option<LobbyAction>)
    ensures
        a == action_of(game_id, custom_id@),
        // an action is asked only by an id that starts with the game's id and a dot
        a is Some ==> custom_id@.len() > decimal(game_id as nat).len()
            && custom_id@.take((decimal(game_id as nat).len() + 1) as int) == decimal(game_id as nat).push('.'),
{
    proof { lemma_action_needs_prefix(game_id, custom_id@); }
    let mut prefix = String::new();
    push_decimal(&mut prefix, game_id);
    proof { reveal_strlit("."); }
    prefix.append(".");
    assert(prefix@ =~= button_prefix(game_id));
    let p = prefix.as_str();
    let plen = p.unicode_len();
    let clen = custom_id.unicode_len();
    if plen > clen {
        return None;
    }
    let mut i: usize = 0;
    while i < plen
        invariant
            i <= plen <= clen,
            plen == p@.len(),
            clen == custom_id@.len(),
            p@ == button_prefix(game_id),
            forall|j: int| 0 <= j < i ==> custom_id@[j] == p@[j],
        decreases plen - i,
    {
        if p.get_char(i) != custom_id.get_char(i) {
            proof {
                assert(custom_id@.take(plen as int)[i as int] != p@[i as int]);
            }
            return None;
        }
        i += 1;
    }
    assert(custom_id@.take(plen as int) =~= p@);
    let rest = String::from_str(custom_id.substring_char(plen, clen));
    assert(rest@ =~= custom_id@.skip(plen as int));
    named_action(&rest)
}

/// The players and state after adding each of `ps` in turn as `add_player` does.
pub open spec fn after_adds(players: Seq<Player>, state: State, ps: Seq<Player>) -> (Seq<Player>, State)
    decreases ps.len(),
{
    if ps.len() == 0 {
        (players, state)
    } else {
        let (pl, st) = after_adds(players, state, ps.drop_last());
        let p = ps.last();
        if has_id(pl, p.id) {
            (pl, st)
        } else {
            (pl.push(p), if pl.len() + 1 == 10 { State::ready } else { st })
        }
    }
}

/// A stand-in player as `Player::random_dummy` makes one.
pub open spec fn is_dummy(p: Player) -> bool {
    &&& 1 <= p.id < 100000000
    &&& p.discord_id@.len() == 0
    &&& p.tier == Tier::Diamond(Division::II)
    &&& dummy_score(p.score)
    &&& p.win == 0
    &&& p.lose == 0
    &&& p.score_deviation == 200
}

/// Does to the game what the button asks: nine stand-in players try to join, a side is
/// marked as the winner, or the teams are drawn anew; joining, leaving and kicking change
/// nothing here.
pub fn apply_lobby_action(game: &mut Game, action: LobbyAction)
    requires
        action == LobbyAction::TeamShuffle ==> can_shuffle(old(game).players@),
    ensures
        final(game).id == old(game).id,
        action == LobbyAction::JoinGame || action == LobbyAction::LeaveGame || action == LobbyAction::Kick
            ==> *final(game) == *old(game),
        action == LobbyAction::FillWithDummies ==> {
            &&& final(game).team_bit == old(game).team_bit
            &&& exists|ds: Seq<Player>| #![trigger after_adds(old(game).players@, old(game).state, ds)]
                ds.len() == 9
                && (forall|i: int| 0 <= i < 9 ==> is_dummy(#[trigger] ds[i]))
                && (final(game).players@, final(game).state) == after_adds(old(game).players@, old(game).state, ds)
        },
        action == LobbyAction::RedWin ==> final(game).state == State::result(false)
            && final(game).players == old(game).players && final(game).team_bit == old(game).team_bit,
        action == LobbyAction::BlueWin ==> final(game).state == State::result(true)
            && final(game).players == old(game).players && final(game).team_bit == old(game).team_bit,
        action == LobbyAction::TeamShuffle ==> final(game).players == old(game).players
            && final(game).state == old(game).state
            && exists|combos: Seq<Seq<usize>>, j: int|
                #![trigger enumerates_combinations(combos, old(game).players@.len(), 5), combos[j]]
                enumerates_combinations(combos, old(game).players@.len(), 5)
                && 0 <= j < combos.len()
                && balanced(old(game).players@, combos, j)
                && final(game).team_bit == comb_mask(old(game).players@, combos[j]),
{
    match action {
        LobbyAction::JoinGame => {},
        LobbyAction::LeaveGame => {},
        LobbyAction::Kick => {},
        LobbyAction::FillWithDummies => {
            let ghost mut ds: Seq<Player> = Seq::empty();
            let mut i: usize = 1;
            while i < 10
                invariant
                    1 <= i <= 10,
                    ds.len() == i - 1,
                    forall|k: int| 0 <= k < ds.len() ==> is_dummy(#[trigger] ds[k]),
                    (game.players@, game.state) == after_adds(old(game).players@, old(game).state, ds),
                    game.id == old(game).id,
                    game.team_bit == old(game).team_bit,
                decreases 10 - i,
            {
                let dummy = Player::random_dummy();
                proof {
                    assert(is_dummy(dummy));
                    let next = ds.push(dummy);
                    assert(next.drop_last() =~= ds);
                    ds = next;
                }
                game.add_player(dummy);
                i += 1;
            }
            assert(after_adds(old(game).players@, old(game).state, ds) == (game.players@, game.state));
        },
        LobbyAction::RedWin => {
            game.red_win();
        },
        LobbyAction::BlueWin => {
            game.blue_win();
        },
        LobbyAction::TeamShuffle => {
            game.shuffle_team();
        },
    }
}

} // verus!
