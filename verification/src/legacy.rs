//! Records written by earlier versions of the bot, and their migration.
use vstd::prelude::*;

use crate::game::{Player, PlayerView, State, Tier};

verus! {

/// A player record as the in-memory database first wrote it.
#[derive(Clone)]
pub struct PlayerLegacy {
    pub id: u64,
    pub discord_id: Vec<u64>,
    pub summoner_name: String,
    pub tier: Tier,
    pub score: i32,
    pub win: i32,
    pub lose: i32,
    pub score_deviation: i32,
}

/// A game record of the first hosted schema: its players are written as their ids.
#[derive(Clone, Debug)]
pub struct GameV0 {
    pub id: u64,
    pub players: Vec<PlayerV0>,
    pub state: State,
    pub team_bit: i32,
}

/// A player inside a game record of the first hosted schema.
#[derive(Clone, Debug)]
pub struct PlayerV0 {
    pub id: u64,
    pub discord_id: Vec<u64>,
    pub summoner_name: String,
    pub score: i32,
    pub win: i32,
    pub lose: i32,
    pub score_deviation: i32,
}

/// The ids of the players, in order: what a game record of the first schema stores.
pub fn player_ids(players: &Vec<PlayerV0>) -> (ids: Vec<u64>)
    ensures
        ids@ == players@.map_values(|p: PlayerV0| p.id),
{
    let mut ids: Vec<u64> = Vec::with_capacity(players.len());
    let mut i: usize = 0;
    while i < players.len()
        invariant
            i <= players.len(),
            ids@ == players@.take(i as int).map_values(|p: PlayerV0| p.id),
        decreases players.len() - i,
    {
        ids.push(players[i].id);
        i += 1;
        assert(ids@ =~= players@.take(i as int).map_values(|p: PlayerV0| p.id));
    }
    assert(players@.take(i as int) =~= players@);
    ids
}

/// The player a legacy record becomes: the first linked discord account (0 when there is
/// none) is kept as the only one; the id, name, tier, score, wins, losses and deviation are
/// carried over unchanged.
pub open spec fn migrated(l: PlayerLegacy) -> PlayerView {
    PlayerView {
        id: l.id,
        discord_id: seq![if l.discord_id@.len() > 0 { l.discord_id@[0] } else { 0 }],
        summoner_name: l.summoner_name@,
        tier: l.tier,
        score: l.score,
        win: l.win,
        lose: l.lose,
        score_deviation: l.score_deviation,
    }
}

/// Turns a legacy record into a player.
pub fn migrate(legacy: &PlayerLegacy) -> (p: Player)
    ensures
        p@ == migrated(*legacy),
{
    let first: u64 = if legacy.discord_id.len() > 0 { legacy.discord_id[0] } else { 0 };
    let mut discord_id: Vec<u64> = Vec::new();
    discord_id.push(first);
    let p = Player {
        id: legacy.id,
        discord_id,
        summoner_name: legacy.summoner_name.clone(),
        tier: legacy.tier,
        score: legacy.score,
        win: legacy.win,
        lose: legacy.lose,
        score_deviation: legacy.score_deviation,
    };
    assert(p@.discord_id =~= migrated(*legacy).discord_id);
    p
}

/// Turns every legacy record into a player, in order.
pub fn migrate_player(legacy: &Vec<PlayerLegacy>) -> (players: Vec<Player>)
    ensures
        players@.len() == legacy@.len(),
        forall|i: int| 0 <= i < legacy@.len() ==> #[trigger] players@[i]@ == migrated(legacy@[i]),
{
    let mut players: Vec<Player> = Vec::new();
    let mut i: usize = 0;
    while i < legacy.len()
        invariant
            i <= legacy.len(),
            players@.len() == i,
            forall|j: int| 0 <= j < i ==> #[trigger] players@[j]@ == migrated(legacy@[j]),
        decreases legacy.len() - i,
    {
        players.push(migrate(&legacy[i]));
        i += 1;
    }
    players
}

} // verus!
