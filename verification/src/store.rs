//! The player records and the game counter that the in-memory database keeps.
use vstd::prelude::*;

use crate::game::{Player, PlayerView, Tier, mention};
use crate::outside::{to_lowercase, lowercase, replace, replaced, parse_i32, parsed_i32};

verus! {

/// The players of `s` as values.
pub open spec fn views(s: Seq<Player>) -> Seq<PlayerView> {
    s.map_values(|p: Player| p@)
}

/// The value of an optional player.
pub open spec fn view_opt(r: Option<Player>) -> Option<PlayerView> {
    match r {
        Some(p) => Some(p@),
        None => None,
    }
}

/// Position `i` holds the first player of `s` that `pred` accepts.
pub open spec fn is_first_match(s: Seq<PlayerView>, pred: spec_fn(PlayerView) -> bool, i: int) -> bool {
    &&& 0 <= i < s.len()
    &&& pred(s[i])
    &&& forall|j: int| 0 <= j < i ==> !pred(#[trigger] s[j])
}

/// The result of looking up the first player that `pred` accepts.
pub open spec fn found(s: Seq<PlayerView>, pred: spec_fn(PlayerView) -> bool, r: Option<PlayerView>) -> bool {
    match r {
        Some(p) => exists|i: int| is_first_match(s, pred, i) && p == s[i],
        None => forall|i: int| 0 <= i < s.len() ==> !pred(#[trigger] s[i]),
    }
}

/// The player is linked to the discord account.
pub open spec fn has_discord(id: u64) -> spec_fn(PlayerView) -> bool {
    |p: PlayerView| p.discord_id.contains(id)
}

/// The player's name equals `name` once both are lower-cased.
pub open spec fn named(name: Seq<char>) -> spec_fn(PlayerView) -> bool {
    |p: PlayerView| lowercase(p.summoner_name) == lowercase(name)
}

/// The player has the id.
pub open spec fn with_id(id: u64) -> spec_fn(PlayerView) -> bool {
    |p: PlayerView| p.id == id
}

/// The first player with the id of `u`, if any, replaced by `u`.
pub open spec fn replace_first(s: Seq<PlayerView>, u: PlayerView) -> Seq<PlayerView> {
    if exists|i: int| is_first_match(s, with_id(u.id), i) {
        s.update(choose|i: int| is_first_match(s, with_id(u.id), i), u)
    } else {
        s
    }
}

/// The players after replacing, for each update in order, the first player with its id.
pub open spec fn apply_updates(s: Seq<PlayerView>, updates: Seq<PlayerView>) -> Seq<PlayerView>
    decreases updates.len(),
{
    if updates.len() == 0 {
        s
    } else {
        replace_first(apply_updates(s, updates.drop_last()), updates.last())
    }
}

/// The first player that `pred` accepts, if any, changed by `f`.
pub open spec fn change_first(s: Seq<PlayerView>, pred: spec_fn(PlayerView) -> bool, f: spec_fn(PlayerView) -> PlayerView) -> Seq<PlayerView> {
    if exists|i: int| is_first_match(s, pred, i) {
        let i = choose|i: int| is_first_match(s, pred, i);
        s.update(i, f(s[i]))
    } else {
        s
    }
}

/// The value of a store: its players, in the order they were created, and the id of the
/// last game.
pub struct PlayerStoreView {
    pub players: Seq<PlayerView>,
    pub last_game_id: i32,
}

/// The players and the game counter of the in-memory database.
pub struct PlayerStore {
    players: Vec<Player>,
    last_game_id: i32,
}

impl View for PlayerStore {
    type V = PlayerStoreView;

    closed spec fn view(&self) -> PlayerStoreView {
        PlayerStoreView { players: views(self.players@), last_game_id: self.last_game_id }
    }
}

proof fn lemma_first_match_unique(s: Seq<PlayerView>, pred: spec_fn(PlayerView) -> bool, i: int, j: int)
    requires
        is_first_match(s, pred, i),
        is_first_match(s, pred, j),
    ensures
        i == j,
{
    if i < j {
        assert(!pred(s[i]));
    }
    if j < i {
        assert(!pred(s[j]));
    }
}

impl PlayerStore {
    /// A store holding the players read back and the id of the last game.
    pub fn new(players: Vec<Player>, last_game_id: i32) -> (store: PlayerStore)
        ensures
            store@.players == views(players@),
            store@.last_game_id == last_game_id,
    {
        PlayerStore { players, last_game_id }
    }

    /// The position of the first player linked to the discord account.
    fn position_with_discord(&self, discord_user_id: u64) -> (r: Option<usize>)
        ensures
            match r {
                Some(i) => is_first_match(self@.players, has_discord(discord_user_id), i as int),
                None => forall|i: int| 0 <= i < self@.players.len() ==> !has_discord(discord_user_id)(#[trigger] self@.players[i]),
            },
    {
        let mut i: usize = 0;
        while i < self.players.len()
            invariant
                i <= self.players.len(),
                self@.players == views(self.players@),
                forall|j: int| 0 <= j < i ==> !has_discord(discord_user_id)(#[trigger] self@.players[j]),
            decreases self.players.len() - i,
        {
            proof { assert(self@.players[i as int] == self.players@[i as int]@); }
            if contains_id(&self.players[i].discord_id, discord_user_id) {
                return Some(i);
            }
            i += 1;
        }
        None
    }

    /// The position of the first player whose lower-cased name is `wanted`.
    fn position_named(&self, wanted: &String, name: Ghost<Seq<char>>) -> (r: Option<usize>)
        requires
            wanted@ == lowercase(name@),
        ensures
            match r {
                Some(i) => is_first_match(self@.players, named(name@), i as int),
                None => forall|i: int| 0 <= i < self@.players.len() ==> !named(name@)(#[trigger] self@.players[i]),
            },
    {
        let mut i: usize = 0;
        while i < self.players.len()
            invariant
                i <= self.players.len(),
                wanted@ == lowercase(name@),
                self@.players == views(self.players@),
                forall|j: int| 0 <= j < i ==> !named(name@)(#[trigger] self@.players[j]),
            decreases self.players.len() - i,
        {
            proof { assert(self@.players[i as int] == self.players@[i as int]@); }
            if to_lowercase(&self.players[i].summoner_name) == *wanted {
                return Some(i);
            }
            i += 1;
        }
        None
    }

    /// The position of the first player with the id.
    fn position_with_id(&self, player_id: u64) -> (r: Option<usize>)
        ensures
            match r {
                Some(i) => is_first_match(self@.players, with_id(player_id), i as int),
                None => forall|i: int| 0 <= i < self@.players.len() ==> !with_id(player_id)(#[trigger] self@.players[i]),
            },
            self@.players == views(self.players@),
            r matches Some(i) ==> i < self.players.len(),
    {
        let mut i: usize = 0;
        while i < self.players.len()
            invariant
                i <= self.players.len(),
                self@.players == views(self.players@),
                forall|j: int| 0 <= j < i ==> !with_id(player_id)(#[trigger] self@.players[j]),
            decreases self.players.len() - i,
        {
            proof { assert(self@.players[i as int] == self.players@[i as int]@); }
            if self.players[i].id == player_id {
                return Some(i);
            }
            i += 1;
        }
        None
    }

    /// The first player linked to the discord account.
    pub fn select_player_with_discord_user_id(&self, discord_user_id: u64) -> (r: Option<Player>)
        ensures
            found(self@.players, has_discord(discord_user_id), view_opt(r)),
    {
        let pos = self.position_with_discord(discord_user_id);
        self.clone_at(pos, Ghost(has_discord(discord_user_id)))
    }

    /// The first player whose name equals `summoner_name` once both are lower-cased.
    pub fn select_player_with_summoner_name(&self, summoner_name: String) -> (r: Option<Player>)
        ensures
            found(self@.players, named(summoner_name@), view_opt(r)),
    {
        let wanted = to_lowercase(&summoner_name);
        let pos = self.position_named(&wanted, Ghost(summoner_name@));
        self.clone_at(pos, Ghost(named(summoner_name@)))
    }

    fn clone_at(&self, pos: Option<usize>, pred: Ghost<spec_fn(PlayerView) -> bool>) -> (r: Option<Player>)
        requires
            match pos {
                Some(i) => is_first_match(self@.players, pred@, i as int),
                None => forall|i: int| 0 <= i < self@.players.len() ==> !pred@(#[trigger] self@.players[i]),
            },
        ensures
            found(self@.players, pred@, view_opt(r)),
    {
        proof { assert(self@.players == views(self.players@)); }
        match pos {
            Some(i) => {
                let p = self.players[i].clone();
                assert(p@ == self@.players[i as int]);
                Some(p)
            },
            None => None,
        }
    }

    /// Copies of all players, in order.
    pub fn select_all_player(&self) -> (all: Vec<Player>)
        ensures
            views(all@) == self@.players,
    {
        let mut all: Vec<Player> = Vec::new();
        let mut i: usize = 0;
        while i < self.players.len()
            invariant
                i <= self.players.len(),
                self@.players == views(self.players@),
                views(all@) == self@.players.take(i as int),
            decreases self.players.len() - i,
        {
            let p = self.players[i].clone();
            let ghost before = all@;
            all.push(p);
            proof {
                assert(p@ == self@.players[i as int]);
                assert(all@ == before.push(p));
                assert(views(all@) =~= views(before).push(p@));
            }
            i += 1;
            assert(views(all@) =~= self@.players.take(i as int));
        }
        assert(self@.players.take(i as int) =~= self@.players);
        all
    }

    /// Sets the score of the first player with the id; there must be one.
    pub fn update_player_score(&mut self, player_id: u64, score: i32)
        requires
            exists|i: int| 0 <= i < old(self)@.players.len() && #[trigger] old(self)@.players[i].id == player_id,
        ensures
            final(self)@.players == change_first(old(self)@.players, with_id(player_id),
                |p: PlayerView| PlayerView { score: score, ..p }),
            final(self)@.last_game_id == old(self)@.last_game_id,
    {
        let i = self.first_with_id(player_id);
        let ghost s = old(self)@.players;
        let mut player = self.players.remove(i);
        player.score = score;
        self.players.insert(i, player);
        proof {
            assert(exists|k: int| is_first_match(s, with_id(player_id), k));
            let k = choose|k: int| is_first_match(s, with_id(player_id), k);
            lemma_first_match_unique(s, with_id(player_id), k, i as int);
            assert(views(self.players@) =~= s.update(i as int, PlayerView { score: score, ..s[i as int] }));
        }
    }

    /// Links one more discord account to the first player with the id; there must be one.
    pub fn update_discord_id_to_player(&mut self, player_id: u64, discord_user_id: u64)
        requires
            exists|i: int| 0 <= i < old(self)@.players.len() && #[trigger] old(self)@.players[i].id == player_id,
        ensures
            final(self)@.players == change_first(old(self)@.players, with_id(player_id),
                |p: PlayerView| PlayerView { discord_id: p.discord_id.push(discord_user_id), ..p }),
            final(self)@.last_game_id == old(self)@.last_game_id,
    {
        let i = self.first_with_id(player_id);
        let ghost s = old(self)@.players;
        let mut player = self.players.remove(i);
        player.discord_id.push(discord_user_id);
        self.players.insert(i, player);
        proof {
            assert(exists|k: int| is_first_match(s, with_id(player_id), k));
            let k = choose|k: int| is_first_match(s, with_id(player_id), k);
            lemma_first_match_unique(s, with_id(player_id), k, i as int);
            assert(views(self.players@) =~= s.update(i as int,
                PlayerView { discord_id: s[i as int].discord_id.push(discord_user_id), ..s[i as int] }));
        }
    }

    fn first_with_id(&self, player_id: u64) -> (i: usize)
        requires
            exists|i: int| 0 <= i < self@.players.len() && #[trigger] self@.players[i].id == player_id,
        ensures
            is_first_match(self@.players, with_id(player_id), i as int),
            i < self.players.len(),
            self@.players == views(self.players@),
    {
        let pos = self.position_with_id(player_id);
        match pos {
            Some(i) => i,
            None => {
                proof {
                    let k = choose|k: int| 0 <= k < self@.players.len() && #[trigger] self@.players[k].id == player_id;
                    assert(!with_id(player_id)(self@.players[k]));
                }
                unreached()
            },
        }
    }

    /// Replaces, for each new player in order, the first stored player with the same id by a
    /// copy of the new one; new players without a stored match are left out.
    pub fn update_players(&mut self, new_players: &Vec<Player>)
        ensures
            final(self)@.players == apply_updates(old(self)@.players, views(new_players@)),
            final(self)@.last_game_id == old(self)@.last_game_id,
    {
        let ghost s0 = old(self)@.players;
        let mut k: usize = 0;
        while k < new_players.len()
            invariant
                k <= new_players.len(),
                self@.players == apply_updates(s0, views(new_players@).take(k as int)),
                self@.last_game_id == old(self)@.last_game_id,
                s0 == old(self)@.players,
            decreases new_players.len() - k,
        {
            let ghost before = self@.players;
            let ghost u = new_players@[k as int]@;
            proof {
                assert(views(new_players@).take(k + 1).drop_last() =~= views(new_players@).take(k as int));
                assert(views(new_players@).take(k + 1).last() == u);
            }
            let id = new_players[k].id;
            let pos = self.position_with_id(id);
            match pos {
                Some(i) => {
                    let copy = new_players[k].clone();
                    self.players.remove(i);
                    self.players.insert(i, copy);
                    proof {
                        let j = choose|j: int| is_first_match(before, with_id(u.id), j);
                        lemma_first_match_unique(before, with_id(u.id), j, i as int);
                        assert(views(self.players@) =~= before.update(i as int, u));
                    }
                },
                None => {
                    proof {
                        assert(!exists|j: int| is_first_match(before, with_id(u.id), j));
                    }
                },
            }
            k += 1;
        }
        assert(views(new_players@).take(new_players.len() as int) =~= views(new_players@));
    }

    /// Stores a copy of the player at the end. Always succeeds.
    pub fn create_player(&mut self, player: &Player) -> (created: bool)
        ensures
            created,
            final(self)@.players == old(self)@.players.push(player@),
            final(self)@.last_game_id == old(self)@.last_game_id,
    {
        let copy = player.clone();
        self.players.push(copy);
        assert(views(self.players@) =~= old(self)@.players.push(player@));
        true
    }

    /// Registers a new player for the discord account, numbered one past the number of
    /// stored players.
    pub fn create_player_with_discord_user_id(&mut self, discord_user_id: u64, summoner_name: String, tier: Tier) -> (player: Player)
        requires
            old(self)@.players.len() < usize::MAX,
        ensures
            player.id == old(self)@.players.len() + 1,
            player.discord_id@ == seq![discord_user_id],
            player.summoner_name@ == summoner_name@,
            player.tier == tier,
            player.score == 1200,
            player.win == 0,
            player.lose == 0,
            player.score_deviation == 200,
            final(self)@.players == old(self)@.players.push(player@),
            final(self)@.last_game_id == old(self)@.last_game_id,
    {
        let id = self.next_player_id();
        let player = Player::new(id, discord_user_id, summoner_name, tier);
        self.create_player(&player);
        player
    }

    /// Registers a new player known by the discord account only, numbered one past the
    /// number of stored players.
    pub fn create_player_with_discord_user_id_v2(&mut self, discord_user_id: u64) -> (player: Player)
        requires
            old(self)@.players.len() < usize::MAX,
        ensures
            player.id == old(self)@.players.len() + 1,
            player.discord_id@ == seq![discord_user_id],
            player.summoner_name@ == mention(discord_user_id),
            player.tier == Tier::Challenger,
            player.score == 1300,
            player.win == 0,
            player.lose == 0,
            player.score_deviation == 200,
            final(self)@.players == old(self)@.players.push(player@),
            final(self)@.last_game_id == old(self)@.last_game_id,
    {
        let id = self.next_player_id();
        let player = Player::new_v2(id, discord_user_id);
        self.create_player(&player);
        player
    }

    fn next_player_id(&self) -> (id: u64)
        requires
            self@.players.len() < usize::MAX,
        ensures
            id == self@.players.len() + 1,
    {
        proof { assert(self@.players.len() == self.players@.len()); }
        player_id_after(self.players.len())
    }

    /// The id of the last game.
    pub fn last_game_id(&self) -> (id: i32)
        ensures
            id == self@.last_game_id,
    {
        self.last_game_id
    }

    /// Counts one more game and returns its id.
    pub fn get_and_increase_new_game_id(&mut self) -> (id: i32)
        requires
            old(self)@.last_game_id < i32::MAX,
        ensures
            id == old(self)@.last_game_id + 1,
            final(self)@.last_game_id == id,
            final(self)@.players == old(self)@.players,
    {
        self.last_game_id = self.last_game_id + 1;
        self.last_game_id
    }

    /// Notes a game that was written out: its id, cut to `i32`, becomes the last game id.
    /// A game that could not be written changes nothing.
    pub fn record_created_game(&mut self, game_id: u64, written: bool)
        ensures
            final(self)@.last_game_id == (if written { game_id as i32 } else { old(self)@.last_game_id }),
            final(self)@.players == old(self)@.players,
    {
        if written {
            self.last_game_id = game_id as i32;
        }
    }
}

/// The id of a new player: one past the number of players stored so far.
pub fn player_id_after(stored: usize) -> (id: u64)
    requires
        stored < usize::MAX,
    ensures
        id == stored + 1,
{
    (stored + 1) as u64
}

/// The ids handed out by the hosted database, one past the last stored game first.
pub struct GameIdCounter {
    pub game_id: i32,
}

impl GameIdCounter {
    /// A counter whose first id follows the last stored game, or is 1 when none is stored.
    pub fn after_last(last_game_id: Option<i32>) -> (counter: GameIdCounter)
        requires
            last_game_id matches Some(l) ==> l < i32::MAX,
        ensures
            counter.game_id == (match last_game_id {
                Some(l) => l + 1,
                None => 1,
            }),
    {
        let last = match last_game_id {
            Some(l) => l,
            None => 0,
        };
        GameIdCounter { game_id: last + 1 }
    }

    /// Hands out the current id and moves on to the next one.
    pub fn get_and_increase_new_game_id(&mut self) -> (id: i32)
        requires
            old(self).game_id < i32::MAX,
        ensures
            id == old(self).game_id,
            final(self).game_id == old(self).game_id + 1,
    {
        let new_game_id = self.game_id;
        self.game_id = self.game_id + 1;
        new_game_id
    }
}

/// The game id that a saved game's file name spells, once `.json` is taken out.
pub open spec fn file_game_id(name: Seq<char>) -> Option<i32> {
    parsed_i32(replaced(name, ".json"@, ""@))
}

/// The largest of the ids, or 0 when there is none.
pub open spec fn max_or_zero(ids: Seq<i32>) -> i32
    decreases ids.len(),
{
    if ids.len() == 0 {
        0
    } else if ids.len() == 1 {
        ids[0]
    } else {
        let rest = max_or_zero(ids.drop_last());
        if ids.last() > rest { ids.last() } else { rest }
    }
}

/// The game id a saved game's file name spells.
pub fn game_id_of_file_name(name: &str) -> (id: Option<i32>)
    ensures
        id == file_game_id(name@),
{
    proof { reveal_strlit(".json"); reveal_strlit(""); }
    let stripped = replace(name, ".json", "");
    parse_i32(stripped.as_str())
}

/// The id of the last saved game, from the file names of the saved games: the largest id, or
/// 0 when there are no files; `None` when a name spells no id.
pub fn last_game_id_of_files(names: &Vec<String>) -> (last: Option<i32>)
    ensures
        match last {
            Some(m) => (forall|i: int| 0 <= i < names@.len() ==> #[trigger] file_game_id(names@[i]@) is Some)
                && m == max_or_zero(Seq::new(names@.len(), |i: int| file_game_id(names@[i]@)->0)),
            None => exists|i: int| 0 <= i < names@.len() && #[trigger] file_game_id(names@[i]@) is None,
        },
{
    let ghost ids = Seq::new(names@.len(), |i: int| file_game_id(names@[i]@)->0);
    let mut best: i32 = 0;
    let mut i: usize = 0;
    while i < names.len()
        invariant
            i <= names.len(),
            ids == Seq::new(names@.len(), |i: int| file_game_id(names@[i]@)->0),
            forall|j: int| 0 <= j < i ==> #[trigger] file_game_id(names@[j]@) is Some,
            best == max_or_zero(ids.take(i as int)),
        decreases names.len() - i,
    {
        match game_id_of_file_name(names[i].as_str()) {
            None => {
                return None;
            },
            Some(id) => {
                proof {
                    assert(ids.take(i + 1).drop_last() =~= ids.take(i as int));
                    assert(ids.take(i + 1).last() == id);
                }
                if i == 0 || id > best {
                    best = id;
                }
                i += 1;
            },
        }
    }
    assert(ids.take(i as int) =~= ids);
    Some(best)
}

/// A player stored for a discord account that no stored player is linked to is what a lookup
/// by that account finds afterwards.
pub proof fn lemma_created_player_found(players: Seq<PlayerView>, p: PlayerView, discord_user_id: u64)
    requires
        forall|i: int| 0 <= i < players.len() ==> !has_discord(discord_user_id)(#[trigger] players[i]),
        p.discord_id.contains(discord_user_id),
    ensures
        found(players.push(p), has_discord(discord_user_id), Some(p)),
{
    let s = players.push(p);
    assert(is_first_match(s, has_discord(discord_user_id), players.len() as int)) by {
        assert forall|j: int| 0 <= j < players.len() implies !has_discord(discord_user_id)(#[trigger] s[j]) by {
            assert(s[j] == players[j]);
        }
    }
}

/// A lookup finds at most one answer: the first match.
pub proof fn lemma_found_unique(s: Seq<PlayerView>, pred: spec_fn(PlayerView) -> bool, a: Option<PlayerView>, b: Option<PlayerView>)
    requires
        found(s, pred, a),
        found(s, pred, b),
    ensures
        a == b,
{
    match (a, b) {
        (Some(x), Some(y)) => {
            let i = choose|i: int| is_first_match(s, pred, i) && x == s[i];
            let j = choose|j: int| is_first_match(s, pred, j) && y == s[j];
            lemma_first_match_unique(s, pred, i, j);
        },
        (Some(x), None) => {
            let i = choose|i: int| is_first_match(s, pred, i) && x == s[i];
            assert(!pred(s[i]));
        },
        (None, Some(y)) => {
            let j = choose|j: int| is_first_match(s, pred, j) && y == s[j];
            assert(!pred(s[j]));
        },
        (None, None) => {},
    }
}

/// Setting a player's score and reading the player back by id gives the new score.
pub proof fn lemma_score_update_read_back(players: Seq<PlayerView>, player_id: u64, score: i32)
    requires
        exists|i: int| 0 <= i < players.len() && #[trigger] players[i].id == player_id,
    ensures
        ({
            let after = change_first(players, with_id(player_id), |p: PlayerView| PlayerView { score: score, ..p });
            exists|i: int| is_first_match(after, with_id(player_id), i) && #[trigger] after[i].score == score
        }),
{
    let k = choose|k: int| 0 <= k < players.len() && #[trigger] players[k].id == player_id;
    lemma_first_exists(players, with_id(player_id), k);
    let i = choose|i: int| is_first_match(players, with_id(player_id), i);
    let after = change_first(players, with_id(player_id), |p: PlayerView| PlayerView { score: score, ..p });
    assert(after[i].score == score);
    assert(is_first_match(after, with_id(player_id), i)) by {
        assert forall|j: int| 0 <= j < i implies !with_id(player_id)(#[trigger] after[j]) by {
            assert(after[j] == players[j]);
        }
    }
}

/// Where some player matches, a first one does.
proof fn lemma_first_exists(s: Seq<PlayerView>, pred: spec_fn(PlayerView) -> bool, k: int)
    requires
        0 <= k < s.len(),
        pred(s[k]),
    ensures
        exists|i: int| is_first_match(s, pred, i),
    decreases k,
{
    if exists|j: int| 0 <= j < k && pred(#[trigger] s[j]) {
        let j = choose|j: int| 0 <= j < k && pred(#[trigger] s[j]);
        lemma_first_exists(s, pred, j);
    } else {
        assert(is_first_match(s, pred, k));
    }
}

fn contains_id(ids: &Vec<u64>, id: u64) -> (r: bool)
    ensures
        r == ids@.contains(id),
{
    let mut i: usize = 0;
    while i < ids.len()
        invariant
            i <= ids.len(),
            forall|j: int| 0 <= j < i ==> ids@[j] != id,
        decreases ids.len() - i,
    {
        if ids[i] == id {
            return true;
        }
        i += 1;
    }
    false
}

} // verus!
