//! Games, players and tiers.
use vstd::prelude::*;

use crate::text::{decimal, push_decimal, i32_to_text, signed_decimal, text_is};
use crate::outside::{random_in, shuffle};

verus! {

/// Where a game stands: filling up, full, decided (`true` when blue won), or shown on the board.
#[allow(non_camel_case_types)]
#[derive(Debug, PartialEq, Eq, Structural, Clone, Copy)]
pub enum State {
    queue,
    ready,
    result(bool),
    board,
}

/// A division inside a tier, `I` the highest.
#[derive(Debug, PartialEq, Eq, Structural, Clone, Copy)]
pub enum Division {
    I,
    II,
    III,
    IV,
}

/// A ranked tier.
#[derive(Debug, PartialEq, Eq, Structural, Clone, Copy)]
pub enum Tier {
    Iron(Division),
    Bronze(Division),
    Silver(Division),
    Gold(Division),
    Platinum(Division),
    Diamond(Division),
    Master,
    GrandMaster,
    Challenger,
}

/// A registered player and their rating.
pub struct Player {
    pub id: u64,
    pub discord_id: Vec<u64>,
    pub summoner_name: String,
    pub tier: Tier,
    pub score: i32,
    pub win: i32,
    pub lose: i32,
    pub score_deviation: i32,
}

/// The mathematical value of a player.
pub struct PlayerView {
    pub id: u64,
    pub discord_id: Seq<u64>,
    pub summoner_name: Seq<char>,
    pub tier: Tier,
    pub score: i32,
    pub win: i32,
    pub lose: i32,
    pub score_deviation: i32,
}

impl View for Player {
    type V = PlayerView;

    open spec fn view(&self) -> PlayerView {
        PlayerView {
            id: self.id,
            discord_id: self.discord_id@,
            summoner_name: self.summoner_name@,
            tier: self.tier,
            score: self.score,
            win: self.win,
            lose: self.lose,
            score_deviation: self.score_deviation,
        }
    }
}

/// A copy of a list of ids.
pub fn copy_ids(ids: &Vec<u64>) -> (res: Vec<u64>)
    ensures
        res@ == ids@,
{
    let mut res: Vec<u64> = Vec::new();
    let mut i: usize = 0;
    while i < ids.len()
        invariant
            i <= ids.len(),
            res@ == ids@.take(i as int),
        decreases ids.len() - i,
    {
        res.push(ids[i]);
        i += 1;
        assert(res@ =~= ids@.take(i as int));
    }
    assert(ids@.take(ids.len() as int) =~= ids@);
    res
}

impl Clone for Player {
    fn clone(&self) -> (res: Self)
        ensures
            res@ == self@,
    {
        Player {
            id: self.id,
            discord_id: copy_ids(&self.discord_id),
            summoner_name: self.summoner_name.clone(),
            tier: self.tier,
            score: self.score,
            win: self.win,
            lose: self.lose,
            score_deviation: self.score_deviation,
        }
    }
}

/// The rating deviation of a player who has not played yet.
pub fn score_deviation() -> (r: i32)
    ensures
        r == 200,
{
    200
}

impl Player {
    /// A new player with the given discord id and summoner name.
    pub fn new(id: u64, discord_id: u64, summoner_name: String, tier: Tier) -> (p: Player)
        ensures
            p.id == id,
            p.discord_id@ == seq![discord_id],
            p.summoner_name@ == summoner_name@,
            p.tier == tier,
            p.score == 1200,
            p.win == 0,
            p.lose == 0,
            p.score_deviation == 200,
    {
        let score: i32 = 1200;
        let mut ids: Vec<u64> = Vec::new();
        ids.push(discord_id);
        Player {
            id,
            discord_id: ids,
            summoner_name,
            tier,
            score: score,
            win: 0,
            lose: 0,
            score_deviation: score_deviation(),
        }
    }

    /// A new player known by a discord id only; the name is the discord mention `<@id>`.
    pub fn new_v2(id: u64, discord_id: u64) -> (p: Player)
        ensures
            p.id == id,
            p.discord_id@ == seq![discord_id],
            p.summoner_name@ == mention(discord_id),
            p.tier == Tier::Challenger,
            p.score == 1300,
            p.win == 0,
            p.lose == 0,
            p.score_deviation == 200,
    {
        let mut ids: Vec<u64> = Vec::new();
        ids.push(discord_id);
        Player {
            id,
            discord_id: ids,
            summoner_name: mention_text(discord_id),
            tier: Tier::Challenger,
            score: 1300,
            win: 0,
            lose: 0,
            score_deviation: score_deviation(),
        }
    }

    /// A stand-in player for trying out a lobby: a random id below 100000000, a score drawn
    /// from 1000, 1100, ..., 1600, and that score as its name.
    pub fn random_dummy() -> (p: Player)
        ensures
            1 <= p.id < 100000000,
            p.discord_id@ == Seq::<u64>::empty(),
            p.summoner_name@ == signed_decimal(p.score as int),
            p.tier == Tier::Diamond(Division::II),
            dummy_score(p.score),
            p.win == 0,
            p.lose == 0,
            p.score_deviation == 200,
    {
        let id = random_in(1, 100000000);
        let mut scores: Vec<i32> = vec![1000, 1100, 1200, 1300, 1400, 1500, 1600];
        let ghost before = scores@;
        proof { before.to_multiset_ensures(); }
        shuffle(&mut scores);
        proof {
            scores@.to_multiset_ensures();
            assert(scores@.contains(scores@[0]));
            assert(scores@.to_multiset().count(scores@[0]) > 0);
            assert(before.to_multiset().count(scores@[0]) > 0);
            assert(before.contains(scores@[0]));
            let k = choose|k: int| 0 <= k < before.len() && before[k] == scores@[0];
            assert(dummy_score(before[k]));
        }
        let score = scores[0];
        Player {
            id,
            discord_id: Vec::new(),
            summoner_name: i32_to_text(score),
            tier: Tier::Diamond(Division::II),
            score: score,
            win: 0,
            lose: 0,
            score_deviation: score_deviation(),
        }
    }

    /// Records a won game with the new rating.
    pub fn win(&mut self, score: i32, score_deviation: i32)
        requires
            old(self).win < i32::MAX,
        ensures
            final(self).win == old(self).win + 1,
            final(self).score == score,
            final(self).score_deviation == score_deviation,
            final(self).lose == old(self).lose,
            final(self).id == old(self).id,
            final(self).discord_id == old(self).discord_id,
            final(self).summoner_name == old(self).summoner_name,
            final(self).tier == old(self).tier,
    {
        self.win += 1;
        self.score = score;
        self.score_deviation = score_deviation;
    }

    /// Records a lost game with the new rating.
    pub fn lose(&mut self, score: i32, score_deviation: i32)
        requires
            old(self).lose < i32::MAX,
        ensures
            final(self).lose == old(self).lose + 1,
            final(self).score == score,
            final(self).score_deviation == score_deviation,
            final(self).win == old(self).win,
            final(self).id == old(self).id,
            final(self).discord_id == old(self).discord_id,
            final(self).summoner_name == old(self).summoner_name,
            final(self).tier == old(self).tier,
    {
        self.lose += 1;
        self.score = score;
        self.score_deviation = score_deviation;
    }

    /// Links one more discord account to the player.
    pub fn add_discord_id(&mut self, discord_id: u64)
        ensures
            final(self).discord_id@ == old(self).discord_id@.push(discord_id),
            final(self).id == old(self).id,
            final(self).summoner_name == old(self).summoner_name,
            final(self).tier == old(self).tier,
            final(self).score == old(self).score,
            final(self).win == old(self).win,
            final(self).lose == old(self).lose,
            final(self).score_deviation == old(self).score_deviation,
    {
        self.discord_id.push(discord_id);
    }
}

/// The scores a stand-in player can get.
pub open spec fn dummy_score(s: i32) -> bool {
    s == 1000 || s == 1100 || s == 1200 || s == 1300 || s == 1400 || s == 1500 || s == 1600
}

/// The discord mention of an account: `<@` and the decimal id and `>`.
pub open spec fn mention(discord_id: u64) -> Seq<char> {
    seq!['<', '@'] + decimal(discord_id as nat) + seq!['>']
}

/// The discord mention text of an account.
pub fn mention_text(discord_id: u64) -> (s: String)
    ensures
        s@ == mention(discord_id),
{
    let mut s = String::new();
    proof { reveal_strlit("<@"); reveal_strlit(">"); }
    s.append("<@");
    push_decimal(&mut s, discord_id);
    s.append(">");
    assert(s@ =~= mention(discord_id));
    s
}

/// The names of the tiers, lowest first.
pub open spec fn tier_names() -> Seq<Seq<char>> {
    seq![
        "Iron"@,
        "Bronze"@,
        "Silver"@,
        "Gold"@,
        "Platinum"@,
        "Diamond"@,
        "Master"@,
        "GrandMaster"@,
        "Challenger"@,
    ]
}

/// The division numbered `n` (1 to 4), if there is one.
pub open spec fn division_of(n: i32) -> Option<Division> {
    if n == 1 { Some(Division::I) }
    else if n == 2 { Some(Division::II) }
    else if n == 3 { Some(Division::III) }
    else if n == 4 { Some(Division::IV) }
    else { None }
}

/// The tier named `name` in the division numbered `division`, if both are valid.
/// The division is checked for every tier, also those that have none.
pub open spec fn tier_of(name: Seq<char>, division: i32) -> Option<Tier> {
    match division_of(division) {
        None => None,
        Some(d) => {
            if name == "Iron"@ { Some(Tier::Iron(d)) }
            else if name == "Bronze"@ { Some(Tier::Bronze(d)) }
            else if name == "Silver"@ { Some(Tier::Silver(d)) }
            else if name == "Gold"@ { Some(Tier::Gold(d)) }
            else if name == "Platinum"@ { Some(Tier::Platinum(d)) }
            else if name == "Diamond"@ { Some(Tier::Diamond(d)) }
            else if name == "Master"@ { Some(Tier::Master) }
            else if name == "GrandMaster"@ { Some(Tier::GrandMaster) }
            else if name == "Challenger"@ { Some(Tier::Challenger) }
            else { None }
        },
    }
}

/// The division of a divided tier.
pub open spec fn tier_division(t: Tier) -> Option<Division> {
    match t {
        Tier::Iron(d) => Some(d),
        Tier::Bronze(d) => Some(d),
        Tier::Silver(d) => Some(d),
        Tier::Gold(d) => Some(d),
        Tier::Platinum(d) => Some(d),
        Tier::Diamond(d) => Some(d),
        _ => None,
    }
}

/// Division numbers 1 to 4 read as the divisions from the highest down: number `n` gives the
/// division `4 - n` steps above the lowest, so different numbers give different divisions and
/// every division has its number; other numbers give none.
pub proof fn lemma_division_numbers(n: i32)
    ensures
        division_of(n) is Some <==> 1 <= n <= 4,
        division_of(n) matches Some(d) ==> division_step(d) == 4 - n,
{
}

/// A divided tier read from its name keeps the division its number gives.
pub proof fn lemma_tier_keeps_division(name: Seq<char>, n: i32)
    ensures
        tier_of(name, n) matches Some(t) ==> (tier_division(t) matches Some(d) ==> division_step(d) == 4 - n),
        tier_of(name, n) is Some ==> 1 <= n <= 4,
{
    lemma_division_numbers(n);
}

/// The steps of a division above the lowest one (IV is 0, I is 3).
pub open spec fn division_step(d: Division) -> int {
    match d {
        Division::IV => 0,
        Division::III => 1,
        Division::II => 2,
        Division::I => 3,
    }
}

/// The starting score of a tier: 400 per divided tier and 100 per division step,
/// then 2400, 2600 and 2800 for the three top tiers.
pub open spec fn init_score(t: Tier) -> int {
    match t {
        Tier::Iron(d) => 0 + 100 * division_step(d),
        Tier::Bronze(d) => 400 + 100 * division_step(d),
        Tier::Silver(d) => 800 + 100 * division_step(d),
        Tier::Gold(d) => 1200 + 100 * division_step(d),
        Tier::Platinum(d) => 1600 + 100 * division_step(d),
        Tier::Diamond(d) => 2000 + 100 * division_step(d),
        Tier::Master => 2400,
        Tier::GrandMaster => 2600,
        Tier::Challenger => 2800,
    }
}


/// A lobby of up to ten players split into two teams by `team_bit`:
/// the player at position `i` (below 10) is blue when bit `i` is set, red otherwise.
pub struct Game {
    pub id: u64,
    pub players: Vec<Player>,
    pub state: State,
    pub team_bit: i32,
}

impl Clone for Game {
    fn clone(&self) -> (res: Self)
        ensures
            res.id == self.id,
            res.players@.len() == self.players@.len(),
            forall|i: int| 0 <= i < self.players@.len() ==> #[trigger] res.players@[i]@ == self.players@[i]@,
            res.state == self.state,
            res.team_bit == self.team_bit,
    {
        let mut players: Vec<Player> = Vec::with_capacity(self.players.len());
        let mut i: usize = 0;
        while i < self.players.len()
            invariant
                i <= self.players.len(),
                players@.len() == i,
                forall|j: int| 0 <= j < i ==> #[trigger] players@[j]@ == self.players@[j]@,
            decreases self.players.len() - i,
        {
            players.push(self.players[i].clone());
            i += 1;
        }
        Game { id: self.id, players, state: self.state, team_bit: self.team_bit }
    }
}

/// Whether bit `i` of the team bits puts position `i` on the blue team.
pub open spec fn is_blue(bits: i32, i: usize) -> bool {
    bits & (1i32 << i) != 0
}

/// The positions below `n` on the blue (`blue`) or the red (`!blue`) team, in increasing order.
pub open spec fn team_positions(bits: i32, blue: bool, n: nat) -> Seq<usize>
    decreases n,
{
    if n == 0 {
        Seq::empty()
    } else {
        let prev = team_positions(bits, blue, (n - 1) as nat);
        if is_blue(bits, (n - 1) as usize) == blue {
            prev.push((n - 1) as usize)
        } else {
            prev
        }
    }
}

/// Some player of `players` has the id.
pub open spec fn has_id(players: Seq<Player>, id: u64) -> bool {
    exists|i: int| 0 <= i < players.len() && #[trigger] players[i].id == id
}

/// The players whose id differs from `id`, in their order.
pub open spec fn players_except(players: Seq<Player>, id: u64) -> Seq<Player>
    decreases players.len(),
{
    if players.len() == 0 {
        players
    } else {
        let rest = players_except(players.drop_last(), id);
        if players.last().id != id {
            rest.push(players.last())
        } else {
            rest
        }
    }
}

/// The number of players of `players` with the id.
pub open spec fn count_id(players: Seq<Player>, id: u64) -> nat
    decreases players.len(),
{
    if players.len() == 0 {
        0
    } else {
        count_id(players.drop_last(), id) + (if players.last().id == id { 1nat } else { 0nat })
    }
}

/// Removing the players with an id drops exactly as many players as carry it.
pub proof fn lemma_except_len(players: Seq<Player>, id: u64)
    ensures
        players_except(players, id).len() + count_id(players, id) == players.len(),
    decreases players.len(),
{
    if players.len() > 0 {
        lemma_except_len(players.drop_last(), id);
    }
}

proof fn lemma_except_push(players: Seq<Player>, p: Player, id: u64)
    ensures
        players_except(players.push(p), id) == (if p.id != id { players_except(players, id).push(p) } else { players_except(players, id) }),
        count_id(players.push(p), id) == count_id(players, id) + (if p.id == id { 1nat } else { 0nat }),
{
    assert(players.push(p).drop_last() =~= players);
}

/// The team positions are increasing and below `n`.
pub proof fn lemma_team_positions_bounded(bits: i32, blue: bool, n: nat)
    requires
        n <= usize::MAX,
    ensures
        team_positions(bits, blue, n).len() <= n,
        forall|k: int| 0 <= k < team_positions(bits, blue, n).len() ==> #[trigger] team_positions(bits, blue, n)[k] < n,
        forall|k: int, l: int| 0 <= k < l < team_positions(bits, blue, n).len()
            ==> team_positions(bits, blue, n)[k] < team_positions(bits, blue, n)[l],
    decreases n,
{
    if n > 0 {
        let prev = team_positions(bits, blue, (n - 1) as nat);
        lemma_team_positions_bounded(bits, blue, (n - 1) as nat);
        if is_blue(bits, (n - 1) as usize) == blue {
            let cur = prev.push((n - 1) as usize);
            assert(forall|k: int| 0 <= k < prev.len() ==> cur[k] == prev[k]);
            assert((n - 1) as usize == n - 1);
        }
    }
}

/// Every position below `n` is on exactly one team: the two teams together hold `n` positions.
pub proof fn lemma_teams_partition(bits: i32, n: nat)
    ensures
        team_positions(bits, true, n).len() + team_positions(bits, false, n).len() == n,
    decreases n,
{
    if n > 0 {
        lemma_teams_partition(bits, (n - 1) as nat);
    }
}

/// The team positions below `m` come first, in the same order, among those below `n`.
pub proof fn lemma_positions_prefix(bits: i32, blue: bool, m: nat, n: nat)
    requires
        m <= n <= usize::MAX,
    ensures
        team_positions(bits, blue, m).len() <= team_positions(bits, blue, n).len(),
        team_positions(bits, blue, n).take(team_positions(bits, blue, m).len() as int) == team_positions(bits, blue, m),
    decreases n,
{
    if n > m {
        lemma_positions_prefix(bits, blue, m, (n - 1) as nat);
        let prev = team_positions(bits, blue, (n - 1) as nat);
        let short = team_positions(bits, blue, m);
        if is_blue(bits, (n - 1) as usize) == blue {
            assert(prev.push((n - 1) as usize).take(short.len() as int) =~= prev.take(short.len() as int));
        }
    } else {
        assert(team_positions(bits, blue, n).take(team_positions(bits, blue, m).len() as int) =~= team_positions(bits, blue, m));
    }
}

/// The team positions below 10 come first, in the same order, among the team positions of a
/// longer list: a team taken from the first ten players and one taken from all players agree
/// on those ten.
pub proof fn lemma_first_ten_lead(bits: i32, blue: bool, n: nat)
    requires
        10 <= n <= usize::MAX,
    ensures
        team_positions(bits, blue, 10).len() <= team_positions(bits, blue, n).len(),
        team_positions(bits, blue, n).take(team_positions(bits, blue, 10).len() as int) == team_positions(bits, blue, 10),
        forall|k: int| team_positions(bits, blue, 10).len() <= k < team_positions(bits, blue, n).len()
            ==> #[trigger] team_positions(bits, blue, n)[k] >= 10,
    decreases n,
{
    if n > 10 {
        lemma_first_ten_lead(bits, blue, (n - 1) as nat);
        let prev = team_positions(bits, blue, (n - 1) as nat);
        let short = team_positions(bits, blue, 10);
        lemma_team_positions_bounded(bits, blue, 10);
        lemma_team_positions_bounded(bits, blue, (n - 1) as nat);
        if is_blue(bits, (n - 1) as usize) == blue {
            assert(prev.push((n - 1) as usize).take(short.len() as int) =~= prev.take(short.len() as int));
        }
    } else {
        assert(team_positions(bits, blue, n).take(team_positions(bits, blue, 10).len() as int) =~= team_positions(bits, blue, 10));
    }
}

/// A new game puts the first five positions on the blue team and the next five on the red team.
pub proof fn lemma_new_game_teams()
    ensures
        team_positions(0b11111, true, 10) == seq![0usize, 1, 2, 3, 4],
        team_positions(0b11111, false, 10) == seq![5usize, 6, 7, 8, 9],
{
    let bits: i32 = 0b11111;
    assert(bits & (1i32 << 0usize) != 0) by (bit_vector) requires bits == 0b11111i32;
    assert(bits & (1i32 << 1usize) != 0) by (bit_vector) requires bits == 0b11111i32;
    assert(bits & (1i32 << 2usize) != 0) by (bit_vector) requires bits == 0b11111i32;
    assert(bits & (1i32 << 3usize) != 0) by (bit_vector) requires bits == 0b11111i32;
    assert(bits & (1i32 << 4usize) != 0) by (bit_vector) requires bits == 0b11111i32;
    assert(bits & (1i32 << 5usize) == 0) by (bit_vector) requires bits == 0b11111i32;
    assert(bits & (1i32 << 6usize) == 0) by (bit_vector) requires bits == 0b11111i32;
    assert(bits & (1i32 << 7usize) == 0) by (bit_vector) requires bits == 0b11111i32;
    assert(bits & (1i32 << 8usize) == 0) by (bit_vector) requires bits == 0b11111i32;
    assert(bits & (1i32 << 9usize) == 0) by (bit_vector) requires bits == 0b11111i32;
    reveal_with_fuel(team_positions, 11);
    assert(team_positions(bits, true, 10) =~= seq![0usize, 1, 2, 3, 4]);
    assert(team_positions(bits, false, 10) =~= seq![5usize, 6, 7, 8, 9]);
}

/// Removing the players with an id that nobody has changes nothing.
proof fn lemma_except_absent(players: Seq<Player>, id: u64)
    requires
        !has_id(players, id),
    ensures
        players_except(players, id) == players,
        count_id(players, id) == 0,
    decreases players.len(),
{
    if players.len() > 0 {
        let rest = players.drop_last();
        assert(!has_id(rest, id)) by {
            if has_id(rest, id) {
                let i = choose|i: int| 0 <= i < rest.len() && #[trigger] rest[i].id == id;
                assert(players[i].id == id);
            }
        }
        lemma_except_absent(rest, id);
        assert(players.last().id != id) by {
            assert(players[players.len() - 1].id != id);
        }
        assert(rest.push(players.last()) =~= players);
    }
}

/// Removing a player right after adding them gives back the players from before, and the
/// removal reports that exactly one player left (its result is `false`).
pub proof fn lemma_remove_undoes_add(players: Seq<Player>, p: Player)
    requires
        !has_id(players, p.id),
    ensures
        players_except(players.push(p), p.id) == players,
        count_id(players.push(p), p.id) == 1,
{
    lemma_except_push(players, p, p.id);
    lemma_except_absent(players, p.id);
}

/// The place of a tier in the ranking, lowest first: 4 divisions for each divided tier.
pub open spec fn tier_rank(t: Tier) -> int {
    match t {
        Tier::Iron(d) => division_step(d),
        Tier::Bronze(d) => 4 + division_step(d),
        Tier::Silver(d) => 8 + division_step(d),
        Tier::Gold(d) => 12 + division_step(d),
        Tier::Platinum(d) => 16 + division_step(d),
        Tier::Diamond(d) => 20 + division_step(d),
        Tier::Master => 24,
        Tier::GrandMaster => 25,
        Tier::Challenger => 26,
    }
}

/// A higher tier starts with a higher score.
pub proof fn lemma_init_score_follows_rank(a: Tier, b: Tier)
    requires
        tier_rank(a) < tier_rank(b),
    ensures
        init_score(a) < init_score(b),
{
}

/// Every tier name with a division from 1 to 4 reads back as a tier, and no name reads back
/// with another division number.
pub proof fn lemma_tier_names_read_back(i: int, division: i32)
    requires
        0 <= i < 9,
    ensures
        1 <= division <= 4 ==> tier_of(tier_names()[i], division) is Some,
        !(1 <= division <= 4) ==> tier_of(tier_names()[i], division) is None,
{
    reveal_strlit("Iron");
    reveal_strlit("Bronze");
    reveal_strlit("Silver");
    reveal_strlit("Gold");
    reveal_strlit("Platinum");
    reveal_strlit("Diamond");
    reveal_strlit("Master");
    reveal_strlit("GrandMaster");
    reveal_strlit("Challenger");
}

impl Game {
    /// A new lobby with the host as its only player, waiting for players.
    pub fn new(id: u64, host: Player) -> (game: Game)
        ensures
            game.id == id,
            game.players@ == seq![host],
            game.state == State::queue,
            game.team_bit == 0b11111,
    {
        let mut players: Vec<Player> = Vec::new();
        players.push(host);
        players.reserve(10);
        Game { id: id, players: players, state: State::queue, team_bit: 0b11111 }
    }

    /// Whether the game ended with the red team winning.
    pub fn is_red_winner(&self) -> (r: bool)
        ensures
            r == (self.state == State::result(false)),
    {
        match self.state {
            State::result(is_blue_win) => !is_blue_win,
            _ => false,
        }
    }

    fn contains_player_id(&self, id: u64) -> (r: bool)
        ensures
            r == has_id(self.players@, id),
    {
        let mut i: usize = 0;
        while i < self.players.len()
            invariant
                i <= self.players.len(),
                forall|j: int| 0 <= j < i ==> self.players@[j].id != id,
            decreases self.players.len() - i,
        {
            if self.players[i].id == id {
                return true;
            }
            i += 1;
        }
        false
    }

    /// Adds a player unless one with the same id is in the game already; a tenth player
    /// makes the game ready. Returns whether the player was added.
    pub fn add_player(&mut self, player: Player) -> (added: bool)
        ensures
            added == !has_id(old(self).players@, player.id),
            added ==> final(self).players@ == old(self).players@.push(player),
            added ==> final(self).state == (if old(self).players.len() + 1 == 10 { State::ready } else { old(self).state }),
            !added ==> final(self).players@ == old(self).players@,
            !added ==> final(self).state == old(self).state,
            final(self).id == old(self).id,
            final(self).team_bit == old(self).team_bit,
    {
        if self.contains_player_id(player.id) {
            return false;
        }
        self.players.push(player);
        if self.players.len() == 10 {
            self.state = State::ready;
        }
        true
    }

    /// Removes every player with the id. When exactly one player left, the game waits for
    /// players again and the result is `false`; otherwise the result is `true`.
    pub fn remove_player(&mut self, player_id: u64) -> (r: bool)
        ensures
            final(self).players@ == players_except(old(self).players@, player_id),
            r == (count_id(old(self).players@, player_id) != 1),
            !r ==> final(self).state == State::queue,
            r ==> final(self).state == old(self).state,
            final(self).id == old(self).id,
            final(self).team_bit == old(self).team_bit,
    {
        let ghost old_players = self.players@;
        let before_player_lens = self.players.len();
        let mut i: usize = 0;
        let ghost mut j: int = 0;
        while i < self.players.len()
            invariant
                0 <= i <= j <= old_players.len(),
                i <= self.players.len(),
                old_players == old(self).players@,
                before_player_lens == old_players.len(),
                self.id == old(self).id,
                self.team_bit == old(self).team_bit,
                self.state == old(self).state,
                self.players@ == players_except(old_players.take(j), player_id) + old_players.skip(j),
                players_except(old_players.take(j), player_id).len() == i,
            decreases self.players.len() - i,
        {
            proof {
                assert(old_players.take(j + 1) =~= old_players.take(j).push(old_players[j]));
                lemma_except_push(old_players.take(j), old_players[j], player_id);
                assert(self.players@[i as int] == old_players[j]);
            }
            if self.players[i].id == player_id {
                self.players.remove(i);
                proof {
                    j = j + 1;
                    assert(self.players@ =~= players_except(old_players.take(j), player_id) + old_players.skip(j));
                }
            } else {
                proof {
                    j = j + 1;
                    assert(self.players@ =~= players_except(old_players.take(j), player_id) + old_players.skip(j));
                }
                i += 1;
            }
        }
        proof {
            assert(j == old_players.len()) by {
                if j < old_players.len() {
                    assert(self.players@.len() > i);
                }
            }
            assert(old_players.take(j) =~= old_players);
            assert(old_players.skip(j) =~= Seq::<Player>::empty());
            assert(self.players@ =~= players_except(old_players, player_id));
            lemma_except_len(old_players, player_id);
        }
        let after_player_lens = self.players.len();
        if before_player_lens - after_player_lens == 1 {
            self.state = State::queue;
            false
        } else {
            true
        }
    }

    /// The players of the red team among the first ten positions, in position order.
    pub fn red_players(&self) -> (red: Vec<&Player>)
        requires
            forall|k: int| 0 <= k < team_positions(self.team_bit, false, 10).len()
                ==> #[trigger] team_positions(self.team_bit, false, 10)[k] < self.players.len(),
        ensures
            red.len() == team_positions(self.team_bit, false, 10).len(),
            forall|k: int| 0 <= k < red.len()
                ==> *#[trigger] red@[k] == self.players@[team_positions(self.team_bit, false, 10)[k] as int],
    {
        let mut red_team_players: Vec<&Player> = Vec::with_capacity(5);
        let mut i: usize = 0;
        while i < 10
            invariant
                i <= 10,
                forall|k: int| 0 <= k < team_positions(self.team_bit, false, 10).len()
                    ==> #[trigger] team_positions(self.team_bit, false, 10)[k] < self.players.len(),
                red_team_players.len() == team_positions(self.team_bit, false, i as nat).len(),
                forall|k: int| 0 <= k < red_team_players.len()
                    ==> *#[trigger] red_team_players@[k] == self.players@[team_positions(self.team_bit, false, i as nat)[k] as int],
            decreases 10 - i,
        {
            proof {
                lemma_team_positions_bounded(self.team_bit, false, i as nat);
                lemma_positions_prefix(self.team_bit, false, (i + 1) as nat, 10);
                let here = team_positions(self.team_bit, false, (i + 1) as nat);
                if is_blue(self.team_bit, i) == false {
                    assert(here.last() == i);
                    assert(team_positions(self.team_bit, false, 10)[here.len() - 1] == here[here.len() - 1]);
                }
            }
            if self.team_bit & (1i32 << i) == 0 {
                red_team_players.push(&self.players[i]);
            }
            i += 1;
        }
        red_team_players
    }

    /// The players of the blue team among the first ten positions, in position order.
    pub fn blue_players(&self) -> (blue: Vec<&Player>)
        requires
            forall|k: int| 0 <= k < team_positions(self.team_bit, true, 10).len()
                ==> #[trigger] team_positions(self.team_bit, true, 10)[k] < self.players.len(),
        ensures
            blue.len() == team_positions(self.team_bit, true, 10).len(),
            forall|k: int| 0 <= k < blue.len()
                ==> *#[trigger] blue@[k] == self.players@[team_positions(self.team_bit, true, 10)[k] as int],
    {
        let mut blue_team_players: Vec<&Player> = Vec::with_capacity(5);
        let mut i: usize = 0;
        while i < 10
            invariant
                i <= 10,
                forall|k: int| 0 <= k < team_positions(self.team_bit, true, 10).len()
                    ==> #[trigger] team_positions(self.team_bit, true, 10)[k] < self.players.len(),
                blue_team_players.len() == team_positions(self.team_bit, true, i as nat).len(),
                forall|k: int| 0 <= k < blue_team_players.len()
                    ==> *#[trigger] blue_team_players@[k] == self.players@[team_positions(self.team_bit, true, i as nat)[k] as int],
            decreases 10 - i,
        {
            proof {
                lemma_team_positions_bounded(self.team_bit, true, i as nat);
                lemma_positions_prefix(self.team_bit, true, (i + 1) as nat, 10);
                let here = team_positions(self.team_bit, true, (i + 1) as nat);
                if is_blue(self.team_bit, i) == true {
                    assert(here.last() == i);
                    assert(team_positions(self.team_bit, true, 10)[here.len() - 1] == here[here.len() - 1]);
                }
            }
            if self.team_bit & (1i32 << i) != 0 {
                blue_team_players.push(&self.players[i]);
            }
            i += 1;
        }
        blue_team_players
    }

    /// The positions, among all players, whose bit in `team_bit` is clear, in increasing
    /// order: the red players, the players past the tenth included unless their bit is set.
    /// A caller changes those players through the positions, as `apply_rating_changes` does.
    pub fn mut_red_players(&self) -> (red: Vec<usize>)
        requires
            self.players.len() <= 32,
        ensures
            red@ == team_positions(self.team_bit, false, self.players.len() as nat),
    {
        self.team_indices(false)
    }

    /// The positions, among all players, whose bit in `team_bit` is set, in increasing order:
    /// the blue players. A caller changes those players through the positions.
    pub fn mut_blue_players(&self) -> (blue: Vec<usize>)
        requires
            self.players.len() <= 32,
        ensures
            blue@ == team_positions(self.team_bit, true, self.players.len() as nat),
    {
        self.team_indices(true)
    }

    fn team_indices(&self, blue: bool) -> (res: Vec<usize>)
        requires
            self.players.len() <= 32,
        ensures
            res@ == team_positions(self.team_bit, blue, self.players.len() as nat),
    {
        let mut res: Vec<usize> = Vec::new();
        let mut index: usize = 0;
        while index < self.players.len()
            invariant
                index <= self.players.len() <= 32,
                res@ == team_positions(self.team_bit, blue, index as nat),
            decreases self.players.len() - index,
        {
            if (self.team_bit & (1i32 << index) != 0) == blue {
                res.push(index);
            }
            index += 1;
        }
        res
    }

    /// Ends the game with the red team winning.
    pub fn red_win(&mut self)
        ensures
            final(self).state == State::result(false),
            final(self).id == old(self).id,
            final(self).players == old(self).players,
            final(self).team_bit == old(self).team_bit,
    {
        self.state = State::result(false);
    }

    /// Ends the game with the blue team winning.
    pub fn blue_win(&mut self)
        ensures
            final(self).state == State::result(true),
            final(self).id == old(self).id,
            final(self).players == old(self).players,
            final(self).team_bit == old(self).team_bit,
    {
        self.state = State::result(true);
    }
}

impl Tier {
    /// The names of all tiers, lowest first.
    pub fn iter_tier_name() -> (names: [&'static str; 9])
        ensures
            forall|i: int| 0 <= i < 9 ==> #[trigger] names@[i]@ == tier_names()[i],
    {
        proof {
            reveal_strlit("Iron");
            reveal_strlit("Bronze");
            reveal_strlit("Silver");
            reveal_strlit("Gold");
            reveal_strlit("Platinum");
            reveal_strlit("Diamond");
            reveal_strlit("Master");
            reveal_strlit("GrandMaster");
            reveal_strlit("Challenger");
        }
        ["Iron", "Bronze", "Silver", "Gold", "Platinum", "Diamond", "Master", "GrandMaster", "Challenger"]
    }

    /// Reads a tier from its name and its division number.
    pub fn deserialize_with_tier_division(tier: String, division: i32) -> (res: Option<Tier>)
        ensures
            res == tier_of(tier@, division),
            // a tier is read only with a division number from 1 to 4, and a divided tier comes
            // back in the division with that number (4 the lowest, 1 the highest)
            res is Some ==> 1 <= division <= 4,
            res matches Some(t) ==> (tier_division(t) matches Some(d) ==> division_step(d) == 4 - division),
    {
        proof { lemma_division_numbers(division); }
        let division = if division == 1 {
            Division::I
        } else if division == 2 {
            Division::II
        } else if division == 3 {
            Division::III
        } else if division == 4 {
            Division::IV
        } else {
            return None;
        };
        if text_is(&tier, "Iron") {
            Some(Tier::Iron(division))
        } else if text_is(&tier, "Bronze") {
            Some(Tier::Bronze(division))
        } else if text_is(&tier, "Silver") {
            Some(Tier::Silver(division))
        } else if text_is(&tier, "Gold") {
            Some(Tier::Gold(division))
        } else if text_is(&tier, "Platinum") {
            Some(Tier::Platinum(division))
        } else if text_is(&tier, "Diamond") {
            Some(Tier::Diamond(division))
        } else if text_is(&tier, "Master") {
            Some(Tier::Master)
        } else if text_is(&tier, "GrandMaster") {
            Some(Tier::GrandMaster)
        } else if text_is(&tier, "Challenger") {
            Some(Tier::Challenger)
        } else {
            None
        }
    }

    /// The starting score that goes with the tier.
    #[allow(dead_code)]
    fn tier_to_init_score(&self) -> (score: i32)
        ensures
            score == init_score(*self),
    {
        match self {
            Tier::Iron(division) => {
                match division {
                    Division::IV => 0,
                    Division::III => 100,
                    Division::II => 200,
                    Division::I => 300,
                }
            },
            Tier::Bronze(division) => {
                match division {
                    Division::IV => 400,
                    Division::III => 500,
                    Division::II => 600,
                    Division::I => 700,
                }
            },
            Tier::Silver(division) => {
                match division {
                    Division::IV => 800,
                    Division::III => 900,
                    Division::II => 1000,
                    Division::I => 1100,
                }
            },
            Tier::Gold(division) => {
                match division {
                    Division::IV => 1200,
                    Division::III => 1300,
                    Division::II => 1400,
                    Division::I => 1500,
                }
            },
            Tier::Platinum(division) => {
                match division {
                    Division::IV => 1600,
                    Division::III => 1700,
                    Division::II => 1800,
                    Division::I => 1900,
                }
            },
            Tier::Diamond(division) => {
                match division {
                    Division::IV => 2000,
                    Division::III => 2100,
                    Division::II => 2200,
                    Division::I => 2300,
                }
            },
            Tier::Master => 2400,
            Tier::GrandMaster => 2600,
            Tier::Challenger => 2800,
        }
    }
}

} // verus!
