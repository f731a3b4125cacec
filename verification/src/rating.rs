//! Settling a finished game: the ratings each side is rated against, and the new ratings
//! written back to the players (the winners get 30 points on top).
use vstd::prelude::*;

use crate::game::{Game, Player, State, is_blue, team_positions, lemma_team_positions_bounded};

verus! {

/// A player's score and rating deviation.
pub open spec fn rating_of(p: Player) -> (i32, i32) {
    (p.score, p.score_deviation)
}

/// The player after a won game with the new rating `r`: 30 points on top of the score and
/// 15 on top of the deviation.
pub open spec fn won(p: Player, r: (i32, i32)) -> Player {
    Player { win: (p.win + 1) as i32, score: (r.0 + 30) as i32, score_deviation: (r.1 + 15) as i32, ..p }
}

/// The player after a lost game with the new rating `r`: 15 on top of the deviation.
pub open spec fn lost(p: Player, r: (i32, i32)) -> Player {
    Player { lose: (p.lose + 1) as i32, score: r.0, score_deviation: (r.1 + 15) as i32, ..p }
}

/// The winning side is red when the game is recorded as a red win, blue otherwise.
pub open spec fn red_won(game: Game) -> bool {
    game.state == State::result(false)
}

/// The positions of the winning side among the first `n` positions.
pub open spec fn winner_positions(game: Game, n: nat) -> Seq<usize> {
    team_positions(game.team_bit, !red_won(game), n)
}

/// The positions of the losing side among the first `n` positions.
pub open spec fn loser_positions(game: Game, n: nat) -> Seq<usize> {
    team_positions(game.team_bit, red_won(game), n)
}

/// After `red_win` the game reports red as the winner, after `blue_win` it does not: the
/// winning side is the one the game was last marked with.
pub proof fn lemma_marked_winner_reported(game: Game)
    ensures
        red_won(Game { state: State::result(false), ..game }),
        !red_won(Game { state: State::result(true), ..game }),
{
}

/// The smaller of two numbers.
/// A won game with rating `r` gives the player the rating's score plus 30, its deviation plus
/// 15 and one more win, whatever the player had won before.
pub proof fn lemma_win_write_back(p: Player, r: (i32, i32))
    requires
        r.0 + 30 <= i32::MAX,
        r.1 + 15 <= i32::MAX,
        p.win < i32::MAX,
    ensures
        won(p, r).score == r.0 + 30,
        won(p, r).score_deviation == r.1 + 15,
        won(p, r).win == p.win + 1,
        won(p, r).lose == p.lose,
        won(p, r).id == p.id,
{
}

/// A lost game with rating `r` gives the player the rating's score, its deviation plus 15 and
/// one more loss.
pub proof fn lemma_loss_write_back(p: Player, r: (i32, i32))
    requires
        r.1 + 15 <= i32::MAX,
        p.lose < i32::MAX,
    ensures
        lost(p, r).score == r.0,
        lost(p, r).score_deviation == r.1 + 15,
        lost(p, r).lose == p.lose + 1,
        lost(p, r).win == p.win,
        lost(p, r).id == p.id,
{
}

pub open spec fn min_nat(a: nat, b: nat) -> nat {
    if a < b { a } else { b }
}

/// A position is on a team exactly when its bit says so.
pub proof fn lemma_team_positions_contains(bits: i32, blue: bool, n: nat, i: usize)
    requires
        n <= usize::MAX,
    ensures
        team_positions(bits, blue, n).contains(i) == (i < n && is_blue(bits, i) == blue),
    decreases n,
{
    if n > 0 {
        lemma_team_positions_contains(bits, blue, (n - 1) as nat, i);
        let prev = team_positions(bits, blue, (n - 1) as nat);
        let cur = team_positions(bits, blue, n);
        if cur.contains(i) {
            let k = choose|k: int| 0 <= k < cur.len() && cur[k] == i;
            if k < prev.len() {
                assert(prev[k] == i);
            }
        }
        if prev.contains(i) {
            let k = choose|k: int| 0 <= k < prev.len() && prev[k] == i;
            assert(cur[k] == i);
        }
        if i == n - 1 && is_blue(bits, i) == blue {
            assert(cur[cur.len() - 1] == i);
        }
    }
}

impl Game {
    /// The ratings of the first five winners and of the first five losers among the first ten
    /// positions, each in position order.
    pub fn match_ratings(&self) -> (r: (Vec<(i32, i32)>, Vec<(i32, i32)>))
        requires
            self.players.len() >= 10,
            team_positions(self.team_bit, true, 10).len() >= 5,
            team_positions(self.team_bit, false, 10).len() >= 5,
        ensures
            r.0@.len() == 5,
            r.1@.len() == 5,
            forall|k: int| 0 <= k < 5 ==> #[trigger] r.0@[k] == rating_of(self.players@[winner_positions(*self, 10)[k] as int]),
            forall|k: int| 0 <= k < 5 ==> #[trigger] r.1@[k] == rating_of(self.players@[loser_positions(*self, 10)[k] as int]),
            // the winners are red exactly when the game was marked as a red win; each rating is
            // the player's score and deviation
            winner_positions(*self, 10) == team_positions(self.team_bit, self.state != State::result(false), 10),
            loser_positions(*self, 10) == team_positions(self.team_bit, self.state == State::result(false), 10),
            forall|k: int| 0 <= k < 5 ==> (#[trigger] r.0@[k]).0 == self.players@[winner_positions(*self, 10)[k] as int].score
                && r.0@[k].1 == self.players@[winner_positions(*self, 10)[k] as int].score_deviation,
            forall|k: int| 0 <= k < 5 ==> (#[trigger] r.1@[k]).0 == self.players@[loser_positions(*self, 10)[k] as int].score
                && r.1@[k].1 == self.players@[loser_positions(*self, 10)[k] as int].score_deviation,
    {
        proof {
            lemma_team_positions_bounded(self.team_bit, true, 10);
            lemma_team_positions_bounded(self.team_bit, false, 10);
        }
        let red_winner = self.is_red_winner();
        let win_player = if red_winner { self.red_players() } else { self.blue_players() };
        let lose_player = if !red_winner { self.red_players() } else { self.blue_players() };
        let mut winners: Vec<(i32, i32)> = Vec::with_capacity(5);
        let mut losers: Vec<(i32, i32)> = Vec::with_capacity(5);
        let mut j: usize = 0;
        while j < 5
            invariant
                j <= 5,
                win_player@.len() >= 5,
                lose_player@.len() >= 5,
                winners@.len() == j,
                losers@.len() == j,
                forall|k: int| 0 <= k < j ==> #[trigger] winners@[k] == rating_of(*win_player@[k]),
                forall|k: int| 0 <= k < j ==> #[trigger] losers@[k] == rating_of(*lose_player@[k]),
            decreases 5 - j,
        {
            winners.push((win_player[j].score, win_player[j].score_deviation));
            losers.push((lose_player[j].score, lose_player[j].score_deviation));
            j += 1;
        }
        (winners, losers)
    }

    /// Writes the new ratings back: the k-th winner (among all positions, in order) records a
    /// win with the k-th new winner rating, the k-th loser a loss with the k-th new loser
    /// rating, as far as both lists go; everybody else is left as is.
    pub fn apply_rating_changes(&mut self, new_win: &Vec<(i32, i32)>, new_lose: &Vec<(i32, i32)>)
        requires
            old(self).players.len() <= 32,
            forall|k: int| 0 <= k < min_nat(winner_positions(*old(self), old(self).players@.len()).len(), new_win@.len()) ==> {
                &&& #[trigger] new_win@[k].0 + 30 <= i32::MAX
                &&& new_win@[k].1 + 15 <= i32::MAX
                &&& old(self).players@[winner_positions(*old(self), old(self).players@.len())[k] as int].win < i32::MAX
            },
            forall|k: int| 0 <= k < min_nat(loser_positions(*old(self), old(self).players@.len()).len(), new_lose@.len()) ==> {
                &&& #[trigger] new_lose@[k].1 + 15 <= i32::MAX
                &&& old(self).players@[loser_positions(*old(self), old(self).players@.len())[k] as int].lose < i32::MAX
            },
        ensures
            ({
                let n = old(self).players@.len();
                let w = winner_positions(*old(self), n);
                let l = loser_positions(*old(self), n);
                let nw = min_nat(w.len(), new_win@.len());
                let nl = min_nat(l.len(), new_lose@.len());
                &&& final(self).players@.len() == n
                &&& forall|k: int| 0 <= k < nw ==> final(self).players@[#[trigger] w[k] as int] == won(old(self).players@[w[k] as int], new_win@[k])
                &&& forall|k: int| 0 <= k < nl ==> final(self).players@[#[trigger] l[k] as int] == lost(old(self).players@[l[k] as int], new_lose@[k])
                &&& forall|i: int| 0 <= i < n && !w.take(nw as int).contains(i as usize) && !l.take(nl as int).contains(i as usize)
                    ==> #[trigger] final(self).players@[i] == old(self).players@[i]
            }),
            // each winner written back: a win, the new rating's score with 30 on top, the new
            // deviation with 15 on top, whatever the player had before
            forall|k: int| 0 <= k < min_nat(winner_positions(*old(self), old(self).players@.len()).len(), new_win@.len()) ==> {
                let i = #[trigger] winner_positions(*old(self), old(self).players@.len())[k] as int;
                &&& final(self).players@[i].score == new_win@[k].0 + 30
                &&& final(self).players@[i].score_deviation == new_win@[k].1 + 15
                &&& final(self).players@[i].win == old(self).players@[i].win + 1
                &&& final(self).players@[i].lose == old(self).players@[i].lose
                &&& final(self).players@[i].id == old(self).players@[i].id
            },
            // each loser written back: a loss, the new rating's score, the new deviation with 15 on top
            forall|k: int| 0 <= k < min_nat(loser_positions(*old(self), old(self).players@.len()).len(), new_lose@.len()) ==> {
                let i = #[trigger] loser_positions(*old(self), old(self).players@.len())[k] as int;
                &&& final(self).players@[i].score == new_lose@[k].0
                &&& final(self).players@[i].score_deviation == new_lose@[k].1 + 15
                &&& final(self).players@[i].lose == old(self).players@[i].lose + 1
                &&& final(self).players@[i].win == old(self).players@[i].win
                &&& final(self).players@[i].id == old(self).players@[i].id
            },
            // the winning side is red exactly when the game was marked as a red win
            winner_positions(*old(self), old(self).players@.len())
                == team_positions(old(self).team_bit, old(self).state != State::result(false), old(self).players@.len()),
            loser_positions(*old(self), old(self).players@.len())
                == team_positions(old(self).team_bit, old(self).state == State::result(false), old(self).players@.len()),
            final(self).id == old(self).id,
            final(self).state == old(self).state,
            final(self).team_bit == old(self).team_bit,
    {
        let ghost n = old(self).players@.len();
        let ghost w = winner_positions(*old(self), n);
        let ghost l = loser_positions(*old(self), n);
        let ghost orig = old(self).players@;
        let red_winner = self.is_red_winner();
        let win_player = if red_winner { self.mut_red_players() } else { self.mut_blue_players() };
        let lose_player = if !red_winner { self.mut_red_players() } else { self.mut_blue_players() };
        proof {
            lemma_team_positions_bounded(self.team_bit, true, n);
            lemma_team_positions_bounded(self.team_bit, false, n);
            assert(win_player@ == w);
            assert(lose_player@ == l);
        }
        let nw = if win_player.len() < new_win.len() { win_player.len() } else { new_win.len() };
        let nl = if lose_player.len() < new_lose.len() { lose_player.len() } else { new_lose.len() };
        let mut k: usize = 0;
        while k < nw
            invariant
                k <= nw,
                nw == min_nat(w.len(), new_win@.len()),
                win_player@ == w,
                n == orig.len(),
                w == winner_positions(*old(self), n),
                self.players@.len() == n,
                self.id == old(self).id,
                self.state == old(self).state,
                self.team_bit == old(self).team_bit,
                forall|k: int| 0 <= k < w.len() ==> #[trigger] w[k] < n,
                forall|a: int, b: int| 0 <= a < b < w.len() ==> w[a] < w[b],
                forall|k: int| 0 <= k < min_nat(w.len(), new_win@.len()) ==> {
                    &&& #[trigger] new_win@[k].0 + 30 <= i32::MAX
                    &&& new_win@[k].1 + 15 <= i32::MAX
                    &&& orig[w[k] as int].win < i32::MAX
                },
                forall|j: int| 0 <= j < k ==> self.players@[#[trigger] w[j] as int] == won(orig[w[j] as int], new_win@[j]),
                forall|i: int| 0 <= i < n && !w.take(k as int).contains(i as usize) ==> #[trigger] self.players@[i] == orig[i],
            decreases nw - k,
        {
            let idx = win_player[k];
            let rating = new_win[k];
            let ghost before = self.players@;
            proof {
                assert(!w.take(k as int).contains(idx)) by {
                    if w.take(k as int).contains(idx) {
                        let j = choose|j: int| 0 <= j < k && w.take(k as int)[j] == idx;
                        assert(w[j] < w[k as int]);
                    }
                }
                assert(before[idx as int] == orig[idx as int]);
            }
            let mut player = self.players.remove(idx);
            player.win(rating.0 + 30, rating.1 + 15);
            self.players.insert(idx, player);
            proof {
                assert(self.players@ =~= before.update(idx as int, won(orig[idx as int], rating)));
                assert forall|j: int| 0 <= j < k + 1 implies self.players@[#[trigger] w[j] as int] == won(orig[w[j] as int], new_win@[j]) by {
                    if j < k {
                        assert(w[j] < w[k as int]);
                    }
                }
                assert forall|i: int| 0 <= i < n && !w.take(k + 1).contains(i as usize) implies #[trigger] self.players@[i] == orig[i] by {
                    assert(w.take(k + 1)[k as int] == idx);
                    if w.take(k as int).contains(i as usize) {
                        let j = choose|j: int| 0 <= j < k && w.take(k as int)[j] == i as usize;
                        assert(w.take(k + 1)[j] == i as usize);
                    }
                }
            }
            k += 1;
        }
        let ghost mid = self.players@;
        proof {
            assert forall|i: usize| #[trigger] l.contains(i) implies !w.contains(i) by {
                lemma_team_positions_contains(self.team_bit, true, n, i);
                lemma_team_positions_contains(self.team_bit, false, n, i);
            }
        }
        let mut k: usize = 0;
        while k < nl
            invariant
                k <= nl,
                nl == min_nat(l.len(), new_lose@.len()),
                lose_player@ == l,
                n == orig.len(),
                self.players@.len() == n,
                mid.len() == n,
                self.id == old(self).id,
                self.state == old(self).state,
                self.team_bit == old(self).team_bit,
                forall|k: int| 0 <= k < l.len() ==> #[trigger] l[k] < n,
                forall|a: int, b: int| 0 <= a < b < l.len() ==> l[a] < l[b],
                forall|i: usize| #[trigger] l.contains(i) ==> !w.contains(i),
                forall|i: int| 0 <= i < n && !w.take(nw as int).contains(i as usize) ==> #[trigger] mid[i] == orig[i],
                forall|j: int| 0 <= j < nw ==> mid[#[trigger] w[j] as int] == won(orig[w[j] as int], new_win@[j]),
                nw == min_nat(w.len(), new_win@.len()),
                forall|k: int| 0 <= k < w.len() ==> #[trigger] w[k] < n,
                forall|k: int| 0 <= k < min_nat(l.len(), new_lose@.len()) ==> {
                    &&& #[trigger] new_lose@[k].1 + 15 <= i32::MAX
                    &&& orig[l[k] as int].lose < i32::MAX
                },
                forall|j: int| 0 <= j < k ==> self.players@[#[trigger] l[j] as int] == lost(orig[l[j] as int], new_lose@[j]),
                forall|i: int| 0 <= i < n && !l.take(k as int).contains(i as usize) ==> #[trigger] self.players@[i] == mid[i],
            decreases nl - k,
        {
            let idx = lose_player[k];
            let rating = new_lose[k];
            let ghost before = self.players@;
            proof {
                assert(!l.take(k as int).contains(idx)) by {
                    if l.take(k as int).contains(idx) {
                        let j = choose|j: int| 0 <= j < k && l.take(k as int)[j] == idx;
                        assert(l[j] < l[k as int]);
                    }
                }
                assert(l.contains(idx)) by { assert(l[k as int] == idx); }
                assert(!w.take(nw as int).contains(idx)) by {
                    if w.take(nw as int).contains(idx) {
                        let j = choose|j: int| 0 <= j < nw && w.take(nw as int)[j] == idx;
                        assert(w[j] == idx);
                    }
                }
                assert(before[idx as int] == orig[idx as int]);
            }
            let mut player = self.players.remove(idx);
            player.lose(rating.0, rating.1 + 15);
            self.players.insert(idx, player);
            proof {
                assert(self.players@ =~= before.update(idx as int, lost(orig[idx as int], rating)));
                assert forall|j: int| 0 <= j < k + 1 implies self.players@[#[trigger] l[j] as int] == lost(orig[l[j] as int], new_lose@[j]) by {
                    if j < k {
                        assert(l[j] < l[k as int]);
                    }
                }
                assert forall|i: int| 0 <= i < n && !l.take(k + 1).contains(i as usize) implies #[trigger] self.players@[i] == mid[i] by {
                    assert(l.take(k + 1)[k as int] == idx);
                    if l.take(k as int).contains(i as usize) {
                        let j = choose|j: int| 0 <= j < k && l.take(k as int)[j] == i as usize;
                        assert(l.take(k + 1)[j] == i as usize);
                    }
                }
            }
            k += 1;
        }
        proof {
            assert forall|k: int| 0 <= k < nw implies self.players@[#[trigger] w[k] as int] == won(orig[w[k] as int], new_win@[k]) by {
                let i = w[k];
                assert(w.contains(i));
                assert(!l.contains(i)) by {
                    if l.contains(i) {
                        assert(!w.contains(i));
                    }
                }
                assert(!l.take(nl as int).contains(i)) by {
                    if l.take(nl as int).contains(i) {
                        let j = choose|j: int| 0 <= j < nl && l.take(nl as int)[j] == i;
                        assert(l[j] == i);
                    }
                }
                assert(mid[i as int] == won(orig[i as int], new_win@[k]));
            }
        }
        proof {
            assert forall|k: int| 0 <= k < nw implies {
                let i = #[trigger] w[k] as int;
                &&& self.players@[i].score == new_win@[k].0 + 30
                &&& self.players@[i].score_deviation == new_win@[k].1 + 15
                &&& self.players@[i].win == orig[i].win + 1
                &&& self.players@[i].lose == orig[i].lose
                &&& self.players@[i].id == orig[i].id
            } by {
                lemma_win_write_back(orig[w[k] as int], new_win@[k]);
            }
            assert forall|k: int| 0 <= k < nl implies {
                let i = #[trigger] l[k] as int;
                &&& self.players@[i].score == new_lose@[k].0
                &&& self.players@[i].score_deviation == new_lose@[k].1 + 15
                &&& self.players@[i].lose == orig[i].lose + 1
                &&& self.players@[i].win == orig[i].win
                &&& self.players@[i].id == orig[i].id
            } by {
                lemma_loss_write_back(orig[l[k] as int], new_lose@[k]);
            }
        }
    }
}

} // verus!
