//! Whether a lobby meets what drawing teams asks of it: a test that decides `can_shuffle`.
//!
//! The sums of the scores at every prefix of every five-player combination must stay within
//! `i32`. The largest and the smallest such sums are found by a small dynamic program over the
//! players, which is proved to give exactly the extreme sums.
use vstd::prelude::*;

use crate::balance::{binomial, can_shuffle, fits_i32, is_combination, score_sum, scores_total, sums_fit, totals_fit};
use crate::game::{Game, Player};

verus! {

/// The score at position `i`, negated when `top` is false.
pub open spec fn signed_score(players: Seq<Player>, top: bool, i: int) -> int {
    if top { players[i].score as int } else { -players[i].score }
}

/// The sum of the signed scores at the positions `s`.
pub open spec fn signed_sum(players: Seq<Player>, top: bool, s: Seq<usize>) -> int
    decreases s.len(),
{
    if s.len() == 0 {
        0
    } else {
        signed_sum(players, top, s.drop_last()) + signed_score(players, top, s.last() as int)
    }
}

pub open spec fn max_int(a: int, b: int) -> int {
    if a >= b { a } else { b }
}

/// The largest signed score sum of `m` of the first `j` positions (meant for `m <= j`).
pub open spec fn best_sum(players: Seq<Player>, top: bool, m: nat, j: nat) -> int
    decreases j,
{
    if m == 0 || j == 0 {
        0
    } else if m >= j {
        best_sum(players, top, (m - 1) as nat, (j - 1) as nat) + signed_score(players, top, j - 1)
    } else {
        max_int(
            best_sum(players, top, m, (j - 1) as nat),
            best_sum(players, top, (m - 1) as nat, (j - 1) as nat) + signed_score(players, top, j - 1),
        )
    }
}

/// Positions that pick `m` of the first `j` with the largest signed sum.
pub open spec fn best_pick(players: Seq<Player>, top: bool, m: nat, j: nat) -> Seq<usize>
    decreases j,
{
    if m == 0 || j == 0 {
        Seq::empty()
    } else if m >= j {
        best_pick(players, top, (m - 1) as nat, (j - 1) as nat).push((j - 1) as usize)
    } else if best_sum(players, top, m, (j - 1) as nat)
        >= best_sum(players, top, (m - 1) as nat, (j - 1) as nat) + signed_score(players, top, j - 1) {
        best_pick(players, top, m, (j - 1) as nat)
    } else {
        best_pick(players, top, (m - 1) as nat, (j - 1) as nat).push((j - 1) as usize)
    }
}

/// `s` lists positions below `b` in increasing order.
pub open spec fn increasing_below(s: Seq<usize>, b: nat) -> bool {
    &&& forall|i: int| 0 <= i < s.len() ==> #[trigger] s[i] < b
    &&& forall|i: int, k: int| 0 <= i < k < s.len() ==> s[i] < s[k]
}

/// Every prefix sum of every combination stays within `i32`, put as bounds on the extreme
/// sums: the `m` first positions of a combination of five lie below `n - 5 + m`.
pub open spec fn extreme_sums_fit(players: Seq<Player>) -> bool {
    forall|m: nat| 1 <= m <= 5 ==> {
        &&& #[trigger] best_sum(players, true, m, (players.len() - 5 + m) as nat) <= i32::MAX
        &&& -best_sum(players, false, m, (players.len() - 5 + m) as nat) >= i32::MIN
    }
}

proof fn lemma_signed_sum(players: Seq<Player>, s: Seq<usize>)
    ensures
        signed_sum(players, true, s) == score_sum(players, s),
        signed_sum(players, false, s) == -score_sum(players, s),
    decreases s.len(),
{
    if s.len() > 0 {
        lemma_signed_sum(players, s.drop_last());
    }
}

proof fn lemma_increasing_len(s: Seq<usize>, b: nat)
    requires
        increasing_below(s, b),
    ensures
        s.len() <= b,
    decreases s.len(),
{
    if s.len() > 0 {
        let rest = s.drop_last();
        assert(increasing_below(rest, s.last() as nat)) by {
            assert forall|i: int| 0 <= i < rest.len() implies #[trigger] rest[i] < s.last() by {
                assert(s[i] < s[s.len() - 1]);
            }
        }
        lemma_increasing_len(rest, s.last() as nat);
    }
}

/// No `m` positions below `j` have a larger signed sum than `best_sum`.
proof fn lemma_best_is_upper(players: Seq<Player>, top: bool, s: Seq<usize>, j: nat)
    requires
        increasing_below(s, j),
    ensures
        signed_sum(players, top, s) <= best_sum(players, top, s.len(), j),
    decreases j,
{
    let m = s.len();
    lemma_increasing_len(s, j);
    if m > 0 {
        let rest = s.drop_last();
        if s.last() == j - 1 {
            assert(increasing_below(rest, (j - 1) as nat)) by {
                assert forall|i: int| 0 <= i < rest.len() implies #[trigger] rest[i] < j - 1 by {
                    assert(s[i] < s[s.len() - 1]);
                }
            }
            lemma_best_is_upper(players, top, rest, (j - 1) as nat);
        } else {
            assert(increasing_below(s, (j - 1) as nat)) by {
                assert forall|i: int| 0 <= i < s.len() implies #[trigger] s[i] < j - 1 by {
                    if i < s.len() - 1 {
                        assert(s[i] < s[s.len() - 1]);
                    }
                }
            }
            lemma_increasing_len(s, (j - 1) as nat);
            lemma_best_is_upper(players, top, s, (j - 1) as nat);
        }
    }
}

/// `best_pick` picks `m` positions below `j` whose signed sum is `best_sum`.
proof fn lemma_best_pick(players: Seq<Player>, top: bool, m: nat, j: nat)
    requires
        m <= j <= usize::MAX,
    ensures
        best_pick(players, top, m, j).len() == m,
        increasing_below(best_pick(players, top, m, j), j),
        signed_sum(players, top, best_pick(players, top, m, j)) == best_sum(players, top, m, j),
    decreases j,
{
    if m > 0 && j > 0 {
        let with_last = best_sum(players, top, (m - 1) as nat, (j - 1) as nat) + signed_score(players, top, j - 1);
        if m < j && best_sum(players, top, m, (j - 1) as nat) >= with_last {
            lemma_best_pick(players, top, m, (j - 1) as nat);
        } else {
            lemma_best_pick(players, top, (m - 1) as nat, (j - 1) as nat);
            let p = best_pick(players, top, (m - 1) as nat, (j - 1) as nat);
            let q = p.push((j - 1) as usize);
            assert(q.drop_last() =~= p);
            assert forall|i: int, k: int| 0 <= i < k < q.len() implies q[i] < q[k] by {
                if k < p.len() {
                    assert(p[i] < p[k]);
                } else {
                    assert(p[i] < j - 1);
                }
            }
        }
    }
}

/// The best sums stay within five times the largest score size.
proof fn lemma_best_bounds(players: Seq<Player>, top: bool, m: nat, j: nat)
    requires
        m <= j,
        j <= players.len(),
    ensures
        -(m as int) * 2147483648 <= best_sum(players, top, m, j) <= (m as int) * 2147483648,
    decreases j,
{
    if m > 0 && j > 0 {
        lemma_best_bounds(players, top, (m - 1) as nat, (j - 1) as nat);
        if m < j {
            lemma_best_bounds(players, top, m, (j - 1) as nat);
        }
        assert(-2147483648 <= signed_score(players, top, j - 1) <= 2147483648);
    }
}

/// In a combination of five below `n`, the `k`-th position lies below `n - 5 + k + 1`.
proof fn lemma_combination_room(c: Seq<usize>, n: nat)
    requires
        is_combination(c, n, 5),
    ensures
        forall|k: int| 0 <= k < 5 ==> #[trigger] c[k] + 5 - k <= n,
{
    assert(c[4] < n);
    assert(c[3] < c[4]);
    assert(c[2] < c[3]);
    assert(c[1] < c[2]);
    assert(c[0] < c[1]);
}

/// The extreme sums bound the prefix sums of every combination, and some combination attains
/// them: both ways of putting the sums condition agree.
pub proof fn lemma_extreme_sums_exact(players: Seq<Player>)
    requires
        5 <= players.len() <= usize::MAX,
    ensures
        extreme_sums_fit(players) == (forall|c: Seq<usize>| is_combination(c, players.len(), 5) ==> #[trigger] sums_fit(players, c)),
{
    let n = players.len();
    if extreme_sums_fit(players) {
        assert forall|c: Seq<usize>| is_combination(c, n, 5) implies #[trigger] sums_fit(players, c) by {
            lemma_combination_room(c, n);
            assert forall|m: int| 0 <= m <= c.len() implies fits_i32(score_sum(players, #[trigger] c.take(m))) by {
                let p = c.take(m);
                if m == 0 {
                    assert(p.len() == 0);
                } else {
                    let b = (n - 5 + m) as nat;
                    assert(increasing_below(p, b)) by {
                        assert forall|i: int| 0 <= i < p.len() implies #[trigger] p[i] < b by {
                            assert(c[i] + 5 - i <= n);
                        }
                    }
                    lemma_best_is_upper(players, true, p, b);
                    lemma_best_is_upper(players, false, p, b);
                    lemma_signed_sum(players, p);
                    assert(best_sum(players, true, m as nat, b) <= i32::MAX);
                }
            }
        }
    }
    if forall|c: Seq<usize>| is_combination(c, n, 5) ==> #[trigger] sums_fit(players, c) {
        assert forall|m: nat| 1 <= m <= 5 implies {
            &&& #[trigger] best_sum(players, true, m, (n - 5 + m) as nat) <= i32::MAX
            &&& -best_sum(players, false, m, (n - 5 + m) as nat) >= i32::MIN
        } by {
            let b = (n - 5 + m) as nat;
            lemma_pick_in_combination(players, true, m, n);
            lemma_pick_in_combination(players, false, m, n);
            lemma_signed_sum(players, best_pick(players, true, m, b));
            lemma_signed_sum(players, best_pick(players, false, m, b));
        }
    }
}

/// The best pick of `m` positions below `n - 5 + m` is the start of a combination of five,
/// so its sum is a prefix sum of a combination.
proof fn lemma_pick_in_combination(players: Seq<Player>, top: bool, m: nat, n: nat)
    requires
        1 <= m <= 5,
        5 <= n == players.len() <= usize::MAX,
        forall|c: Seq<usize>| is_combination(c, n, 5) ==> #[trigger] sums_fit(players, c),
    ensures
        fits_i32(score_sum(players, best_pick(players, top, m, (n - 5 + m) as nat))),
        signed_sum(players, top, best_pick(players, top, m, (n - 5 + m) as nat)) == best_sum(players, top, m, (n - 5 + m) as nat),
{
    let b = (n - 5 + m) as nat;
    lemma_best_pick(players, top, m, b);
    let p = best_pick(players, top, m, b);
    let tail = Seq::new((5 - m) as nat, |t: int| (b + t) as usize);
    let c = p + tail;
    assert(is_combination(c, n, 5)) by {
        assert forall|i: int| 0 <= i < c.len() implies #[trigger] c[i] < n by {
            if i < p.len() {
                assert(p[i] < b);
            }
        }
        assert forall|i: int, k: int| 0 <= i < k < c.len() implies c[i] < c[k] by {
            if k < p.len() {
                assert(p[i] < p[k]);
            } else if i < p.len() {
                assert(p[i] < b);
            }
        }
    }
    assert(sums_fit(players, c));
    assert(c.take(m as int) =~= p);
    assert(fits_i32(score_sum(players, c.take(m as int))));
}

/// Whether the sums of the `m`-th signed best picks stay within `i32`, for `m` from 1 to 5.
fn extreme_sums_within(players: &Vec<Player>, top: bool) -> (ok: bool)
    requires
        5 <= players@.len(),
    ensures
        ok == (forall|m: nat| 1 <= m <= 5 ==> if top {
            #[trigger] best_sum(players@, top, m, (players@.len() - 5 + m) as nat) <= i32::MAX
        } else {
            -best_sum(players@, top, m, (players@.len() - 5 + m) as nat) >= i32::MIN
        }),
{
    let n = players.len();
    let mut best: Vec<i64> = vec![0, 0, 0, 0, 0, 0];
    let mut at_target: Vec<i64> = vec![0, 0, 0, 0, 0, 0];
    let mut j: usize = 0;
    while j < n
        invariant
            5 <= n == players@.len(),
            j <= n,
            best@.len() == 6,
            at_target@.len() == 6,
            forall|m: int| 0 <= m <= 5 && m <= j ==> #[trigger] best@[m] == best_sum(players@, top, m as nat, j as nat),
            forall|m: int| 1 <= m <= 5 && n - 5 + m <= j
                ==> #[trigger] at_target@[m] == best_sum(players@, top, m as nat, (n - 5 + m) as nat),
        decreases n - j,
    {
        let w: i64 = if top { players[j].score as i64 } else { -(players[j].score as i64) };
        let top_m: usize = if j + 1 < 5 { j + 1 } else { 5 };
        let mut m: usize = top_m;
        while m >= 1
            invariant
                5 <= n == players@.len(),
                j < n,
                top_m == (if j + 1 < 5 { j + 1 } else { 5 }),
                m <= top_m,
                best@.len() == 6,
                w == signed_score(players@, top, j as int),
                forall|k: int| 0 <= k <= 5 && k <= m && k <= j ==> #[trigger] best@[k] == best_sum(players@, top, k as nat, j as nat),
                forall|k: int| m < k <= top_m ==> #[trigger] best@[k] == best_sum(players@, top, k as nat, (j + 1) as nat),
                best@[0] == 0,
            decreases m,
        {
            proof {
                lemma_best_bounds(players@, top, (m - 1) as nat, j as nat);
                if m <= j {
                    lemma_best_bounds(players@, top, m as nat, j as nat);
                }
            }
            let with_last: i64 = best[m - 1] + w;
            if m > j {
                best.set(m, with_last);
            } else if with_last > best[m] {
                best.set(m, with_last);
            }
            m -= 1;
        }
        proof {
            assert forall|k: int| 0 <= k <= 5 && k <= j + 1 implies #[trigger] best@[k] == best_sum(players@, top, k as nat, (j + 1) as nat) by {
                if k == 0 {
                    assert(best@[0] == 0);
                }
            }
        }
        let mut m: usize = 1;
        while m <= 5
            invariant
                5 <= n == players@.len(),
                j < n,
                1 <= m <= 6,
                best@.len() == 6,
                at_target@.len() == 6,
                forall|k: int| 0 <= k <= 5 && k <= j + 1 ==> #[trigger] best@[k] == best_sum(players@, top, k as nat, (j + 1) as nat),
                forall|k: int| 1 <= k < m && n - 5 + k == j + 1
                    ==> #[trigger] at_target@[k] == best_sum(players@, top, k as nat, (n - 5 + k) as nat),
                forall|k: int| 1 <= k <= 5 && n - 5 + k <= j
                    ==> #[trigger] at_target@[k] == best_sum(players@, top, k as nat, (n - 5 + k) as nat),
            decreases 6 - m,
        {
            if n - 5 + m == j + 1 {
                let v = best[m];
                at_target.set(m, v);
            }
            m += 1;
        }
        j += 1;
    }
    let mut ok = true;
    let mut m: usize = 1;
    while m <= 5
        invariant
            5 <= n == players@.len(),
            1 <= m <= 6,
            at_target@.len() == 6,
            forall|k: int| 1 <= k <= 5 ==> #[trigger] at_target@[k] == best_sum(players@, top, k as nat, (n - 5 + k) as nat),
            ok == (forall|k: nat| 1 <= k < m ==> if top {
                #[trigger] best_sum(players@, top, k, (n - 5 + k) as nat) <= i32::MAX
            } else {
                -best_sum(players@, top, k, (n - 5 + k) as nat) >= i32::MIN
            }),
        decreases 6 - m,
    {
        let v = at_target[m];
        proof {
            assert(v == best_sum(players@, top, m as nat, (n - 5 + m) as nat));
            lemma_best_bounds(players@, top, m as nat, (n - 5 + m) as nat);
        }
        let within = if top { v <= i32::MAX as i64 } else { -v >= i32::MIN as i64 };
        ok = ok && within;
        m += 1;
    }
    ok
}

/// Whether `binomial(n, 5)` fits in `usize`, worked out along Pascal's triangle with values
/// capped just above `usize::MAX`.
fn five_combinations_fit(n: usize) -> (ok: bool)
    ensures
        ok == (binomial(n as nat, 5) <= usize::MAX),
{
    let cap: u128 = usize::MAX as u128 + 1;
    let mut row: Vec<u128> = vec![1, 0, 0, 0, 0, 0];
    let mut i: usize = 0;
    while i < n
        invariant
            i <= n,
            cap == usize::MAX + 1,
            row@.len() == 6,
            forall|k: int| 0 <= k <= 5 ==> #[trigger] row@[k] == (if binomial(i as nat, k as nat) < cap { binomial(i as nat, k as nat) } else { cap as nat }),
        decreases n - i,
    {
        let mut k: usize = 5;
        while k >= 1
            invariant
                i < n,
                cap == usize::MAX + 1,
                k <= 5,
                row@.len() == 6,
                forall|t: int| 0 <= t <= k ==> #[trigger] row@[t] == (if binomial(i as nat, t as nat) < cap { binomial(i as nat, t as nat) } else { cap as nat }),
                forall|t: int| k < t <= 5 ==> #[trigger] row@[t] == (if binomial((i + 1) as nat, t as nat) < cap { binomial((i + 1) as nat, t as nat) } else { cap as nat }),
            decreases k,
        {
            let sum = row[k] + row[k - 1];
            let capped = if sum < cap { sum } else { cap };
            row.set(k, capped);
            proof {
                assert(binomial((i + 1) as nat, k as nat) == binomial(i as nat, (k - 1) as nat) + binomial(i as nat, k as nat));
            }
            k -= 1;
        }
        proof {
            assert(binomial((i + 1) as nat, 0) == 1);
            assert(binomial(i as nat, 0) == 1);
        }
        i += 1;
    }
    row[5] < cap
}

/// Whether every running total of the scores, player after player, stays within `i32`.
fn running_totals_fit(players: &Vec<Player>) -> (ok: bool)
    ensures
        ok == totals_fit(players@),
{
    let mut total: i64 = 0;
    let mut i: usize = 0;
    proof {
        assert(players@.take(0) =~= Seq::<Player>::empty());
    }
    while i < players.len()
        invariant
            i <= players.len(),
            total == scores_total(players@.take(i as int)),
            forall|m: int| 0 <= m <= i ==> fits_i32(scores_total(#[trigger] players@.take(m))),
        decreases players.len() - i,
    {
        total = total + players[i].score as i64;
        proof {
            assert(players@.take(i + 1).drop_last() =~= players@.take(i as int));
        }
        if total < i32::MIN as i64 || total > i32::MAX as i64 {
            return false;
        }
        i += 1;
    }
    assert(players@.take(players@.len() as int) =~= players@);
    true
}

impl Game {
    /// Whether the players allow drawing teams (what `shuffle_team` asks): six players at
    /// least, a number of five-player combinations that fits in `usize`, and running score
    /// sums within `i32`.
    pub fn can_shuffle_team(&self) -> (ok: bool)
        ensures
            ok == can_shuffle(self.players@),
    {
        let n = self.players.len();
        if n < 6 {
            return false;
        }
        if !five_combinations_fit(n) {
            return false;
        }
        if !running_totals_fit(&self.players) {
            return false;
        }
        let high = extreme_sums_within(&self.players, true);
        let low = extreme_sums_within(&self.players, false);
        proof {
            lemma_extreme_sums_exact(self.players@);
            let ps = self.players@;
            assert((high && low) == extreme_sums_fit(ps)) by {
                if high && low {
                    assert forall|m: nat| 1 <= m <= 5 implies {
                        &&& #[trigger] best_sum(ps, true, m, (n - 5 + m) as nat) <= i32::MAX
                        &&& -best_sum(ps, false, m, (n - 5 + m) as nat) >= i32::MIN
                    } by {
                        assert(best_sum(ps, false, m, (n - 5 + m) as nat) == best_sum(ps, false, m, (n - 5 + m) as nat));
                    }
                }
                if extreme_sums_fit(ps) {
                    assert forall|m: nat| 1 <= m <= 5 implies
                        #[trigger] best_sum(ps, true, m, (ps.len() - 5 + m) as nat) <= i32::MAX by {
                        assert(best_sum(ps, true, m, (n - 5 + m) as nat) <= i32::MAX);
                    }
                    assert forall|m: nat| 1 <= m <= 5 implies
                        -#[trigger] best_sum(ps, false, m, (ps.len() - 5 + m) as nat) >= i32::MIN by {
                        assert(best_sum(ps, true, m, (n - 5 + m) as nat) <= i32::MAX);
                    }
                }
            }
        }
        high && low
    }
}

} // verus!
