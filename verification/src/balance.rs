//! Balanced team making: the blue team is drawn at random among the five-player
//! combinations whose score sum is closest to half of the total.
use vstd::prelude::*;

use crate::game::{Game, Player, is_blue, team_positions};
use crate::outside::{position_combinations, shuffle};

verus! {

/// The number of ways to pick `k` of `n` items.
pub open spec fn binomial(n: nat, k: nat) -> nat
    decreases n,
{
    if k == 0 {
        1
    } else if n == 0 {
        0
    } else {
        binomial((n - 1) as nat, (k - 1) as nat) + binomial((n - 1) as nat, k)
    }
}

/// `c` picks `k` distinct positions below `n`, listed in increasing order.
pub open spec fn is_combination(c: Seq<usize>, n: nat, k: nat) -> bool {
    &&& c.len() == k
    &&& forall|i: int| 0 <= i < c.len() ==> #[trigger] c[i] < n
    &&& forall|i: int, j: int| 0 <= i < j < c.len() ==> c[i] < c[j]
}

/// `a` comes before `b` in lexicographic order.
pub open spec fn lex_less(a: Seq<usize>, b: Seq<usize>) -> bool {
    exists|i: int|
        0 <= i < a.len() && i < b.len() && a[i] < b[i] && forall|j: int| 0 <= j < i ==> #[trigger] a[j] == b[j]
}

/// `combos` lists every way to pick `k` of the positions below `n`, in lexicographic order.
pub open spec fn enumerates_combinations(combos: Seq<Seq<usize>>, n: nat, k: nat) -> bool {
    &&& combos.len() == binomial(n, k)
    &&& forall|i: int| 0 <= i < combos.len() ==> is_combination(#[trigger] combos[i], n, k)
    &&& forall|i: int, j: int| 0 <= i < j < combos.len() ==> lex_less(#[trigger] combos[i], #[trigger] combos[j])
}

/// The positions lists of a vector of combinations.
pub open spec fn combos_view(combos: &Vec<Vec<usize>>) -> Seq<Seq<usize>> {
    combos@.map_values(|c: Vec<usize>| c@)
}

/// `x` is a value of `i32`.
pub open spec fn fits_i32(x: int) -> bool {
    i32::MIN <= x <= i32::MAX
}

/// The sum of the scores of all players.
pub open spec fn scores_total(players: Seq<Player>) -> int
    decreases players.len(),
{
    if players.len() == 0 {
        0
    } else {
        scores_total(players.drop_last()) + players.last().score
    }
}

/// Every running total of the scores, player after player, is a value of `i32`.
pub open spec fn totals_fit(players: Seq<Player>) -> bool {
    forall|m: int| 0 <= m <= players.len() ==> fits_i32(scores_total(#[trigger] players.take(m)))
}

/// The sum of the scores of the players at the positions `idx`.
pub open spec fn score_sum(players: Seq<Player>, idx: Seq<usize>) -> int
    decreases idx.len(),
{
    if idx.len() == 0 {
        0
    } else {
        score_sum(players, idx.drop_last()) + players[idx.last() as int].score
    }
}

/// Every running total of the scores at the positions `idx` is a value of `i32`.
pub open spec fn sums_fit(players: Seq<Player>, idx: Seq<usize>) -> bool {
    forall|m: int| 0 <= m <= idx.len() ==> fits_i32(score_sum(players, #[trigger] idx.take(m)))
}

/// Half of a total, rounded toward zero.
pub open spec fn half_toward_zero(t: int) -> int {
    if t >= 0 { t / 2 } else { -((-t) / 2) }
}

/// The absolute value.
pub open spec fn abs_int(x: int) -> int {
    if x < 0 { -x } else { x }
}

/// How far the score sum of the players at `c` is from half of the total score.
pub open spec fn distance(players: Seq<Player>, c: Seq<usize>) -> int {
    abs_int(half_toward_zero(scores_total(players)) - score_sum(players, c))
}

/// Combination `m` comes before combination `j` when ordered by distance, ties by their place
/// in the enumeration.
pub open spec fn closer(players: Seq<Player>, combos: Seq<Seq<usize>>, m: int, j: int) -> bool {
    let dm = distance(players, combos[m]);
    let dj = distance(players, combos[j]);
    dm < dj || (dm == dj && m < j)
}

/// How many of the first `upto` combinations come before combination `j`.
pub open spec fn count_closer(players: Seq<Player>, combos: Seq<Seq<usize>>, j: int, upto: nat) -> nat
    decreases upto,
{
    if upto == 0 {
        0
    } else {
        count_closer(players, combos, j, (upto - 1) as nat) + (if closer(players, combos, upto - 1, j) { 1nat } else { 0nat })
    }
}

/// Combination `j` is in the first third of the combinations ordered by distance
/// (ties by their place in the enumeration).
pub open spec fn balanced(players: Seq<Player>, combos: Seq<Seq<usize>>, j: int) -> bool {
    count_closer(players, combos, j, combos.len()) < combos.len() / 3
}

/// The first position below `limit` of a player with the id.
pub open spec fn position_below(players: Seq<Player>, id: u64, limit: nat) -> Option<usize>
    decreases limit,
{
    if limit == 0 {
        None
    } else {
        match position_below(players, id, (limit - 1) as nat) {
            Some(p) => Some(p),
            None => if limit - 1 < players.len() && players[limit - 1].id == id {
                Some((limit - 1) as usize)
            } else {
                None
            },
        }
    }
}

/// The team bits that put on the blue team, for each player picked by `c`, the first of the
/// ten positions that holds a player with the same id.
pub open spec fn comb_mask(players: Seq<Player>, c: Seq<usize>) -> i32
    decreases c.len(),
{
    if c.len() == 0 {
        0
    } else {
        let rest = comb_mask(players, c.drop_last());
        match position_below(players, players[c.last() as int].id, 10) {
            Some(p) => rest | (1i32 << p),
            None => rest,
        }
    }
}

/// What `shuffle_team` asks of the players: enough of them for a third of the combinations to
/// be one at least, and sums that stay within `i32`.
pub open spec fn can_shuffle(players: Seq<Player>) -> bool {
    &&& 6 <= players.len()
    &&& binomial(players.len(), 5) <= usize::MAX
    &&& totals_fit(players)
    &&& forall|c: Seq<usize>| is_combination(c, players.len(), 5) ==> #[trigger] sums_fit(players, c)
}

proof fn lemma_binomial_grows(n: nat, k: nat)
    ensures
        binomial(n, k) <= binomial(n + 1, k),
{
    assert(binomial(n + 1, k) == if k == 0 { 1 } else { binomial(n, (k - 1) as nat) + binomial(n, k) });
}

proof fn lemma_binomial_above(n: nat, k: nat)
    requires
        k > n,
    ensures
        binomial(n, k) == 0,
    decreases n,
{
    if n > 0 {
        lemma_binomial_above((n - 1) as nat, (k - 1) as nat);
        lemma_binomial_above((n - 1) as nat, k);
    }
}

proof fn lemma_binomial_all(n: nat)
    ensures
        binomial(n, n) == 1,
    decreases n,
{
    if n > 0 {
        lemma_binomial_all((n - 1) as nat);
        lemma_binomial_above((n - 1) as nat, n);
    }
}

proof fn lemma_binomial_all_but_one(n: nat)
    ensures
        binomial(n + 1, n) == n + 1,
    decreases n,
{
    if n > 0 {
        lemma_binomial_all_but_one((n - 1) as nat);
        lemma_binomial_all(n);
        assert(binomial(n + 1, n) == binomial(n, (n - 1) as nat) + binomial(n, n));
    }
}

proof fn lemma_binomial_five(n: nat)
    requires
        6 <= n,
    ensures
        6 <= binomial(n, 5),
    decreases n,
{
    if n == 6 {
        lemma_binomial_all_but_one(5);
    } else {
        lemma_binomial_five((n - 1) as nat);
        lemma_binomial_grows((n - 1) as nat, 5);
    }
}

proof fn lemma_no_closer(players: Seq<Player>, combos: Seq<Seq<usize>>, j: int, upto: nat)
    requires
        forall|m: int| 0 <= m < upto ==> !closer(players, combos, m, j),
    ensures
        count_closer(players, combos, j, upto) == 0,
    decreases upto,
{
    if upto > 0 {
        lemma_no_closer(players, combos, j, (upto - 1) as nat);
    }
}

/// The sum of the scores of all players, added up in order.
fn total_score(players: &Vec<Player>) -> (total: i32)
    requires
        totals_fit(players@),
    ensures
        total == scores_total(players@),
{
    let mut total: i32 = 0;
    let mut i: usize = 0;
    while i < players.len()
        invariant
            i <= players.len(),
            totals_fit(players@),
            total == scores_total(players@.take(i as int)),
        decreases players.len() - i,
    {
        proof {
            assert(players@.take(i + 1).drop_last() =~= players@.take(i as int));
            assert(fits_i32(scores_total(players@.take(i + 1))));
        }
        total = players[i].score + total;
        i += 1;
    }
    assert(players@.take(players.len() as int) =~= players@);
    total
}

/// The sum of the scores of the players at the positions of `c`.
fn combination_score(players: &Vec<Player>, c: &Vec<usize>) -> (sum: i32)
    requires
        forall|i: int| 0 <= i < c.len() ==> #[trigger] c@[i] < players.len(),
        sums_fit(players@, c@),
    ensures
        sum == score_sum(players@, c@),
{
    let mut sum: i32 = 0;
    let mut i: usize = 0;
    while i < c.len()
        invariant
            i <= c.len(),
            forall|i: int| 0 <= i < c.len() ==> #[trigger] c@[i] < players.len(),
            sums_fit(players@, c@),
            sum == score_sum(players@, c@.take(i as int)),
        decreases c.len() - i,
    {
        proof {
            assert(c@.take(i + 1).drop_last() =~= c@.take(i as int));
            assert(fits_i32(score_sum(players@, c@.take(i + 1))));
        }
        sum = sum + players[c[i]].score;
        i += 1;
    }
    assert(c@.take(c.len() as int) =~= c@);
    sum
}

/// The distance of each combination from half of the total.
fn distances(players: &Vec<Player>, combos: &Vec<Vec<usize>>, total: i32) -> (d: Vec<u64>)
    requires
        total == scores_total(players@),
        forall|i: int| 0 <= i < combos@.len() ==> is_combination(#[trigger] combos@[i]@, players.len() as nat, 5),
        forall|c: Seq<usize>| is_combination(c, players.len() as nat, 5) ==> #[trigger] sums_fit(players@, c),
    ensures
        d@.len() == combos@.len(),
        forall|j: int| 0 <= j < d@.len() ==> #[trigger] d@[j] == distance(players@, combos@[j]@),
{
    let half = total / 2;
    let mut d: Vec<u64> = Vec::new();
    let mut j: usize = 0;
    while j < combos.len()
        invariant
            j <= combos.len(),
            half as int == half_toward_zero(scores_total(players@)),
            forall|i: int| 0 <= i < combos@.len() ==> is_combination(#[trigger] combos@[i]@, players.len() as nat, 5),
            forall|c: Seq<usize>| is_combination(c, players.len() as nat, 5) ==> #[trigger] sums_fit(players@, c),
            d@.len() == j,
            forall|i: int| 0 <= i < j ==> #[trigger] d@[i] == distance(players@, combos@[i]@),
        decreases combos.len() - j,
    {
        let c = &combos[j];
        proof {
            assert(is_combination(combos@[j as int]@, players.len() as nat, 5));
            assert(sums_fit(players@, c@));
        }
        let sum = combination_score(players, c);
        let diff: i64 = half as i64 - sum as i64;
        let dist: u64 = if diff < 0 { (0i64 - diff) as u64 } else { diff as u64 };
        d.push(dist);
        j += 1;
    }
    d
}

/// The combinations in the first third by distance, in enumeration order; every such
/// combination is listed.
fn balanced_combinations(players: &Vec<Player>, combos: &Vec<Vec<usize>>, d: &Vec<u64>) -> (res: Vec<usize>)
    requires
        d@.len() == combos@.len(),
        forall|j: int| 0 <= j < d@.len() ==> #[trigger] d@[j] == distance(players@, combos@[j]@),
    ensures
        forall|k: int| 0 <= k < res@.len() ==> #[trigger] res@[k] < combos@.len()
            && balanced(players@, combos_view(combos), res@[k] as int),
        forall|j: int| 0 <= j < combos@.len() && balanced(players@, combos_view(combos), j) ==> res@.contains(j as usize),
{
    let ghost cv = combos_view(combos);
    let n = d.len();
    let third = n / 3;
    let mut res: Vec<usize> = Vec::new();
    let mut j: usize = 0;
    while j < n
        invariant
            n == d@.len() == combos@.len() == cv.len(),
            cv == combos_view(combos),
            third == n / 3,
            j <= n,
            forall|j: int| 0 <= j < d@.len() ==> #[trigger] d@[j] == distance(players@, cv[j]),
            forall|k: int| 0 <= k < res@.len() ==> #[trigger] res@[k] < j && balanced(players@, cv, res@[k] as int),
            forall|i: int| 0 <= i < j && balanced(players@, cv, i) ==> res@.contains(i as usize),
        decreases n - j,
    {
        let mut rank: usize = 0;
        let mut m: usize = 0;
        while m < n
            invariant
                n == d@.len() == combos@.len() == cv.len(),
                j < n,
                m <= n,
                forall|j: int| 0 <= j < d@.len() ==> #[trigger] d@[j] == distance(players@, cv[j]),
                rank == count_closer(players@, cv, j as int, m as nat),
                rank <= m,
            decreases n - m,
        {
            if d[m] < d[j] || (d[m] == d[j] && m < j) {
                rank += 1;
            }
            m += 1;
        }
        let ghost before = res@;
        if rank < third {
            res.push(j);
        }
        proof {
            let jj = j as int;
            assert forall|i: int| 0 <= i < jj + 1 && balanced(players@, cv, i) implies res@.contains(i as usize) by {
                if i == jj {
                    assert(res@[res@.len() - 1] == j);
                } else {
                    let k = choose|k: int| 0 <= k < before.len() && before[k] == i as usize;
                    assert(res@[k] == before[k]);
                }
            }
        }
        j += 1;
    }
    res
}

/// The combination that comes first when ordered by distance, ties by enumeration order.
fn closest_combination(players: &Vec<Player>, combos: &Vec<Vec<usize>>, d: &Vec<u64>) -> (best: usize)
    requires
        d@.len() == combos@.len(),
        0 < d@.len(),
        forall|j: int| 0 <= j < d@.len() ==> #[trigger] d@[j] == distance(players@, combos@[j]@),
    ensures
        best < combos@.len(),
        forall|m: int| 0 <= m < combos@.len() ==> !closer(players@, combos_view(combos), m, best as int),
{
    let ghost cv = combos_view(combos);
    assert forall|j: int| 0 <= j < d@.len() implies #[trigger] d@[j] == distance(players@, cv[j]) by {
        assert(cv[j] == combos@[j]@);
    }
    let mut best: usize = 0;
    let mut j: usize = 1;
    while j < d.len()
        invariant
            d@.len() == combos@.len() == cv.len(),
            cv == combos_view(combos),
            forall|j: int| 0 <= j < d@.len() ==> #[trigger] d@[j] == distance(players@, cv[j]),
            1 <= j <= d@.len(),
            best < j,
            forall|m: int| 0 <= m < j ==> !closer(players@, cv, m, best as int),
        decreases d@.len() - j,
    {
        proof {
            assert(d@[j as int] == distance(players@, cv[j as int]));
            assert(d@[best as int] == distance(players@, cv[best as int]));
        }
        let ghost old_best = best;
        if d[j] < d[best] {
            best = j;
        }
        proof {
            assert forall|m: int| 0 <= m < j + 1 implies !closer(players@, cv, m, best as int) by {
                if m < j {
                    assert(!closer(players@, cv, m, old_best as int));
                }
            }
        }
        j += 1;
    }
    best
}

proof fn lemma_position_below_stays(players: Seq<Player>, id: u64, lim: nat, later: nat)
    requires
        lim <= later <= usize::MAX,
        position_below(players, id, lim) is Some,
    ensures
        position_below(players, id, later) == position_below(players, id, lim),
        position_below(players, id, lim)->0 < lim,
    decreases later,
{
    if later > lim {
        lemma_position_below_stays(players, id, lim, (later - 1) as nat);
    } else {
        lemma_position_below_bound(players, id, lim);
    }
}

proof fn lemma_position_below_bound(players: Seq<Player>, id: u64, lim: nat)
    requires
        lim <= usize::MAX,
    ensures
        position_below(players, id, lim) matches Some(p) ==> p < lim && p < players.len()
            && players[p as int].id == id,
    decreases lim,
{
    if lim > 0 {
        lemma_position_below_bound(players, id, (lim - 1) as nat);
    }
}

/// The first of the ten positions holding a player with the id of the player at `p`.
fn first_position(players: &Vec<Player>, p: usize) -> (r: Option<usize>)
    requires
        p < players.len(),
    ensures
        r == position_below(players@, players@[p as int].id, 10),
        r matches Some(i) ==> i < 10,
{
    let id = players[p].id;
    let mut i: usize = 0;
    while i < 10
        invariant
            i <= 10,
            i <= p < players.len(),
            id == players@[p as int].id,
            position_below(players@, id, i as nat) is None,
        decreases 10 - i,
    {
        if players[i].id == id {
            proof {
                lemma_position_below_stays(players@, id, (i + 1) as nat, 10);
            }
            return Some(i);
        }
        i += 1;
    }
    None
}

/// The team bits of a combination.
fn mask_of(players: &Vec<Player>, c: &Vec<usize>) -> (bits: i32)
    requires
        forall|i: int| 0 <= i < c.len() ==> #[trigger] c@[i] < players.len(),
    ensures
        bits == comb_mask(players@, c@),
{
    let mut new_team_bit: i32 = 0;
    let mut k: usize = 0;
    while k < c.len()
        invariant
            k <= c.len(),
            forall|i: int| 0 <= i < c.len() ==> #[trigger] c@[i] < players.len(),
            new_team_bit == comb_mask(players@, c@.take(k as int)),
        decreases c.len() - k,
    {
        proof {
            assert(c@.take(k + 1).drop_last() =~= c@.take(k as int));
            assert(c@.take(k + 1).last() == c@[k as int]);
        }
        match first_position(players, c[k]) {
            Some(i) => {
                new_team_bit = new_team_bit | (1i32 << i);
            },
            None => {},
        }
        k += 1;
    }
    assert(c@.take(c.len() as int) =~= c@);
    new_team_bit
}

/// No two players share an id.
pub open spec fn ids_distinct(players: Seq<Player>) -> bool {
    forall|i: int, j: int| 0 <= i < j < players.len() ==> players[i].id != players[j].id
}

/// How many of the positions below `n` the list `c` holds.
pub open spec fn count_members(c: Seq<usize>, n: nat) -> nat
    decreases n,
{
    if n == 0 {
        0
    } else {
        count_members(c, (n - 1) as nat) + (if c.contains((n - 1) as usize) { 1nat } else { 0nat })
    }
}

proof fn lemma_bit_or(m: i32, p: usize, i: usize)
    requires
        p < 32,
        i < 32,
    ensures
        ((m | (1i32 << p)) & (1i32 << i) != 0) == ((m & (1i32 << i) != 0) || p == i),
{
    assert(((m | (1i32 << p)) & (1i32 << i) != 0) == ((m & (1i32 << i) != 0) || p == i)) by (bit_vector)
        requires p < 32, i < 32;
}

proof fn lemma_zero_bits(i: usize)
    requires
        i < 32,
    ensures
        !is_blue(0, i),
{
    assert(0i32 & (1i32 << i) == 0) by (bit_vector) requires i < 32;
}

proof fn lemma_position_of_distinct(players: Seq<Player>, p: int, lim: nat)
    requires
        ids_distinct(players),
        0 <= p < players.len(),
        lim <= usize::MAX,
    ensures
        position_below(players, players[p].id, lim) == (if p < lim { Some(p as usize) } else { None::<usize> }),
    decreases lim,
{
    if lim > 0 {
        lemma_position_of_distinct(players, p, (lim - 1) as nat);
    }
}

/// With distinct ids, the mask of `c` sets exactly the bits of the positions `c` holds.
proof fn lemma_mask_bits(players: Seq<Player>, c: Seq<usize>, i: usize)
    requires
        players.len() == 10,
        ids_distinct(players),
        forall|k: int| 0 <= k < c.len() ==> #[trigger] c[k] < 10,
        i < 10,
    ensures
        is_blue(comb_mask(players, c), i) == c.contains(i),
    decreases c.len(),
{
    if c.len() == 0 {
        lemma_zero_bits(i);
    } else {
        let rest = c.drop_last();
        lemma_mask_bits(players, rest, i);
        let p = c.last();
        lemma_position_of_distinct(players, p as int, 10);
        lemma_bit_or(comb_mask(players, rest), p, i);
        assert(c =~= rest.push(p));
        assert(c.contains(i) == (rest.contains(i) || p == i)) by {
            if c.contains(i) {
                let k = choose|k: int| 0 <= k < c.len() && c[k] == i;
                if k < rest.len() {
                    assert(rest[k] == i);
                }
            }
            if rest.contains(i) {
                let k = choose|k: int| 0 <= k < rest.len() && rest[k] == i;
                assert(c[k] == i);
            }
            if p == i {
                assert(c[c.len() - 1] == i);
            }
        }
    }
}

proof fn lemma_count_members_push(c: Seq<usize>, n: nat)
    requires
        c.len() > 0,
        !c.drop_last().contains(c.last()),
        n <= usize::MAX,
    ensures
        count_members(c, n) == count_members(c.drop_last(), n) + (if (c.last() as int) < n { 1nat } else { 0nat }),
    decreases n,
{
    if n > 0 {
        lemma_count_members_push(c, (n - 1) as nat);
        let rest = c.drop_last();
        let x = (n - 1) as usize;
        assert(c =~= rest.push(c.last()));
        assert(c.contains(x) == (rest.contains(x) || c.last() == x)) by {
            if c.contains(x) {
                let k = choose|k: int| 0 <= k < c.len() && c[k] == x;
                if k < rest.len() {
                    assert(rest[k] == x);
                }
            }
            if rest.contains(x) {
                let k = choose|k: int| 0 <= k < rest.len() && rest[k] == x;
                assert(c[k] == x);
            }
            if c.last() == x {
                assert(c[c.len() - 1] == x);
            }
        }
    }
}

proof fn lemma_count_members_all(c: Seq<usize>, n: nat)
    requires
        n <= usize::MAX,
        forall|k: int| 0 <= k < c.len() ==> #[trigger] c[k] < n,
        forall|k: int, l: int| 0 <= k < l < c.len() ==> c[k] < c[l],
    ensures
        count_members(c, n) == c.len(),
    decreases c.len(),
{
    if c.len() == 0 {
        lemma_count_members_empty(c, n);
    } else {
        let rest = c.drop_last();
        assert(!rest.contains(c.last())) by {
            if rest.contains(c.last()) {
                let k = choose|k: int| 0 <= k < rest.len() && rest[k] == c.last();
                assert(c[k] < c[c.len() - 1]);
            }
        }
        lemma_count_members_push(c, n);
        lemma_count_members_all(rest, n);
    }
}

proof fn lemma_count_members_empty(c: Seq<usize>, n: nat)
    requires
        c.len() == 0,
    ensures
        count_members(c, n) == 0,
    decreases n,
{
    if n > 0 {
        lemma_count_members_empty(c, (n - 1) as nat);
    }
}

proof fn lemma_blue_count(players: Seq<Player>, c: Seq<usize>, m: nat)
    requires
        players.len() == 10,
        ids_distinct(players),
        forall|k: int| 0 <= k < c.len() ==> #[trigger] c[k] < 10,
        m <= 10,
    ensures
        team_positions(comb_mask(players, c), true, m).len() == count_members(c, m),
    decreases m,
{
    if m > 0 {
        lemma_blue_count(players, c, (m - 1) as nat);
        lemma_mask_bits(players, c, (m - 1) as usize);
    }
}

/// Drawn teams are even: for ten players with distinct ids, a combination of five of the ten
/// positions, made into team bits, puts five players on each team.
pub proof fn lemma_drawn_teams_even(players: Seq<Player>, c: Seq<usize>)
    requires
        players.len() == 10,
        ids_distinct(players),
        is_combination(c, 10, 5),
    ensures
        team_positions(comb_mask(players, c), true, 10).len() == 5,
        team_positions(comb_mask(players, c), false, 10).len() == 5,
{
    lemma_blue_count(players, c, 10);
    lemma_count_members_all(c, 10);
    crate::game::lemma_teams_partition(comb_mask(players, c), 10);
}

/// After drawing teams in a lobby of ten players with distinct ids, whichever balanced
/// combination was drawn, each team has five players.
pub proof fn lemma_shuffled_teams_even(players: Seq<Player>, combos: Seq<Seq<usize>>, j: int)
    requires
        players.len() == 10,
        ids_distinct(players),
        enumerates_combinations(combos, 10, 5),
        0 <= j < combos.len(),
    ensures
        team_positions(comb_mask(players, combos[j]), true, 10).len() == 5,
        team_positions(comb_mask(players, combos[j]), false, 10).len() == 5,
{
    lemma_drawn_teams_even(players, combos[j]);
}

impl Game {
    /// Draws new teams: among all ways to pick five players, ordered by how far their score
    /// sum is from half of the total score (ties in enumeration order), one of the first third
    /// is drawn at random and becomes the blue team.
    pub fn shuffle_team(&mut self)
        requires
            can_shuffle(old(self).players@),
        ensures
            final(self).players == old(self).players,
            final(self).id == old(self).id,
            final(self).state == old(self).state,
            exists|combos: Seq<Seq<usize>>, j: int|
                #![trigger enumerates_combinations(combos, old(self).players@.len(), 5), combos[j]]
                enumerates_combinations(combos, old(self).players@.len(), 5)
                && 0 <= j < combos.len()
                && balanced(old(self).players@, combos, j)
                && final(self).team_bit == comb_mask(old(self).players@, combos[j]),
    {
        let total_scores = total_score(&self.players);
        let n = self.players.len();
        let combs = position_combinations(n, 5);
        let ghost cv = combos_view(&combs);
        proof {
            lemma_binomial_five(n as nat);
            assert forall|i: int| 0 <= i < combs@.len() implies #[trigger] cv[i] == combs@[i]@ by {}
            assert forall|i: int| 0 <= i < cv.len() implies is_combination(#[trigger] cv[i], n as nat, 5) by {
                assert(is_combination(combs@[i]@, n as nat, 5));
            }
            assert forall|i: int, j: int| 0 <= i < j < cv.len() implies lex_less(#[trigger] cv[i], #[trigger] cv[j]) by {
                assert(lex_less(combs@[i]@, combs@[j]@));
            }
            assert(enumerates_combinations(cv, n as nat, 5));
        }
        let d = distances(&self.players, &combs, total_scores);
        let best = closest_combination(&self.players, &combs, &d);
        let mut candidates = balanced_combinations(&self.players, &combs, &d);
        proof {
            lemma_no_closer(self.players@, cv, best as int, cv.len());
            assert(balanced(self.players@, cv, best as int));
            assert(candidates@.contains(best));
            candidates@.to_multiset_ensures();
        }
        shuffle(&mut candidates);
        proof {
            candidates@.to_multiset_ensures();
            assert(candidates@.len() > 0);
            assert(candidates@.contains(candidates@[0]));
            assert(candidates@.to_multiset().count(candidates@[0]) > 0);
        }
        let chosen = candidates[0];
        let c = &combs[chosen];
        proof {
            assert(is_combination(combs@[chosen as int]@, n as nat, 5));
        }
        let new_team_bit = mask_of(&self.players, c);
        self.team_bit = new_team_bit;
        proof {
            assert(cv[chosen as int] == c@);
            assert(balanced(old(self).players@, cv, chosen as int));
        }
    }
}

} // verus!
