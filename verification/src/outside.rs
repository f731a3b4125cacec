//! Calls into `rand`, `itertools` and std whose contracts are taken on trust.
use vstd::prelude::*;

use itertools::Itertools;
use rand::Rng;
use rand::seq::SliceRandom;

use crate::balance::{binomial, is_combination, lex_less};

verus! {

/// `rand::seq::SliceRandom::shuffle` with the thread-local generator: Fisher-Yates swaps,
/// so the result is some permutation of the input. Which one is left to chance.
#[verifier::external_body]
pub fn shuffle<T>(v: &mut Vec<T>)
    ensures
        final(v)@.len() == old(v)@.len(),
        final(v)@.to_multiset() == old(v)@.to_multiset(),
{
    v.shuffle(&mut rand::thread_rng());
}

/// `rand::Rng::gen_range` on `low..high` with the thread-local generator: some value of the
/// half-open range, left to chance. The range must not be empty (it panics then).
#[verifier::external_body]
pub fn random_in(low: u64, high: u64) -> (r: u64)
    requires
        low < high,
    ensures
        low <= r < high,
{
    rand::thread_rng().gen_range(low..high)
}

/// `itertools::Itertools::combinations` on the positions `0..n`: every way to pick `k`
/// positions, each as an increasing list, in lexicographic order; there are
/// `binomial(n, k)` of them.
#[verifier::external_body]
pub fn position_combinations(n: usize, k: usize) -> (res: Vec<Vec<usize>>)
    requires
        binomial(n as nat, k as nat) <= usize::MAX,
    ensures
        res@.len() == binomial(n as nat, k as nat),
        forall|i: int| 0 <= i < res@.len() ==> is_combination(#[trigger] res@[i]@, n as nat, k as nat),
        forall|i: int, j: int| 0 <= i < j < res@.len() ==> lex_less(#[trigger] res@[i]@, #[trigger] res@[j]@),
{
    (0..n).combinations(k).collect()
}

/// What `str::to_lowercase` makes of a text (Unicode lower-case mapping, a function of the
/// text alone).
pub uninterp spec fn lowercase(s: Seq<char>) -> Seq<char>;

/// `str::to_lowercase`. Nothing more is said of the result than that it is the lower-case
/// mapping of the argument.
#[verifier::external_body]
pub fn to_lowercase(s: &String) -> (r: String)
    ensures
        r@ == lowercase(s@),
{
    s.to_lowercase()
}

/// `s` with every match of `from` replaced by `to`, matches taken from left to right without
/// overlap (for a non-empty `from`).
pub open spec fn replaced(s: Seq<char>, from: Seq<char>, to: Seq<char>) -> Seq<char>
    decreases s.len(),
{
    if from.len() == 0 || s.len() < from.len() {
        s
    } else if s.take(from.len() as int) == from {
        to + replaced(s.skip(from.len() as int), from, to)
    } else {
        seq![s[0]] + replaced(s.skip(1), from, to)
    }
}

/// `str::replace` with a non-empty pattern: left-to-right, non-overlapping replacement.
#[verifier::external_body]
pub fn replace(s: &str, from: &str, to: &str) -> (r: String)
    requires
        from@.len() > 0,
    ensures
        r@ == replaced(s@, from@, to@),
{
    s.replace(from, to)
}

/// An ASCII decimal digit.
pub open spec fn is_digit(c: char) -> bool {
    '0' <= c <= '9'
}

/// The number that a run of decimal digits spells.
pub open spec fn digits_value(s: Seq<char>) -> int
    decreases s.len(),
{
    if s.len() == 0 {
        0
    } else {
        digits_value(s.drop_last()) * 10 + (s.last() as int - '0' as int)
    }
}

/// The number a text spells as `str::parse::<i32>` reads it: an optional `+` or `-`, then
/// one or more ASCII digits, the value within `i32`; `None` for any other text.
pub open spec fn parsed_i32(s: Seq<char>) -> Option<i32> {
    let negative = s.len() > 0 && s[0] == '-';
    let body = if s.len() > 0 && (s[0] == '-' || s[0] == '+') { s.skip(1) } else { s };
    let value = if negative { -digits_value(body) } else { digits_value(body) };
    if body.len() > 0 && (forall|i: int| 0 <= i < body.len() ==> is_digit(#[trigger] body[i]))
        && i32::MIN <= value <= i32::MAX {
        Some(value as i32)
    } else {
        None
    }
}

/// `str::parse::<i32>`, its error turned into `None`.
#[verifier::external_body]
pub fn parse_i32(s: &str) -> (r: Option<i32>)
    ensures
        r == parsed_i32(s@),
{
    s.parse::<i32>().ok()
}

/// `itertools::Itertools::sorted_by_key` keyed by the first field: ascending keys, and a
/// stable sort, so pairs with equal keys keep their order (here: increasing second fields).
#[verifier::external_body]
pub fn sorted_by_first(v: Vec<(i32, usize)>) -> (r: Vec<(i32, usize)>)
    requires
        forall|i: int, j: int| 0 <= i < j < v@.len() ==> v@[i].1 < v@[j].1,
    ensures
        r@.len() == v@.len(),
        r@.to_multiset() == v@.to_multiset(),
        forall|i: int, j: int| 0 <= i < j < r@.len() ==> r@[i].0 <= r@[j].0,
        forall|i: int, j: int| 0 <= i < j < r@.len() && r@[i].0 == r@[j].0 ==> r@[i].1 < r@[j].1,
{
    v.into_iter().sorted_by_key(|e| e.0).collect()
}

} // verus!
