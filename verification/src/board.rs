//! The leaderboard text: one line per player, highest score first.
use vstd::prelude::*;

use crate::game::Player;
use crate::outside::sorted_by_first;
use crate::text::{i32_to_text, signed_decimal};

verus! {

/// A player's line on the board: the name and the score in brackets.
pub open spec fn board_line(p: Player) -> Seq<char> {
    p.summoner_name@ + seq!['('] + signed_decimal(p.score as int) + seq![')']
}

/// A board line shows only the name and the score: two players with the same name and score
/// have the same line, whatever their wins, losses and deviations, and the number in the
/// brackets is the score's decimal text.
pub proof fn lemma_board_line_shows_score(p: Player, q: Player)
    requires
        p.summoner_name@ == q.summoner_name@,
        p.score == q.score,
    ensures
        board_line(p) == board_line(q),
        board_line(p).len() == p.summoner_name@.len() + signed_decimal(p.score as int).len() + 2,
        board_line(p).subrange((p.summoner_name@.len() + 1) as int, (board_line(p).len() - 1) as int) == signed_decimal(p.score as int),
{
    let name = p.summoner_name@;
    let num = signed_decimal(p.score as int);
    assert(board_line(p).subrange((name.len() + 1) as int, (board_line(p).len() - 1) as int) =~= num);
}

/// The lines, one after another, with a line break between two of them.
pub open spec fn joined_lines(lines: Seq<Seq<char>>) -> Seq<char>
    decreases lines.len(),
{
    if lines.len() == 0 {
        Seq::empty()
    } else if lines.len() == 1 {
        lines[0]
    } else {
        joined_lines(lines.drop_last()) + seq!['\n'] + lines.last()
    }
}

/// `order` lists every position of `players` once, highest score first, players with equal
/// scores in position order.
pub open spec fn is_board_order(players: Seq<Player>, order: Seq<usize>) -> bool {
    &&& order.len() == players.len()
    &&& forall|i: int| 0 <= i < order.len() ==> #[trigger] order[i] < players.len()
    &&& forall|i: int, j: int| 0 <= i < j < order.len() ==> order[i] != order[j]
    &&& forall|i: int, j: int| 0 <= i < j < order.len()
        ==> players[order[i] as int].score >= players[order[j] as int].score
    &&& forall|i: int, j: int| 0 <= i < j < order.len()
        && players[order[i] as int].score == players[order[j] as int].score ==> order[i] < order[j]
}

/// The board: the players' lines in board order.
pub open spec fn board(players: Seq<Player>, order: Seq<usize>) -> Seq<char> {
    joined_lines(Seq::new(order.len(), |k: int| board_line(players[order[k] as int])))
}

/// The leaderboard of the players: their lines, highest score first (equal scores in the
/// order the players are listed), separated by line breaks.
pub fn board_text(players: &Vec<Player>) -> (text: String)
    requires
        forall|i: int| 0 <= i < players@.len() ==> #[trigger] players@[i].score > i32::MIN,
    ensures
        exists|order: Seq<usize>| is_board_order(players@, order) && text@ == board(players@, order),
        // each line is the name, the score (the number the board is ordered by) in decimal, in brackets
        exists|order: Seq<usize>| is_board_order(players@, order) && text@ == joined_lines(
            Seq::new(order.len(), |k: int|
                players@[order[k] as int].summoner_name@ + seq!['('] + signed_decimal(players@[order[k] as int].score as int) + seq![')'])),
{
    let n = players.len();
    let mut keyed: Vec<(i32, usize)> = Vec::new();
    let mut i: usize = 0;
    while i < n
        invariant
            i <= n == players@.len(),
            forall|i: int| 0 <= i < players@.len() ==> #[trigger] players@[i].score > i32::MIN,
            keyed@.len() == i,
            forall|k: int| 0 <= k < i ==> #[trigger] keyed@[k] == ((-players@[k].score) as i32, k as usize),
        decreases n - i,
    {
        keyed.push((-players[i].score, i));
        i += 1;
    }
    let ghost before = keyed@;
    let sorted = sorted_by_first(keyed);
    let ghost order = Seq::new(sorted@.len(), |k: int| sorted@[k].1);
    proof {
        before.to_multiset_ensures();
        sorted@.to_multiset_ensures();
        assert forall|k: int| 0 <= k < sorted@.len() implies #[trigger] before.contains(sorted@[k]) by {
            assert(sorted@.contains(sorted@[k]));
            assert(sorted@.to_multiset().count(sorted@[k]) > 0);
        }
        assert forall|k: int| 0 <= k < sorted@.len() implies
            (#[trigger] sorted@[k]).1 < n && sorted@[k].0 == -players@[sorted@[k].1 as int].score by {
            assert(before.contains(sorted@[k]));
            let a = choose|a: int| 0 <= a < before.len() && before[a] == sorted@[k];
        }
        assert forall|i: int| 0 <= i < order.len() implies #[trigger] order[i] < players@.len() by {
            assert(sorted@[i].1 < n);
        }
        assert forall|i: int, j: int| 0 <= i < j < order.len() implies
            players@[order[i] as int].score >= players@[order[j] as int].score by {
            assert(sorted@[i].0 <= sorted@[j].0);
            assert(sorted@[i].0 == -players@[sorted@[i].1 as int].score);
            assert(sorted@[j].0 == -players@[sorted@[j].1 as int].score);
        }
        assert forall|i: int, j: int| 0 <= i < j < order.len()
            && players@[order[i] as int].score == players@[order[j] as int].score implies order[i] < order[j] by {
            assert(sorted@[i].0 == -players@[sorted@[i].1 as int].score);
            assert(sorted@[j].0 == -players@[sorted@[j].1 as int].score);
        }
        assert forall|i: int, j: int| 0 <= i < j < order.len() implies order[i] != order[j] by {
            assert(before.contains(sorted@[i]));
            assert(before.contains(sorted@[j]));
            let a = choose|a: int| 0 <= a < before.len() && before[a] == sorted@[i];
            let b = choose|b: int| 0 <= b < before.len() && before[b] == sorted@[j];
            if order[i] == order[j] {
                assert(a == b);
                assert(sorted@[i].0 == sorted@[j].0);
            }
        }
        assert(is_board_order(players@, order));
    }
    let mut text = String::new();
    let ghost lines = Seq::new(order.len(), |k: int| board_line(players@[order[k] as int]));
    let mut k: usize = 0;
    while k < sorted.len()
        invariant
            k <= sorted@.len() == order.len() == lines.len(),
            order == Seq::new(sorted@.len(), |k: int| sorted@[k].1),
            lines == Seq::new(order.len(), |k: int| board_line(players@[order[k] as int])),
            forall|k: int| 0 <= k < sorted@.len() ==> #[trigger] sorted@[k].1 < players@.len(),
            text@ == joined_lines(lines.take(k as int)),
        decreases sorted@.len() - k,
    {
        let p = &players[sorted[k].1];
        let ghost prev = text@;
        if k > 0 {
            proof { reveal_strlit("\n"); }
            text.append("\n");
        }
        text.append(p.summoner_name.as_str());
        proof { reveal_strlit("("); reveal_strlit(")"); }
        text.append("(");
        let score = i32_to_text(p.score);
        text.append(score.as_str());
        text.append(")");
        proof {
            let t = lines.take(k + 1);
            assert(t.drop_last() =~= lines.take(k as int));
            assert(t.last() == board_line(*p));
            if k == 0 {
                assert(text@ =~= joined_lines(t));
            } else {
                assert(text@ =~= joined_lines(t));
            }
        }
        k += 1;
    }
    assert(lines.take(k as int) =~= lines);
    assert(lines =~= Seq::new(order.len(), |k: int|
        players@[order[k] as int].summoner_name@ + seq!['('] + signed_decimal(players@[order[k] as int].score as int) + seq![')']));
    text
}

} // verus!
