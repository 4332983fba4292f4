//! What a player is, and what the searches share.

use vstd::arithmetic::power2::lemma_pow2_pos;
use vstd::arithmetic::power2::pow2;
use vstd::prelude::*;
use crate::game::check::in_check;
use crate::game::board::Board;
use crate::game::movegen::legal_moves;
use crate::game::moves::Move;
use crate::game::piece::Piece;
use crate::game::position::Position;
use crate::hash::hashtable::bucket_find;
use crate::hash::hashtable::bucket_index;
use crate::hash::hashtable::table_empty;
use crate::hash::hashtable::table_lookup;
use crate::hash::hashtable::table_set;
use crate::player::scoring::advanced_eval;
use crate::player::scoring::basic_eval;
use crate::player::scoring::{LOSE_SCORE, MIN_SCORE};

verus! {

/// Something that chooses a move.
pub trait Player {
    /// The invariant of the player.
    spec fn ready(&self) -> bool;

    /// How many moves ahead the player may play on the board while it
    /// chooses.
    spec fn reach(&self) -> u32;

    /// Chooses one of the legal moves of the board, which are handed in, or
    /// none. The board may be played on meanwhile and is the same again
    /// afterwards. Where there is no legal move, none is chosen.
    fn get_move<'a>(&mut self, board: &mut Board, possible_moves: &'a [Move]) -> (r: Option<
        &'a Move,
    >)
        requires
            old(self).ready(),
            old(board).wf(),
            old(board).turns_taken + old(self).reach() <= u32::MAX,
            possible_moves@ == legal_moves(old(board)@),
        ensures
            final(self).ready(),
            final(self).reach() == old(self).reach(),
            final(board).wf(),
            final(board)@ == old(board)@,
            r is Some ==> possible_moves@.contains(*r->0),
            possible_moves@.len() == 0 ==> r is None,
    ;
}

/// What a scoring function must be to serve a search: it takes every board
/// that is well formed, never gives the one value that has no negative, and
/// gives one score to one position.
pub open spec fn scorer_ok<F: Fn(&Board) -> i32>(score_board: F) -> bool {
    &&& forall|board: &Board| board.wf() ==> #[trigger] score_board.requires((board,))
    &&& forall|board: &Board, score: i32| #[trigger]
        score_board.ensures((board,), score) ==> score >= MIN_SCORE
    &&& forall|first: &Board, second: &Board, one: i32, other: i32|
        first@ == second@ && #[trigger] score_board.ensures((first,), one)
            && #[trigger] score_board.ensures((second,), other) ==> one == other
}

/// The two evaluations of this library serve a search.
pub proof fn lemma_evaluations_serve()
    ensures
        scorer_ok(basic_eval),
        scorer_ok(advanced_eval),
{
}

/// Whether a scoring function may give `score` for a board with the given
/// position.
pub open spec fn may_score<F: Fn(&Board) -> i32>(score_board: F, pos: Position, score: i32) -> bool {
    exists|board: &Board| board@ == pos && #[trigger] score_board.ensures((board,), score)
}

/// The score that a scoring function gives to a position.
pub open spec fn score_of<F: Fn(&Board) -> i32>(score_board: F, pos: Position) -> i32 {
    choose|score: i32| #[trigger] may_score(score_board, pos, score)
}

/// What a scoring function gives for a board is the score of the board's
/// position.
pub proof fn lemma_score_of<F: Fn(&Board) -> i32>(score_board: F, board: &Board, score: i32)
    requires
        scorer_ok(score_board),
        score_board.ensures((board,), score),
    ensures
        score == score_of(score_board, board@),
{
    let pos = board@;
    assert(may_score(score_board, pos, score));
    let chosen = score_of(score_board, pos);
    assert(may_score(score_board, pos, chosen));
    let witness = choose|b: &Board| b@ == pos && #[trigger] score_board.ensures((b,), chosen);
    assert(witness@ == board@ && score_board.ensures((witness,), chosen));
}

/// Whether every score that a table holds has a negative.
pub open spec fn scores_ok(buckets: Seq<Seq<Option<(u64, i32)>>>) -> bool {
    forall|i: int, j: int|
        0 <= i < buckets.len() && 0 <= j < buckets[i].len() ==> match #[trigger] buckets[i][j] {
            Some((_, score)) => score >= MIN_SCORE,
            None => true,
        }
}

/// A table without entries holds no score without a negative.
pub proof fn lemma_scores_ok_empty(bits: nat, size: nat)
    ensures
        scores_ok(table_empty::<i32>(bits, size)),
{
}

/// Setting a score that has a negative keeps the table free of scores
/// without one.
pub proof fn lemma_scores_ok_set(
    buckets: Seq<Seq<Option<(u64, i32)>>>,
    bits: nat,
    hash: u64,
    score: i32,
)
    requires
        scores_ok(buckets),
        buckets.len() == pow2(bits),
        score >= MIN_SCORE,
    ensures
        scores_ok(table_set(buckets, bits, hash, score)),
{
    let after = table_set(buckets, bits, hash, score);
    let idx = bucket_index(hash, bits);
    lemma_pow2_pos(bits);
    assert(0 <= idx < buckets.len()) by (nonlinear_arith)
        requires
            idx == hash as int % pow2(bits) as int,
            buckets.len() == pow2(bits),
            pow2(bits) > 0,
    ;
    assert forall|i: int, j: int| 0 <= i < after.len() && 0 <= j < after[i].len() implies match #[trigger] after[i][j] {
        Some((_, score)) => score >= MIN_SCORE,
        None => true,
    } by {
        if i == idx {
            if j > 0 {
                assert(after[i][j] == buckets[i][j - 1]);
            }
        } else {
            assert(after[i][j] == buckets[i][j]);
        }
    }
}

proof fn lemma_found_is_entry(entries: Seq<Option<(u64, i32)>>, hash: u64, i: int)
    requires
        0 <= i,
        bucket_find(entries, hash, i) is Some,
    ensures
        exists|j: int|
            i <= j < entries.len() && #[trigger] entries[j] == Some(
                (hash, bucket_find(entries, hash, i)->0),
            ),
    decreases entries.len() - i,
{
    if i < entries.len() {
        match entries[i] {
            Some((stored, value)) => {
                if stored != hash {
                    lemma_found_is_entry(entries, hash, i + 1);
                }
            },
            None => {
                lemma_found_is_entry(entries, hash, i + 1);
            },
        }
    }
}

/// What is found in a table free of scores without a negative has one.
pub proof fn lemma_scores_ok_lookup(buckets: Seq<Seq<Option<(u64, i32)>>>, bits: nat, hash: u64)
    requires
        scores_ok(buckets),
        buckets.len() == pow2(bits),
        table_lookup(buckets, bits, hash) is Some,
    ensures
        table_lookup(buckets, bits, hash)->0 >= MIN_SCORE,
{
    lemma_pow2_pos(bits);
    let idx = bucket_index(hash, bits);
    assert(0 <= idx < buckets.len()) by (nonlinear_arith)
        requires
            idx == hash as int % pow2(bits) as int,
            buckets.len() == pow2(bits),
            pow2(bits) > 0,
    ;
    lemma_found_is_entry(buckets[idx], hash, 0);
    let j = choose|j: int|
        0 <= j < buckets[idx].len() && #[trigger] buckets[idx][j] == Some(
            (hash, bucket_find(buckets[idx], hash, 0)->0),
        );
    assert(buckets[idx][j] is Some);
}

/// Whether a move takes a man by landing on it.
pub open spec fn takes(m: Move) -> bool {
    m.replaced_piece != Piece::Empty
}

/// Those of the first `n` moves of a list that take a man, or those that
/// take none.
pub open spec fn moves_that(moves: Seq<Move>, taking: bool, n: int) -> Seq<Move>
    decreases n,
{
    if n <= 0 {
        Seq::empty()
    } else if takes(moves[n - 1]) == taking {
        moves_that(moves, taking, n - 1).push(moves[n - 1])
    } else {
        moves_that(moves, taking, n - 1)
    }
}

/// A list of moves with the captures in front, each part in its old order.
pub open spec fn captures_first(moves: Seq<Move>) -> Seq<Move> {
    moves_that(moves, true, moves.len() as int) + moves_that(moves, false, moves.len() as int)
}

proof fn lemma_moves_that(moves: Seq<Move>, taking: bool, n: int)
    requires
        0 <= n <= moves.len(),
    ensures
        forall|i: int|
            0 <= i < moves_that(moves, taking, n).len() ==> moves.contains(
                #[trigger] moves_that(moves, taking, n)[i],
            ),
        moves_that(moves, true, n).len() + moves_that(moves, false, n).len() == n,
    decreases n,
{
    if n > 0 {
        lemma_moves_that(moves, taking, n - 1);
        lemma_moves_that(moves, !taking, n - 1);
        let before = moves_that(moves, taking, n - 1);
        let now = moves_that(moves, taking, n);
        assert forall|i: int| 0 <= i < now.len() implies moves.contains(#[trigger] now[i]) by {
            if i < before.len() {
                assert(now[i] == before[i]);
            } else {
                assert(now[i] == moves[n - 1]);
            }
        }
    }
}

/// Every move of the ordered list is one of the list, and none is lost.
pub proof fn lemma_captures_first(moves: Seq<Move>)
    ensures
        captures_first(moves).len() == moves.len(),
        forall|i: int|
            0 <= i < captures_first(moves).len() ==> moves.contains(
                #[trigger] captures_first(moves)[i],
            ),
{
    lemma_moves_that(moves, true, moves.len() as int);
    lemma_moves_that(moves, false, moves.len() as int);
}

/// Puts the captures in front of the other moves.
pub fn basic_move_ordering(moves: Vec<Move>) -> (sorted: Vec<Move>)
    ensures
        sorted@ == captures_first(moves@),
        sorted@.len() == moves@.len(),
        forall|i: int| 0 <= i < sorted@.len() ==> moves@.contains(#[trigger] sorted@[i]),
{
    let mut sorted: Vec<Move> = Vec::with_capacity(moves.len());
    let mut i: usize = 0;
    while i < moves.len()
        invariant
            i <= moves.len(),
            sorted@ == moves_that(moves@, true, i as int),
        decreases moves.len() - i,
    {
        if moves[i].replaced_piece != Piece::Empty {
            sorted.push(moves[i]);
        }
        i += 1;
    }
    let ghost captures = sorted@;
    let mut i: usize = 0;
    assert(sorted@ =~= captures + moves_that(moves@, false, 0));
    while i < moves.len()
        invariant
            i <= moves.len(),
            sorted@ == captures + moves_that(moves@, false, i as int),
        decreases moves.len() - i,
    {
        if moves[i].replaced_piece == Piece::Empty {
            sorted.push(moves[i]);
            assert(sorted@ =~= captures + moves_that(moves@, false, i as int + 1));
        }
        i += 1;
    }
    proof {
        lemma_captures_first(moves@);
    }
    sorted
}

/// The score of a position without legal moves, for the side to move: the
/// draw if its king is not in check, which is stalemate, and the loss if it
/// is, which is mate.
pub open spec fn terminal_score(pos: Position) -> i32 {
    if in_check(pos, pos.side_to_move) {
        LOSE_SCORE
    } else {
        0
    }
}

/// What a search to a depth may answer for a position. At depth zero it is
/// a score and no move. Where there is no legal move it is the terminal
/// score and no move: the draw for stalemate, the loss for mate. Else it is
/// a score and one of the legal moves.
pub open spec fn search_answer(pos: Position, depth: u32, answer: (i32, Option<Move>)) -> bool {
    &&& answer.0 >= MIN_SCORE
    &&& if depth == 0 {
        answer.1 is None
    } else if legal_moves(pos).len() == 0 {
        answer.0 == terminal_score(pos) && answer.1 is None
    } else {
        answer.1 is Some && legal_moves(pos).contains(answer.1->0)
    }
}

/// The index of the first move of a list from `i` on that is the same move
/// as `chosen` in long algebraic notation; the length of the list if there
/// is none.
pub open spec fn same_move_at(moves: Seq<Move>, chosen: Move, i: int) -> int
    decreases moves.len() - i,
{
    if i < 0 || i >= moves.len() {
        moves.len() as int
    } else if chosen.same_identity(moves[i]) {
        i
    } else {
        same_move_at(moves, chosen, i + 1)
    }
}

/// The first move of a list that is the same move as `chosen` in long
/// algebraic notation, if there is one.
pub open spec fn same_move(moves: Seq<Move>, chosen: Move) -> Option<Move> {
    if same_move_at(moves, chosen, 0) < moves.len() {
        Some(moves[same_move_at(moves, chosen, 0)])
    } else {
        None
    }
}

/// The first of `possible_moves` that is the same move as `chosen` in long
/// algebraic notation.
pub fn find_same_move<'a>(possible_moves: &'a [Move], chosen: &Move) -> (r: Option<&'a Move>)
    ensures
        r is Some <==> same_move(possible_moves@, *chosen) is Some,
        r is Some ==> *r->0 == same_move(possible_moves@, *chosen)->0 && possible_moves@.contains(
            *r->0,
        ) && chosen.same_identity(*r->0),
        possible_moves@.contains(*chosen) ==> r is Some,
{
    let mut i: usize = 0;
    while i < possible_moves.len()
        invariant
            i <= possible_moves.len(),
            forall|j: int| 0 <= j < i ==> !chosen.same_identity(#[trigger] possible_moves@[j]),
            same_move_at(possible_moves@, *chosen, i as int) == same_move_at(
                possible_moves@,
                *chosen,
                0,
            ),
        decreases possible_moves.len() - i,
    {
        let candidate = &possible_moves[i];
        let promotes = match chosen.move_type {
            crate::game::moves::MoveType::Promotion(_) => true,
            _ => match candidate.move_type {
                crate::game::moves::MoveType::Promotion(_) => true,
                _ => false,
            },
        };
        if candidate.start_square == chosen.start_square && candidate.end_square
            == chosen.end_square && (!promotes || candidate.move_type == chosen.move_type) {
            return Some(candidate);
        }
        i += 1;
    }
    proof {
        if possible_moves@.contains(*chosen) {
            let j = choose|j: int| 0 <= j < possible_moves@.len() && possible_moves@[j] == *chosen;
            assert(!chosen.same_identity(possible_moves@[j]));
        }
    }
    None
}

} // verus!
