//! Search to a fixed depth with alpha-beta cuts.

use vstd::prelude::*;
use crate::game::analysis::get_position_info;
use crate::game::board::Board;
use crate::game::check::lemma_count_is_check;
use crate::game::movegen::all_accepted;
use crate::game::movegen::get_possible_moves;
use crate::game::movegen::legal_moves;
use crate::game::moves::Move;
use crate::game::position::lemma_apply_ok;
use crate::game::position::lemma_apply_then_unapply;
use crate::hash::hashtable::HashTable;
use crate::hash::zobrist::Zobrist;
use crate::player::player::basic_move_ordering;
use crate::game::position::Position;
use crate::hash::hashtable::table_empty;
use crate::hash::hashtable::table_lookup;
use crate::hash::hashtable::table_set;
use crate::player::player::captures_first;
use crate::player::player::find_same_move;
use crate::player::player::lemma_score_of;
use crate::player::player::same_move;
use crate::player::player::score_of;
use crate::player::player::terminal_score;
use crate::player::player::lemma_scores_ok_empty;
use crate::player::player::lemma_scores_ok_lookup;
use crate::player::player::lemma_scores_ok_set;
use crate::player::player::scorer_ok;
use crate::player::player::scores_ok;
use crate::player::player::search_answer;
use crate::player::player::Player;
use crate::player::scoring::{LOSE_SCORE, MAX_SCORE, MIN_SCORE};

verus! {

/// A score one step nearer to zero: a mate is worth less the later it
/// comes.
pub open spec fn spec_aged(score: i32) -> i32 {
    if score > 0 {
        (score - 1) as i32
    } else if score < 0 {
        (score + 1) as i32
    } else {
        score
    }
}

/// A score one step nearer to zero.
pub fn aged(score: i32) -> (r: i32)
    requires
        score >= MIN_SCORE,
    ensures
        r == spec_aged(score),
        r >= MIN_SCORE,
{
    if score > 0 {
        score - 1
    } else if score < 0 {
        score + 1
    } else {
        score
    }
}

/// The negative of a score.
pub open spec fn negated(score: i32) -> i32 {
    (-(score as int)) as i32
}

/// What a search leaves behind and answers: the table of remembered
/// scores, the score, and the move that reaches it.
pub struct Found {
    pub table: Seq<Seq<Option<(u64, i32)>>>,
    pub score: i32,
    pub best: Option<Move>,
}

/// The search to `depth` from a position with the hash `hash`, the table
/// `table` at hand. At depth zero the position is scored and the score
/// remembered. Without a legal move the score is the draw or the loss. Else
/// the legal moves are tried, captures first, and the best score is made one
/// step older.
pub open spec fn ab_search<F: Fn(&Board) -> i32>(
    score_board: F,
    hasher: Zobrist,
    table: Seq<Seq<Option<(u64, i32)>>>,
    pos: Position,
    depth: nat,
    alpha: i32,
    beta: i32,
    hash: u64,
) -> Found
    decreases depth, 3int, 0int,
{
    if depth == 0 {
        let score = score_of(score_board, pos);
        Found { table: table_set(table, 20, hash, score), score, best: None }
    } else if legal_moves(pos).len() == 0 {
        Found { table, score: terminal_score(pos), best: None }
    } else {
        let found = ab_moves(
            score_board,
            hasher,
            table,
            pos,
            captures_first(legal_moves(pos)),
            0,
            depth,
            alpha,
            beta,
            hash,
            MIN_SCORE,
            None,
        );
        Found { score: spec_aged(found.score), ..found }
    }
}

/// The rest of the search over the moves `moves[i..]`, the best score and
/// move so far at hand: each move is scored in turn; a better score, or the
/// first one, takes the place of the best; the lower bound rises with it;
/// and once the best reaches the upper bound the rest is cut off.
pub open spec fn ab_moves<F: Fn(&Board) -> i32>(
    score_board: F,
    hasher: Zobrist,
    table: Seq<Seq<Option<(u64, i32)>>>,
    pos: Position,
    moves: Seq<Move>,
    i: int,
    depth: nat,
    alpha: i32,
    beta: i32,
    hash: u64,
    score: i32,
    best: Option<Move>,
) -> Found
    decreases depth, 2int, moves.len() - i,
{
    if i < 0 || i >= moves.len() || depth == 0 {
        Found { table, score, best }
    } else {
        let one = ab_move(
            score_board,
            hasher,
            table,
            pos,
            moves[i],
            (depth - 1) as nat,
            alpha,
            beta,
            hash,
        );
        let better = one.score > score || best is None;
        let score1 = if better {
            one.score
        } else {
            score
        };
        let best1 = if better {
            Some(moves[i])
        } else {
            best
        };
        let alpha1 = if score1 > alpha {
            score1
        } else {
            alpha
        };
        if score1 >= beta {
            Found { table: one.table, score: score1, best: best1 }
        } else {
            ab_moves(
                score_board,
                hasher,
                one.table,
                pos,
                moves,
                i + 1,
                depth,
                alpha1,
                beta,
                hash,
                score1,
                best1,
            )
        }
    }
}

/// The score of one move for the side that makes it: the one remembered
/// for the hash of the position after it, if there is one; else the
/// negative of what the search answers for the other side, which is then
/// remembered.
pub open spec fn ab_move<F: Fn(&Board) -> i32>(
    score_board: F,
    hasher: Zobrist,
    table: Seq<Seq<Option<(u64, i32)>>>,
    pos: Position,
    m: Move,
    depth: nat,
    alpha: i32,
    beta: i32,
    hash: u64,
) -> Found
    decreases depth, 4int, 0int,
{
    let after = pos.apply(m);
    let new_hash = hasher.spec_update(
        hash,
        m,
        pos.en_passant,
        pos.castling_rights,
        after.castling_rights,
    );
    match table_lookup(table, 20, new_hash) {
        Some(cached) => Found { table, score: cached, best: None },
        None => {
            let below = ab_search(
                score_board,
                hasher,
                table,
                after,
                depth,
                negated(beta),
                negated(alpha),
                new_hash,
            );
            let score = negated(below.score);
            Found { table: table_set(below.table, 20, new_hash, score), score, best: None }
        },
    }
}

/// A player that searches a fixed number of moves ahead, cutting off what
/// cannot matter, with a scoring function of the caller's choice.
pub struct AlphaBetaPlayer<F: Fn(&Board) -> i32> {
    pub depth: u32,
    pub score_board: F,
    pub zobrist_hasher: Zobrist,
    pub transposition_table: HashTable<i32, 20, 4>,
    pub nodes_searched: u32,
}

impl<F: Fn(&Board) -> i32> AlphaBetaPlayer<F> {
    /// The invariant of the player.
    pub open spec fn wf(&self) -> bool {
        &&& scorer_ok(self.score_board)
        &&& self.zobrist_hasher.wf()
        &&& self.transposition_table.wf()
        &&& scores_ok(self.transposition_table@)
    }

    /// Whether two states of the player search alike: same depth, same
    /// scoring, same hasher.
    pub open spec fn same_setup(&self, other: &Self) -> bool {
        &&& self.depth == other.depth
        &&& self.score_board == other.score_board
        &&& self.zobrist_hasher == other.zobrist_hasher
    }

    /// A player that searches `depth` moves ahead, with an empty table.
    pub fn new(depth: u32, score_board: F) -> (r: Self)
        requires
            scorer_ok(score_board),
        ensures
            r.wf(),
            r.depth == depth,
            r.score_board == score_board,
            r.nodes_searched == 0,
    {
        let transposition_table = HashTable::new();
        proof {
            lemma_scores_ok_empty(20, 4);
        }
        AlphaBetaPlayer {
            depth,
            score_board,
            zobrist_hasher: Zobrist::new(),
            transposition_table,
            nodes_searched: 0,
        }
    }

    fn remember(&mut self, hash: u64, score: i32)
        requires
            old(self).wf(),
            score >= MIN_SCORE,
        ensures
            final(self).wf(),
            final(self).same_setup(old(self)),
            final(self).nodes_searched == old(self).nodes_searched,
            final(self).transposition_table@ == table_set(
                old(self).transposition_table@,
                20,
                hash,
                score,
            ),
    {
        proof {
            lemma_scores_ok_set(self.transposition_table@, 20, hash, score);
        }
        self.transposition_table.set(hash, score);
    }

    fn recall(&self, hash: u64) -> (r: Option<i32>)
        requires
            self.wf(),
        ensures
            r == table_lookup(self.transposition_table@, 20, hash),
            r is Some ==> r->0 >= MIN_SCORE,
    {
        match self.transposition_table.get(hash) {
            Some(score) => {
                proof {
                    lemma_scores_ok_lookup(self.transposition_table@, 20, hash);
                }
                Some(*score)
            },
            None => None,
        }
    }

    /// The score of the position after `m` for the side that makes it: the
    /// remembered one if there is one, else the negative of what a search
    /// one move less deep answers for the other side, which is then
    /// remembered.
    fn score_move(
        &mut self,
        board: &mut Board,
        m: &Move,
        depth: u32,
        alpha: i32,
        beta: i32,
        board_hash: u64,
    ) -> (score: i32)
        requires
            old(self).wf(),
            old(board).wf(),
            old(board)@.accepts(*m),
            old(board).turns_taken + depth < u32::MAX,
            alpha >= MIN_SCORE,
            beta >= MIN_SCORE,
            board_hash == old(self).zobrist_hasher.spec_hash(old(board)@),
        ensures
            final(self).wf(),
            final(self).same_setup(old(self)),
            final(board).wf(),
            final(board)@ == old(board)@,
            score >= MIN_SCORE,
            final(self).transposition_table@ == ab_move(
                old(self).score_board,
                old(self).zobrist_hasher,
                old(self).transposition_table@,
                old(board)@,
                *m,
                depth as nat,
                alpha,
                beta,
                board_hash,
            ).table,
            score == ab_move(
                old(self).score_board,
                old(self).zobrist_hasher,
                old(self).transposition_table@,
                old(board)@,
                *m,
                depth as nat,
                alpha,
                beta,
                board_hash,
            ).score,
        decreases depth, 1int,
    {
        let old_en_passant_chance = board.en_passant_chance;
        let old_castling_rights = board.castling_rights;
        proof {
            self.zobrist_hasher.lemma_update_is_full_hash(board@, *m);
            lemma_apply_ok(board@, *m);
            lemma_apply_then_unapply(board@, *m);
        }
        board.make_move(m);
        let new_hash = self.zobrist_hasher.update_hash(
            board_hash,
            m,
            old_en_passant_chance,
            old_castling_rights,
            board.castling_rights,
        );
        let move_score = match self.recall(new_hash) {
            Some(cached_score) => cached_score,
            None => {
                let answer = self.find_board_score(board, depth, -beta, -alpha, new_hash);
                let move_score = -answer.0;
                self.remember(new_hash, move_score);
                move_score
            },
        };
        board.undo_move();
        move_score
    }

    /// Searches `depth` moves ahead from the board's position, whose hash is
    /// `board_hash`, for the best score that the side to move can reach
    /// between `alpha` and `beta`, and for a move that reaches it.
    pub fn find_board_score(
        &mut self,
        board: &mut Board,
        depth: u32,
        alpha: i32,
        beta: i32,
        board_hash: u64,
    ) -> (answer: (i32, Option<Move>))
        requires
            old(self).wf(),
            old(board).wf(),
            old(board).turns_taken + depth <= u32::MAX,
            alpha >= MIN_SCORE,
            beta >= MIN_SCORE,
            board_hash == old(self).zobrist_hasher.spec_hash(old(board)@),
        ensures
            final(self).wf(),
            final(self).same_setup(old(self)),
            final(board).wf(),
            final(board)@ == old(board)@,
            search_answer(old(board)@, depth, answer),
            (Found {
                table: final(self).transposition_table@,
                score: answer.0,
                best: answer.1,
            }) == ab_search(
                old(self).score_board,
                old(self).zobrist_hasher,
                old(self).transposition_table@,
                old(board)@,
                depth as nat,
                alpha,
                beta,
                board_hash,
            ),
        decreases depth, 0int,
    {
        if self.nodes_searched < u32::MAX {
            self.nodes_searched += 1;
        }
        if depth == 0 {
            let score = (self.score_board)(&*board);
            proof {
                lemma_score_of(self.score_board, &*board, score);
            }
            self.remember(board_hash, score);
            return (score, None);
        }
        let possible_moves = get_possible_moves(board);
        if possible_moves.len() == 0 {
            let info = get_position_info(board, board.side_to_move);
            proof {
                lemma_count_is_check(board@, board.side_to_move);
            }
            if info.king_attacker_count == 0 {
                return (0, None);
            }
            return (LOSE_SCORE, None);
        }
        let ghost pos = board@;
        let ordered = basic_move_ordering(possible_moves);
        let ghost goal = ab_moves(
            self.score_board,
            self.zobrist_hasher,
            self.transposition_table@,
            pos,
            ordered@,
            0,
            depth as nat,
            alpha,
            beta,
            board_hash,
            MIN_SCORE,
            None,
        );
        let mut alpha = alpha;
        let mut score: i32 = MIN_SCORE;
        let mut best_move: Option<Move> = None;
        let mut i: usize = 0;
        let mut cut = false;
        while i < ordered.len() && !cut
            invariant
                i <= ordered.len(),
                ordered@.len() > 0,
                depth > 0,
                self.wf(),
                self.same_setup(old(self)),
                board.wf(),
                board@ == pos,
                pos.turns_taken + depth <= u32::MAX,
                board_hash == self.zobrist_hasher.spec_hash(pos),
                forall|k: int|
                    0 <= k < ordered@.len() ==> legal_moves(pos).contains(#[trigger] ordered@[k]),
                all_accepted(pos, legal_moves(pos)),
                alpha >= MIN_SCORE,
                beta >= MIN_SCORE,
                score >= MIN_SCORE,
                best_move is Some ==> legal_moves(pos).contains(best_move->0),
                i > 0 ==> best_move is Some,
                cut ==> i > 0,
                legal_moves(pos).len() > 0,
                cut ==> goal == (Found {
                    table: self.transposition_table@,
                    score,
                    best: best_move,
                }),
                !cut ==> goal == ab_moves(
                    self.score_board,
                    self.zobrist_hasher,
                    self.transposition_table@,
                    pos,
                    ordered@,
                    i as int,
                    depth as nat,
                    alpha,
                    beta,
                    board_hash,
                    score,
                    best_move,
                ),
            decreases ordered.len() - i + (if cut { 0int } else { 1int }),
        {
            let possible_move = ordered[i];
            assert(legal_moves(pos).contains(ordered@[i as int]));
            let move_score = self.score_move(
                board,
                &possible_move,
                depth - 1,
                alpha,
                beta,
                board_hash,
            );
            if move_score > score || best_move.is_none() {
                best_move = Some(possible_move);
                score = move_score;
            }
            if score > alpha {
                alpha = score;
            }
            if score >= beta {
                cut = true;
            }
            i += 1;
        }
        (aged(score), best_move)
    }
}

impl<F: Fn(&Board) -> i32> Player for AlphaBetaPlayer<F> {
    open spec fn ready(&self) -> bool {
        self.wf()
    }

    open spec fn reach(&self) -> u32 {
        self.depth
    }

    /// The move that a search to the player's depth finds best; none where
    /// the depth is zero.
    fn get_move<'a>(&mut self, board: &mut Board, possible_moves: &'a [Move]) -> (r: Option<
        &'a Move,
    >)
        ensures
            final(self).same_setup(old(self)),
            r is Some <==> possible_moves@.len() > 0 && old(self).depth > 0,
            ({
                let found = ab_search(
                    old(self).score_board,
                    old(self).zobrist_hasher,
                    table_empty::<i32>(20, 4),
                    old(board)@,
                    old(self).depth as nat,
                    MIN_SCORE,
                    MAX_SCORE,
                    old(self).zobrist_hasher.spec_hash(old(board)@),
                );
                match found.best {
                    Some(chosen) => r is Some && *r->0 == same_move(possible_moves@, chosen)->0,
                    None => r is None,
                }
            }),
    {
        proof {
            lemma_scores_ok_empty(20, 4);
        }
        self.transposition_table.clear();
        self.nodes_searched = 0;
        let board_hash = self.zobrist_hasher.get_board_hash(board);
        let answer = self.find_board_score(board, self.depth, MIN_SCORE, MAX_SCORE, board_hash);
        match answer.1 {
            Some(valid_move) => find_same_move(possible_moves, &valid_move),
            None => None,
        }
    }
}

} // verus!
