//! Search of every line to a fixed depth.

use vstd::prelude::*;
use crate::game::analysis::get_position_info;
use crate::game::accepted::lemma_legal_moves_accepted;
use crate::game::board::Board;
use crate::game::check::in_check;
use crate::game::check::lemma_count_is_check;
use crate::game::movegen::all_accepted;
use crate::game::movegen::get_possible_moves;
use crate::game::movegen::legal_moves;
use crate::game::moves::Move;
use crate::game::position::lemma_apply_ok;
use crate::game::position::lemma_apply_then_unapply;
use crate::game::position::Position;
use crate::hash::hashtable::table_empty;
use crate::hash::hashtable::table_lookup;
use crate::hash::hashtable::table_set;
use crate::hash::hashtable::HashTable;
use crate::hash::zobrist::Zobrist;
use crate::player::alphabeta::negated;
use crate::player::player::lemma_score_of;
use crate::player::player::lemma_scores_ok_empty;
use crate::player::player::lemma_scores_ok_lookup;
use crate::player::player::lemma_scores_ok_set;
use crate::player::player::score_of;
use crate::player::player::scorer_ok;
use crate::player::player::scores_ok;
use crate::player::player::Player;
use crate::player::scoring::{MAX_SCORE, MIN_SCORE, WIN_SCORE};

verus! {

/// What the scoring of a move leaves behind and answers: the table of
/// remembered scores, and the score.
pub struct Scored {
    pub table: Seq<Seq<Option<(u64, i32)>>>,
    pub score: i32,
}

/// The score of a move for the side that makes it, `depth` moves looked at
/// beyond it: the one remembered for the hash of the position after it, if
/// there is one; else, at depth zero, the negative of the score of that
/// position, and deeper the worst that the replies can bring; either is then
/// remembered.
pub open spec fn mm_move<F: Fn(&Board) -> i32>(
    score_board: F,
    hasher: Zobrist,
    table: Seq<Seq<Option<(u64, i32)>>>,
    pos: Position,
    m: Move,
    depth: nat,
) -> Scored
    decreases depth, 1int, 0int,
{
    let after = pos.apply(m);
    let hash = hasher.spec_hash(after);
    match table_lookup(table, 20, hash) {
        Some(cached) => Scored { table, score: cached },
        None => {
            let found = if depth == 0 {
                Scored { table, score: negated(score_of(score_board, after)) }
            } else {
                mm_replies(score_board, hasher, table, after, (depth - 1) as nat)
            };
            Scored { table: table_set(found.table, 20, hash, found.score), score: found.score }
        },
    }
}

/// The score, for the side that made the last move, of the worst that the
/// replies to it can bring: without a reply the draw for stalemate and the
/// win for mate.
pub open spec fn mm_replies<F: Fn(&Board) -> i32>(
    score_board: F,
    hasher: Zobrist,
    table: Seq<Seq<Option<(u64, i32)>>>,
    pos: Position,
    depth: nat,
) -> Scored
    decreases depth, 3int, 0int,
{
    if legal_moves(pos).len() == 0 {
        Scored {
            table,
            score: if in_check(pos, pos.side_to_move) {
                WIN_SCORE
            } else {
                0
            },
        }
    } else {
        mm_worst(score_board, hasher, table, pos, legal_moves(pos), 0, depth, MAX_SCORE)
    }
}

/// The least of `worst` and the negatives of the scores of the replies
/// `replies[i..]`, each scored for the side that makes it.
pub open spec fn mm_worst<F: Fn(&Board) -> i32>(
    score_board: F,
    hasher: Zobrist,
    table: Seq<Seq<Option<(u64, i32)>>>,
    pos: Position,
    replies: Seq<Move>,
    i: int,
    depth: nat,
    worst: i32,
) -> Scored
    decreases depth, 2int, replies.len() - i,
{
    if i < 0 || i >= replies.len() {
        Scored { table, score: worst }
    } else {
        let one = mm_move(score_board, hasher, table, pos, replies[i], depth);
        let score = negated(one.score);
        mm_worst(
            score_board,
            hasher,
            one.table,
            pos,
            replies,
            i + 1,
            depth,
            if score < worst {
                score
            } else {
                worst
            },
        )
    }
}

/// The index of the first of the moves `moves[i..]` whose score beats
/// `best_score` and no later one beats; `best` if there is none, or the
/// first of them if `best` is none yet.
pub open spec fn mm_best<F: Fn(&Board) -> i32>(
    score_board: F,
    hasher: Zobrist,
    table: Seq<Seq<Option<(u64, i32)>>>,
    pos: Position,
    moves: Seq<Move>,
    i: int,
    depth: nat,
    best_score: i32,
    best: Option<int>,
) -> Option<int>
    decreases moves.len() - i,
{
    if i < 0 || i >= moves.len() {
        best
    } else {
        let one = mm_move(score_board, hasher, table, pos, moves[i], depth);
        let better = one.score > best_score || best is None;
        mm_best(
            score_board,
            hasher,
            one.table,
            pos,
            moves,
            i + 1,
            depth,
            if better {
                one.score
            } else {
                best_score
            },
            if better {
                Some(i)
            } else {
                best
            },
        )
    }
}

/// A player that searches every line a fixed number of moves ahead, with a
/// scoring function of the caller's choice.
pub struct MiniMaxPlayer<F: Fn(&Board) -> i32> {
    pub depth: u32,
    pub score_board: F,
    pub zobrist_hasher: Zobrist,
    pub transposition_table: HashTable<i32, 20, 4>,
    pub nodes_searched: u32,
}

impl<F: Fn(&Board) -> i32> MiniMaxPlayer<F> {
    /// The invariant of the player.
    pub open spec fn wf(&self) -> bool {
        &&& scorer_ok(self.score_board)
        &&& self.zobrist_hasher.wf()
        &&& self.transposition_table.wf()
        &&& scores_ok(self.transposition_table@)
    }

    /// Whether two states of the player search alike: same depth, same
    /// scoring, same hasher.
    pub open spec fn same_setup(&self, other: &Self) -> bool {
        &&& self.depth == other.depth
        &&& self.score_board == other.score_board
        &&& self.zobrist_hasher == other.zobrist_hasher
    }

    /// A player that searches `depth` moves ahead, with an empty table.
    pub fn new(depth: u32, score_board: F) -> (r: Self)
        requires
            scorer_ok(score_board),
        ensures
            r.wf(),
            r.depth == depth,
            r.score_board == score_board,
            r.nodes_searched == 0,
    {
        let transposition_table = HashTable::new();
        proof {
            lemma_scores_ok_empty(20, 4);
        }
        MiniMaxPlayer {
            depth,
            score_board,
            zobrist_hasher: Zobrist::new(),
            transposition_table,
            nodes_searched: 0,
        }
    }

    fn remember(&mut self, hash: u64, score: i32)
        requires
            old(self).wf(),
            score >= MIN_SCORE,
        ensures
            final(self).wf(),
            final(self).same_setup(old(self)),
            final(self).transposition_table@ == table_set(
                old(self).transposition_table@,
                20,
                hash,
                score,
            ),
    {
        proof {
            lemma_scores_ok_set(self.transposition_table@, 20, hash, score);
        }
        self.transposition_table.set(hash, score);
    }

    fn recall(&self, hash: u64) -> (r: Option<i32>)
        requires
            self.wf(),
        ensures
            r == table_lookup(self.transposition_table@, 20, hash),
            r is Some ==> r->0 >= MIN_SCORE,
    {
        match self.transposition_table.get(hash) {
            Some(score) => {
                proof {
                    lemma_scores_ok_lookup(self.transposition_table@, 20, hash);
                }
                Some(*score)
            },
            None => None,
        }
    }

    /// The score, for the side that made the last move, of the worst that
    /// the replies to it can bring; `depth` moves are looked at beyond the
    /// replies. Without a reply it is the draw for stalemate and the win for
    /// mate.
    fn score_replies(&mut self, board: &mut Board, depth: u32) -> (score: i32)
        requires
            old(self).wf(),
            old(board).wf(),
            old(board).turns_taken + depth < u32::MAX,
        ensures
            final(self).wf(),
            final(self).same_setup(old(self)),
            final(board).wf(),
            final(board)@ == old(board)@,
            score >= MIN_SCORE,
            (Scored { table: final(self).transposition_table@, score }) == mm_replies(
                old(self).score_board,
                old(self).zobrist_hasher,
                old(self).transposition_table@,
                old(board)@,
                depth as nat,
            ),
        decreases depth, 1int,
    {
        let replies = get_possible_moves(board);
        if replies.len() == 0 {
            let info = get_position_info(board, board.side_to_move);
            proof {
                lemma_count_is_check(board@, board.side_to_move);
            }
            return if info.king_attacker_count == 0 {
                0
            } else {
                WIN_SCORE
            };
        }
        let ghost pos = board@;
        let ghost goal = mm_worst(
            self.score_board,
            self.zobrist_hasher,
            self.transposition_table@,
            pos,
            replies@,
            0,
            depth as nat,
            MAX_SCORE,
        );
        let mut worst: i32 = MAX_SCORE;
        let mut i: usize = 0;
        while i < replies.len()
            invariant
                i <= replies.len(),
                self.wf(),
                self.same_setup(old(self)),
                board.wf(),
                board@ == pos,
                pos.turns_taken + depth < u32::MAX,
                all_accepted(pos, replies@),
                legal_moves(pos).len() > 0,
                worst >= MIN_SCORE,
                goal == mm_worst(
                    self.score_board,
                    self.zobrist_hasher,
                    self.transposition_table@,
                    pos,
                    replies@,
                    i as int,
                    depth as nat,
                    worst,
                ),
            decreases replies.len() - i,
        {
            let reply_score = self.find_move_score(&replies[i], board, depth);
            let score = -reply_score;
            if score < worst {
                worst = score;
            }
            i += 1;
        }
        worst
    }

    /// The score of a move for the side that makes it, `depth` moves
    /// looked at beyond it: remembered if the position after it was scored
    /// before, else found and then remembered.
    pub fn find_move_score(&mut self, move_to_check: &Move, board: &mut Board, depth: u32) -> (score:
        i32)
        requires
            old(self).wf(),
            old(board).wf(),
            old(board)@.accepts(*move_to_check),
            old(board).turns_taken + depth < u32::MAX,
        ensures
            final(self).wf(),
            final(self).same_setup(old(self)),
            final(board).wf(),
            final(board)@ == old(board)@,
            score >= MIN_SCORE,
            (Scored { table: final(self).transposition_table@, score }) == mm_move(
                old(self).score_board,
                old(self).zobrist_hasher,
                old(self).transposition_table@,
                old(board)@,
                *move_to_check,
                depth as nat,
            ),
        decreases depth, 0int,
    {
        proof {
            lemma_apply_ok(board@, *move_to_check);
            lemma_apply_then_unapply(board@, *move_to_check);
        }
        board.make_move(move_to_check);
        if self.nodes_searched < u32::MAX {
            self.nodes_searched += 1;
        }
        let hash = self.zobrist_hasher.get_board_hash(board);
        let score = match self.recall(hash) {
            Some(score) => score,
            None => {
                let score = if depth == 0 {
                    let value = (self.score_board)(&*board);
                    proof {
                        lemma_score_of(self.score_board, &*board, value);
                    }
                    -value
                } else {
                    self.score_replies(board, depth - 1)
                };
                self.remember(hash, score);
                score
            },
        };
        board.undo_move();
        score
    }
}

impl<F: Fn(&Board) -> i32> Player for MiniMaxPlayer<F> {
    open spec fn ready(&self) -> bool {
        self.wf()
    }

    open spec fn reach(&self) -> u32 {
        if self.depth == 0 {
            1
        } else {
            self.depth
        }
    }

    /// The first of the moves handed in whose score no other one beats;
    /// none only where none is handed in.
    fn get_move<'a>(&mut self, board: &mut Board, possible_moves: &'a [Move]) -> (r: Option<
        &'a Move,
    >)
        ensures
            final(self).same_setup(old(self)),
            r is Some <==> possible_moves@.len() > 0,
            match mm_best(
                old(self).score_board,
                old(self).zobrist_hasher,
                table_empty::<i32>(20, 4),
                old(board)@,
                possible_moves@,
                0,
                (old(self).reach() - 1) as nat,
                MIN_SCORE,
                None,
            ) {
                Some(at) => 0 <= at < possible_moves@.len() && r == Some(&possible_moves@[at]),
                None => r is None,
            },
    {
        let mut best_move: Option<&'a Move> = None;
        let mut best_score: i32 = MIN_SCORE;
        proof {
            lemma_scores_ok_empty(20, 4);
            lemma_legal_moves_accepted(board@);
        }
        self.transposition_table.clear();
        let depth: u32 = if self.depth == 0 {
            0
        } else {
            self.depth - 1
        };
        let ghost pos = board@;
        let ghost goal = mm_best(
            self.score_board,
            self.zobrist_hasher,
            self.transposition_table@,
            pos,
            possible_moves@,
            0,
            depth as nat,
            MIN_SCORE,
            None,
        );
        let ghost mut best_at: Option<int> = None;
        let mut i: usize = 0;
        while i < possible_moves.len()
            invariant
                i <= possible_moves.len(),
                self.wf(),
                self.same_setup(old(self)),
                board.wf(),
                board@ == pos,
                pos.turns_taken + depth < u32::MAX,
                all_accepted(pos, possible_moves@),
                i > 0 ==> best_move is Some,
                match best_at {
                    Some(at) => 0 <= at < i && best_move == Some(&possible_moves@[at]),
                    None => best_move is None,
                },
                goal == mm_best(
                    self.score_board,
                    self.zobrist_hasher,
                    self.transposition_table@,
                    pos,
                    possible_moves@,
                    i as int,
                    depth as nat,
                    best_score,
                    best_at,
                ),
            decreases possible_moves.len() - i,
        {
            let score = self.find_move_score(&possible_moves[i], board, depth);
            if score > best_score || best_move.is_none() {
                best_score = score;
                best_move = Some(&possible_moves[i]);
                proof {
                    best_at = Some(i as int);
                }
            }
            i += 1;
        }
        best_move
    }
}

} // verus!
