//! Search that goes one move deeper at a time until its time is used up.

use vstd::prelude::*;
use crate::game::analysis::get_position_info;
use crate::game::board::Board;
use crate::game::movegen::all_accepted;
use crate::game::movegen::get_possible_moves;
use crate::game::movegen::legal_moves;
use crate::game::moves::Move;
use crate::game::position::lemma_apply_ok;
use crate::game::position::lemma_apply_then_unapply;
use crate::game::position::Position;
use crate::hash::hashtable::table_empty;
use crate::hash::hashtable::table_lookup;
use crate::hash::hashtable::table_set;
use crate::hash::hashtable::HashTable;
use crate::hash::zobrist::Zobrist;
use crate::player::alphabeta::aged;
use crate::player::alphabeta::negated;
use crate::player::alphabeta::spec_aged;
use crate::player::player::basic_move_ordering;
use crate::player::player::captures_first;
use crate::player::player::find_same_move;
use crate::player::player::lemma_score_of;
use crate::player::player::lemma_scores_ok_empty;
use crate::player::player::lemma_scores_ok_lookup;
use crate::player::player::lemma_scores_ok_set;
use crate::player::player::same_move;
use crate::player::player::score_of;
use crate::player::player::scorer_ok;
use crate::player::player::scores_ok;
use crate::player::player::search_answer;
use crate::player::player::terminal_score;
use crate::player::player::Player;
use crate::player::scoring::{LOSE_SCORE, MAX_SCORE, MIN_SCORE};

verus! {

/// How deep the search goes at most, whatever time is left.
pub const MAX_SEARCH_DEPTH: u32 = 64;

/// The index of the first move of a list from `i` on that starts and ends
/// where `remembered` does; the length of the list if there is none.
pub open spec fn remembered_at(moves: Seq<Move>, remembered: Move, i: int) -> int
    decreases moves.len() - i,
{
    if i < 0 || i >= moves.len() {
        moves.len() as int
    } else if moves[i].start_square == remembered.start_square && moves[i].end_square
        == remembered.end_square {
        i
    } else {
        remembered_at(moves, remembered, i + 1)
    }
}

/// A list of moves with the remembered one, if it is among them, changing
/// places with the first.
pub open spec fn promoted(moves: Seq<Move>, remembered: Option<Move>) -> Seq<Move> {
    match remembered {
        None => moves,
        Some(best) => {
            let at = remembered_at(moves, best, 0);
            if at < moves.len() {
                moves.update(0, moves[at]).update(at, moves[0])
            } else {
                moves
            }
        },
    }
}

/// Every move of a list with the remembered move in front is one of the
/// list.
pub proof fn lemma_promoted(moves: Seq<Move>, remembered: Option<Move>)
    ensures
        promoted(moves, remembered).len() == moves.len(),
        forall|k: int|
            0 <= k < moves.len() ==> moves.contains(#[trigger] promoted(moves, remembered)[k]),
{
    let after = promoted(moves, remembered);
    match remembered {
        None => {
            assert forall|k: int| 0 <= k < moves.len() implies moves.contains(
                #[trigger] after[k],
            ) by {
                assert(moves[k] == after[k]);
            }
        },
        Some(best) => {
            let at = remembered_at(moves, best, 0);
            lemma_remembered_at(moves, best, 0);
            assert forall|k: int| 0 <= k < moves.len() implies moves.contains(
                #[trigger] after[k],
            ) by {
                if at < moves.len() {
                    if k == at {
                        assert(after[k] == moves[0]);
                    } else if k == 0 {
                        assert(after[k] == moves[at]);
                    } else {
                        assert(after[k] == moves[k]);
                    }
                } else {
                    assert(after[k] == moves[k]);
                }
            }
        },
    }
}

proof fn lemma_remembered_at(moves: Seq<Move>, remembered: Move, i: int)
    requires
        0 <= i <= moves.len(),
    ensures
        i <= remembered_at(moves, remembered, i) <= moves.len(),
    decreases moves.len() - i,
{
    if i < moves.len() && !(moves[i].start_square == remembered.start_square
        && moves[i].end_square == remembered.end_square) {
        lemma_remembered_at(moves, remembered, i + 1);
    }
}

/// What a deepening search leaves behind and answers: the table of
/// remembered scores, the table of remembered best moves, the score, and
/// the move that reaches it.
pub struct Deepened {
    pub table: Seq<Seq<Option<(u64, i32)>>>,
    pub lines: Seq<Seq<Option<(u64, Move)>>>,
    pub score: i32,
    pub best: Option<Move>,
}

/// The search to `depth` from a position with the hash `hash`, the tables
/// at hand. At depth zero the position is scored; without a legal move the
/// score is the draw or the loss; either score is remembered. Else the legal
/// moves are tried, captures first and before them the move remembered as
/// best for the position; the best move found is remembered in its place,
/// and the best score is made one step older.
pub open spec fn id_search<F: Fn(&Board) -> i32>(
    score_board: F,
    hasher: Zobrist,
    table: Seq<Seq<Option<(u64, i32)>>>,
    lines: Seq<Seq<Option<(u64, Move)>>>,
    pos: Position,
    depth: nat,
    alpha: i32,
    beta: i32,
    hash: u64,
) -> Deepened
    decreases depth, 3int, 0int,
{
    if depth == 0 {
        let score = score_of(score_board, pos);
        Deepened { table: table_set(table, 20, hash, score), lines, score, best: None }
    } else if legal_moves(pos).len() == 0 {
        let score = terminal_score(pos);
        Deepened { table: table_set(table, 20, hash, score), lines, score, best: None }
    } else {
        let found = id_moves(
            score_board,
            hasher,
            table,
            lines,
            pos,
            promoted(captures_first(legal_moves(pos)), table_lookup(lines, 20, hash)),
            0,
            depth,
            alpha,
            beta,
            hash,
            MIN_SCORE,
            None,
        );
        Deepened {
            lines: match found.best {
                Some(best) => table_set(found.lines, 20, hash, best),
                None => found.lines,
            },
            score: spec_aged(found.score),
            ..found
        }
    }
}

/// The rest of the search over the moves `moves[i..]`, the best score and
/// move so far at hand: each move is scored in turn; a better score, or the
/// first one, takes the place of the best; the lower bound rises with it;
/// and once the best reaches the upper bound the rest is cut off.
pub open spec fn id_moves<F: Fn(&Board) -> i32>(
    score_board: F,
    hasher: Zobrist,
    table: Seq<Seq<Option<(u64, i32)>>>,
    lines: Seq<Seq<Option<(u64, Move)>>>,
    pos: Position,
    moves: Seq<Move>,
    i: int,
    depth: nat,
    alpha: i32,
    beta: i32,
    hash: u64,
    score: i32,
    best: Option<Move>,
) -> Deepened
    decreases depth, 2int, moves.len() - i,
{
    if i < 0 || i >= moves.len() || depth == 0 {
        Deepened { table, lines, score, best }
    } else {
        let one = id_move(
            score_board,
            hasher,
            table,
            lines,
            pos,
            moves[i],
            (depth - 1) as nat,
            alpha,
            beta,
            hash,
        );
        let better = one.score > score || best is None;
        let score1 = if better {
            one.score
        } else {
            score
        };
        let best1 = if better {
            Some(moves[i])
        } else {
            best
        };
        let alpha1 = if score1 > alpha {
            score1
        } else {
            alpha
        };
        if score1 >= beta {
            Deepened { table: one.table, lines: one.lines, score: score1, best: best1 }
        } else {
            id_moves(
                score_board,
                hasher,
                one.table,
                one.lines,
                pos,
                moves,
                i + 1,
                depth,
                alpha1,
                beta,
                hash,
                score1,
                best1,
            )
        }
    }
}

/// The score of one move for the side that makes it: the one remembered
/// for the hash of the position after it, if there is one; else the
/// negative of what the search answers for the other side, which is then
/// remembered.
pub open spec fn id_move<F: Fn(&Board) -> i32>(
    score_board: F,
    hasher: Zobrist,
    table: Seq<Seq<Option<(u64, i32)>>>,
    lines: Seq<Seq<Option<(u64, Move)>>>,
    pos: Position,
    m: Move,
    depth: nat,
    alpha: i32,
    beta: i32,
    hash: u64,
) -> Deepened
    decreases depth, 4int, 0int,
{
    let after = pos.apply(m);
    let new_hash = hasher.spec_update(
        hash,
        m,
        pos.en_passant,
        pos.castling_rights,
        after.castling_rights,
    );
    match table_lookup(table, 20, new_hash) {
        Some(cached) => Deepened { table, lines, score: cached, best: None },
        None => {
            let below = id_search(
                score_board,
                hasher,
                table,
                lines,
                after,
                depth,
                negated(beta),
                negated(alpha),
                new_hash,
            );
            let score = negated(below.score);
            Deepened {
                table: table_set(below.table, 20, new_hash, score),
                lines: below.lines,
                score,
                best: None,
            }
        },
    }
}

/// What the first `passes` searches of a deepening leave behind and answer:
/// each goes one move deeper than the one before, with an empty table of
/// scores and the best moves that the ones before remembered.
pub open spec fn id_passes<F: Fn(&Board) -> i32>(
    score_board: F,
    hasher: Zobrist,
    pos: Position,
    passes: nat,
) -> Deepened
    decreases passes,
{
    if passes == 0 {
        Deepened {
            table: table_empty::<i32>(20, 4),
            lines: table_empty::<Move>(20, 4),
            score: 0,
            best: None,
        }
    } else {
        id_search(
            score_board,
            hasher,
            table_empty::<i32>(20, 4),
            id_passes(score_board, hasher, pos, (passes - 1) as nat).lines,
            pos,
            passes,
            MIN_SCORE,
            MAX_SCORE,
            hasher.spec_hash(pos),
        )
    }
}

/// A player that searches one move deeper after the other until its time
/// is used up, trying at each depth first the move that was best before.
pub struct IterativeDeepening<F: Fn(&Board) -> i32> {
    pub max_time_millis: u128,
    pub max_depth: u32,
    pub score_board: F,
    pub zobrist_hasher: Zobrist,
    pub transposition_table: HashTable<i32, 20, 4>,
    pub pv_table: HashTable<Move, 20, 4>,
    pub nodes_searched: u32,
}

impl<F: Fn(&Board) -> i32> IterativeDeepening<F> {
    /// The invariant of the player.
    pub open spec fn wf(&self) -> bool {
        &&& scorer_ok(self.score_board)
        &&& self.zobrist_hasher.wf()
        &&& self.transposition_table.wf()
        &&& self.pv_table.wf()
        &&& scores_ok(self.transposition_table@)
    }

    /// Whether two states of the player search alike: same limits, same
    /// scoring, same hasher.
    pub open spec fn same_setup(&self, other: &Self) -> bool {
        &&& self.max_time_millis == other.max_time_millis
        &&& self.max_depth == other.max_depth
        &&& self.score_board == other.score_board
        &&& self.zobrist_hasher == other.zobrist_hasher
    }

    /// A player that stops deepening once `approx_time_millis` are used up.
    pub fn new(approx_time_millis: u128, score_board: F) -> (r: Self)
        requires
            scorer_ok(score_board),
        ensures
            r.wf(),
            r.max_time_millis == approx_time_millis,
            r.max_depth == MAX_SEARCH_DEPTH,
            r.score_board == score_board,
            r.nodes_searched == 0,
    {
        let transposition_table = HashTable::new();
        proof {
            lemma_scores_ok_empty(20, 4);
        }
        IterativeDeepening {
            max_time_millis: approx_time_millis,
            max_depth: MAX_SEARCH_DEPTH,
            score_board,
            zobrist_hasher: Zobrist::new(),
            transposition_table,
            pv_table: HashTable::new(),
            nodes_searched: 0,
        }
    }

    /// Whether another search is begun once `passes` searches are made and
    /// `time_taken` milliseconds are used up: only while both the time and
    /// the depth limit are unreached.
    pub fn goes_deeper(&self, time_taken: u128, passes: u32) -> (r: bool)
        ensures
            r == (time_taken < self.max_time_millis && passes < self.max_depth),
    {
        time_taken < self.max_time_millis && passes < self.max_depth
    }

    /// Puts the move that was best for the position before in front.
    fn promote_remembered(&self, moves: &mut Vec<Move>, board_hash: u64)
        requires
            self.wf(),
        ensures
            final(moves)@ == promoted(old(moves)@, table_lookup(self.pv_table@, 20, board_hash)),
    {
        let remembered = match self.pv_table.get(board_hash) {
            Some(pv_move) => *pv_move,
            None => {
                return ;
            },
        };
        let mut idx: usize = 0;
        while idx < moves.len()
            invariant
                idx <= moves.len(),
                moves@ == old(moves)@,
                table_lookup(self.pv_table@, 20, board_hash) == Some(remembered),
                remembered_at(moves@, remembered, idx as int) == remembered_at(
                    moves@,
                    remembered,
                    0,
                ),
            decreases moves.len() - idx,
        {
            if moves[idx].start_square == remembered.start_square && moves[idx].end_square
                == remembered.end_square {
                assert(remembered_at(old(moves)@, remembered, 0) == idx);
                let first = moves[0];
                let found = moves[idx];
                moves[0] = found;
                moves[idx] = first;
                assert(moves@ =~= old(moves)@.update(0, old(moves)@[idx as int]).update(
                    idx as int,
                    old(moves)@[0],
                ));
                return ;
            }
            idx += 1;
        }
    }

    fn remember(&mut self, hash: u64, score: i32)
        requires
            old(self).wf(),
            score >= MIN_SCORE,
        ensures
            final(self).wf(),
            final(self).same_setup(old(self)),
            final(self).pv_table == old(self).pv_table,
            final(self).transposition_table@ == table_set(
                old(self).transposition_table@,
                20,
                hash,
                score,
            ),
    {
        proof {
            lemma_scores_ok_set(self.transposition_table@, 20, hash, score);
        }
        self.transposition_table.set(hash, score);
    }

    fn recall(&self, hash: u64) -> (r: Option<i32>)
        requires
            self.wf(),
        ensures
            r == table_lookup(self.transposition_table@, 20, hash),
            r is Some ==> r->0 >= MIN_SCORE,
    {
        match self.transposition_table.get(hash) {
            Some(score) => {
                proof {
                    lemma_scores_ok_lookup(self.transposition_table@, 20, hash);
                }
                Some(*score)
            },
            None => None,
        }
    }

    /// The model's answer for the player's tables.
    pub open spec fn found(&self, score: i32, best: Option<Move>) -> Deepened {
        Deepened { table: self.transposition_table@, lines: self.pv_table@, score, best }
    }

    /// The score of the position after `m` for the side that makes it: the
    /// remembered one if there is one, else the negative of what a search
    /// one move less deep answers for the other side, which is then
    /// remembered.
    fn score_move(
        &mut self,
        board: &mut Board,
        m: &Move,
        depth: u32,
        alpha: i32,
        beta: i32,
        board_hash: u64,
    ) -> (score: i32)
        requires
            old(self).wf(),
            old(board).wf(),
            old(board)@.accepts(*m),
            old(board).turns_taken + depth < u32::MAX,
            alpha >= MIN_SCORE,
            beta >= MIN_SCORE,
            board_hash == old(self).zobrist_hasher.spec_hash(old(board)@),
        ensures
            final(self).wf(),
            final(self).same_setup(old(self)),
            final(board).wf(),
            final(board)@ == old(board)@,
            score >= MIN_SCORE,
            final(self).found(score, None) == id_move(
                old(self).score_board,
                old(self).zobrist_hasher,
                old(self).transposition_table@,
                old(self).pv_table@,
                old(board)@,
                *m,
                depth as nat,
                alpha,
                beta,
                board_hash,
            ),
        decreases depth, 1int,
    {
        let old_en_passant_chance = board.en_passant_chance;
        let old_castling_rights = board.castling_rights;
        proof {
            self.zobrist_hasher.lemma_update_is_full_hash(board@, *m);
            lemma_apply_ok(board@, *m);
            lemma_apply_then_unapply(board@, *m);
        }
        board.make_move(m);
        let new_hash = self.zobrist_hasher.update_hash(
            board_hash,
            m,
            old_en_passant_chance,
            old_castling_rights,
            board.castling_rights,
        );
        let move_score = match self.recall(new_hash) {
            Some(cached_score) => cached_score,
            None => {
                let answer = self.find_board_score(board, depth, -beta, -alpha, new_hash);
                let move_score = -answer.0;
                self.remember(new_hash, move_score);
                move_score
            },
        };
        board.undo_move();
        move_score
    }

    /// Searches `depth` moves ahead from the board's position, whose hash is
    /// `board_hash`, for the best score that the side to move can reach
    /// between `alpha` and `beta`, and for a move that reaches it.
    pub fn find_board_score(
        &mut self,
        board: &mut Board,
        depth: u32,
        alpha: i32,
        beta: i32,
        board_hash: u64,
    ) -> (answer: (i32, Option<Move>))
        requires
            old(self).wf(),
            old(board).wf(),
            old(board).turns_taken + depth <= u32::MAX,
            alpha >= MIN_SCORE,
            beta >= MIN_SCORE,
            board_hash == old(self).zobrist_hasher.spec_hash(old(board)@),
        ensures
            final(self).wf(),
            final(self).same_setup(old(self)),
            final(board).wf(),
            final(board)@ == old(board)@,
            search_answer(old(board)@, depth, answer),
            final(self).found(answer.0, answer.1) == id_search(
                old(self).score_board,
                old(self).zobrist_hasher,
                old(self).transposition_table@,
                old(self).pv_table@,
                old(board)@,
                depth as nat,
                alpha,
                beta,
                board_hash,
            ),
        decreases depth, 0int,
    {
        if self.nodes_searched < u32::MAX {
            self.nodes_searched += 1;
        }
        if depth == 0 {
            let score = (self.score_board)(&*board);
            proof {
                lemma_score_of(self.score_board, &*board, score);
            }
            self.remember(board_hash, score);
            return (score, None);
        }
        let possible_moves = get_possible_moves(board);
        if possible_moves.len() == 0 {
            let info = get_position_info(board, board.side_to_move);
            if info.king_attacker_count == 0 {
                self.remember(board_hash, 0);
                return (0, None);
            }
            self.remember(board_hash, LOSE_SCORE);
            return (LOSE_SCORE, None);
        }
        let ghost pos = board@;
        let mut ordered = basic_move_ordering(possible_moves);
        proof {
            lemma_promoted(ordered@, table_lookup(self.pv_table@, 20, board_hash));
        }
        let ghost unpromoted = ordered@;
        self.promote_remembered(&mut ordered, board_hash);
        assert forall|k: int| 0 <= k < ordered@.len() implies legal_moves(pos).contains(
            #[trigger] ordered@[k],
        ) by {
            assert(unpromoted.contains(ordered@[k]));
            let j = choose|j: int| 0 <= j < unpromoted.len() && unpromoted[j] == ordered@[k];
            assert(legal_moves(pos).contains(unpromoted[j]));
        }
        let ghost goal = id_moves(
            self.score_board,
            self.zobrist_hasher,
            self.transposition_table@,
            self.pv_table@,
            pos,
            ordered@,
            0,
            depth as nat,
            alpha,
            beta,
            board_hash,
            MIN_SCORE,
            None,
        );
        let mut alpha = alpha;
        let mut score: i32 = MIN_SCORE;
        let mut best_move: Option<Move> = None;
        let mut i: usize = 0;
        let mut cut = false;
        while i < ordered.len() && !cut
            invariant
                i <= ordered.len(),
                ordered@.len() > 0,
                depth > 0,
                self.wf(),
                self.same_setup(old(self)),
                board.wf(),
                board@ == pos,
                pos.turns_taken + depth <= u32::MAX,
                board_hash == self.zobrist_hasher.spec_hash(pos),
                forall|k: int|
                    0 <= k < ordered@.len() ==> legal_moves(pos).contains(#[trigger] ordered@[k]),
                all_accepted(pos, legal_moves(pos)),
                alpha >= MIN_SCORE,
                beta >= MIN_SCORE,
                score >= MIN_SCORE,
                best_move is Some ==> legal_moves(pos).contains(best_move->0),
                i > 0 ==> best_move is Some,
                cut ==> i > 0,
                legal_moves(pos).len() > 0,
                cut ==> goal == self.found(score, best_move),
                !cut ==> goal == id_moves(
                    self.score_board,
                    self.zobrist_hasher,
                    self.transposition_table@,
                    self.pv_table@,
                    pos,
                    ordered@,
                    i as int,
                    depth as nat,
                    alpha,
                    beta,
                    board_hash,
                    score,
                    best_move,
                ),
            decreases ordered.len() - i + (if cut { 0int } else { 1int }),
        {
            let possible_move = ordered[i];
            assert(legal_moves(pos).contains(ordered@[i as int]));
            let move_score = self.score_move(
                board,
                &possible_move,
                depth - 1,
                alpha,
                beta,
                board_hash,
            );
            if move_score > score || best_move.is_none() {
                best_move = Some(possible_move);
                score = move_score;
            }
            if score > alpha {
                alpha = score;
            }
            if score >= beta {
                cut = true;
            }
            i += 1;
        }
        match best_move {
            Some(pv_move) => {
                self.pv_table.set(board_hash, pv_move);
            },
            None => {},
        }
        (aged(score), best_move)
    }
}

impl<F: Fn(&Board) -> i32> Player for IterativeDeepening<F> {
    open spec fn ready(&self) -> bool {
        self.wf()
    }

    open spec fn reach(&self) -> u32 {
        self.max_depth
    }

    /// The move that the deepest search finds best which was begun before
    /// the time was used up and within the depth limit: the clock is read
    /// between the searches only, so the last one may end late. Some number
    /// of searches is made, at least one where there is any time and depth.
    fn get_move<'a>(&mut self, board: &mut Board, possible_moves: &'a [Move]) -> (r: Option<
        &'a Move,
    >)
        ensures
            final(self).same_setup(old(self)),
            r is Some <==> possible_moves@.len() > 0 && old(self).max_time_millis > 0 && old(
                self,
            ).max_depth > 0,
            exists|passes: nat|
                passes <= old(self).max_depth && (passes > 0 <==> old(self).max_time_millis > 0
                    && old(self).max_depth > 0) && match (#[trigger] id_passes(
                    old(self).score_board,
                    old(self).zobrist_hasher,
                    old(board)@,
                    passes,
                )).best {
                    Some(chosen) => r is Some && *r->0 == same_move(possible_moves@, chosen)->0,
                    None => r is None,
                },
    {
        self.nodes_searched = 0;
        self.pv_table.clear();
        let board_hash = self.zobrist_hasher.get_board_hash(board);
        let ghost pos = board@;
        let mut best_move: Option<Move> = None;
        let mut time_taken: u128 = 0;
        let mut search_depth: u32 = 0;
        let start_time = std::time::Instant::now();
        while self.goes_deeper(time_taken, search_depth)
            invariant
                self.wf(),
                self.same_setup(old(self)),
                board.wf(),
                board@ == pos,
                pos.turns_taken + self.max_depth <= u32::MAX,
                search_depth <= self.max_depth,
                board_hash == self.zobrist_hasher.spec_hash(pos),
                best_move is Some ==> legal_moves(pos).contains(best_move->0),
                search_depth > 0 && legal_moves(pos).len() > 0 ==> best_move is Some,
                search_depth == 0 ==> time_taken == 0 && best_move is None,
                search_depth > 0 ==> self.max_time_millis > 0,
                self.pv_table@ == id_passes(
                    self.score_board,
                    self.zobrist_hasher,
                    pos,
                    search_depth as nat,
                ).lines,
                best_move == id_passes(
                    self.score_board,
                    self.zobrist_hasher,
                    pos,
                    search_depth as nat,
                ).best,
            decreases self.max_depth - search_depth,
        {
            proof {
                lemma_scores_ok_empty(20, 4);
            }
            self.transposition_table.clear();
            search_depth += 1;
            let answer = self.find_board_score(board, search_depth, MIN_SCORE, MAX_SCORE, board_hash);
            best_move = answer.1;
            time_taken = start_time.elapsed().as_millis();
        }
        let ghost passes = search_depth as nat;
        assert(best_move == id_passes(self.score_board, self.zobrist_hasher, pos, passes).best);
        match best_move {
            Some(valid_move) => find_same_move(possible_moves, &valid_move),
            None => None,
        }
    }
}

} // verus!
