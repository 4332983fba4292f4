//! Zobrist hashing: the table of words, the hash of a position, its update
//! for a move, and that the two agree.

use vstd::prelude::*;
use crate::game::board::Board;
use crate::game::chess_util::on_board;
use crate::game::chess_util::CastlingRights;
use crate::game::moves::Move;
use crate::game::moves::MoveType;
use crate::game::piece::Colour;
use crate::game::piece::Piece;
use crate::game::piece::{PAWN, ROOK};
use crate::game::position::castle_rook_squares;
use crate::game::position::lemma_apply_then_unapply;
use crate::game::position::Position;

verus! {

/// The multiplier of the generator.
pub const RNG_FACTOR: u128 = 0xda942042e4dd58b5;

/// The seed that every hasher starts from.
pub const RNG_SEED: u128 = 0x24707328e71eb479975be17e82370742;

/// The state of the generator after `n` steps from `seed`.
pub open spec fn seed_after(seed: u128, n: nat) -> u128
    decreases n,
{
    if n == 0 {
        seed
    } else {
        seed_after(seed, (n - 1) as nat).wrapping_mul(RNG_FACTOR)
    }
}

/// The word that a state of the generator shows: its high half.
pub open spec fn word_of(seed: u128) -> u64 {
    (seed >> 64) as u64
}

/// The `k`-th word drawn from a generator in the state `seed`, counting from
/// zero.
pub open spec fn rand_at(seed: u128, k: nat) -> u64 {
    word_of(seed_after(seed, k + 1))
}

/// A multiplicative generator of 64-bit words, the same sequence each time.
pub struct RNG {
    pub seed: u128,
}

impl RNG {
    /// The generator in its first state.
    pub fn new() -> (r: RNG)
        ensures
            r.seed == RNG_SEED,
    {
        RNG { seed: RNG_SEED }
    }

    /// Steps the generator and gives the word of its new state.
    pub fn get_rand(&mut self) -> (r: u64)
        ensures
            final(self).seed == seed_after(old(self).seed, 1),
            r == rand_at(old(self).seed, 0),
    {
        self.seed = self.seed.wrapping_mul(RNG_FACTOR);
        let seed = self.seed;
        assert(seed >> 64 <= 0xffff_ffff_ffff_ffff) by (bit_vector);
        assert(seed_after(old(self).seed, 1) == seed) by {
            assert(seed_after(old(self).seed, 0) == old(self).seed);
        }
        (self.seed >> 64) as u64
    }
}

proof fn lemma_seed_after_adds(seed: u128, a: nat, b: nat)
    ensures
        seed_after(seed_after(seed, a), b) == seed_after(seed, a + b),
    decreases b,
{
    if b > 0 {
        lemma_seed_after_adds(seed, a, (b - 1) as nat);
    }
}

/// `array_init::array_init` calls its closure once for each index from 0 up,
/// in that order, and returns what the calls gave as an array. The closure
/// here draws one word from the generator at each call, so the array holds
/// the next `N` words and the generator has made `N` steps.
#[verifier::external_body]
fn random_words<const N: usize>(rng: &mut RNG) -> (r: [u64; N])
    ensures
        final(rng).seed == seed_after(old(rng).seed, N as nat),
        forall|i: int| 0 <= i < N ==> #[trigger] r@[i] == rand_at(old(rng).seed, i as nat),
{
    array_init::array_init(|_| rng.get_rand())
}

/// The table row of one man: words drawn from the generator, but zeros for
/// the empty square, which is to count for nothing.
fn piece_row(rng: &mut RNG, code: usize) -> (r: [u64; 144])
    ensures
        code == 15 ==> final(rng).seed == old(rng).seed && forall|i: int|
            0 <= i < 144 ==> #[trigger] r@[i] == 0,
        code != 15 ==> final(rng).seed == seed_after(old(rng).seed, 144) && forall|i: int|
            0 <= i < 144 ==> #[trigger] r@[i] == rand_at(old(rng).seed, i as nat),
{
    if code != 15 {
        random_words::<144>(rng)
    } else {
        [0u64;144]
    }
}

/// `array_init::array_init` calls its closure once for each index from 0 up,
/// in that order. The closure here makes the row of the man with that code,
/// so the rows 0 to 14 hold the first fifteen times 144 words of the
/// generator, in order, the row 15 of the empty square holds zeros, and the
/// generator has made fifteen times 144 steps.
#[verifier::external_body]
fn piece_rows(rng: &mut RNG) -> (r: [[u64; 144]; 16])
    ensures
        final(rng).seed == seed_after(old(rng).seed, 2160),
        forall|code: int, i: int|
            0 <= code < 15 && 0 <= i < 144 ==> (#[trigger] r@[code]@[i]) == rand_at(
                old(rng).seed,
                (144 * code + i) as nat,
            ),
        forall|i: int| 0 <= i < 144 ==> (#[trigger] r@[15]@[i]) == 0,
{
    array_init::array_init(|code| piece_row(rng, code))
}

/// The random words of position hashing: one for each man on each index,
/// one for Black to move, one for each value of the castling rights, one for
/// each file of an en-passant target.
pub struct Zobrist {
    pub piece_positions: [[u64; 144]; 16],
    pub side_to_move_is_black: u64,
    pub castling_rights: [u64; 16],
    pub en_passant_file: [u64; 8],
}

impl Zobrist {
    /// The word of a man on an index.
    pub open spec fn word(&self, piece: Piece, square: int) -> u64 {
        self.piece_positions@[piece.spec_code() as int]@[square]
    }

    /// The invariant of a hasher: the empty square has the word zero on
    /// every index.
    pub open spec fn wf(&self) -> bool {
        forall|square: int| 0 <= square < 144 ==> #[trigger] self.word(Piece::Empty, square) == 0
    }

    /// What an index of a board adds to its hash: the word of what stands on
    /// it, and nothing off the field.
    pub open spec fn square_word(&self, squares: Seq<Piece>, square: int) -> u64 {
        if on_board(square) {
            self.word(squares[square], square)
        } else {
            0
        }
    }

    /// The hash of the first `n` indices of a board: their words combined by
    /// exclusive or.
    pub open spec fn squares_hash(&self, squares: Seq<Piece>, n: int) -> u64
        decreases n,
    {
        if n <= 0 {
            0
        } else {
            self.squares_hash(squares, n - 1) ^ self.square_word(squares, n - 1)
        }
    }

    /// What the side to move adds to a hash: a word for Black, nothing for
    /// White.
    pub open spec fn side_word(&self, side: Colour) -> u64 {
        if side == Colour::Black {
            self.side_to_move_is_black
        } else {
            0
        }
    }

    /// What the en-passant target adds to a hash: the word of its file, or
    /// nothing.
    pub open spec fn en_passant_word(&self, target: Option<u8>) -> u64 {
        match target {
            Some(square) => self.en_passant_file@[square as int % 8],
            None => 0,
        }
    }

    /// The hash of a position: the words of its men, of the side to move, of
    /// its castling rights and of the file of its en-passant target,
    /// combined by exclusive or.
    pub open spec fn spec_hash(&self, pos: Position) -> u64 {
        self.squares_hash(pos.squares, 128) ^ self.side_word(pos.side_to_move)
            ^ self.castling_rights@[pos.castling_rights as int] ^ self.en_passant_word(
            pos.en_passant,
        )
    }

    /// Whether the squares that a move touches are all on the board.
    pub open spec fn can_update(m: Move) -> bool {
        &&& on_board(m.start_square as int)
        &&& on_board(m.end_square as int)
        &&& m.move_type == MoveType::EnPassant ==> on_board(
            m.moved_piece.spec_colour().spec_opposite().spec_forward(m.end_square as int),
        )
        &&& m.move_type == MoveType::Castle ==> on_board(
            castle_rook_squares(m.end_square as int).0,
        ) && on_board(castle_rook_squares(m.end_square as int).1)
    }

    /// What a move changes on the board, as the exclusive or of the words
    /// that leave the hash and of those that enter it.
    pub open spec fn men_delta(&self, m: Move) -> u64 {
        let start = m.start_square as int;
        let end = m.end_square as int;
        let mover = m.moved_piece.spec_colour();
        let leaving = self.word(m.moved_piece, start) ^ self.word(m.replaced_piece, end);
        match m.move_type {
            MoveType::Normal | MoveType::PawnDouble => leaving ^ self.word(m.moved_piece, end),
            MoveType::Promotion(promoted) => leaving ^ self.word(promoted, end),
            MoveType::EnPassant => leaving ^ self.word(m.moved_piece, end) ^ self.word(
                Piece::spec_of(mover.spec_opposite(), PAWN),
                mover.spec_opposite().spec_forward(end),
            ),
            MoveType::Castle => leaving ^ self.word(m.moved_piece, end) ^ self.word(
                Piece::spec_of(mover, ROOK),
                castle_rook_squares(end).0,
            ) ^ self.word(Piece::spec_of(mover, ROOK), castle_rook_squares(end).1),
        }
    }

    /// The en-passant target that a move leaves behind.
    pub open spec fn target_after(m: Move) -> Option<u8> {
        if m.move_type == MoveType::PawnDouble {
            Some(m.moved_piece.spec_colour().spec_forward(m.start_square as int) as u8)
        } else {
            None
        }
    }

    /// The hash after a move, from the hash before it: the men's words are
    /// exchanged, the side to move is flipped, and the words of the castling
    /// rights and of the en-passant file are replaced.
    pub open spec fn spec_update(
        &self,
        hash: u64,
        m: Move,
        old_en_passant: Option<u8>,
        old_rights: u8,
        new_rights: u8,
    ) -> u64 {
        hash ^ self.men_delta(m) ^ self.en_passant_word(old_en_passant) ^ self.en_passant_word(
            Zobrist::target_after(m),
        ) ^ self.castling_rights@[old_rights as int] ^ self.castling_rights@[new_rights as int]
            ^ self.side_to_move_is_black
    }

    /// The hasher, the same each time: its words are drawn from one
    /// generator in a fixed order.
    pub fn new() -> (r: Zobrist)
        ensures
            r.wf(),
            forall|code: int, i: int|
                0 <= code < 15 && 0 <= i < 144 ==> (#[trigger] r.piece_positions@[code]@[i])
                    == rand_at(RNG_SEED, (144 * code + i) as nat),
            r.side_to_move_is_black == rand_at(RNG_SEED, 2160),
            forall|i: int|
                0 <= i < 16 ==> #[trigger] r.castling_rights@[i] == rand_at(
                    RNG_SEED,
                    (2161 + i) as nat,
                ),
            forall|i: int|
                0 <= i < 8 ==> #[trigger] r.en_passant_file@[i] == rand_at(
                    RNG_SEED,
                    (2177 + i) as nat,
                ),
    {
        let mut rng = RNG::new();
        let piece_positions = piece_rows(&mut rng);
        let ghost s1 = rng.seed;
        let side_to_move_is_black = rng.get_rand();
        let ghost s2 = rng.seed;
        let castling_rights = random_words::<16>(&mut rng);
        let ghost s3 = rng.seed;
        let en_passant_file = random_words::<8>(&mut rng);
        proof {
            lemma_seed_after_adds(RNG_SEED, 2160, 1);
            lemma_seed_after_adds(RNG_SEED, 2161, 16);
            assert forall|i: int| 0 <= i < 16 implies #[trigger] castling_rights@[i] == rand_at(
                RNG_SEED,
                (2161 + i) as nat,
            ) by {
                lemma_seed_after_adds(RNG_SEED, 2161, (i + 1) as nat);
            }
            assert forall|i: int| 0 <= i < 8 implies #[trigger] en_passant_file@[i] == rand_at(
                RNG_SEED,
                (2177 + i) as nat,
            ) by {
                lemma_seed_after_adds(RNG_SEED, 2177, (i + 1) as nat);
            }
        }
        let r = Zobrist { piece_positions, side_to_move_is_black, castling_rights, en_passant_file };
        assert forall|square: int| 0 <= square < 144 implies #[trigger] r.word(
            Piece::Empty,
            square,
        ) == 0 by {
            assert(r.piece_positions@[15]@[square] == 0);
        }
        r
    }

    /// The hash of the board's position, computed from nothing.
    pub fn get_board_hash(&self, board: &Board) -> (hash: u64)
        requires
            board@.castling_rights < 16,
            board@.squares.len() == 128,
        ensures
            hash == self.spec_hash(board@),
    {
        let mut hash: u64 = 0;
        let mut pos: u8 = 0;
        while pos < 128
            invariant
                pos <= 128,
                board@.squares.len() == 128,
                hash == self.squares_hash(board@.squares, pos as int),
            decreases 128 - pos,
        {
            if pos % 16 < 8 {
                hash = hash ^ self.piece_positions[board.get_piece(pos).code() as usize][pos as usize];
            } else {
                assert(hash ^ 0 == hash) by (bit_vector);
            }
            pos += 1;
        }
        if board.side_to_move == Colour::Black {
            hash = hash ^ self.side_to_move_is_black;
        } else {
            assert(hash ^ 0 == hash) by (bit_vector);
        }
        hash = hash ^ self.castling_rights[board.castling_rights as usize];
        match board.en_passant_chance {
            Some(square) => {
                hash = hash ^ self.en_passant_file[(square % 8) as usize];
            },
            None => {
                assert(hash ^ 0 == hash) by (bit_vector);
            },
        }
        hash
    }

    fn get_word(&self, piece: Piece, square: i16) -> (r: u64)
        requires
            0 <= square < 144,
        ensures
            r == self.word(piece, square as int),
    {
        self.piece_positions[piece.code() as usize][square as usize]
    }

    fn get_en_passant_word(&self, target: Option<u8>) -> (r: u64)
        ensures
            r == self.en_passant_word(target),
    {
        match target {
            Some(square) => self.en_passant_file[(square % 8) as usize],
            None => 0,
        }
    }

    /// The hash of the position after `move_made`, from the hash of the
    /// position before it and the state that the move replaced.
    pub fn update_hash(
        &self,
        hash: u64,
        move_made: &Move,
        old_en_passant_chance: Option<u8>,
        old_castling_rights: CastlingRights,
        new_castling_rights: CastlingRights,
    ) -> (r: u64)
        requires
            Zobrist::can_update(*move_made),
            old_castling_rights < 16,
            new_castling_rights < 16,
        ensures
            r == self.spec_update(
                hash,
                *move_made,
                old_en_passant_chance,
                old_castling_rights,
                new_castling_rights,
            ),
    {
        let m = *move_made;
        let start: i16 = m.start_square as i16;
        let end: i16 = m.end_square as i16;
        let mover = m.moved_piece.get_colour();
        let leaving = self.get_word(m.moved_piece, start) ^ self.get_word(m.replaced_piece, end);
        let men = match m.move_type {
            MoveType::Normal | MoveType::PawnDouble => leaving ^ self.get_word(m.moved_piece, end),
            MoveType::Promotion(promoted) => leaving ^ self.get_word(promoted, end),
            MoveType::EnPassant => {
                let victim: i16 = match mover {
                    Colour::White => end + 16,
                    Colour::Black => end - 16,
                };
                leaving ^ self.get_word(m.moved_piece, end) ^ self.get_word(
                    Piece::of(mover.opposite(), PAWN),
                    victim,
                )
            },
            MoveType::Castle => {
                let rook = Piece::of(mover, ROOK);
                let (rook_start_square, rook_end_square) = if end % 16 < 4 {
                    (end - 2, end + 1)
                } else {
                    (end + 1, end - 1)
                };
                leaving ^ self.get_word(m.moved_piece, end) ^ self.get_word(rook, rook_start_square)
                    ^ self.get_word(rook, rook_end_square)
            },
        };
        let new_target: Option<u8> = if m.move_type == MoveType::PawnDouble {
            Some(
                match mover {
                    Colour::White => (start - 16) as u8,
                    Colour::Black => (start + 16) as u8,
                },
            )
        } else {
            None
        };
        hash ^ men ^ self.get_en_passant_word(old_en_passant_chance) ^ self.get_en_passant_word(
            new_target,
        ) ^ self.castling_rights[old_castling_rights as usize]
            ^ self.castling_rights[new_castling_rights as usize] ^ self.side_to_move_is_black
    }
}

impl Zobrist {
    /// Changing what stands on one square changes the hash of the board by
    /// the word that leaves and the word that enters.
    pub proof fn lemma_point_update(&self, squares: Seq<Piece>, i: int, piece: Piece, n: int)
        requires
            squares.len() == 128,
            on_board(i),
            0 <= n <= 128,
        ensures
            self.squares_hash(squares.update(i, piece), n) == (if i < n {
                self.squares_hash(squares, n) ^ self.word(squares[i], i) ^ self.word(piece, i)
            } else {
                self.squares_hash(squares, n)
            }),
        decreases n,
    {
        if n > 0 {
            let k = n - 1;
            self.lemma_point_update(squares, i, piece, k);
            let changed = squares.update(i, piece);
            let a = self.squares_hash(squares, k);
            let leaving = self.word(squares[i], i);
            let entering = self.word(piece, i);
            let last = self.square_word(squares, k);
            if k == i {
                assert(a ^ entering == ((a ^ leaving) ^ leaving) ^ entering) by (bit_vector);
            } else if k > i {
                assert(self.square_word(changed, k) == last);
                assert(((a ^ leaving) ^ entering) ^ last == ((a ^ last) ^ leaving) ^ entering)
                    by (bit_vector);
            } else {
                assert(self.square_word(changed, k) == last);
            }
        }
    }

    /// What a move does to the men changes the hash of the board by the
    /// move's delta.
    pub proof fn lemma_men_delta(&self, p: Position, m: Move)
        requires
            self.wf(),
            p.ok(),
            p.accepts(m),
        ensures
            Zobrist::can_update(m),
            self.squares_hash(p.squares_after(m), 128) == self.squares_hash(p.squares, 128)
                ^ self.men_delta(m),
    {
        let sq = p.squares;
        let start = m.start_square as int;
        let end = m.end_square as int;
        let base = self.squares_hash(sq, 128);
        let ms = self.word(m.moved_piece, start);
        let re = self.word(m.replaced_piece, end);
        let zero = self.word(Piece::Empty, start);
        assert(zero == 0);
        match m.move_type {
            MoveType::Normal | MoveType::PawnDouble => {
                let me = self.word(m.moved_piece, end);
                let s1 = sq.update(end, m.moved_piece);
                self.lemma_point_update(sq, end, m.moved_piece, 128);
                self.lemma_point_update(s1, start, Piece::Empty, 128);
                assert((((base ^ re) ^ me) ^ ms) ^ zero == base ^ ((ms ^ re) ^ me)) by (bit_vector)
                    requires
                        zero == 0,
                ;
            },
            MoveType::Promotion(promoted) => {
                let pe = self.word(promoted, end);
                let s1 = sq.update(end, promoted);
                self.lemma_point_update(sq, end, promoted, 128);
                self.lemma_point_update(s1, start, Piece::Empty, 128);
                assert((((base ^ re) ^ pe) ^ ms) ^ zero == base ^ ((ms ^ re) ^ pe)) by (bit_vector)
                    requires
                        zero == 0,
                ;
            },
            MoveType::EnPassant => {
                let me = self.word(m.moved_piece, end);
                let victim = p.en_passant_victim(end);
                let pawn = Piece::spec_of(p.side_to_move.spec_opposite(), PAWN);
                let ve = self.word(pawn, victim);
                let zero2 = self.word(Piece::Empty, victim);
                assert(zero2 == 0);
                let s1 = sq.update(end, m.moved_piece);
                let s2 = s1.update(start, Piece::Empty);
                self.lemma_point_update(sq, end, m.moved_piece, 128);
                self.lemma_point_update(s1, start, Piece::Empty, 128);
                self.lemma_point_update(s2, victim, Piece::Empty, 128);
                assert(s2[victim] == pawn);
                assert((((((base ^ re) ^ me) ^ ms) ^ zero) ^ ve) ^ zero2 == base ^ (((ms ^ re) ^ me)
                    ^ ve)) by (bit_vector)
                    requires
                        zero == 0,
                        zero2 == 0,
                ;
            },
            MoveType::Castle => {
                let me = self.word(m.moved_piece, end);
                let (rook_start, rook_end) = castle_rook_squares(end);
                let rook = Piece::spec_of(p.side_to_move, ROOK);
                let rs = self.word(rook, rook_start);
                let rn = self.word(rook, rook_end);
                let zero2 = self.word(Piece::Empty, rook_end);
                let zero3 = self.word(Piece::Empty, rook_start);
                assert(zero2 == 0 && zero3 == 0);
                let s1 = sq.update(end, m.moved_piece);
                let s2 = s1.update(start, Piece::Empty);
                let s3 = s2.update(rook_end, rook);
                self.lemma_point_update(sq, end, m.moved_piece, 128);
                self.lemma_point_update(s1, start, Piece::Empty, 128);
                self.lemma_point_update(s2, rook_end, rook, 128);
                self.lemma_point_update(s3, rook_start, Piece::Empty, 128);
                assert(s2[rook_end] == Piece::Empty);
                assert(s3[rook_start] == rook);
                assert((((((((base ^ re) ^ me) ^ ms) ^ zero) ^ zero2) ^ rn) ^ rs) ^ zero3 == base ^ ((((
                ms ^ re) ^ me) ^ rs) ^ rn)) by (bit_vector)
                    requires
                        zero == 0,
                        zero2 == 0,
                        zero3 == 0,
                ;
            },
        }
    }

    /// The hash kept up to date move by move is the hash computed from
    /// nothing: updating the hash of a position for a move that the position
    /// accepts gives the hash of the position after the move.
    pub proof fn lemma_update_is_full_hash(&self, p: Position, m: Move)
        requires
            self.wf(),
            p.ok(),
            p.accepts(m),
        ensures
            Zobrist::can_update(m),
            self.spec_update(
                self.spec_hash(p),
                m,
                p.en_passant,
                p.castling_rights,
                p.apply(m).castling_rights,
            ) == self.spec_hash(p.apply(m)),
    {
        self.lemma_men_delta(p, m);
        let q = p.apply(m);
        let men = self.squares_hash(p.squares, 128);
        let men2 = self.squares_hash(q.squares, 128);
        let delta = self.men_delta(m);
        let side = self.side_word(p.side_to_move);
        let side2 = self.side_word(q.side_to_move);
        let black = self.side_to_move_is_black;
        let rights = self.castling_rights@[p.castling_rights as int];
        let rights2 = self.castling_rights@[q.castling_rights as int];
        let target = self.en_passant_word(p.en_passant);
        let target2 = self.en_passant_word(q.en_passant);
        assert(q.en_passant == Zobrist::target_after(m));
        assert((side == 0 && side2 == black) || (side == black && side2 == 0));
        assert(((((((((men ^ side) ^ rights) ^ target) ^ delta) ^ target) ^ target2) ^ rights)
            ^ rights2) ^ black == ((men2 ^ side2) ^ rights2) ^ target2) by (bit_vector)
            requires
                men2 == men ^ delta,
                (side == 0 && side2 == black) || (side == black && side2 == 0),
        ;
    }

    /// The hash of a position is the same again when a move is made and
    /// taken back.
    pub proof fn lemma_hash_after_undo(&self, p: Position, m: Move)
        requires
            p.ok(),
            p.accepts(m),
            p.turns_taken < u32::MAX,
        ensures
            self.spec_hash(p.apply(m).unapply()) == self.spec_hash(p),
    {
        lemma_apply_then_unapply(p, m);
    }
}

} // verus!
