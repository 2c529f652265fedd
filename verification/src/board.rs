//! The board: twelve bitboards (one per colour and piece kind) plus the side to
//! move, castling rights, en-passant square and move clocks.
pub mod fen;
pub mod movegen;

use vstd::prelude::*;
use crate::bits::{
    group_bits, has_bit, lemma_pop_lowest, lemma_test_bit, square_bit,
};

verus! {

broadcast use group_bits;

#[derive(Clone, Copy, Debug, PartialEq, Eq, Structural)]
pub enum Color {
    White,
    Black,
}

#[derive(Clone, Copy, Debug, PartialEq, Eq, Structural)]
pub enum Piece {
    Pawn,
    Knight,
    Bishop,
    Rook,
    Queen,
    King,
}

#[derive(Clone, Copy, Debug, PartialEq, Eq, Structural)]
pub struct Move {
    pub from: u8,
    pub to: u8,
    pub promotion: Option<Piece>,
}

pub const WHITE_KINGSIDE: u8 = 1;

pub const WHITE_QUEENSIDE: u8 = 2;

pub const BLACK_KINGSIDE: u8 = 4;

pub const BLACK_QUEENSIDE: u8 = 8;

impl Color {
    pub open spec fn other(self) -> Color {
        match self {
            Color::White => Color::Black,
            Color::Black => Color::White,
        }
    }

    /// Row of `pieces` that holds this colour.
    pub open spec fn idx(self) -> int {
        match self {
            Color::White => 0,
            Color::Black => 1,
        }
    }

    pub fn opposite(self) -> (res: Self)
        ensures
            res == self.other(),
    {
        match self {
            Color::White => Color::Black,
            Color::Black => Color::White,
        }
    }

    pub fn index(self) -> (i: usize)
        ensures
            i == self.idx(),
            i < 2,
    {
        match self {
            Color::White => 0,
            Color::Black => 1,
        }
    }
}

impl Piece {
    /// Column of `pieces` that holds this piece kind.
    pub open spec fn idx(self) -> int {
        match self {
            Piece::Pawn => 0,
            Piece::Knight => 1,
            Piece::Bishop => 2,
            Piece::Rook => 3,
            Piece::Queen => 4,
            Piece::King => 5,
        }
    }

    /// The piece kind stored in column `i`.
    pub open spec fn of_idx(i: int) -> Piece {
        if i == 0 {
            Piece::Pawn
        } else if i == 1 {
            Piece::Knight
        } else if i == 2 {
            Piece::Bishop
        } else if i == 3 {
            Piece::Rook
        } else if i == 4 {
            Piece::Queen
        } else {
            Piece::King
        }
    }

    pub fn index(self) -> (i: usize)
        ensures
            i == self.idx(),
            i < 6,
    {
        match self {
            Piece::Pawn => 0,
            Piece::Knight => 1,
            Piece::Bishop => 2,
            Piece::Rook => 3,
            Piece::Queen => 4,
            Piece::King => 5,
        }
    }

    pub fn from_index(i: usize) -> (p: Piece)
        requires
            i < 6,
        ensures
            p == Piece::of_idx(i as int),
            p.idx() == i,
    {
        if i == 0 {
            Piece::Pawn
        } else if i == 1 {
            Piece::Knight
        } else if i == 2 {
            Piece::Bishop
        } else if i == 3 {
            Piece::Rook
        } else if i == 4 {
            Piece::Queen
        } else {
            Piece::King
        }
    }
}

/// File (0 = a) and rank (0 = first rank) coordinates.
pub open spec fn on_board(f: int, r: int) -> bool {
    0 <= f < 8 && 0 <= r < 8
}

pub open spec fn square_of(f: int, r: int) -> int {
    r * 8 + f
}

#[derive(Clone, Copy, Debug, PartialEq, Eq)]
pub struct Board {
    // pieces[colour][piece]
    pieces: [[u64; 6]; 2],
    pub side_to_move: Color,
    pub castling_rights: u8,
    pub en_passant: Option<u8>,
    pub halfmove_clock: u32,
    pub fullmove_number: u32,
}

/// What a board means: a bitboard for each colour and piece kind, and the
/// game state around it.
#[verifier::ext_equal]
pub struct BoardView {
    pub pieces: spec_fn(Color, Piece) -> u64,
    pub side_to_move: Color,
    pub castling_rights: u8,
    pub en_passant: Option<u8>,
    pub halfmove_clock: u32,
    pub fullmove_number: u32,
}

impl View for Board {
    type V = BoardView;

    closed spec fn view(&self) -> BoardView {
        BoardView {
            pieces: |c: Color, p: Piece| self.pieces[c.idx()][p.idx()],
            side_to_move: self.side_to_move,
            castling_rights: self.castling_rights,
            en_passant: self.en_passant,
            halfmove_clock: self.halfmove_clock,
            fullmove_number: self.fullmove_number,
        }
    }
}

impl BoardView {
    pub open spec fn bb(self, c: Color, p: Piece) -> u64 {
        (self.pieces)(c, p)
    }

    /// Squares held by colour `c`.
    pub open spec fn occ(self, c: Color) -> u64 {
        self.bb(c, Piece::Pawn) | self.bb(c, Piece::Knight) | self.bb(c, Piece::Bishop) | self.bb(
            c,
            Piece::Rook,
        ) | self.bb(c, Piece::Queen) | self.bb(c, Piece::King)
    }

    /// Squares held by either colour.
    pub open spec fn occupied(self) -> u64 {
        self.occ(Color::White) | self.occ(Color::Black)
    }

    /// The piece of colour `c` on square `s`, looking at the piece kinds in the
    /// order pawn, knight, bishop, rook, queen, king.
    pub open spec fn piece_on(self, c: Color, s: int) -> Option<Piece> {
        if has_bit(self.bb(c, Piece::Pawn), s) {
            Some(Piece::Pawn)
        } else if has_bit(self.bb(c, Piece::Knight), s) {
            Some(Piece::Knight)
        } else if has_bit(self.bb(c, Piece::Bishop), s) {
            Some(Piece::Bishop)
        } else if has_bit(self.bb(c, Piece::Rook), s) {
            Some(Piece::Rook)
        } else if has_bit(self.bb(c, Piece::Queen), s) {
            Some(Piece::Queen)
        } else if has_bit(self.bb(c, Piece::King), s) {
            Some(Piece::King)
        } else {
            None
        }
    }

    /// The lowest square holding a king of colour `c`.
    pub open spec fn king_sq(self, c: Color) -> Option<int> {
        let k = self.bb(c, Piece::King);
        if k == 0 {
            None
        } else {
            Some(k.trailing_zeros() as int)
        }
    }

    /// The king of colour `c` stands on a square attacked by the other colour.
    pub open spec fn in_check(self, c: Color) -> bool {
        match self.king_sq(c) {
            Some(k) => self.attacked(k, c.other()),
            None => false,
        }
    }

    /// A pawn of `attacker` stands diagonally behind square (`f`, `r`), seen
    /// from the attacker's direction of travel.
    pub open spec fn pawn_attacks(self, f: int, r: int, attacker: Color) -> bool {
        let p = self.bb(attacker, Piece::Pawn);
        let pr = if attacker == Color::White {
            r - 1
        } else {
            r + 1
        };
        (on_board(f - 1, pr) && has_bit(p, square_of(f - 1, pr))) || (on_board(f + 1, pr)
            && has_bit(p, square_of(f + 1, pr)))
    }

    /// A knight of `attacker` is a knight's jump away from (`f`, `r`).
    pub open spec fn knight_attacks(self, f: int, r: int, attacker: Color) -> bool {
        exists|i: int|
            0 <= i < 8 && on_board(f + knight_df(i), r + knight_dr(i)) && #[trigger] has_bit(
                self.bb(attacker, Piece::Knight),
                square_of(f + knight_df(i), r + knight_dr(i)),
            )
    }

    /// A king of `attacker` stands next to (`f`, `r`).
    pub open spec fn king_attacks(self, f: int, r: int, attacker: Color) -> bool {
        exists|df: int, dr: int|
            -1 <= df <= 1 && -1 <= dr <= 1 && !(df == 0 && dr == 0) && on_board(f + df, r + dr)
                && #[trigger] has_bit(self.bb(attacker, Piece::King), square_of(f + df, r + dr))
    }

    /// A bishop or queen of `attacker` sees (`f`, `r`) along a diagonal.
    pub open spec fn diagonal_attacks(self, f: int, r: int, attacker: Color) -> bool {
        let att = self.bb(attacker, Piece::Bishop) | self.bb(attacker, Piece::Queen);
        exists|i: int|
            0 <= i < 4 && #[trigger] ray_hits(
                self.occupied(),
                att,
                f + diagonal_df(i),
                r + diagonal_dr(i),
                diagonal_df(i),
                diagonal_dr(i),
            )
    }

    /// A rook or queen of `attacker` sees (`f`, `r`) along a rank or file.
    pub open spec fn straight_attacks(self, f: int, r: int, attacker: Color) -> bool {
        let att = self.bb(attacker, Piece::Rook) | self.bb(attacker, Piece::Queen);
        exists|i: int|
            0 <= i < 4 && #[trigger] ray_hits(
                self.occupied(),
                att,
                f + straight_df(i),
                r + straight_dr(i),
                straight_df(i),
                straight_dr(i),
            )
    }

    /// Square `s` is attacked by a piece of colour `attacker`.
    pub open spec fn attacked(self, s: int, attacker: Color) -> bool {
        let f = s % 8;
        let r = s / 8;
        ||| self.pawn_attacks(f, r, attacker)
        ||| self.knight_attacks(f, r, attacker)
        ||| self.king_attacks(f, r, attacker)
        ||| self.diagonal_attacks(f, r, attacker)
        ||| self.straight_attacks(f, r, attacker)
    }
}

pub open spec fn knight_df(i: int) -> int {
    if i == 0 {
        1
    } else if i == 1 {
        2
    } else if i == 2 {
        -1
    } else if i == 3 {
        2
    } else if i == 4 {
        -2
    } else if i == 5 {
        1
    } else if i == 6 {
        -1
    } else {
        -2
    }
}

pub open spec fn knight_dr(i: int) -> int {
    if i == 0 {
        2
    } else if i == 1 {
        1
    } else if i == 2 {
        2
    } else if i == 3 {
        -1
    } else if i == 4 {
        1
    } else if i == 5 {
        -2
    } else if i == 6 {
        -2
    } else {
        -1
    }
}

/// The knight jumps, in the order the move generator tries them.
pub fn knight_offset(i: usize) -> (d: (i8, i8))
    requires
        i < 8,
    ensures
        d.0 == knight_df(i as int),
        d.1 == knight_dr(i as int),
{
    if i == 0 {
        (1, 2)
    } else if i == 1 {
        (2, 1)
    } else if i == 2 {
        (-1, 2)
    } else if i == 3 {
        (2, -1)
    } else if i == 4 {
        (-2, 1)
    } else if i == 5 {
        (1, -2)
    } else if i == 6 {
        (-1, -2)
    } else {
        (-2, -1)
    }
}

pub open spec fn diagonal_df(i: int) -> int {
    if i == 0 || i == 1 {
        1
    } else {
        -1
    }
}

pub open spec fn diagonal_dr(i: int) -> int {
    if i == 0 || i == 2 {
        1
    } else {
        -1
    }
}

/// The diagonal directions (1, 1), (1, -1), (-1, 1), (-1, -1).
pub fn diagonal_offset(i: usize) -> (d: (i8, i8))
    requires
        i < 4,
    ensures
        d.0 == diagonal_df(i as int),
        d.1 == diagonal_dr(i as int),
{
    if i == 0 {
        (1, 1)
    } else if i == 1 {
        (1, -1)
    } else if i == 2 {
        (-1, 1)
    } else {
        (-1, -1)
    }
}

pub open spec fn straight_df(i: int) -> int {
    if i == 0 {
        1
    } else if i == 1 {
        -1
    } else {
        0
    }
}

pub open spec fn straight_dr(i: int) -> int {
    if i == 2 {
        1
    } else if i == 3 {
        -1
    } else {
        0
    }
}

/// The straight directions (1, 0), (-1, 0), (0, 1), (0, -1).
pub fn straight_offset(i: usize) -> (d: (i8, i8))
    requires
        i < 4,
    ensures
        d.0 == straight_df(i as int),
        d.1 == straight_dr(i as int),
{
    if i == 0 {
        (1, 0)
    } else if i == 1 {
        (-1, 0)
    } else if i == 2 {
        (0, 1)
    } else {
        (0, -1)
    }
}

/// Bound on the number of steps a ray can still take before leaving the board.
pub open spec fn ray_measure(f: int, r: int, df: int, dr: int) -> int {
    (if df > 0 {
        8 - f
    } else if df < 0 {
        f + 1
    } else {
        0
    }) + (if dr > 0 {
        8 - r
    } else if dr < 0 {
        r + 1
    } else {
        0
    })
}

pub open spec fn is_direction(df: int, dr: int) -> bool {
    -1 <= df <= 1 && -1 <= dr <= 1 && !(df == 0 && dr == 0)
}

/// Walking from (`f`, `r`) in direction (`df`, `dr`), the first occupied
/// square holds one of `attackers`.
pub open spec fn ray_hits(occ: u64, attackers: u64, f: int, r: int, df: int, dr: int) -> bool
    decreases ray_measure(f, r, df, dr),
{
    if !on_board(f, r) || !is_direction(df, dr) {
        false
    } else if has_bit(occ, square_of(f, r)) {
        has_bit(attackers, square_of(f, r))
    } else {
        ray_hits(occ, attackers, f + df, r + dr, df, dr)
    }
}

pub open spec fn empty_view() -> BoardView {
    BoardView {
        pieces: |c: Color, p: Piece| 0u64,
        side_to_move: Color::White,
        castling_rights: 0,
        en_passant: None,
        halfmove_clock: 0,
        fullmove_number: 1,
    }
}

/// The bitboards of the initial position.
pub open spec fn start_bb(c: Color, p: Piece) -> u64 {
    match (c, p) {
        (Color::White, Piece::Pawn) => 0x000000000000FF00,
        (Color::White, Piece::Knight) => 0x0000000000000042,
        (Color::White, Piece::Bishop) => 0x0000000000000024,
        (Color::White, Piece::Rook) => 0x0000000000000081,
        (Color::White, Piece::Queen) => 0x0000000000000008,
        (Color::White, Piece::King) => 0x0000000000000010,
        (Color::Black, Piece::Pawn) => 0x00FF000000000000,
        (Color::Black, Piece::Knight) => 0x4200000000000000,
        (Color::Black, Piece::Bishop) => 0x2400000000000000,
        (Color::Black, Piece::Rook) => 0x8100000000000000,
        (Color::Black, Piece::Queen) => 0x0800000000000000,
        (Color::Black, Piece::King) => 0x1000000000000000,
    }
}

pub open spec fn start_view() -> BoardView {
    BoardView {
        pieces: |c: Color, p: Piece| start_bb(c, p),
        side_to_move: Color::White,
        castling_rights: 15,
        en_passant: None,
        halfmove_clock: 0,
        fullmove_number: 1,
    }
}

impl Board {
    pub fn empty() -> (b: Self)
        ensures
            b@ == empty_view(),
    {
        let b = Self {
            pieces: [[0, 0, 0, 0, 0, 0], [0, 0, 0, 0, 0, 0]],
            side_to_move: Color::White,
            castling_rights: 0,
            en_passant: None,
            halfmove_clock: 0,
            fullmove_number: 1,
        };
        assert(b@.pieces =~= empty_view().pieces);
        b
    }

    pub fn starting_position() -> (b: Self)
        ensures
            b@ == start_view(),
    {
        let b = Self {
            pieces: [
                [
                    0x000000000000FF00,  // white pawns
                    0x0000000000000042,  // white knights
                    0x0000000000000024,  // white bishops
                    0x0000000000000081,  // white rooks
                    0x0000000000000008,  // white queen
                    0x0000000000000010,  // white king
                ],
                [
                    0x00FF000000000000,  // black pawns
                    0x4200000000000000,  // black knights
                    0x2400000000000000,  // black bishops
                    0x8100000000000000,  // black rooks
                    0x0800000000000000,  // black queen
                    0x1000000000000000,  // black king
                ],
            ],
            side_to_move: Color::White,
            castling_rights: WHITE_KINGSIDE | WHITE_QUEENSIDE | BLACK_KINGSIDE | BLACK_QUEENSIDE,
            en_passant: None,
            halfmove_clock: 0,
            fullmove_number: 1,
        };
        assert(WHITE_KINGSIDE | WHITE_QUEENSIDE | BLACK_KINGSIDE | BLACK_QUEENSIDE == 15u8)
            by (bit_vector);
        assert(b@.pieces =~= start_view().pieces);
        b
    }

    pub fn bitboard(&self, color: Color, piece: Piece) -> (bb: u64)
        ensures
            bb == self@.bb(color, piece),
    {
        self.pieces[color.index()][piece.index()]
    }

    /// Puts a piece of `color` and kind `piece` on `square`, removing whatever
    /// stood there.
    pub fn set_piece(&mut self, color: Color, piece: Piece, square: u8)
        requires
            square < 64,
        ensures
            final(self)@ == old(self)@.with_piece(color, piece, square as int),
    {
        self.clear_square(square);
        self.add_piece(color, piece, square);
    }

    /// Removes any piece from `square`.
    pub fn clear_square(&mut self, square: u8)
        requires
            square < 64,
        ensures
            final(self)@ == old(self)@.without(square as int),
    {
        let bit = !(1u64 << square);
        let mut color: usize = 0;
        while color < 2
            invariant
                color <= 2,
                square < 64,
                bit == !square_bit(square as int),
                forall|c: int, p: int|
                    0 <= c < 2 && 0 <= p < 6 ==> #[trigger] self.pieces[c][p] == if c < color {
                        old(self).pieces[c][p] & bit
                    } else {
                        old(self).pieces[c][p]
                    },
                self.side_to_move == old(self).side_to_move,
                self.castling_rights == old(self).castling_rights,
                self.en_passant == old(self).en_passant,
                self.halfmove_clock == old(self).halfmove_clock,
                self.fullmove_number == old(self).fullmove_number,
            decreases 2 - color,
        {
            let mut piece: usize = 0;
            while piece < 6
                invariant
                    color < 2,
                    piece <= 6,
                    square < 64,
                    bit == !square_bit(square as int),
                    forall|c: int, p: int|
                        0 <= c < 2 && 0 <= p < 6 ==> #[trigger] self.pieces[c][p] == if c < color
                            || (c == color && p < piece) {
                            old(self).pieces[c][p] & bit
                        } else {
                            old(self).pieces[c][p]
                        },
                    self.side_to_move == old(self).side_to_move,
                    self.castling_rights == old(self).castling_rights,
                    self.en_passant == old(self).en_passant,
                    self.halfmove_clock == old(self).halfmove_clock,
                    self.fullmove_number == old(self).fullmove_number,
                decreases 6 - piece,
            {
                self.pieces[color][piece] = self.pieces[color][piece] & bit;
                piece = piece + 1;
            }
            color = color + 1;
        }
        assert(final(self)@.pieces =~= old(self)@.without(square as int).pieces);
    }

    pub fn occupied_by(&self, color: Color) -> (bb: u64)
        ensures
            bb == self@.occ(color),
    {
        let c = color.index();
        self.pieces[c][0] | self.pieces[c][1] | self.pieces[c][2] | self.pieces[c][3]
            | self.pieces[c][4] | self.pieces[c][5]
    }

    pub fn occupied_squares(&self) -> (bb: u64)
        ensures
            bb == self@.occupied(),
    {
        self.occupied_by(Color::White) | self.occupied_by(Color::Black)
    }

    pub fn empty_squares(&self) -> (bb: u64)
        ensures
            bb == !self@.occupied(),
    {
        !self.occupied_squares()
    }

    pub fn king_square(&self, color: Color) -> (sq: Option<u8>)
        ensures
            sq matches Some(s) ==> s < 64 && self@.king_sq(color) == Some(s as int),
            sq is None ==> self@.king_sq(color) is None,
    {
        let king = self.bitboard(color, Piece::King);
        if king == 0 {
            None
        } else {
            proof {
                lemma_pop_lowest(king);
            }
            Some(king.trailing_zeros() as u8)
        }
    }

    pub fn in_check(&self, color: Color) -> (res: bool)
        ensures
            res == self@.in_check(color),
    {
        let king_square = match self.king_square(color) {
            Some(s) => s,
            None => {
                return false;
            },
        };
        self.is_square_attacked(king_square, color.opposite())
    }

    /// Whether a piece of colour `attacker` attacks `square`.
    #[verifier::loop_isolation(false)]
    pub fn is_square_attacked(&self, square: u8, attacker: Color) -> (res: bool)
        requires
            square < 64,
        ensures
            res == self@.attacked(square as int, attacker),
    {
        let king_bit = 1u64 << square;
        let occupied = self.occupied_squares();

        let enemy_pawns = self.bitboard(attacker, Piece::Pawn);
        let enemy_knights = self.bitboard(attacker, Piece::Knight);
        let enemy_bishops = self.bitboard(attacker, Piece::Bishop);
        let enemy_rooks = self.bitboard(attacker, Piece::Rook);
        let enemy_queens = self.bitboard(attacker, Piece::Queen);
        let enemy_king = self.bitboard(attacker, Piece::King);

        let ghost v = self@;
        let ghost s = square as int;
        let ghost fs = s % 8;
        let ghost rs = s / 8;

        // pawns
        let not_a = 0xFEFEFEFEFEFEFEFEu64;  // every square except file a
        let not_h = 0x7F7F7F7F7F7F7F7Fu64;  // every square except file h

        let pawn_attacks = match attacker {
            Color::White => { ((enemy_pawns & not_a) << 7) | ((enemy_pawns & not_h) << 9) },
            Color::Black => { ((enemy_pawns & not_h) >> 7) | ((enemy_pawns & not_a) >> 9) },
        };
        proof {
            lemma_pawn_attack_bits(enemy_pawns, attacker, square as int);
        }
        if pawn_attacks & king_bit != 0 {
            return true;
        }
        let file = (square % 8) as i8;
        let rank = (square / 8) as i8;

        // knights
        let mut i: usize = 0;
        while i < 8
            invariant
                i <= 8,
                file == fs,
                rank == rs,
                0 <= fs < 8,
                0 <= rs < 8,
                enemy_knights == v.bb(attacker, Piece::Knight),
                forall|j: int|
                    0 <= j < i ==> !(on_board(fs + knight_df(j), rs + knight_dr(j))
                        && #[trigger] has_bit(
                        v.bb(attacker, Piece::Knight),
                        square_of(fs + knight_df(j), rs + knight_dr(j)),
                    )),
            decreases 8 - i,
        {
            let (df, dr) = knight_offset(i);
            let f = file + df;
            let r = rank + dr;
            if 0 <= f && f < 8 && 0 <= r && r < 8 {
                let to = (r * 8 + f) as u64;
                let bit = 1u64 << to;
                proof {
                    lemma_test_bit(enemy_knights, to as int);
                }
                if enemy_knights & bit != 0 {
                    assert(has_bit(
                        v.bb(attacker, Piece::Knight),
                        square_of(fs + knight_df(i as int), rs + knight_dr(i as int)),
                    ));
                    assert(v.knight_attacks(fs, rs, attacker));
                    return true;
                }
            }
            i = i + 1;
        }
        assert(!v.knight_attacks(fs, rs, attacker));

        // enemy king
        let mut df: i8 = -1;
        while df <= 1
            invariant
                -1 <= df <= 2,
                file == fs,
                rank == rs,
                0 <= fs < 8,
                0 <= rs < 8,
                enemy_king == v.bb(attacker, Piece::King),
                forall|a: int, b: int|
                    -1 <= a < df && -1 <= b <= 1 && !(a == 0 && b == 0) && on_board(fs + a, rs + b)
                        ==> !#[trigger] has_bit(v.bb(attacker, Piece::King), square_of(fs + a, rs + b)),
            decreases 2 - df,
        {
            let mut dr: i8 = -1;
            while dr <= 1
                invariant
                    -1 <= df <= 1,
                    -1 <= dr <= 2,
                    file == fs,
                    rank == rs,
                    0 <= fs < 8,
                    0 <= rs < 8,
                    enemy_king == v.bb(attacker, Piece::King),
                    forall|a: int, b: int|
                        ((-1 <= a < df && -1 <= b <= 1) || (a == df && -1 <= b < dr)) && !(a == 0
                            && b == 0) && on_board(fs + a, rs + b) ==> !#[trigger] has_bit(
                            v.bb(attacker, Piece::King),
                            square_of(fs + a, rs + b),
                        ),
                decreases 2 - dr,
            {
                if !(df == 0 && dr == 0) {
                    let f = file + df;
                    let r = rank + dr;
                    if 0 <= f && f < 8 && 0 <= r && r < 8 {
                        let to = (r * 8 + f) as u64;
                        proof {
                            lemma_test_bit(enemy_king, to as int);
                        }
                        if enemy_king & (1u64 << to) != 0 {
                            assert(has_bit(
                                v.bb(attacker, Piece::King),
                                square_of(fs + df, rs + dr),
                            ));
                            assert(v.king_attacks(fs, rs, attacker));
                            return true;
                        }
                    }
                }
                dr = dr + 1;
            }
            df = df + 1;
        }
        assert(!v.king_attacks(fs, rs, attacker));

        // first piece found on each ray either attacks the square or blocks the ray
        let diagonal_attackers = enemy_bishops | enemy_queens;
        let mut i: usize = 0;
        while i < 4
            invariant
                i <= 4,
                file == fs,
                rank == rs,
                0 <= fs < 8,
                0 <= rs < 8,
                occupied == v.occupied(),
                diagonal_attackers == v.bb(attacker, Piece::Bishop) | v.bb(attacker, Piece::Queen),
                forall|j: int|
                    0 <= j < i ==> !#[trigger] ray_hits(
                        v.occupied(),
                        diagonal_attackers,
                        fs + diagonal_df(j),
                        rs + diagonal_dr(j),
                        diagonal_df(j),
                        diagonal_dr(j),
                    ),
            decreases 4 - i,
        {
            let (df, dr) = diagonal_offset(i);
            if ray_attacked(occupied, diagonal_attackers, file, rank, df, dr) {
                assert(ray_hits(
                    v.occupied(),
                    diagonal_attackers,
                    fs + diagonal_df(i as int),
                    rs + diagonal_dr(i as int),
                    diagonal_df(i as int),
                    diagonal_dr(i as int),
                ));
                assert(v.diagonal_attacks(fs, rs, attacker));
                return true;
            }
            i = i + 1;
        }
        assert(!v.diagonal_attacks(fs, rs, attacker));

        let straight_attackers = enemy_rooks | enemy_queens;
        let mut i: usize = 0;
        while i < 4
            invariant
                i <= 4,
                file == fs,
                rank == rs,
                0 <= fs < 8,
                0 <= rs < 8,
                occupied == v.occupied(),
                straight_attackers == v.bb(attacker, Piece::Rook) | v.bb(attacker, Piece::Queen),
                forall|j: int|
                    0 <= j < i ==> !#[trigger] ray_hits(
                        v.occupied(),
                        straight_attackers,
                        fs + straight_df(j),
                        rs + straight_dr(j),
                        straight_df(j),
                        straight_dr(j),
                    ),
            decreases 4 - i,
        {
            let (df, dr) = straight_offset(i);
            if ray_attacked(occupied, straight_attackers, file, rank, df, dr) {
                assert(ray_hits(
                    v.occupied(),
                    straight_attackers,
                    fs + straight_df(i as int),
                    rs + straight_dr(i as int),
                    straight_df(i as int),
                    straight_dr(i as int),
                ));
                assert(v.straight_attacks(fs, rs, attacker));
                return true;
            }
            i = i + 1;
        }
        assert(!v.straight_attacks(fs, rs, attacker));
        false
    }

    /// The side to move.
    pub fn side(&self) -> (c: Color)
        ensures
            c == self@.side_to_move,
    {
        self.side_to_move
    }

    /// The en-passant square, if any.
    pub fn en_passant_square(&self) -> (e: Option<u8>)
        ensures
            e == self@.en_passant,
    {
        self.en_passant
    }

    /// The castling rights, one bit per right.
    pub fn castling(&self) -> (r: u8)
        ensures
            r == self@.castling_rights,
    {
        self.castling_rights
    }

    /// The halfmove clock.
    pub fn halfmove(&self) -> (n: u32)
        ensures
            n == self@.halfmove_clock,
    {
        self.halfmove_clock
    }

    /// The fullmove number.
    pub fn fullmove(&self) -> (n: u32)
        ensures
            n == self@.fullmove_number,
    {
        self.fullmove_number
    }

    /// Hands the move to `color`; nothing else changes.
    pub fn set_side_to_move(&mut self, color: Color)
        ensures
            final(self)@ == (BoardView { side_to_move: color, ..old(self)@ }),
    {
        self.side_to_move = color;
    }

    /// Sets the castling rights; nothing else changes.
    pub fn set_castling_rights(&mut self, rights: u8)
        ensures
            final(self)@ == (BoardView { castling_rights: rights, ..old(self)@ }),
    {
        self.castling_rights = rights;
    }

    /// Sets the en-passant square; nothing else changes.
    pub fn set_en_passant(&mut self, square: Option<u8>)
        ensures
            final(self)@ == (BoardView { en_passant: square, ..old(self)@ }),
    {
        self.en_passant = square;
    }

    /// Sets the halfmove clock and the fullmove number; nothing else changes.
    pub fn set_clocks(&mut self, halfmove: u32, fullmove: u32)
        ensures
            final(self)@ == (BoardView {
                halfmove_clock: halfmove,
                fullmove_number: fullmove,
                ..old(self)@
            }),
    {
        self.halfmove_clock = halfmove;
        self.fullmove_number = fullmove;
    }

    /// Adds a piece of `color` and kind `piece` on `square`.
    fn add_piece(&mut self, color: Color, piece: Piece, square: u8)
        requires
            square < 64,
        ensures
            final(self)@ == old(self)@.add(color, piece, square as int),
    {
        let c = color.index();
        let p = piece.index();
        self.pieces[c][p] = self.pieces[c][p] | (1u64 << square);
        assert(final(self)@.pieces =~= old(self)@.add(color, piece, square as int).pieces);
    }

    /// Plays `mv` for the side to move and returns what `unmake_move` needs to
    /// take it back.
    pub fn make_move(&mut self, mv: Move) -> (undo: Undo)
        requires
            mv.from < 64,
            mv.to < 64,
            old(self)@.piece_on(old(self)@.side_to_move, mv.from as int) is Some,
        ensures
            undo.saved() == *old(self),
            final(self)@ == old(self)@.after_move(mv),
    {
        let undo = Undo { board: *self };
        let ghost v = self@;
        let moving_side = self.side_to_move;
        let enemy_side = moving_side.opposite();

        let moved_piece = self.piece_at(moving_side, mv.from).unwrap();
        let captured = self.piece_at(enemy_side, mv.to);
        let own_rooks = self.bitboard(moving_side, Piece::Rook);
        let is_en_passant = match moved_piece {
            Piece::Pawn => match self.en_passant {
                Some(ep) => ep == mv.to && mv.from % 8 != mv.to % 8 && captured.is_none() && match moving_side {
                    Color::White => mv.to >= 8,
                    Color::Black => mv.to < 56,
                },
                None => false,
            },
            _ => false,
        };
        assert(is_en_passant == v.is_en_passant(mv));
        let is_capture = captured.is_some() || is_en_passant;

        self.clear_square(mv.from);
        self.clear_square(mv.to);
        if is_en_passant {
            let victim = match moving_side {
                Color::White => mv.to - 8,
                Color::Black => mv.to + 8,
            };
            self.clear_square(victim);
        }
        let piece_on_destination = match mv.promotion {
            Some(p) => p,
            None => moved_piece,
        };
        self.add_piece(moving_side, piece_on_destination, mv.to);

        let is_king = match moved_piece {
            Piece::King => true,
            _ => false,
        };
        if is_king {
            if let Some((rook_from, rook_to)) = castle_rook(moving_side, mv.from, mv.to) {
                if own_rooks & (1u64 << rook_from) != 0 {
                    proof {
                        lemma_test_bit(v.bb(moving_side, Piece::Rook), rook_from as int);
                    }
                    self.clear_square(rook_from);
                    self.add_piece(moving_side, Piece::Rook, rook_to);
                } else {
                    proof {
                        lemma_test_bit(v.bb(moving_side, Piece::Rook), rook_from as int);
                    }
                }
            }
        }
        self.castling_rights = self.castling_rights & rights_mask(mv.from) & rights_mask(mv.to);

        let is_pawn = match moved_piece {
            Piece::Pawn => true,
            _ => false,
        };
        self.en_passant = if is_pawn && ((mv.from < 48 && mv.to == mv.from + 16) || (mv.to < 48
            && mv.from == mv.to + 16)) {
            Some((mv.from + mv.to) / 2)
        } else {
            None
        };

        if is_pawn || is_capture {
            self.halfmove_clock = 0;
        } else {
            self.halfmove_clock = self.halfmove_clock.wrapping_add(1);
        }

        match moving_side {
            Color::Black => { self.fullmove_number = self.fullmove_number.wrapping_add(1) },
            Color::White => {},
        }

        self.side_to_move = enemy_side;
        assert(final(self)@ =~= v.after_move(mv));
        undo
    }

    /// Takes back the move that produced `undo`.
    pub fn unmake_move(&mut self, undo: Undo)
        ensures
            *final(self) == undo.saved(),
    {
        *self = undo.board;
    }

    /// The piece of `color` on `square`, if any.
    pub fn piece_at(&self, color: Color, square: u8) -> (res: Option<Piece>)
        requires
            square < 64,
        ensures
            res == self@.piece_on(color, square as int),
    {
        let bit = 1u64 << square;
        let mut i: usize = 0;
        while i < 6
            invariant
                i <= 6,
                square < 64,
                bit == square_bit(square as int),
                forall|j: int|
                    0 <= j < i ==> !has_bit(#[trigger] self@.bb(color, Piece::of_idx(j)), square as int),
            decreases 6 - i,
        {
            let piece = Piece::from_index(i);
            proof {
                lemma_test_bit(self@.bb(color, piece), square as int);
            }
            if self.bitboard(color, piece) & bit != 0 {
                assert(forall|j: int| 0 <= j < i ==> !has_bit(#[trigger] self@.bb(color, Piece::of_idx(j)), square as int));
                assert(0 < i ==> Piece::of_idx(0) == Piece::Pawn);
                assert(1 < i ==> Piece::of_idx(1) == Piece::Knight);
                assert(2 < i ==> Piece::of_idx(2) == Piece::Bishop);
                assert(3 < i ==> Piece::of_idx(3) == Piece::Rook);
                assert(4 < i ==> Piece::of_idx(4) == Piece::Queen);
                assert(0 < i ==> !has_bit(self@.bb(color, Piece::of_idx(0)), square as int));
                assert(1 < i ==> !has_bit(self@.bb(color, Piece::of_idx(1)), square as int));
                assert(2 < i ==> !has_bit(self@.bb(color, Piece::of_idx(2)), square as int));
                assert(3 < i ==> !has_bit(self@.bb(color, Piece::of_idx(3)), square as int));
                assert(4 < i ==> !has_bit(self@.bb(color, Piece::of_idx(4)), square as int));
                return Some(piece);
            }
            i = i + 1;
        }
        assert(!has_bit(self@.bb(color, Piece::of_idx(0)), square as int));
        assert(!has_bit(self@.bb(color, Piece::of_idx(1)), square as int));
        assert(!has_bit(self@.bb(color, Piece::of_idx(2)), square as int));
        assert(!has_bit(self@.bb(color, Piece::of_idx(3)), square as int));
        assert(!has_bit(self@.bb(color, Piece::of_idx(4)), square as int));
        assert(!has_bit(self@.bb(color, Piece::of_idx(5)), square as int));
        None
    }
}

/// Walks from (`file`, `rank`) in direction (`df`, `dr`) and reports whether
/// the first occupied square holds one of `attackers`.
fn ray_attacked(occupied: u64, attackers: u64, file: i8, rank: i8, df: i8, dr: i8) -> (res: bool)
    requires
        on_board(file as int, rank as int),
        is_direction(df as int, dr as int),
    ensures
        res == ray_hits(occupied, attackers, file + df, rank + dr, df as int, dr as int),
{
    let mut f = file + df;
    let mut r = rank + dr;
    while 0 <= f && f < 8 && 0 <= r && r < 8
        invariant
            -1 <= f <= 8,
            -1 <= r <= 8,
            is_direction(df as int, dr as int),
            ray_hits(occupied, attackers, file + df, rank + dr, df as int, dr as int) == ray_hits(
                occupied,
                attackers,
                f as int,
                r as int,
                df as int,
                dr as int,
            ),
        decreases ray_measure(f as int, r as int, df as int, dr as int),
    {
        let to = (r * 8 + f) as u64;
        let bit = 1u64 << to;
        proof {
            lemma_test_bit(occupied, to as int);
            lemma_test_bit(attackers, to as int);
        }
        if occupied & bit != 0 {
            return attackers & bit != 0;
        }
        f = f + df;
        r = r + dr;
    }
    false
}

proof fn lemma_white_pawn_bits(p: u64, s: u64)
    by (bit_vector)
    requires
        s < 64,
    ensures
        ((((p & 0xFEFEFEFEFEFEFEFEu64) << 7u64) | ((p & 0x7F7F7F7F7F7F7F7Fu64) << 9u64)) & (1u64
            << s) != 0) <==> ((s >= 7 && s % 8 != 7 && (p >> ((s - 7) as u64)) & 1u64 == 1u64) || (s
            >= 9 && s % 8 != 0 && (p >> ((s - 9) as u64)) & 1u64 == 1u64)),
{
}

proof fn lemma_black_pawn_bits(p: u64, s: u64)
    by (bit_vector)
    requires
        s < 64,
    ensures
        ((((p & 0x7F7F7F7F7F7F7F7Fu64) >> 7u64) | ((p & 0xFEFEFEFEFEFEFEFEu64) >> 9u64)) & (1u64
            << s) != 0) <==> ((s + 7 < 64 && s % 8 != 0 && (p >> ((s + 7) as u64)) & 1u64 == 1u64)
            || (s + 9 < 64 && s % 8 != 7 && (p >> ((s + 9) as u64)) & 1u64 == 1u64)),
{
}

/// The shifted pawn bitboard used by `is_square_attacked` has square `s` set
/// exactly when a pawn of `attacker` attacks `s`.
proof fn lemma_pawn_attack_bits(p: u64, attacker: Color, s: int)
    requires
        0 <= s < 64,
    ensures
        ({
            let shifted = match attacker {
                Color::White => ((p & 0xFEFEFEFEFEFEFEFEu64) << 7) | ((p & 0x7F7F7F7F7F7F7F7Fu64)
                    << 9),
                Color::Black => ((p & 0x7F7F7F7F7F7F7F7Fu64) >> 7) | ((p & 0xFEFEFEFEFEFEFEFEu64)
                    >> 9),
            };
            let f = s % 8;
            let r = s / 8;
            let pr = if attacker == Color::White {
                r - 1
            } else {
                r + 1
            };
            (shifted & square_bit(s) != 0) == ((on_board(f - 1, pr) && has_bit(
                p,
                square_of(f - 1, pr),
            )) || (on_board(f + 1, pr) && has_bit(p, square_of(f + 1, pr))))
        }),
{
    match attacker {
        Color::White => lemma_white_pawn_bits(p, s as u64),
        Color::Black => lemma_black_pawn_bits(p, s as u64),
    }
}

/// The castling rights that survive a move touching square `s`: moving from or
/// capturing on a king or rook home square loses the rights tied to it.
pub open spec fn rights_kept(s: int) -> u8 {
    if s == 0 {
        0xFD
    } else if s == 4 {
        0xFC
    } else if s == 7 {
        0xFE
    } else if s == 56 {
        0xF7
    } else if s == 60 {
        0xF3
    } else if s == 63 {
        0xFB
    } else {
        0xFF
    }
}

pub fn rights_mask(s: u8) -> (m: u8)
    ensures
        m == rights_kept(s as int),
{
    if s == 0 {
        0xFD
    } else if s == 4 {
        0xFC
    } else if s == 7 {
        0xFE
    } else if s == 56 {
        0xF7
    } else if s == 60 {
        0xF3
    } else if s == 63 {
        0xFB
    } else {
        0xFF
    }
}

/// The rook's home and destination squares when a king of colour `us` castles
/// from `from` to `to`.
pub open spec fn castle_rook_squares(us: Color, from: int, to: int) -> Option<(int, int)> {
    if us == Color::White && from == 4 && to == 6 {
        Some((7, 5))
    } else if us == Color::White && from == 4 && to == 2 {
        Some((0, 3))
    } else if us == Color::Black && from == 60 && to == 62 {
        Some((63, 61))
    } else if us == Color::Black && from == 60 && to == 58 {
        Some((56, 59))
    } else {
        None
    }
}

pub fn castle_rook(us: Color, from: u8, to: u8) -> (r: Option<(u8, u8)>)
    ensures
        r matches Some(x) ==> castle_rook_squares(us, from as int, to as int) == Some(
            (x.0 as int, x.1 as int),
        ) && x.0 < 64 && x.1 < 64,
        r is None ==> castle_rook_squares(us, from as int, to as int) is None,
{
    match us {
        Color::White => {
            if from == 4 && to == 6 {
                Some((7, 5))
            } else if from == 4 && to == 2 {
                Some((0, 3))
            } else {
                None
            }
        },
        Color::Black => {
            if from == 60 && to == 62 {
                Some((63, 61))
            } else if from == 60 && to == 58 {
                Some((56, 59))
            } else {
                None
            }
        },
    }
}

/// The square of the pawn taken en passant by a pawn of colour `us` landing
/// on `to`.
pub open spec fn en_passant_victim(us: Color, to: int) -> int {
    if us == Color::White {
        to - 8
    } else {
        to + 8
    }
}

pub open spec fn clock_step(x: u32) -> u32 {
    if x == u32::MAX {
        0
    } else {
        (x + 1) as u32
    }
}

pub struct Undo {
    board: Board,
}

impl Undo {
    /// The board as it was before the move.
    pub closed spec fn saved(self) -> Board {
        self.board
    }
}

impl BoardView {
    /// The board with a piece `p` of colour `c` added on square `s`.
    pub open spec fn add(self, c: Color, p: Piece, s: int) -> BoardView {
        BoardView {
            pieces: |c2: Color, p2: Piece|
                if c2 == c && p2 == p {
                    self.bb(c2, p2) | square_bit(s)
                } else {
                    self.bb(c2, p2)
                },
            ..self
        }
    }

    /// The kind of the side to move's piece on the move's origin square.
    pub open spec fn moving_piece(self, mv: Move) -> Piece {
        self.piece_on(self.side_to_move, mv.from as int).unwrap()
    }

    /// The move is a pawn capturing en passant: a pawn moves diagonally onto the
    /// en-passant square, which holds no enemy piece, and the square behind it
    /// is on the board.
    pub open spec fn is_en_passant(self, mv: Move) -> bool {
        let us = self.side_to_move;
        let victim = en_passant_victim(us, mv.to as int);
        &&& self.moving_piece(mv) == Piece::Pawn
        &&& self.en_passant == Some(mv.to)
        &&& mv.from % 8 != mv.to % 8
        &&& self.piece_on(us.other(), mv.to as int) is None
        &&& 0 <= victim < 64
    }

    /// The move takes a piece: an enemy piece stands on the target square, or it
    /// is an en-passant capture.
    pub open spec fn is_capture(self, mv: Move) -> bool {
        self.piece_on(self.side_to_move.other(), mv.to as int) is Some || self.is_en_passant(mv)
    }

    /// The rook relocation of a castling move, when the king castles and its
    /// rook stands on the home square.
    pub open spec fn castling_rook(self, mv: Move) -> Option<(int, int)> {
        let us = self.side_to_move;
        match castle_rook_squares(us, mv.from as int, mv.to as int) {
            Some((rf, rt)) => if self.moving_piece(mv) == Piece::King && has_bit(
                self.bb(us, Piece::Rook),
                rf,
            ) {
                Some((rf, rt))
            } else {
                None
            },
            None => None,
        }
    }

    /// The board after the side to move plays `mv`.
    pub open spec fn after_move(self, mv: Move) -> BoardView {
        let us = self.side_to_move;
        let moved = self.moving_piece(mv);
        let dest = match mv.promotion {
            Some(p) => p,
            None => moved,
        };
        let b1 = self.without(mv.from as int).without(mv.to as int);
        let b2 = if self.is_en_passant(mv) {
            b1.without(en_passant_victim(us, mv.to as int))
        } else {
            b1
        };
        let b3 = b2.add(us, dest, mv.to as int);
        let b4 = match self.castling_rook(mv) {
            Some((rf, rt)) => b3.without(rf).add(us, Piece::Rook, rt),
            None => b3,
        };
        BoardView {
            pieces: b4.pieces,
            side_to_move: us.other(),
            castling_rights: self.castling_rights & rights_kept(mv.from as int) & rights_kept(
                mv.to as int,
            ),
            en_passant: if moved == Piece::Pawn && (mv.to == mv.from + 16 || mv.from == mv.to
                + 16) {
                Some(((mv.from + mv.to) / 2) as u8)
            } else {
                None
            },
            halfmove_clock: if moved == Piece::Pawn || self.is_capture(mv) {
                0
            } else {
                clock_step(self.halfmove_clock)
            },
            fullmove_number: if us == Color::Black {
                clock_step(self.fullmove_number)
            } else {
                self.fullmove_number
            },
        }
    }
}

impl BoardView {
    /// The board with square `s` emptied.
    pub open spec fn without(self, s: int) -> BoardView {
        BoardView { pieces: |c: Color, p: Piece| self.bb(c, p) & !square_bit(s), ..self }
    }

    /// The board with square `s` emptied and then given a piece `p` of colour `c`.
    pub open spec fn with_piece(self, c: Color, p: Piece, s: int) -> BoardView {
        self.without(s).add(c, p, s)
    }
}


/// Placing a piece is read back: afterwards `piece_at` on that square gives
/// the placed piece for its colour and nothing for the other colour, and every
/// other square reads as before.
pub proof fn law_placed_piece_reads_back(v: BoardView, c: Color, p: Piece, s: int)
    requires
        0 <= s < 64,
    ensures
        v.with_piece(c, p, s).piece_on(c, s) == Some(p),
        v.with_piece(c, p, s).piece_on(c.other(), s) is None,
        forall|c2: Color, t: int|
            t != s ==> #[trigger] v.with_piece(c, p, s).piece_on(c2, t) == v.piece_on(c2, t),
{
    let w = v.with_piece(c, p, s);
    assert forall|c2: Color, p2: Piece| #[trigger] has_bit(w.bb(c2, p2), s) == (c2 == c && p2 == p) by {
    }
    assert forall|c2: Color, t: int| t != s implies #[trigger] w.piece_on(c2, t) == v.piece_on(c2, t) by {
        assert forall|p2: Piece| #[trigger] has_bit(w.bb(c2, p2), t) == has_bit(v.bb(c2, p2), t) by {
        }
    }
}

/// Clearing a square empties it for both colours and leaves every other
/// square as it was.
pub proof fn law_cleared_square_is_empty(v: BoardView, s: int)
    requires
        0 <= s < 64,
    ensures
        v.without(s).piece_on(Color::White, s) is None,
        v.without(s).piece_on(Color::Black, s) is None,
        forall|c: Color, t: int| t != s ==> #[trigger] v.without(s).piece_on(c, t) == v.piece_on(c, t),
{
    let w = v.without(s);
    assert forall|c2: Color, p2: Piece| !#[trigger] has_bit(w.bb(c2, p2), s) by {
    }
    assert forall|c: Color, t: int| t != s implies #[trigger] w.piece_on(c, t) == v.piece_on(c, t) by {
        assert forall|p2: Piece| #[trigger] has_bit(w.bb(c, p2), t) == has_bit(v.bb(c, p2), t) by {
        }
    }
}

/// Taking a move back restores the board exactly: the board `unmake_move`
/// leaves is the one `make_move` saved, which is the board before the move.
pub proof fn law_unmake_restores(before: Board, undo: Undo, after_unmake: Board)
    requires
        undo.saved() == before,
        after_unmake == undo.saved(),
    ensures
        after_unmake == before,
        after_unmake@ == before@,
{
}

/// How a move changes the castling rights: a right survives exactly when it
/// was held and the move neither starts nor ends on that side's king square
/// or on the corner of that right's rook (e1/h1 for white kingside, e1/a1 for
/// white queenside, e8/h8 for black kingside, e8/a8 for black queenside); no
/// right is ever gained.
pub proof fn law_castling_rights_after_a_move(v: BoardView, m: Move)
    ensures
        ({
            let old = v.castling_rights;
            let new = v.after_move(m).castling_rights;
            let touches = |s: int| m.from as int == s || m.to as int == s;
            &&& new & !old == 0
            &&& (new & WHITE_KINGSIDE != 0) == (old & WHITE_KINGSIDE != 0 && !touches(4) && !touches(7))
            &&& (new & WHITE_QUEENSIDE != 0) == (old & WHITE_QUEENSIDE != 0 && !touches(4) && !touches(0))
            &&& (new & BLACK_KINGSIDE != 0) == (old & BLACK_KINGSIDE != 0 && !touches(60) && !touches(63))
            &&& (new & BLACK_QUEENSIDE != 0) == (old & BLACK_QUEENSIDE != 0 && !touches(60) && !touches(56))
        }),
{
    let old = v.castling_rights;
    let a = rights_kept(m.from as int);
    let b = rights_kept(m.to as int);
    let new = old & a & b;
    assert(v.after_move(m).castling_rights == new);
    assert(forall|x: u8, y: u8, z: u8| #[trigger] (x & y & z) & !x == 0) by (bit_vector);
    assert(forall|x: u8, y: u8, z: u8, k: u8|
        (k == 1 || k == 2 || k == 4 || k == 8) ==> (#[trigger] ((x & y & z) & k) != 0) == ((x & k)
            != 0 && (y & k) != 0 && (z & k) != 0)) by (bit_vector);
    assert(0xFDu8 & 1 != 0 && 0xFDu8 & 2 == 0 && 0xFDu8 & 4 != 0 && 0xFDu8 & 8 != 0) by (bit_vector);
    assert(0xFCu8 & 1 == 0 && 0xFCu8 & 2 == 0 && 0xFCu8 & 4 != 0 && 0xFCu8 & 8 != 0) by (bit_vector);
    assert(0xFEu8 & 1 == 0 && 0xFEu8 & 2 != 0 && 0xFEu8 & 4 != 0 && 0xFEu8 & 8 != 0) by (bit_vector);
    assert(0xF7u8 & 1 != 0 && 0xF7u8 & 2 != 0 && 0xF7u8 & 4 != 0 && 0xF7u8 & 8 == 0) by (bit_vector);
    assert(0xF3u8 & 1 != 0 && 0xF3u8 & 2 != 0 && 0xF3u8 & 4 == 0 && 0xF3u8 & 8 == 0) by (bit_vector);
    assert(0xFBu8 & 1 != 0 && 0xFBu8 & 2 != 0 && 0xFBu8 & 4 == 0 && 0xFBu8 & 8 != 0) by (bit_vector);
    assert(0xFFu8 & 1 != 0 && 0xFFu8 & 2 != 0 && 0xFFu8 & 4 != 0 && 0xFFu8 & 8 != 0) by (bit_vector);
    assert(((old & a & b) & 1 != 0) == ((old & 1) != 0 && (a & 1) != 0 && (b & 1) != 0));
    assert(((old & a & b) & 2 != 0) == ((old & 2) != 0 && (a & 2) != 0 && (b & 2) != 0));
    assert(((old & a & b) & 4 != 0) == ((old & 4) != 0 && (a & 4) != 0 && (b & 4) != 0));
    assert(((old & a & b) & 8 != 0) == ((old & 8) != 0 && (a & 8) != 0 && (b & 8) != 0));
    assert((old & a & b) & !old == 0);
}

/// The squares after a move, bitboard by bitboard.
proof fn lemma_after_move_bits(v: BoardView, m: Move, c: Color, q: Piece, t: int)
    requires
        m.from < 64,
        m.to < 64,
        0 <= t < 64,
    ensures
        ({
            let us = v.side_to_move;
            let dest = match m.promotion {
                Some(p) => p,
                None => v.moving_piece(m),
            };
            let victim = en_passant_victim(us, m.to as int);
            has_bit(v.after_move(m).bb(c, q), t) == match v.castling_rook(m) {
                Some((rf, rt)) => if t == rt {
                    (c == us && q == Piece::Rook) || (t != m.to && t != m.from && has_bit(v.bb(c, q), t))
                } else if t == rf {
                    false
                } else if t == m.to {
                    c == us && q == dest
                } else if t == m.from {
                    false
                } else if v.is_en_passant(m) && t == victim {
                    false
                } else {
                    has_bit(v.bb(c, q), t)
                },
                None => if t == m.to {
                    c == us && q == dest
                } else if t == m.from {
                    false
                } else if v.is_en_passant(m) && t == victim {
                    false
                } else {
                    has_bit(v.bb(c, q), t)
                },
            }
        }),
{
    broadcast use group_bits;

    let us = v.side_to_move;
    let victim = en_passant_victim(us, m.to as int);
    if let Some((rf, rt)) = v.castling_rook(m) {
        assert(0 <= rf < 64 && 0 <= rt < 64);
        assert(rt != m.to && rf != m.to && rt != m.from && rf != rt);
    }
}

/// What a move does to the squares: the moving piece (or the piece it
/// promotes to) stands on the target square, which no enemy piece holds any
/// more; the origin square is empty; an en-passant capture empties the square
/// of the enemy pawn behind the target square; castling moves the rook from its corner to
/// the square the king crossed; every other square is as before.
pub proof fn law_move_places_pieces(v: BoardView, m: Move)
    requires
        m.from < 64,
        m.to < 64,
        m.from != m.to,
        v.piece_on(v.side_to_move, m.from as int) is Some,
    ensures
        ({
            let us = v.side_to_move;
            let them = us.other();
            let p = v.piece_on(us, m.from as int).unwrap();
            let w = v.after_move(m);
            let dest = match m.promotion {
                Some(x) => x,
                None => p,
            };
            let behind: int = if us == Color::White {
                m.to - 8
            } else {
                m.to + 8
            };
            let ep = p == Piece::Pawn && v.en_passant == Some(m.to) && m.from % 8 != m.to % 8
                && v.piece_on(them, m.to as int) is None && 0 <= behind < 64;
            let castles = p == Piece::King && ((us == Color::White && m.from == 4 && (m.to == 6
                && has_bit(v.bb(us, Piece::Rook), 7) || m.to == 2 && has_bit(v.bb(us, Piece::Rook), 0)))
                || (us == Color::Black && m.from == 60 && (m.to == 62 && has_bit(
                v.bb(us, Piece::Rook),
                63,
            ) || m.to == 58 && has_bit(v.bb(us, Piece::Rook), 56))));
            let corner: int = if m.to as int > m.from as int {
                m.from + 3
            } else {
                m.from - 4
            };
            let crossed: int = (m.from + m.to) / 2;
            &&& w.piece_on(us, m.to as int) == Some(dest)
            &&& w.piece_on(them, m.to as int) is None
            &&& w.piece_on(us, m.from as int) is None
            &&& w.piece_on(them, m.from as int) is None
            &&& ep ==> w.piece_on(them, behind) is None && w.piece_on(us, behind) is None
            &&& castles ==> w.piece_on(us, corner) is None && w.piece_on(them, corner) is None
            &&& castles && v.piece_on(us, crossed) is None && v.piece_on(them, crossed) is None
                ==> w.piece_on(us, crossed) == Some(Piece::Rook) && w.piece_on(them, crossed) is None
            &&& forall|c: Color, t: int|
                0 <= t < 64 && t != m.from && t != m.to && !(ep && t == behind) && !(castles && (t
                    == corner || t == crossed)) ==> #[trigger] w.piece_on(c, t) == v.piece_on(c, t)
        }),
{
    let us = v.side_to_move;
    let them = us.other();
    let w = v.after_move(m);
    let behind: int = if us == Color::White {
        m.to - 8
    } else {
        m.to + 8
    };
    let p = v.piece_on(us, m.from as int).unwrap();
    let corner: int = if m.to as int > m.from as int {
        m.from + 3
    } else {
        m.from - 4
    };
    let crossed: int = (m.from + m.to) / 2;
    let castles = p == Piece::King && ((us == Color::White && m.from == 4 && (m.to == 6 && has_bit(
        v.bb(us, Piece::Rook),
        7,
    ) || m.to == 2 && has_bit(v.bb(us, Piece::Rook), 0))) || (us == Color::Black && m.from == 60
        && (m.to == 62 && has_bit(v.bb(us, Piece::Rook), 63) || m.to == 58 && has_bit(
        v.bb(us, Piece::Rook),
        56,
    ))));
    assert(v.moving_piece(m) == p);
    assert(en_passant_victim(us, m.to as int) == behind);
    assert(castles <==> v.castling_rook(m) is Some);
    assert(castles ==> v.castling_rook(m) == Some((corner, crossed)));
    lemma_after_move_bits(v, m, us, Piece::Pawn, m.to as int);
    lemma_after_move_bits(v, m, us, Piece::Knight, m.to as int);
    lemma_after_move_bits(v, m, us, Piece::Bishop, m.to as int);
    lemma_after_move_bits(v, m, us, Piece::Rook, m.to as int);
    lemma_after_move_bits(v, m, us, Piece::Queen, m.to as int);
    lemma_after_move_bits(v, m, us, Piece::King, m.to as int);
    lemma_after_move_bits(v, m, them, Piece::Pawn, m.to as int);
    lemma_after_move_bits(v, m, them, Piece::Knight, m.to as int);
    lemma_after_move_bits(v, m, them, Piece::Bishop, m.to as int);
    lemma_after_move_bits(v, m, them, Piece::Rook, m.to as int);
    lemma_after_move_bits(v, m, them, Piece::Queen, m.to as int);
    lemma_after_move_bits(v, m, them, Piece::King, m.to as int);
    lemma_after_move_bits(v, m, us, Piece::Pawn, m.from as int);
    lemma_after_move_bits(v, m, us, Piece::Knight, m.from as int);
    lemma_after_move_bits(v, m, us, Piece::Bishop, m.from as int);
    lemma_after_move_bits(v, m, us, Piece::Rook, m.from as int);
    lemma_after_move_bits(v, m, us, Piece::Queen, m.from as int);
    lemma_after_move_bits(v, m, us, Piece::King, m.from as int);
    lemma_after_move_bits(v, m, them, Piece::Pawn, m.from as int);
    lemma_after_move_bits(v, m, them, Piece::Knight, m.from as int);
    lemma_after_move_bits(v, m, them, Piece::Bishop, m.from as int);
    lemma_after_move_bits(v, m, them, Piece::Rook, m.from as int);
    lemma_after_move_bits(v, m, them, Piece::Queen, m.from as int);
    lemma_after_move_bits(v, m, them, Piece::King, m.from as int);
    if 0 <= behind < 64 {
        lemma_after_move_bits(v, m, us, Piece::Pawn, behind);
        lemma_after_move_bits(v, m, us, Piece::Knight, behind);
        lemma_after_move_bits(v, m, us, Piece::Bishop, behind);
        lemma_after_move_bits(v, m, us, Piece::Rook, behind);
        lemma_after_move_bits(v, m, us, Piece::Queen, behind);
        lemma_after_move_bits(v, m, us, Piece::King, behind);
        lemma_after_move_bits(v, m, them, Piece::Pawn, behind);
        lemma_after_move_bits(v, m, them, Piece::Knight, behind);
        lemma_after_move_bits(v, m, them, Piece::Bishop, behind);
        lemma_after_move_bits(v, m, them, Piece::Rook, behind);
        lemma_after_move_bits(v, m, them, Piece::Queen, behind);
        lemma_after_move_bits(v, m, them, Piece::King, behind);
    }
    if castles {
        lemma_after_move_bits(v, m, us, Piece::Pawn, corner);
        lemma_after_move_bits(v, m, us, Piece::Knight, corner);
        lemma_after_move_bits(v, m, us, Piece::Bishop, corner);
        lemma_after_move_bits(v, m, us, Piece::Rook, corner);
        lemma_after_move_bits(v, m, us, Piece::Queen, corner);
        lemma_after_move_bits(v, m, us, Piece::King, corner);
        lemma_after_move_bits(v, m, them, Piece::Pawn, corner);
        lemma_after_move_bits(v, m, them, Piece::Knight, corner);
        lemma_after_move_bits(v, m, them, Piece::Bishop, corner);
        lemma_after_move_bits(v, m, them, Piece::Rook, corner);
        lemma_after_move_bits(v, m, them, Piece::Queen, corner);
        lemma_after_move_bits(v, m, them, Piece::King, corner);
        lemma_after_move_bits(v, m, us, Piece::Pawn, crossed);
        lemma_after_move_bits(v, m, us, Piece::Knight, crossed);
        lemma_after_move_bits(v, m, us, Piece::Bishop, crossed);
        lemma_after_move_bits(v, m, us, Piece::Rook, crossed);
        lemma_after_move_bits(v, m, us, Piece::Queen, crossed);
        lemma_after_move_bits(v, m, us, Piece::King, crossed);
        lemma_after_move_bits(v, m, them, Piece::Pawn, crossed);
        lemma_after_move_bits(v, m, them, Piece::Knight, crossed);
        lemma_after_move_bits(v, m, them, Piece::Bishop, crossed);
        lemma_after_move_bits(v, m, them, Piece::Rook, crossed);
        lemma_after_move_bits(v, m, them, Piece::Queen, crossed);
        lemma_after_move_bits(v, m, them, Piece::King, crossed);
    }
    assert forall|c: Color, t: int| 0 <= t < 64 && t != m.from && t != m.to && !((p
        == Piece::Pawn && v.en_passant == Some(m.to) && m.from % 8 != m.to % 8 && v.piece_on(
        them,
        m.to as int,
    ) is None && 0 <= behind < 64) && t == behind) && !(castles && (t == corner || t
        == crossed)) implies #[trigger] w.piece_on(c, t) == v.piece_on(c, t) by {
        lemma_after_move_bits(v, m, c, Piece::Pawn, t);
        lemma_after_move_bits(v, m, c, Piece::Knight, t);
        lemma_after_move_bits(v, m, c, Piece::Bishop, t);
        lemma_after_move_bits(v, m, c, Piece::Rook, t);
        lemma_after_move_bits(v, m, c, Piece::Queen, t);
        lemma_after_move_bits(v, m, c, Piece::King, t);
    }
}

/// The move counters after a move: the other side is to move; the full-move
/// number grows after Black's move; the half-move clock restarts after a pawn
/// move or a capture and otherwise grows; an en-passant square is left only
/// by a pawn's two-rank advance, on its file, on the rank it passed over.
pub proof fn law_move_counters(v: BoardView, m: Move)
    requires
        m.from < 64,
        m.to < 64,
        v.piece_on(v.side_to_move, m.from as int) is Some,
    ensures
        ({
            let us = v.side_to_move;
            let them = us.other();
            let p = v.piece_on(us, m.from as int).unwrap();
            let w = v.after_move(m);
            let captures = v.piece_on(them, m.to as int) is Some || (p == Piece::Pawn
                && v.en_passant == Some(m.to) && m.from % 8 != m.to % 8 && 0 <= (if us
                == Color::White {
                m.to - 8
            } else {
                m.to + 8
            }) < 64);
            &&& w.side_to_move == them
            &&& w.fullmove_number as int == if us == Color::Black {
                (v.fullmove_number + 1) % 0x1_0000_0000
            } else {
                v.fullmove_number as int
            }
            &&& w.halfmove_clock as int == if p == Piece::Pawn || captures {
                0
            } else {
                (v.halfmove_clock + 1) % 0x1_0000_0000
            }
            &&& w.en_passant is Some <==> (p == Piece::Pawn && m.from % 8 == m.to % 8 && (m.to / 8
                == m.from / 8 + 2 || m.from / 8 == m.to / 8 + 2))
            &&& w.en_passant matches Some(t) ==> t % 8 == m.from % 8 && t / 8 == (m.from / 8 + m.to
                / 8) / 2
        }),
{
    let us = v.side_to_move;
    let p = v.piece_on(us, m.from as int).unwrap();
    assert(v.moving_piece(m) == p);
    let f = m.from as int;
    let t = m.to as int;
    assert(f == (f / 8) * 8 + f % 8 && t == (t / 8) * 8 + t % 8);
    assert((t == f + 16 || f == t + 16) <==> (f % 8 == t % 8 && (t / 8 == f / 8 + 2 || f / 8 == t
        / 8 + 2)));
    if t == f + 16 || f == t + 16 {
        let mid = (f + t) / 2;
        assert(mid % 8 == f % 8 && mid / 8 == (f / 8 + t / 8) / 2);
    }
}

/// The distance between two numbers.
pub open spec fn gap(a: int, b: int) -> int {
    if a >= b {
        a - b
    } else {
        b - a
    }
}

/// Squares `s` and `t` are a knight's jump apart: one file and two ranks, or
/// two files and one rank.
pub open spec fn knight_apart(s: int, t: int) -> bool {
    let df = gap(s % 8, t % 8);
    let dr = gap(s / 8, t / 8);
    (df == 1 && dr == 2) || (df == 2 && dr == 1)
}

/// Squares `s` and `t` are neighbours: at most one file and one rank apart.
pub open spec fn adjacent(s: int, t: int) -> bool {
    let df = gap(s % 8, t % 8);
    let dr = gap(s / 8, t / 8);
    df <= 1 && dr <= 1 && !(df == 0 && dr == 0)
}

/// A pawn of colour `c` on `t` guards `s`: `s` is one rank ahead of `t` in
/// `c`'s direction of travel and on a neighbouring file.
pub open spec fn pawn_guards(c: Color, t: int, s: int) -> bool {
    &&& gap(s % 8, t % 8) == 1
    &&& s / 8 == t / 8 + if c == Color::White {
        1int
    } else {
        -1int
    }
}

/// The file and rank of an on-board square.
pub proof fn lemma_square_coords(f: int, r: int)
    requires
        on_board(f, r),
    ensures
        square_of(f, r) % 8 == f,
        square_of(f, r) / 8 == r,
        0 <= square_of(f, r) < 64,
{
}

proof fn lemma_square_parts(t: int)
    requires
        0 <= t < 64,
    ensures
        t == square_of(t % 8, t / 8),
        on_board(t % 8, t / 8),
{
}

/// Knights attack the squares a knight's jump away.
pub proof fn law_knight_attack_squares(v: BoardView, s: int, c: Color)
    requires
        0 <= s < 64,
    ensures
        v.knight_attacks(s % 8, s / 8, c) <==> exists|t: int|
            0 <= t < 64 && #[trigger] has_bit(v.bb(c, Piece::Knight), t) && knight_apart(s, t),
{
    let f = s % 8;
    let r = s / 8;
    let kb = v.bb(c, Piece::Knight);
    if v.knight_attacks(f, r, c) {
        let i = choose|i: int|
            0 <= i < 8 && on_board(f + knight_df(i), r + knight_dr(i)) && #[trigger] has_bit(
                kb,
                square_of(f + knight_df(i), r + knight_dr(i)),
            );
        let t = square_of(f + knight_df(i), r + knight_dr(i));
        assert(t % 8 == f + knight_df(i) && t / 8 == r + knight_dr(i));
        assert(knight_apart(s, t));
    }
    if exists|t: int| 0 <= t < 64 && #[trigger] has_bit(kb, t) && knight_apart(s, t) {
        let t = choose|t: int| 0 <= t < 64 && #[trigger] has_bit(kb, t) && knight_apart(s, t);
        lemma_square_parts(t);
        let df = t % 8 - f;
        let dr = t / 8 - r;
        let i: int = if df == 1 && dr == 2 {
            0
        } else if df == 2 && dr == 1 {
            1
        } else if df == -1 && dr == 2 {
            2
        } else if df == 2 && dr == -1 {
            3
        } else if df == -2 && dr == 1 {
            4
        } else if df == 1 && dr == -2 {
            5
        } else if df == -1 && dr == -2 {
            6
        } else {
            7
        };
        assert(knight_df(i) == df && knight_dr(i) == dr);
        assert(square_of(f + knight_df(i), r + knight_dr(i)) == t);
        assert(has_bit(kb, square_of(f + knight_df(i), r + knight_dr(i))));
    }
}

/// Kings attack their neighbouring squares.
pub proof fn law_king_attack_squares(v: BoardView, s: int, c: Color)
    requires
        0 <= s < 64,
    ensures
        v.king_attacks(s % 8, s / 8, c) <==> exists|t: int|
            0 <= t < 64 && #[trigger] has_bit(v.bb(c, Piece::King), t) && adjacent(s, t),
{
    let f = s % 8;
    let r = s / 8;
    let kb = v.bb(c, Piece::King);
    if v.king_attacks(f, r, c) {
        let (df, dr) = choose|df: int, dr: int|
            -1 <= df <= 1 && -1 <= dr <= 1 && !(df == 0 && dr == 0) && on_board(f + df, r + dr)
                && #[trigger] has_bit(kb, square_of(f + df, r + dr));
        let t = square_of(f + df, r + dr);
        assert(t % 8 == f + df && t / 8 == r + dr);
        assert(adjacent(s, t));
    }
    if exists|t: int| 0 <= t < 64 && #[trigger] has_bit(kb, t) && adjacent(s, t) {
        let t = choose|t: int| 0 <= t < 64 && #[trigger] has_bit(kb, t) && adjacent(s, t);
        lemma_square_parts(t);
        let df = t % 8 - f;
        let dr = t / 8 - r;
        assert(square_of(f + df, r + dr) == t);
        assert(has_bit(kb, square_of(f + df, r + dr)));
    }
}

/// Pawns attack the two squares diagonally ahead of them.
pub proof fn law_pawn_attack_squares(v: BoardView, s: int, c: Color)
    requires
        0 <= s < 64,
    ensures
        v.pawn_attacks(s % 8, s / 8, c) <==> exists|t: int|
            0 <= t < 64 && #[trigger] has_bit(v.bb(c, Piece::Pawn), t) && pawn_guards(c, t, s),
{
    let f = s % 8;
    let r = s / 8;
    let pb = v.bb(c, Piece::Pawn);
    let pr = if c == Color::White {
        r - 1
    } else {
        r + 1
    };
    if on_board(f - 1, pr) {
        let t = square_of(f - 1, pr);
        assert(t % 8 == f - 1 && t / 8 == pr);
        assert(has_bit(pb, t) ==> pawn_guards(c, t, s));
    }
    if on_board(f + 1, pr) {
        let t = square_of(f + 1, pr);
        assert(t % 8 == f + 1 && t / 8 == pr);
        assert(has_bit(pb, t) ==> pawn_guards(c, t, s));
    }
    if exists|t: int| 0 <= t < 64 && #[trigger] has_bit(pb, t) && pawn_guards(c, t, s) {
        let t = choose|t: int| 0 <= t < 64 && #[trigger] has_bit(pb, t) && pawn_guards(c, t, s);
        lemma_square_parts(t);
        if t % 8 == f - 1 {
            assert(square_of(f - 1, pr) == t);
        } else {
            assert(square_of(f + 1, pr) == t);
        }
    }
}

/// The sign of `x`: 1, 0 or -1.
pub open spec fn sign(x: int) -> int {
    if x > 0 {
        1
    } else if x < 0 {
        -1
    } else {
        0
    }
}

/// Coordinate `a` moved `k` steps in direction `e` (1, 0 or -1).
pub open spec fn stepped(a: int, e: int, k: int) -> int {
    if e > 0 {
        a + k
    } else if e < 0 {
        a - k
    } else {
        a
    }
}

/// How many king steps apart squares `s` and `t` are.
pub open spec fn reach(s: int, t: int) -> int {
    let df = gap(s % 8, t % 8);
    let dr = gap(s / 8, t / 8);
    if df >= dr {
        df
    } else {
        dr
    }
}

/// Square `u` lies strictly between `s` and `t` on the line from `s` to `t`.
pub open spec fn strictly_between(s: int, t: int, u: int) -> bool {
    let k = reach(s, u);
    &&& 0 < k < reach(s, t)
    &&& u % 8 == stepped(s % 8, sign(t % 8 - s % 8), k)
    &&& u / 8 == stepped(s / 8, sign(t / 8 - s / 8), k)
}

/// No square of `occ` lies strictly between `s` and `t`.
pub open spec fn clear_line(occ: u64, s: int, t: int) -> bool {
    forall|u: int| 0 <= u < 64 && #[trigger] strictly_between(s, t, u) ==> !has_bit(occ, u)
}

/// `s` and `t` are different squares on one diagonal.
pub open spec fn diagonal_line(s: int, t: int) -> bool {
    gap(s % 8, t % 8) == gap(s / 8, t / 8) && gap(s % 8, t % 8) > 0
}

/// `s` and `t` are different squares on one rank or one file.
pub open spec fn straight_line(s: int, t: int) -> bool {
    (gap(s % 8, t % 8) == 0) != (gap(s / 8, t / 8) == 0)
}

/// The first square `n` steps along the ray from (`f`, `r`) in direction
/// (`df`, `dr`) that is occupied holds an attacker, and the squares before
/// it are empty.
pub open spec fn hit_at(occ: u64, att: u64, f: int, r: int, df: int, dr: int, n: int) -> bool {
    &&& n >= 0
    &&& on_board(stepped(f, df, n), stepped(r, dr, n))
    &&& has_bit(att, square_of(stepped(f, df, n), stepped(r, dr, n)))
    &&& has_bit(occ, square_of(stepped(f, df, n), stepped(r, dr, n)))
    &&& forall|k: int|
        0 <= k < n ==> !#[trigger] has_bit(occ, square_of(stepped(f, df, k), stepped(r, dr, k)))
}

proof fn lemma_ray_hit_witness(occ: u64, att: u64, f: int, r: int, df: int, dr: int) -> (n: int)
    requires
        ray_hits(occ, att, f, r, df, dr),
    ensures
        hit_at(occ, att, f, r, df, dr, n),
    decreases ray_measure(f, r, df, dr),
{
    if has_bit(occ, square_of(f, r)) {
        0
    } else {
        let n = lemma_ray_hit_witness(occ, att, f + df, r + dr, df, dr);
        assert forall|k: int| 0 <= k < n + 1 implies !#[trigger] has_bit(
            occ,
            square_of(stepped(f, df, k), stepped(r, dr, k)),
        ) by {
            if k > 0 {
                assert(stepped(f, df, k) == stepped(f + df, df, k - 1));
                assert(stepped(r, dr, k) == stepped(r + dr, dr, k - 1));
            }
        }
        assert(stepped(f, df, n + 1) == stepped(f + df, df, n));
        assert(stepped(r, dr, n + 1) == stepped(r + dr, dr, n));
        n + 1
    }
}

proof fn lemma_ray_hit_from(occ: u64, att: u64, f: int, r: int, df: int, dr: int, n: int)
    requires
        is_direction(df, dr),
        on_board(f, r),
        hit_at(occ, att, f, r, df, dr, n),
    ensures
        ray_hits(occ, att, f, r, df, dr),
    decreases n,
{
    if n > 0 {
        assert(!has_bit(occ, square_of(stepped(f, df, 0), stepped(r, dr, 0))));
        assert forall|k: int| 0 <= k < n - 1 implies !#[trigger] has_bit(
            occ,
            square_of(stepped(f + df, df, k), stepped(r + dr, dr, k)),
        ) by {
            assert(stepped(f, df, k + 1) == stepped(f + df, df, k));
            assert(stepped(r, dr, k + 1) == stepped(r + dr, dr, k));
            assert(!has_bit(occ, square_of(stepped(f, df, k + 1), stepped(r, dr, k + 1))));
        }
        assert(stepped(f, df, n) == stepped(f + df, df, n - 1));
        assert(stepped(r, dr, n) == stepped(r + dr, dr, n - 1));
        lemma_ray_hit_from(occ, att, f + df, r + dr, df, dr, n - 1);
    }
}

/// A square `t` on the ray from `s` in direction (`df`, `dr`), `n + 1` steps
/// away.
proof fn lemma_ray_square(s: int, df: int, dr: int, n: int) -> (t: int)
    requires
        0 <= s < 64,
        is_direction(df, dr),
        n >= 0,
        on_board(stepped(s % 8 + df, df, n), stepped(s / 8 + dr, dr, n)),
    ensures
        t == square_of(stepped(s % 8 + df, df, n), stepped(s / 8 + dr, dr, n)),
        0 <= t < 64,
        t % 8 == stepped(s % 8, df, n + 1),
        t / 8 == stepped(s / 8, dr, n + 1),
        sign(t % 8 - s % 8) == df,
        sign(t / 8 - s / 8) == dr,
        reach(s, t) == n + 1,
{
    let f = stepped(s % 8 + df, df, n);
    let r = stepped(s / 8 + dr, dr, n);
    lemma_square_coords(f, r);
    square_of(f, r)
}

/// A square strictly between `s` and the square `n + 1` steps along a ray is
/// on that ray, fewer than `n + 1` steps out.
#[verifier::rlimit(40)]
proof fn lemma_between_on_ray(s: int, df: int, dr: int, n: int, t: int, u: int)
    requires
        0 <= s < 64,
        0 <= u < 64,
        is_direction(df, dr),
        n >= 0,
        t % 8 == stepped(s % 8, df, n + 1),
        t / 8 == stepped(s / 8, dr, n + 1),
        sign(t % 8 - s % 8) == df,
        sign(t / 8 - s / 8) == dr,
        reach(s, t) == n + 1,
        strictly_between(s, t, u),
    ensures
        0 <= reach(s, u) - 1 < n,
        u == square_of(
            stepped(s % 8 + df, df, reach(s, u) - 1),
            stepped(s / 8 + dr, dr, reach(s, u) - 1),
        ),
{
    lemma_square_parts(u);
    let k = reach(s, u);
    assert(u % 8 == stepped(s % 8 + df, df, k - 1));
    assert(u / 8 == stepped(s / 8 + dr, dr, k - 1));
}

/// The square `k + 1` steps along a ray from `s`, for `k < n`, is strictly
/// between `s` and the square `n + 1` steps along.
#[verifier::rlimit(40)]
proof fn lemma_on_ray_between(s: int, df: int, dr: int, n: int, t: int, k: int)
    requires
        0 <= s < 64,
        is_direction(df, dr),
        0 <= k < n,
        on_board(stepped(s % 8 + df, df, n), stepped(s / 8 + dr, dr, n)),
        t % 8 == stepped(s % 8, df, n + 1),
        t / 8 == stepped(s / 8, dr, n + 1),
        sign(t % 8 - s % 8) == df,
        sign(t / 8 - s / 8) == dr,
        reach(s, t) == n + 1,
    ensures
        ({
            let u = square_of(stepped(s % 8 + df, df, k), stepped(s / 8 + dr, dr, k));
            0 <= u < 64 && strictly_between(s, t, u)
        }),
{
    let f = stepped(s % 8 + df, df, k);
    let r = stepped(s / 8 + dr, dr, k);
    lemma_square_coords(f, r);
    let u = square_of(f, r);
    assert(reach(s, u) == k + 1);
}

/// A different square `t` on a line with `s` is `reach(s, t)` steps from
/// `s` in the direction of the signs of its offsets.
#[verifier::rlimit(40)]
proof fn lemma_line_point(s: int, t: int, df: int, dr: int)
    requires
        0 <= s < 64,
        0 <= t < 64,
        diagonal_line(s, t) || straight_line(s, t),
        df == sign(t % 8 - s % 8),
        dr == sign(t / 8 - s / 8),
    ensures
        is_direction(df, dr),
        reach(s, t) >= 1,
        t == square_of(
            stepped(s % 8 + df, df, reach(s, t) - 1),
            stepped(s / 8 + dr, dr, reach(s, t) - 1),
        ),
        on_board(
            stepped(s % 8 + df, df, reach(s, t) - 1),
            stepped(s / 8 + dr, dr, reach(s, t) - 1),
        ),
        t % 8 == stepped(s % 8, df, reach(s, t)),
        t / 8 == stepped(s / 8, dr, reach(s, t)),
{
    lemma_square_parts(t);
}

/// Bishops and queens attack along the diagonals up to and including the
/// first occupied square.
pub proof fn law_diagonal_attack_squares(v: BoardView, s: int, c: Color)
    requires
        0 <= s < 64,
    ensures
        v.diagonal_attacks(s % 8, s / 8, c) <==> exists|t: int|
            0 <= t < 64 && #[trigger] has_bit(
                v.bb(c, Piece::Bishop) | v.bb(c, Piece::Queen),
                t,
            ) && diagonal_line(s, t) && clear_line(v.occupied(), s, t),
{
    let f = s % 8;
    let r = s / 8;
    let occ = v.occupied();
    let att = v.bb(c, Piece::Bishop) | v.bb(c, Piece::Queen);
    if v.diagonal_attacks(f, r, c) {
        let i = choose|i: int|
            0 <= i < 4 && #[trigger] ray_hits(
                occ,
                att,
                f + diagonal_df(i),
                r + diagonal_dr(i),
                diagonal_df(i),
                diagonal_dr(i),
            );
        let df = diagonal_df(i);
        let dr = diagonal_dr(i);
        let n = lemma_ray_hit_witness(occ, att, f + df, r + dr, df, dr);
        let t = lemma_ray_square(s, df, dr, n);
        assert forall|u: int| 0 <= u < 64 && #[trigger] strictly_between(s, t, u) implies !has_bit(
            occ,
            u,
        ) by {
            lemma_between_on_ray(s, df, dr, n, t, u);
            let k = reach(s, u) - 1;
            assert(!has_bit(occ, square_of(stepped(f + df, df, k), stepped(r + dr, dr, k))));
        }
        assert(has_bit(att, t) && diagonal_line(s, t) && clear_line(occ, s, t));
    }
    if exists|t: int| 0 <= t < 64 && #[trigger] has_bit(att, t) && diagonal_line(s, t) && clear_line(
        occ,
        s,
        t,
    ) {
        let t = choose|t: int|
            0 <= t < 64 && #[trigger] has_bit(att, t) && diagonal_line(s, t) && clear_line(occ, s, t);
        lemma_square_parts(t);
        let df = sign(t % 8 - f);
        let dr = sign(t / 8 - r);
        let i: int = if df == 1 && dr == 1 {
            0
        } else if df == 1 {
            1
        } else if dr == 1 {
            2
        } else {
            3
        };
        assert(diagonal_df(i) == df && diagonal_dr(i) == dr);
        let n = reach(s, t) - 1;
        lemma_line_point(s, t, df, dr);
        assert(has_bit(occ, t)) by {
            broadcast use crate::bits::group_bits;
        }
        assert forall|k: int| 0 <= k < n implies !#[trigger] has_bit(
            occ,
            square_of(stepped(f + df, df, k), stepped(r + dr, dr, k)),
        ) by {
            lemma_on_ray_between(s, df, dr, n, t, k);
        }
        lemma_ray_hit_from(occ, att, f + df, r + dr, df, dr, n);
        assert(ray_hits(occ, att, f + diagonal_df(i), r + diagonal_dr(i), diagonal_df(i), diagonal_dr(i)));
    }
}

/// Rooks and queens attack along the ranks and files up to and including the
/// first occupied square.
pub proof fn law_straight_attack_squares(v: BoardView, s: int, c: Color)
    requires
        0 <= s < 64,
    ensures
        v.straight_attacks(s % 8, s / 8, c) <==> exists|t: int|
            0 <= t < 64 && #[trigger] has_bit(
                v.bb(c, Piece::Rook) | v.bb(c, Piece::Queen),
                t,
            ) && straight_line(s, t) && clear_line(v.occupied(), s, t),
{
    let f = s % 8;
    let r = s / 8;
    let occ = v.occupied();
    let att = v.bb(c, Piece::Rook) | v.bb(c, Piece::Queen);
    if v.straight_attacks(f, r, c) {
        let i = choose|i: int|
            0 <= i < 4 && #[trigger] ray_hits(
                occ,
                att,
                f + straight_df(i),
                r + straight_dr(i),
                straight_df(i),
                straight_dr(i),
            );
        let df = straight_df(i);
        let dr = straight_dr(i);
        let n = lemma_ray_hit_witness(occ, att, f + df, r + dr, df, dr);
        let t = lemma_ray_square(s, df, dr, n);
        assert forall|u: int| 0 <= u < 64 && #[trigger] strictly_between(s, t, u) implies !has_bit(
            occ,
            u,
        ) by {
            lemma_between_on_ray(s, df, dr, n, t, u);
            let k = reach(s, u) - 1;
            assert(!has_bit(occ, square_of(stepped(f + df, df, k), stepped(r + dr, dr, k))));
        }
        assert(has_bit(att, t) && straight_line(s, t) && clear_line(occ, s, t));
    }
    if exists|t: int| 0 <= t < 64 && #[trigger] has_bit(att, t) && straight_line(s, t) && clear_line(
        occ,
        s,
        t,
    ) {
        let t = choose|t: int|
            0 <= t < 64 && #[trigger] has_bit(att, t) && straight_line(s, t) && clear_line(occ, s, t);
        lemma_square_parts(t);
        let df = sign(t % 8 - f);
        let dr = sign(t / 8 - r);
        let i: int = if df == 1 {
            0
        } else if df == -1 {
            1
        } else if dr == 1 {
            2
        } else {
            3
        };
        assert(straight_df(i) == df && straight_dr(i) == dr);
        let n = reach(s, t) - 1;
        lemma_line_point(s, t, df, dr);
        assert(has_bit(occ, t)) by {
            broadcast use crate::bits::group_bits;
        }
        assert forall|k: int| 0 <= k < n implies !#[trigger] has_bit(
            occ,
            square_of(stepped(f + df, df, k), stepped(r + dr, dr, k)),
        ) by {
            lemma_on_ray_between(s, df, dr, n, t, k);
        }
        lemma_ray_hit_from(occ, att, f + df, r + dr, df, dr, n);
        assert(ray_hits(occ, att, f + straight_df(i), r + straight_dr(i), straight_df(i), straight_dr(i)));
    }
}

/// A square is attacked by colour `c` exactly when a pawn of `c` guards it,
/// a knight of `c` is a jump away, a king of `c` is next to it, a bishop or
/// queen of `c` sees it along a clear diagonal, or a rook or queen of `c`
/// along a clear rank or file.
pub proof fn law_attacked_squares(v: BoardView, s: int, c: Color)
    requires
        0 <= s < 64,
    ensures
        v.attacked(s, c) <==> {
            ||| exists|t: int|
                0 <= t < 64 && #[trigger] has_bit(v.bb(c, Piece::Pawn), t) && pawn_guards(c, t, s)
            ||| exists|t: int|
                0 <= t < 64 && #[trigger] has_bit(v.bb(c, Piece::Knight), t) && knight_apart(s, t)
            ||| exists|t: int|
                0 <= t < 64 && #[trigger] has_bit(v.bb(c, Piece::King), t) && adjacent(s, t)
            ||| exists|t: int|
                0 <= t < 64 && #[trigger] has_bit(v.bb(c, Piece::Bishop) | v.bb(c, Piece::Queen), t)
                    && diagonal_line(s, t) && clear_line(v.occupied(), s, t)
            ||| exists|t: int|
                0 <= t < 64 && #[trigger] has_bit(v.bb(c, Piece::Rook) | v.bb(c, Piece::Queen), t)
                    && straight_line(s, t) && clear_line(v.occupied(), s, t)
        },
{
    law_pawn_attack_squares(v, s, c);
    law_knight_attack_squares(v, s, c);
    law_king_attack_squares(v, s, c);
    law_diagonal_attack_squares(v, s, c);
    law_straight_attack_squares(v, s, c);
}

/// A side whose only king stands on `t` is in check exactly when the other
/// side attacks `t`.
pub proof fn law_check_is_an_attacked_king(v: BoardView, c: Color, t: int)
    requires
        0 <= t < 64,
        has_bit(v.bb(c, Piece::King), t),
        forall|j: int| j != t ==> !#[trigger] has_bit(v.bb(c, Piece::King), j),
    ensures
        v.in_check(c) <==> v.attacked(t, c.other()),
{
    broadcast use group_bits;

    let k = v.bb(c, Piece::King);
    assert(k != 0);
    lemma_pop_lowest(k);
    assert(v.king_sq(c) == Some(t));
}

} // verus!
