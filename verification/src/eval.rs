//! Static evaluation: material balance from the side to move's point of view.
use vstd::prelude::*;
use crate::bits::{
    count_ones, group_bits, has_bit, lemma_popcount_below_bound, lemma_popcount_insert,
    lemma_popcount_same, popcount, square_bit,
};
use crate::board::{Board, BoardView, Color, Piece};

verus! {

const PAWN_VALUE: i32 = 100;

const KNIGHT_VALUE: i32 = 320;

const BISHOP_VALUE: i32 = 330;

const ROOK_VALUE: i32 = 500;

const QUEEN_VALUE: i32 = 900;

/// The worth of a piece in centipawns; the king's is a large sentinel.
pub open spec fn value_of(piece: Piece) -> int {
    match piece {
        Piece::Pawn => 100,
        Piece::Knight => 320,
        Piece::Bishop => 330,
        Piece::Rook => 500,
        Piece::Queen => 900,
        Piece::King => 20_000,
    }
}

/// The material of colour `c`: each pawn, knight, bishop, rook and queen
/// counted at its value; kings do not count.
pub open spec fn material(v: BoardView, c: Color) -> int {
    (popcount(v.bb(c, Piece::Pawn)) * 100 + popcount(v.bb(c, Piece::Knight)) * 320 + popcount(
        v.bb(c, Piece::Bishop),
    ) * 330 + popcount(v.bb(c, Piece::Rook)) * 500 + popcount(v.bb(c, Piece::Queen)) * 900) as int
}

pub proof fn lemma_material_bound(v: BoardView, c: Color)
    ensures
        0 <= material(v, c) <= 137_600,
{
    let a = popcount(v.bb(c, Piece::Pawn));
    let b = popcount(v.bb(c, Piece::Knight));
    let d = popcount(v.bb(c, Piece::Bishop));
    let e = popcount(v.bb(c, Piece::Rook));
    let f = popcount(v.bb(c, Piece::Queen));
    lemma_popcount_below_bound(v.bb(c, Piece::Pawn), 64);
    lemma_popcount_below_bound(v.bb(c, Piece::Knight), 64);
    lemma_popcount_below_bound(v.bb(c, Piece::Bishop), 64);
    lemma_popcount_below_bound(v.bb(c, Piece::Rook), 64);
    lemma_popcount_below_bound(v.bb(c, Piece::Queen), 64);
    assert(a * 100 + b * 320 + d * 330 + e * 500 + f * 900 <= 137_600) by (nonlinear_arith)
        requires
            a <= 64,
            b <= 64,
            d <= 64,
            e <= 64,
            f <= 64,
    ;
}

/// White's material minus Black's, negated when Black is to move.
pub open spec fn evaluation(v: BoardView) -> int {
    let raw = material(v, Color::White) - material(v, Color::Black);
    match v.side_to_move {
        Color::White => raw,
        Color::Black => -raw,
    }
}

fn weighted_count(board: &Board, color: Color, piece: Piece, value: i32) -> (w: i32)
    requires
        0 <= value <= 900,
    ensures
        w == popcount(board@.bb(color, piece)) * value,
        0 <= w <= 64 * 900,
{
    let n = count_ones(board.bitboard(color, piece));
    assert(n * value <= 64 * 900) by (nonlinear_arith)
        requires
            n <= 64,
            0 <= value <= 900,
    ;
    assert(0 <= n * value) by (nonlinear_arith)
        requires
            0 <= n,
            0 <= value,
    ;
    n as i32 * value
}

/// Material balance in centipawns from the side to move's point of view.
pub fn evaluate(board: &Board) -> (e: i32)
    ensures
        e == evaluation(board@),
{
    let mut white_material: i32 = 0;
    let mut black_material: i32 = 0;

    white_material = white_material + weighted_count(board, Color::White, Piece::Pawn, PAWN_VALUE);
    black_material = black_material + weighted_count(board, Color::Black, Piece::Pawn, PAWN_VALUE);
    white_material = white_material + weighted_count(
        board,
        Color::White,
        Piece::Knight,
        KNIGHT_VALUE,
    );
    black_material = black_material + weighted_count(
        board,
        Color::Black,
        Piece::Knight,
        KNIGHT_VALUE,
    );
    white_material = white_material + weighted_count(
        board,
        Color::White,
        Piece::Bishop,
        BISHOP_VALUE,
    );
    black_material = black_material + weighted_count(
        board,
        Color::Black,
        Piece::Bishop,
        BISHOP_VALUE,
    );
    white_material = white_material + weighted_count(board, Color::White, Piece::Rook, ROOK_VALUE);
    black_material = black_material + weighted_count(board, Color::Black, Piece::Rook, ROOK_VALUE);
    white_material = white_material + weighted_count(
        board,
        Color::White,
        Piece::Queen,
        QUEEN_VALUE,
    );
    black_material = black_material + weighted_count(
        board,
        Color::Black,
        Piece::Queen,
        QUEEN_VALUE,
    );

    let raw_eval = white_material - black_material;

    match board.side() {
        Color::White => raw_eval,
        Color::Black => -raw_eval,
    }
}

/// The worth of a piece in centipawns.
pub fn piece_value(piece: Piece) -> (v: i32)
    ensures
        v == value_of(piece),
{
    match piece {
        Piece::Pawn => PAWN_VALUE,
        Piece::Knight => KNIGHT_VALUE,
        Piece::Bishop => BISHOP_VALUE,
        Piece::Rook => ROOK_VALUE,
        Piece::Queen => QUEEN_VALUE,
        Piece::King => 20_000,
    }
}


/// The evaluation is from the side to move's point of view: handing the move
/// to the other side negates it.
pub proof fn law_evaluation_is_relative(v: BoardView)
    ensures
        evaluation(BoardView { side_to_move: v.side_to_move.other(), ..v }) == -evaluation(v),
{
}

/// An empty board evaluates to zero for either side.
pub proof fn law_bare_board_is_level(v: BoardView)
    requires
        forall|c: Color, p: Piece| #[trigger] v.bb(c, p) == 0,
    ensures
        evaluation(v) == 0,
{
    crate::bits::lemma_popcount_zero();
    assert(v.bb(Color::White, Piece::Pawn) == 0);
    assert(v.bb(Color::White, Piece::Knight) == 0);
    assert(v.bb(Color::White, Piece::Bishop) == 0);
    assert(v.bb(Color::White, Piece::Rook) == 0);
    assert(v.bb(Color::White, Piece::Queen) == 0);
    assert(v.bb(Color::Black, Piece::Pawn) == 0);
    assert(v.bb(Color::Black, Piece::Knight) == 0);
    assert(v.bb(Color::Black, Piece::Bishop) == 0);
    assert(v.bb(Color::Black, Piece::Rook) == 0);
    assert(v.bb(Color::Black, Piece::Queen) == 0);
}

/// The worth of a piece in the material count, in centipawns: pawn 100,
/// knight 320, bishop 330, rook 500, queen 900; a king counts nothing.
pub open spec fn worth(p: Piece) -> int {
    match p {
        Piece::Pawn => 100,
        Piece::Knight => 320,
        Piece::Bishop => 330,
        Piece::Rook => 500,
        Piece::Queen => 900,
        Piece::King => 0,
    }
}

proof fn lemma_material_add(v: BoardView, c: Color, p: Piece, s: int)
    requires
        0 <= s < 64,
        v.piece_on(Color::White, s) is None,
        v.piece_on(Color::Black, s) is None,
    ensures
        material(v.with_piece(c, p, s), c) == material(v, c) + worth(p),
        material(v.with_piece(c, p, s), c.other()) == material(v, c.other()),
{
    broadcast use group_bits;

    let w = v.with_piece(c, p, s);
    assert forall|c2: Color, p2: Piece| !has_bit(#[trigger] v.bb(c2, p2), s) by {
        assert(v.piece_on(c2, s) is None);
    }
    assert forall|c2: Color, p2: Piece| (c2 != c || p2 != p) implies popcount(
        #[trigger] w.bb(c2, p2),
    ) == popcount(v.bb(c2, p2)) by {
        assert forall|j: int| 0 <= j < 64 implies has_bit(w.bb(c2, p2), j) == has_bit(
            v.bb(c2, p2),
            j,
        ) by {
            assert(w.bb(c2, p2) == v.bb(c2, p2) & !square_bit(s));
        }
        lemma_popcount_same(w.bb(c2, p2), v.bb(c2, p2), 64);
    }
    assert(popcount(w.bb(c, p)) == popcount(v.bb(c, p)) + 1) by {
        assert(w.bb(c, p) == (v.bb(c, p) & !square_bit(s)) | square_bit(s));
        assert forall|j: int| 0 <= j < 64 implies has_bit(w.bb(c, p), j) == (has_bit(
            v.bb(c, p),
            j,
        ) || j == s) by {}
        lemma_popcount_insert(v.bb(c, p), w.bb(c, p), s, 64);
    }
    assert(popcount(w.bb(c.other(), Piece::Pawn)) == popcount(v.bb(c.other(), Piece::Pawn)));
    assert(popcount(w.bb(c.other(), Piece::Knight)) == popcount(v.bb(c.other(), Piece::Knight)));
    assert(popcount(w.bb(c.other(), Piece::Bishop)) == popcount(v.bb(c.other(), Piece::Bishop)));
    assert(popcount(w.bb(c.other(), Piece::Rook)) == popcount(v.bb(c.other(), Piece::Rook)));
    assert(popcount(w.bb(c.other(), Piece::Queen)) == popcount(v.bb(c.other(), Piece::Queen)));
    if p != Piece::Pawn {
        assert(popcount(w.bb(c, Piece::Pawn)) == popcount(v.bb(c, Piece::Pawn)));
    }
    if p != Piece::Knight {
        assert(popcount(w.bb(c, Piece::Knight)) == popcount(v.bb(c, Piece::Knight)));
    }
    if p != Piece::Bishop {
        assert(popcount(w.bb(c, Piece::Bishop)) == popcount(v.bb(c, Piece::Bishop)));
    }
    if p != Piece::Rook {
        assert(popcount(w.bb(c, Piece::Rook)) == popcount(v.bb(c, Piece::Rook)));
    }
    if p != Piece::Queen {
        assert(popcount(w.bb(c, Piece::Queen)) == popcount(v.bb(c, Piece::Queen)));
    }
}

/// Putting a piece on an empty square changes the evaluation by the piece's
/// worth: up for the side to move's pieces, down for the opponent's. With the
/// bare board at zero, this fixes the evaluation of every position: each
/// pawn, knight, bishop, rook and queen counts 100, 320, 330, 500 and 900.
pub proof fn law_adding_a_piece_counts_its_worth(v: BoardView, c: Color, p: Piece, s: int)
    requires
        0 <= s < 64,
        v.piece_on(Color::White, s) is None,
        v.piece_on(Color::Black, s) is None,
    ensures
        evaluation(v.with_piece(c, p, s)) == evaluation(v) + if c == v.side_to_move {
            worth(p)
        } else {
            -worth(p)
        },
{
    lemma_material_add(v, c, p, s);
    assert(c.other() != c);
    assert(c == Color::White || c == Color::Black);
}

} // verus!
