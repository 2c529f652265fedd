//! Reading a position in Forsyth-Edwards Notation: piece placement, side to
//! move, castling rights, en-passant square and, optionally, the two clocks,
//! separated by whitespace.
use vstd::prelude::*;
use super::{Board, BoardView, Color, Piece, empty_view};
use vstd::string::StringSliceAdditionalSpecFns;

verus! {

pub open spec fn is_blank(b: u8) -> bool {
    b == 32 || b == 9 || b == 10 || b == 11 || b == 12 || b == 13
}

/// The whitespace-separated fields of `s` from index `i` on, `cur` being the
/// part of a field already read.
pub open spec fn fields_from(s: Seq<u8>, i: int, cur: Seq<u8>) -> Seq<Seq<u8>>
    decreases s.len() - i,
{
    if i >= s.len() {
        if cur.len() > 0 {
            seq![cur]
        } else {
            seq![]
        }
    } else if is_blank(s[i]) {
        (if cur.len() > 0 {
            seq![cur]
        } else {
            seq![]
        }) + fields_from(s, i + 1, seq![])
    } else {
        fields_from(s, i + 1, cur.push(s[i]))
    }
}

/// The maximal runs of non-whitespace bytes of `s`.
pub open spec fn fen_fields(s: Seq<u8>) -> Seq<Seq<u8>> {
    fields_from(s, 0, seq![])
}

/// The colour and kind of a FEN piece letter: upper case for white.
pub open spec fn piece_of_char(c: u8) -> Option<(Color, Piece)> {
    if c == 80 {
        Some((Color::White, Piece::Pawn))
    } else if c == 78 {
        Some((Color::White, Piece::Knight))
    } else if c == 66 {
        Some((Color::White, Piece::Bishop))
    } else if c == 82 {
        Some((Color::White, Piece::Rook))
    } else if c == 81 {
        Some((Color::White, Piece::Queen))
    } else if c == 75 {
        Some((Color::White, Piece::King))
    } else if c == 112 {
        Some((Color::Black, Piece::Pawn))
    } else if c == 110 {
        Some((Color::Black, Piece::Knight))
    } else if c == 98 {
        Some((Color::Black, Piece::Bishop))
    } else if c == 114 {
        Some((Color::Black, Piece::Rook))
    } else if c == 113 {
        Some((Color::Black, Piece::Queen))
    } else if c == 107 {
        Some((Color::Black, Piece::King))
    } else {
        None
    }
}

/// Reads a placement field from index `i`, standing on (`file`, `rank`):
/// ranks from the eighth down to the first separated by `/`, each exactly
/// eight squares wide, a digit skipping that many empty squares.
pub open spec fn place_from(f: Seq<u8>, i: int, rank: int, file: int, v: BoardView) -> Option<
    BoardView,
>
    decreases f.len() - i,
{
    if i >= f.len() || i < 0 {
        if rank == 0 && file == 8 {
            Some(v)
        } else {
            None
        }
    } else {
        let c = f[i];
        if c == 47 {
            if file == 8 && rank > 0 {
                place_from(f, i + 1, rank - 1, 0, v)
            } else {
                None
            }
        } else if 49 <= c <= 56 {
            if file + (c - 48) <= 8 {
                place_from(f, i + 1, rank, file + (c - 48), v)
            } else {
                None
            }
        } else {
            match piece_of_char(c) {
                Some((color, piece)) => if 0 <= file < 8 {
                    place_from(f, i + 1, rank, file + 1, v.with_piece(color, piece, rank * 8 + file))
                } else {
                    None
                },
                None => None,
            }
        }
    }
}

pub open spec fn parse_side(f: Seq<u8>) -> Option<Color> {
    if f == seq![119u8] {
        Some(Color::White)
    } else if f == seq![98u8] {
        Some(Color::Black)
    } else {
        None
    }
}

pub open spec fn castle_bit(c: u8) -> Option<u8> {
    if c == 75 {
        Some(1u8)
    } else if c == 81 {
        Some(2u8)
    } else if c == 107 {
        Some(4u8)
    } else if c == 113 {
        Some(8u8)
    } else {
        None
    }
}

pub open spec fn castling_from(f: Seq<u8>, i: int, acc: u8) -> Option<u8>
    decreases f.len() - i,
{
    if i >= f.len() || i < 0 {
        Some(acc)
    } else {
        match castle_bit(f[i]) {
            Some(b) => castling_from(f, i + 1, acc | b),
            None => None,
        }
    }
}

/// `-`, or a non-empty string of the letters `K`, `Q`, `k`, `q`.
pub open spec fn parse_castling(f: Seq<u8>) -> Option<u8> {
    if f == seq![45u8] {
        Some(0u8)
    } else if f.len() == 0 {
        None
    } else {
        castling_from(f, 0, 0)
    }
}

/// `-`, or a square on the third or sixth rank.
pub open spec fn parse_en_passant(f: Seq<u8>) -> Option<Option<u8>> {
    if f == seq![45u8] {
        Some(None)
    } else if f.len() == 2 && 97 <= f[0] <= 104 && (f[1] == 51 || f[1] == 54) {
        Some(Some(((f[1] - 49) * 8 + (f[0] - 97)) as u8))
    } else {
        None
    }
}

pub open spec fn all_digits(f: Seq<u8>) -> bool {
    forall|k: int| 0 <= k < f.len() ==> 48 <= #[trigger] f[k] <= 57
}

/// The decimal value of the first `n` bytes of `f`.
pub open spec fn digits_value(f: Seq<u8>, n: int) -> int
    decreases n,
{
    if n <= 0 {
        0
    } else {
        digits_value(f, n - 1) * 10 + (f[n - 1] - 48)
    }
}

/// A non-empty run of decimal digits whose value fits in a `u32`.
pub open spec fn parse_number(f: Seq<u8>) -> Option<u32> {
    if f.len() > 0 && all_digits(f) && digits_value(f, f.len() as int) <= u32::MAX {
        Some(digits_value(f, f.len() as int) as u32)
    } else {
        None
    }
}

/// The position a FEN string describes: four to six fields; a missing
/// half-move clock reads as 0 and a missing full-move number as 1.
pub open spec fn parse_fen(s: Seq<u8>) -> Option<BoardView> {
    let fs = fen_fields(s);
    if fs.len() < 4 || fs.len() > 6 {
        None
    } else {
        let half = if fs.len() >= 5 {
            parse_number(fs[4])
        } else {
            Some(0u32)
        };
        let full = if fs.len() >= 6 {
            parse_number(fs[5])
        } else {
            Some(1u32)
        };
        match (
            place_from(fs[0], 0, 7, 0, empty_view()),
            parse_side(fs[1]),
            parse_castling(fs[2]),
            parse_en_passant(fs[3]),
            half,
            full,
        ) {
            (Some(v), Some(side), Some(rights), Some(ep), Some(h), Some(n)) => Some(
                BoardView {
                    side_to_move: side,
                    castling_rights: rights,
                    en_passant: ep,
                    halfmove_clock: h,
                    fullmove_number: n,
                    ..v
                },
            ),
            _ => None,
        }
    }
}

pub open spec fn views_of(fields: Seq<Vec<u8>>) -> Seq<Seq<u8>> {
    fields.map_values(|x: Vec<u8>| x@)
}

/// Splits `s` at whitespace into its non-empty fields.
fn split_fields(s: &[u8]) -> (out: Vec<Vec<u8>>)
    ensures
        views_of(out@) == fen_fields(s@),
{
    let mut out: Vec<Vec<u8>> = Vec::new();
    let mut cur: Vec<u8> = Vec::new();
    let mut i: usize = 0;
    while i < s.len()
        invariant
            i <= s@.len(),
            views_of(out@) + fields_from(s@, i as int, cur@) == fen_fields(s@),
        decreases s@.len() - i,
    {
        let c = s[i];
        if c == 32 || c == 9 || c == 10 || c == 11 || c == 12 || c == 13 {
            if cur.len() > 0 {
                let ghost before = views_of(out@);
                let ghost field = cur@;
                out.push(cur);
                cur = Vec::new();
                assert(views_of(out@) =~= before + seq![field]);
            } else {
                assert(cur@ =~= Seq::<u8>::empty());
                assert(views_of(out@) + fields_from(s@, i + 1, cur@) =~= views_of(out@) + (
                seq![] + fields_from(s@, i + 1, seq![])));
            }
        } else {
            cur.push(c);
        }
        i = i + 1;
    }
    if cur.len() > 0 {
        let ghost before = views_of(out@);
        let ghost field = cur@;
        out.push(cur);
        assert(views_of(out@) =~= before + seq![field]);
    } else {
        assert(views_of(out@) =~= views_of(out@) + fields_from(s@, i as int, cur@));
    }
    out
}

fn piece_of_byte(c: u8) -> (r: Option<(Color, Piece)>)
    ensures
        r == piece_of_char(c),
{
    if c == 80 {
        Some((Color::White, Piece::Pawn))
    } else if c == 78 {
        Some((Color::White, Piece::Knight))
    } else if c == 66 {
        Some((Color::White, Piece::Bishop))
    } else if c == 82 {
        Some((Color::White, Piece::Rook))
    } else if c == 81 {
        Some((Color::White, Piece::Queen))
    } else if c == 75 {
        Some((Color::White, Piece::King))
    } else if c == 112 {
        Some((Color::Black, Piece::Pawn))
    } else if c == 110 {
        Some((Color::Black, Piece::Knight))
    } else if c == 98 {
        Some((Color::Black, Piece::Bishop))
    } else if c == 114 {
        Some((Color::Black, Piece::Rook))
    } else if c == 113 {
        Some((Color::Black, Piece::Queen))
    } else if c == 107 {
        Some((Color::Black, Piece::King))
    } else {
        None
    }
}

/// Reads the placement field onto an empty board.
fn parse_placement(f: &Vec<u8>) -> (r: Option<Board>)
    ensures
        match r {
            Some(b) => place_from(f@, 0, 7, 0, empty_view()) == Some(b@),
            None => place_from(f@, 0, 7, 0, empty_view()) is None,
        },
{
    let mut board = Board::empty();
    let mut rank: u8 = 7;
    let mut file: u8 = 0;
    let mut i: usize = 0;
    while i < f.len()
        invariant
            i <= f@.len(),
            rank <= 7,
            file <= 8,
            place_from(f@, i as int, rank as int, file as int, board@) == place_from(
                f@,
                0,
                7,
                0,
                empty_view(),
            ),
        decreases f@.len() - i,
    {
        let c = f[i];
        if c == 47 {
            if file == 8 && rank > 0 {
                rank = rank - 1;
                file = 0;
            } else {
                return None;
            }
        } else if 49 <= c && c <= 56 {
            if file + (c - 48) <= 8 {
                file = file + (c - 48);
            } else {
                return None;
            }
        } else {
            match piece_of_byte(c) {
                Some((color, piece)) => {
                    if file < 8 {
                        board.set_piece(color, piece, rank * 8 + file);
                        file = file + 1;
                    } else {
                        return None;
                    }
                },
                None => {
                    return None;
                },
            }
        }
        i = i + 1;
    }
    if rank == 0 && file == 8 {
        Some(board)
    } else {
        None
    }
}

fn parse_side_field(f: &Vec<u8>) -> (r: Option<Color>)
    ensures
        r == parse_side(f@),
{
    if f.len() == 1 && f[0] == 119 {
        assert(f@ =~= seq![119u8]);
        Some(Color::White)
    } else if f.len() == 1 && f[0] == 98 {
        assert(f@ =~= seq![98u8]);
        Some(Color::Black)
    } else {
        assert(f@ != seq![119u8] ==> true);
        assert(f.len() != 1 ==> f@ != seq![119u8] && f@ != seq![98u8]);
        None
    }
}

fn castle_bit_of(c: u8) -> (r: Option<u8>)
    ensures
        r == castle_bit(c),
{
    if c == 75 {
        Some(1)
    } else if c == 81 {
        Some(2)
    } else if c == 107 {
        Some(4)
    } else if c == 113 {
        Some(8)
    } else {
        None
    }
}

fn parse_castling_field(f: &Vec<u8>) -> (r: Option<u8>)
    ensures
        r == parse_castling(f@),
{
    if f.len() == 1 && f[0] == 45 {
        assert(f@ =~= seq![45u8]);
        return Some(0);
    }
    assert(f@ != seq![45u8]) by {
        if f@ == seq![45u8] {
            assert(f@.len() == 1 && f@[0] == 45);
        }
    }
    if f.len() == 0 {
        return None;
    }
    let mut acc: u8 = 0;
    let mut i: usize = 0;
    while i < f.len()
        invariant
            i <= f@.len(),
            f@.len() > 0,
            f@ != seq![45u8],
            castling_from(f@, i as int, acc) == parse_castling(f@),
        decreases f@.len() - i,
    {
        match castle_bit_of(f[i]) {
            Some(b) => {
                acc = acc | b;
            },
            None => {
                return None;
            },
        }
        i = i + 1;
    }
    Some(acc)
}

fn parse_en_passant_field(f: &Vec<u8>) -> (r: Option<Option<u8>>)
    ensures
        r == parse_en_passant(f@),
{
    if f.len() == 1 && f[0] == 45 {
        assert(f@ =~= seq![45u8]);
        return Some(None);
    }
    assert(f@ != seq![45u8]) by {
        if f@ == seq![45u8] {
            assert(f@.len() == 1 && f@[0] == 45);
        }
    }
    if f.len() == 2 && 97 <= f[0] && f[0] <= 104 && (f[1] == 51 || f[1] == 54) {
        Some(Some((f[1] - 49) * 8 + (f[0] - 97)))
    } else {
        None
    }
}

proof fn lemma_digits_monotone(f: Seq<u8>, i: int, n: int)
    requires
        0 <= i <= n <= f.len(),
        all_digits(f),
    ensures
        digits_value(f, i) <= digits_value(f, n),
        0 <= digits_value(f, i),
    decreases n - i,
{
    if i < n {
        lemma_digits_monotone(f, i, n - 1);
        assert(48 <= f[n - 1] <= 57);
    } else {
        lemma_digits_nonneg(f, i);
    }
}

proof fn lemma_digits_nonneg(f: Seq<u8>, i: int)
    requires
        0 <= i <= f.len(),
        all_digits(f),
    ensures
        0 <= digits_value(f, i),
    decreases i,
{
    if i > 0 {
        lemma_digits_nonneg(f, i - 1);
        assert(48 <= f[i - 1] <= 57);
    }
}

fn parse_number_field(f: &Vec<u8>) -> (r: Option<u32>)
    ensures
        r == parse_number(f@),
{
    if f.len() == 0 {
        return None;
    }
    let mut i: usize = 0;
    while i < f.len()
        invariant
            i <= f@.len(),
            forall|k: int| 0 <= k < i ==> 48 <= #[trigger] f@[k] <= 57,
        decreases f@.len() - i,
    {
        if f[i] < 48 || f[i] > 57 {
            assert(!all_digits(f@));
            return None;
        }
        i = i + 1;
    }
    assert(all_digits(f@));
    let mut acc: u64 = 0;
    let mut i: usize = 0;
    while i < f.len()
        invariant
            i <= f@.len(),
            all_digits(f@),
            acc == digits_value(f@, i as int),
            acc <= u32::MAX,
        decreases f@.len() - i,
    {
        assert(48 <= f@[i as int] <= 57);
        acc = acc * 10 + (f[i] - 48) as u64;
        if acc > 0xFFFF_FFFF {
            proof {
                lemma_digits_monotone(f@, i + 1, f@.len() as int);
            }
            return None;
        }
        i = i + 1;
    }
    Some(acc as u32)
}

impl Board {
    /// Reads a position in Forsyth-Edwards Notation. `None` when the text is
    /// not four to six whitespace-separated fields of the right form.
    pub fn from_fen(fen: &str) -> (r: Option<Board>)
        ensures
            match r {
                Some(b) => parse_fen(fen.spec_bytes()) == Some(b@),
                None => parse_fen(fen.spec_bytes()) is None,
            },
    {
        let bytes = fen.as_bytes();
        let fields = split_fields(bytes);
        let ghost fs = fen_fields(fen.spec_bytes());
        assert(fs.len() == fields@.len());
        if fields.len() < 4 || fields.len() > 6 {
            return None;
        }
        assert(fs[0] == fields@[0]@);
        assert(fs[1] == fields@[1]@);
        assert(fs[2] == fields@[2]@);
        assert(fs[3] == fields@[3]@);
        let placed = parse_placement(&fields[0]);
        let side = parse_side_field(&fields[1]);
        let rights = parse_castling_field(&fields[2]);
        let ep = parse_en_passant_field(&fields[3]);
        let half = if fields.len() >= 5 {
            assert(fs[4] == fields@[4]@);
            parse_number_field(&fields[4])
        } else {
            Some(0)
        };
        let full = if fields.len() >= 6 {
            assert(fs[5] == fields@[5]@);
            parse_number_field(&fields[5])
        } else {
            Some(1)
        };
        match (placed, side, rights, ep, half, full) {
            (Some(board), Some(side), Some(rights), Some(ep), Some(h), Some(n)) => {
                let mut board = board;
                board.side_to_move = side;
                board.castling_rights = rights;
                board.en_passant = ep;
                board.halfmove_clock = h;
                board.fullmove_number = n;
                Some(board)
            },
            _ => None,
        }
    }
}

/// Field `f` holds byte `c` at or after index `i`.
pub open spec fn holds_from(f: Seq<u8>, i: int, c: u8) -> bool {
    exists|k: int| i <= k < f.len() && f[k] == c
}

proof fn lemma_rights_bits(acc: u8, b: u8)
    requires
        acc < 16,
        b == 1 || b == 2 || b == 4 || b == 8,
    ensures
        (acc | b) < 16,
        ((acc | b) & 1 != 0) == (acc & 1 != 0 || b == 1),
        ((acc | b) & 2 != 0) == (acc & 2 != 0 || b == 2),
        ((acc | b) & 4 != 0) == (acc & 4 != 0 || b == 4),
        ((acc | b) & 8 != 0) == (acc & 8 != 0 || b == 8),
{
    assert(acc < 16 && (b == 1 || b == 2 || b == 4 || b == 8) ==> ((acc | b) < 16 && (((acc | b)
        & 1 != 0) == (acc & 1 != 0 || b == 1)) && (((acc | b) & 2 != 0) == (acc & 2 != 0 || b
        == 2)) && (((acc | b) & 4 != 0) == (acc & 4 != 0 || b == 4)) && (((acc | b) & 8 != 0) == (
    acc & 8 != 0 || b == 8)))) by (bit_vector);
}

proof fn lemma_castling_from_letters(f: Seq<u8>, i: int, acc: u8)
    requires
        0 <= i <= f.len(),
        acc < 16,
        castling_from(f, i, acc) is Some,
    ensures
        ({
            let r = castling_from(f, i, acc).unwrap();
            &&& r < 16
            &&& (r & 1 != 0) == (acc & 1 != 0 || holds_from(f, i, 75u8))
            &&& (r & 2 != 0) == (acc & 2 != 0 || holds_from(f, i, 81u8))
            &&& (r & 4 != 0) == (acc & 4 != 0 || holds_from(f, i, 107u8))
            &&& (r & 8 != 0) == (acc & 8 != 0 || holds_from(f, i, 113u8))
        }),
    decreases f.len() - i,
{
    if i < f.len() {
        let b = castle_bit(f[i]).unwrap();
        lemma_rights_bits(acc, b);
        lemma_castling_from_letters(f, i + 1, acc | b);
        assert forall|c: u8| holds_from(f, i, c) == (f[i] == c || holds_from(f, i + 1, c)) by {
            if holds_from(f, i, c) && f[i] != c {
                let k = choose|k: int| i <= k < f.len() && f[k] == c;
                assert(i + 1 <= k);
            }
        }
    } else {
        assert forall|c: u8| !holds_from(f, i, c) by {}
    }
}

/// Reading FEN castling rights: when a FEN string reads as a position, each
/// right is held exactly when its letter appears in the castling field —
/// `K` white kingside, `Q` white queenside, `k` black kingside, `q` black
/// queenside — and no other bit is set.
pub proof fn law_fen_castling_letters(s: Seq<u8>)
    requires
        parse_fen(s) is Some,
    ensures
        ({
            let f = fen_fields(s)[2];
            let r = parse_fen(s).unwrap().castling_rights;
            &&& r < 16
            &&& (r & super::WHITE_KINGSIDE != 0) == f.contains(75u8)
            &&& (r & super::WHITE_QUEENSIDE != 0) == f.contains(81u8)
            &&& (r & super::BLACK_KINGSIDE != 0) == f.contains(107u8)
            &&& (r & super::BLACK_QUEENSIDE != 0) == f.contains(113u8)
        }),
{
    let f = fen_fields(s)[2];
    let r = parse_fen(s).unwrap().castling_rights;
    assert(parse_castling(f) == Some(r));
    assert forall|c: u8| f.contains(c) == holds_from(f, 0, c) by {
        if f.contains(c) {
            let k = choose|k: int| 0 <= k < f.len() && f[k] == c;
            assert(holds_from(f, 0, c));
        }
    }
    if f == seq![45u8] {
        assert(r == 0);
        assert(0u8 & 1 == 0 && 0u8 & 2 == 0 && 0u8 & 4 == 0 && 0u8 & 8 == 0) by (bit_vector);
        assert forall|c: u8| c != 45 implies !holds_from(f, 0, c) by {
            if holds_from(f, 0, c) {
                let k = choose|k: int| 0 <= k < f.len() && f[k] == c;
                assert(k == 0);
            }
        }
    } else {
        assert(0u8 & 1 == 0 && 0u8 & 2 == 0 && 0u8 & 4 == 0 && 0u8 & 8 == 0) by (bit_vector);
        lemma_castling_from_letters(f, 0, 0);
    }
}

/// Reading the side to move and the en-passant square of a FEN string: `w`
/// means White, `b` Black; `-` means no en-passant square, and otherwise the
/// field names a square of the third or sixth rank by its file letter and rank
/// digit.
pub proof fn law_fen_side_and_en_passant(s: Seq<u8>)
    requires
        parse_fen(s) is Some,
    ensures
        ({
            let fs = fen_fields(s);
            let v = parse_fen(s).unwrap();
            &&& (v.side_to_move == Color::White) == (fs[1] == seq![119u8])
            &&& (v.side_to_move == Color::Black) == (fs[1] == seq![98u8])
            &&& (v.en_passant is None) == (fs[3] == seq![45u8])
            &&& v.en_passant matches Some(t) ==> fs[3].len() == 2 && t % 8 == fs[3][0] - 97 && t / 8
                == fs[3][1] - 49 && (t / 8 == 2 || t / 8 == 5)
        }),
{
    let fs = fen_fields(s);
    assert(seq![119u8] != seq![98u8]) by {
        assert(seq![119u8][0] != seq![98u8][0]);
    }
    let f = fs[3];
    if f != seq![45u8] && f.len() == 2 && 97 <= f[0] <= 104 && (f[1] == 51 || f[1] == 54) {
        let t = ((f[1] - 49) * 8 + (f[0] - 97)) as u8;
        assert(t % 8 == f[0] - 97 && t / 8 == f[1] - 49);
    }
}

} // verus!
