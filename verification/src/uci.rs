//! The parts of the UCI protocol that compute: reading squares, moves and
//! search limits from command fields, and writing moves in coordinate
//! notation.
use vstd::prelude::*;
use vstd::string::StringSliceAdditionalSpecFns;
use crate::board::{Board, BoardView, Color, Move, Piece, start_view};
use crate::board::fen::{all_digits, digits_value};

verus! {

/// The depth `go` searches to when no depth is given.
pub const MAX_SEARCH_DEPTH: u32 = 64;

/// Milliseconds kept in reserve for communication.
pub const MOVE_OVERHEAD_MS: u64 = 200;

/// A square in coordinate notation: a file letter `a`-`h` and a rank digit
/// `1`-`8`.
pub open spec fn square_text(t: Seq<u8>) -> Option<u8> {
    if t.len() == 2 && 97 <= t[0] <= 104 && 49 <= t[1] <= 56 {
        Some(((t[1] - 49) * 8 + (t[0] - 97)) as u8)
    } else {
        None
    }
}

/// The promotion piece named by a lower-case letter.
pub open spec fn promotion_letter(c: u8) -> Option<Piece> {
    if c == 113 {
        Some(Piece::Queen)
    } else if c == 114 {
        Some(Piece::Rook)
    } else if c == 98 {
        Some(Piece::Bishop)
    } else if c == 110 {
        Some(Piece::Knight)
    } else {
        None
    }
}

/// The origin, target and promotion a move text names: two squares, then an
/// optional promotion letter; anything after the fifth byte is ignored, and an
/// unknown fifth byte means no promotion.
pub open spec fn move_text(t: Seq<u8>) -> Option<(u8, u8, Option<Piece>)> {
    if t.len() < 4 {
        None
    } else {
        match (square_text(t.subrange(0, 2)), square_text(t.subrange(2, 4))) {
            (Some(from), Some(to)) => Some(
                (
                    from,
                    to,
                    if t.len() > 4 {
                        promotion_letter(t[4])
                    } else {
                        None
                    },
                ),
            ),
            _ => None,
        }
    }
}

/// The first move of `ms` with the given origin, target and promotion.
pub open spec fn first_match(ms: Seq<Move>, from: u8, to: u8, promotion: Option<Piece>) -> Option<
    Move,
>
    decreases ms.len(),
{
    if ms.len() == 0 {
        None
    } else if ms[0].from == from && ms[0].to == to && ms[0].promotion == promotion {
        Some(ms[0])
    } else {
        first_match(ms.drop_first(), from, to, promotion)
    }
}

/// The legal move a move text names on board `v`.
pub open spec fn parsed_move(v: BoardView, t: Seq<u8>) -> Option<Move> {
    match move_text(t) {
        Some((from, to, promotion)) => first_match(v.legal_moves(), from, to, promotion),
        None => None,
    }
}

/// Reads a square in coordinate notation.
pub fn square(s: &str) -> (r: Option<u8>)
    ensures
        r == square_text(s.spec_bytes()),
{
    let bytes = s.as_bytes();
    if bytes.len() != 2 {
        return None;
    }
    let r = square_bytes(bytes, 0);
    assert(bytes@.subrange(0, 2) =~= bytes@);
    r
}

/// Reads the square written at `bytes[i..i + 2]`, which must be all of `bytes`
/// from `i` on when `i + 2` is the end.
fn square_bytes(bytes: &[u8], i: usize) -> (r: Option<u8>)
    requires
        i <= bytes@.len(),
    ensures
        i + 2 == bytes@.len() ==> r == square_text(bytes@.subrange(i as int, i + 2)),
        i + 2 < bytes@.len() ==> r == square_text(bytes@.subrange(i as int, i + 2)),
        i + 2 > bytes@.len() ==> r is None && square_text(bytes@.subrange(i as int, bytes@.len() as int)) is None,
{
    if bytes.len() < 2 || i > bytes.len() - 2 {
        return None;
    }
    let file = bytes[i];
    let rank = bytes[i + 1];
    if file < 97 || file > 104 || rank < 49 || rank > 56 {
        return None;
    }
    Some((rank - 49) * 8 + (file - 97))
}

/// The promotion piece named by a lower-case letter.
pub fn promotion(c: u8) -> (p: Option<Piece>)
    ensures
        p == promotion_letter(c),
{
    if c == 113 {
        Some(Piece::Queen)
    } else if c == 114 {
        Some(Piece::Rook)
    } else if c == 98 {
        Some(Piece::Bishop)
    } else if c == 110 {
        Some(Piece::Knight)
    } else {
        None
    }
}

fn same_promotion(a: Option<Piece>, b: Option<Piece>) -> (r: bool)
    ensures
        r == (a == b),
{
    match (a, b) {
        (None, None) => true,
        (Some(x), Some(y)) => x == y,
        _ => false,
    }
}

proof fn lemma_first_match_skip(ms: Seq<Move>, i: int, from: u8, to: u8, promotion: Option<Piece>)
    requires
        0 <= i <= ms.len(),
        forall|k: int|
            0 <= k < i ==> !(#[trigger] ms[k].from == from && ms[k].to == to && ms[k].promotion
                == promotion),
    ensures
        first_match(ms, from, to, promotion) == first_match(ms.skip(i), from, to, promotion),
    decreases i,
{
    if i > 0 {
        assert(ms.skip(1) =~= ms.drop_first());
        assert forall|k: int| 0 <= k < i - 1 implies !(#[trigger] ms.skip(1)[k].from == from
            && ms.skip(1)[k].to == to && ms.skip(1)[k].promotion == promotion) by {
            assert(ms.skip(1)[k] == ms[k + 1]);
        }
        lemma_first_match_skip(ms.skip(1), i - 1, from, to, promotion);
        assert(ms.skip(1).skip(i - 1) =~= ms.skip(i));
    } else {
        assert(ms.skip(0) =~= ms);
    }
}

/// The legal move that a move text such as `e2e4` or `e7e8q` names.
pub fn parse_move(board: &Board, text: &str) -> (r: Option<Move>)
    ensures
        r == parsed_move(board@, text.spec_bytes()),
        r matches Some(m) ==> board@.playable(m),
{
    let bytes = text.as_bytes();
    let ghost t = text.spec_bytes();
    if bytes.len() < 4 {
        return None;
    }
    let from = match square_bytes(bytes, 0) {
        Some(s) => s,
        None => {
            return None;
        },
    };
    let to = match square_bytes(bytes, 2) {
        Some(s) => s,
        None => {
            return None;
        },
    };
    let promotion = if bytes.len() > 4 {
        promotion(bytes[4])
    } else {
        None
    };
    assert(move_text(t) == Some((from, to, promotion)));
    let moves = board.generate_legal_moves();
    let mut i: usize = 0;
    while i < moves.len()
        invariant
            i <= moves@.len(),
            moves@ == board@.legal_moves(),
            forall|k: int| 0 <= k < moves@.len() ==> board@.playable(#[trigger] moves@[k]),
            move_text(t) == Some((from, to, promotion)),
            t == text.spec_bytes(),
            forall|k: int|
                0 <= k < i ==> !(#[trigger] moves@[k].from == from && moves@[k].to == to
                    && moves@[k].promotion == promotion),
        decreases moves@.len() - i,
    {
        let mv = moves[i];
        if mv.from == from && mv.to == to && same_promotion(mv.promotion, promotion) {
            proof {
                lemma_first_match_skip(moves@, i as int, from, to, promotion);
                assert(moves@.skip(i as int)[0] == mv);
                assert(board@.playable(moves@[i as int]));
            }
            return Some(mv);
        }
        i = i + 1;
    }
    proof {
        lemma_first_match_skip(moves@, i as int, from, to, promotion);
        assert(moves@.skip(i as int) =~= Seq::<Move>::empty());
    }
    None
}

/// A square in coordinate notation, as bytes.
pub open spec fn square_bytes_of(s: u8) -> Seq<u8> {
    seq![(97 + s % 8) as u8, (49 + s / 8) as u8]
}

pub open spec fn promotion_byte(p: Piece) -> u8 {
    match p {
        Piece::Queen => 113,
        Piece::Rook => 114,
        Piece::Bishop => 98,
        _ => 110,
    }
}

/// A move in coordinate notation: origin, target, and the promotion letter.
pub open spec fn move_bytes(mv: Move) -> Seq<u8> {
    square_bytes_of(mv.from) + square_bytes_of(mv.to) + match mv.promotion {
        Some(p) => seq![promotion_byte(p)],
        None => seq![],
    }
}

/// `String::from_utf8` on ASCII bytes: the string of exactly those characters.
#[verifier::external_body]
fn ascii_string(bytes: Vec<u8>) -> (s: String)
    requires
        forall|k: int| 0 <= k < bytes@.len() ==> #[trigger] bytes@[k] < 128,
    ensures
        s@ == bytes@.map_values(|b: u8| b as char),
{
    match String::from_utf8(bytes) {
        Ok(s) => s,
        Err(_) => String::new(),
    }
}

/// Writes a move in coordinate notation, such as `e2e4` or `e7e8q`.
pub fn move_to_uci(mv: Move) -> (s: String)
    requires
        mv.promotion matches Some(p) ==> p != Piece::Pawn && p != Piece::King,
    ensures
        s@ == move_bytes(mv).map_values(|b: u8| b as char),
{
    let mut bytes: Vec<u8> = Vec::new();
    bytes.push(97 + mv.from % 8);
    bytes.push(49 + mv.from / 8);
    bytes.push(97 + mv.to % 8);
    bytes.push(49 + mv.to / 8);
    if let Some(piece) = mv.promotion {
        let letter = match piece {
            Piece::Queen => 113,
            Piece::Rook => 114,
            Piece::Bishop => 98,
            _ => 110,
        };
        bytes.push(letter);
    }
    assert(bytes@ =~= move_bytes(mv));
    ascii_string(bytes)
}

/// The decimal value of a text accepted by `str::parse` for unsigned numbers:
/// an optional `+` and at least one digit.
pub open spec fn decimal_text(t: Seq<u8>) -> Option<int> {
    let d = if t.len() > 0 && t[0] == 43 {
        t.drop_first()
    } else {
        t
    };
    if d.len() > 0 && all_digits(d) {
        Some(digits_value(d, d.len() as int))
    } else {
        None
    }
}

/// The number a text gives when it is at most `max`.
pub open spec fn number_up_to(t: Seq<u8>, max: int) -> Option<int> {
    match decimal_text(t) {
        Some(x) => if x <= max {
            Some(x)
        } else {
            None
        },
        None => None,
    }
}

proof fn lemma_digits_grow(f: Seq<u8>, i: int, n: int)
    requires
        0 <= i <= n <= f.len(),
        all_digits(f),
    ensures
        0 <= digits_value(f, i) <= digits_value(f, n),
    decreases n - i,
{
    if i < n {
        lemma_digits_grow(f, i, n - 1);
        assert(48 <= f[n - 1] <= 57);
    } else {
        lemma_digits_nonneg(f, i);
    }
}

proof fn lemma_digits_nonneg(f: Seq<u8>, i: int)
    requires
        0 <= i <= f.len(),
        all_digits(f),
    ensures
        0 <= digits_value(f, i),
    decreases i,
{
    if i > 0 {
        lemma_digits_nonneg(f, i - 1);
        assert(48 <= f[i - 1] <= 57);
    }
}

/// Reads an unsigned decimal number no larger than `max`.
fn parse_number(t: &[u8], max: u64) -> (r: Option<u64>)
    requires
        max >= 9,
    ensures
        r matches Some(x) ==> x <= max,
        match r {
            Some(x) => number_up_to(t@, max as int) == Some(x as int),
            None => number_up_to(t@, max as int) is None,
        },
{
    let start: usize = if t.len() > 0 && t[0] == 43 {
        1
    } else {
        0
    };
    let ghost d = if t@.len() > 0 && t@[0] == 43 {
        t@.drop_first()
    } else {
        t@
    };
    assert(d =~= t@.skip(start as int));
    if start >= t.len() {
        return None;
    }
    let mut i: usize = start;
    while i < t.len()
        invariant
            start <= i <= t@.len(),
            d =~= t@.skip(start as int),
            d == (if t@.len() > 0 && t@[0] == 43 {
                t@.drop_first()
            } else {
                t@
            }),
            forall|k: int| 0 <= k < i - start ==> 48 <= #[trigger] d[k] <= 57,
        decreases t@.len() - i,
    {
        if t[i] < 48 || t[i] > 57 {
            assert(d[i - start] == t@[i as int]);
            assert(!all_digits(d));
            assert(decimal_text(t@) is None);
            return None;
        }
        assert(d[i - start] == t@[i as int]);
        i = i + 1;
    }
    assert(all_digits(d));
    let mut acc: u64 = 0;
    let mut i: usize = start;
    while i < t.len()
        invariant
            start <= i <= t@.len(),
            d =~= t@.skip(start as int),
            d == (if t@.len() > 0 && t@[0] == 43 {
                t@.drop_first()
            } else {
                t@
            }),
            all_digits(d),
            acc == digits_value(d, i - start),
            acc <= max,
            max >= 9,
        decreases t@.len() - i,
    {
        assert(d[i - start] == t@[i as int]);
        assert(48 <= d[i - start] <= 57);
        let digit = (t[i] - 48) as u64;
        if acc > (max - digit) / 10 {
            proof {
                lemma_digits_grow(d, i - start + 1, d.len() as int);
                assert(acc * 10 + digit > max) by (nonlinear_arith)
                    requires
                        acc > (max - digit) / 10,
                        digit <= max,
                        0 <= digit <= 9,
                ;
            }
            return None;
        }
        assert(acc * 10 + digit <= max) by (nonlinear_arith)
            requires
                acc <= (max - digit) / 10,
                digit <= max,
                0 <= digit <= 9,
        ;
        acc = acc * 10 + digit;
        i = i + 1;
    }
    Some(acc)
}


/// The byte texts of command fields.
pub open spec fn field_bytes(fs: Seq<&str>) -> Seq<Seq<u8>> {
    fs.map_values(|f: &str| f.spec_bytes())
}

/// The number following the first field equal to `name` (from index `k`),
/// when it reads as a number no larger than `max`.
pub open spec fn number_after(fs: Seq<Seq<u8>>, name: Seq<u8>, max: int, k: int) -> Option<int>
    decreases fs.len() - k,
{
    if k < 0 || k + 1 >= fs.len() {
        None
    } else if fs[k] == name {
        number_up_to(fs[k + 1], max)
    } else {
        number_after(fs, name, max, k + 1)
    }
}

pub open spec fn name_wtime() -> Seq<u8> {
    seq![119u8, 116, 105, 109, 101]
}

pub open spec fn name_btime() -> Seq<u8> {
    seq![98u8, 116, 105, 109, 101]
}

pub open spec fn name_winc() -> Seq<u8> {
    seq![119u8, 105, 110, 99]
}

pub open spec fn name_binc() -> Seq<u8> {
    seq![98u8, 105, 110, 99]
}

pub open spec fn name_depth() -> Seq<u8> {
    seq![100u8, 101, 112, 116, 104]
}

pub open spec fn name_moves() -> Seq<u8> {
    seq![109u8, 111, 118, 101, 115]
}

/// The clock and increment fields of the side to move.
pub open spec fn clock_fields(side: Color, fs: Seq<Seq<u8>>) -> (Option<int>, Option<int>) {
    match side {
        Color::White => (
            number_after(fs, name_wtime(), u64::MAX as int, 0),
            number_after(fs, name_winc(), u64::MAX as int, 0),
        ),
        Color::Black => (
            number_after(fs, name_btime(), u64::MAX as int, 0),
            number_after(fs, name_binc(), u64::MAX as int, 0),
        ),
    }
}

/// The time to spend on a move, in milliseconds: one second without a clock;
/// else a thirtieth of the remaining time plus three quarters of the
/// increment, at least 1 and at most the remaining time less the overhead
/// (but at least 1).
pub open spec fn time_budget(remaining: Option<int>, increment: Option<int>) -> int {
    match remaining {
        None => 1000,
        Some(r) => {
            let inc = match increment {
                Some(i) => i,
                None => 0,
            };
            let preferred = r / 30 + inc * 3 / 4;
            let maximum_safe = if r > 200 {
                r - 200
            } else {
                1
            };
            if preferred < 1 {
                1
            } else if preferred > maximum_safe {
                maximum_safe
            } else {
                preferred
            }
        },
    }
}

/// The increment can be multiplied by three within a `u64`, as the budget
/// needs when there is a clock.
pub open spec fn budget_computable(remaining: Option<int>, increment: Option<int>) -> bool {
    remaining is Some ==> match increment {
        Some(i) => i * 3 <= u64::MAX,
        None => true,
    }
}

fn bytes_equal(a: &[u8], b: &[u8]) -> (r: bool)
    ensures
        r == (a@ == b@),
{
    if a.len() != b.len() {
        return false;
    }
    let mut i: usize = 0;
    while i < a.len()
        invariant
            i <= a@.len(),
            a@.len() == b@.len(),
            forall|k: int| 0 <= k < i ==> a@[k] == b@[k],
        decreases a@.len() - i,
    {
        if a[i] != b[i] {
            return false;
        }
        i = i + 1;
    }
    assert(a@ =~= b@);
    true
}

/// The number after the first field equal to `name`, if it reads as a number
/// no larger than `max`.
fn value_after(fields: &[&str], name: &[u8], max: u64) -> (r: Option<u64>)
    requires
        max >= 9,
    ensures
        r matches Some(x) ==> x <= max,
        match r {
            Some(x) => number_after(field_bytes(fields@), name@, max as int, 0) == Some(x as int),
            None => number_after(field_bytes(fields@), name@, max as int, 0) is None,
        },
{
    let ghost fs = field_bytes(fields@);
    let mut k: usize = 0;
    while k < fields.len() && k + 1 < fields.len()
        invariant
            k <= fields@.len(),
            max >= 9,
            fs == field_bytes(fields@),
            number_after(fs, name@, max as int, k as int) == number_after(fs, name@, max as int, 0),
        decreases fields@.len() - k,
    {
        if bytes_equal(fields[k].as_bytes(), name) {
            assert(fs[k as int] == fields@[k as int].spec_bytes());
            assert(fs[k + 1] == fields@[k + 1].spec_bytes());
            return parse_number(fields[k + 1].as_bytes(), max);
        }
        assert(fs[k as int] == fields@[k as int].spec_bytes());
        k = k + 1;
    }
    None
}

/// The time to spend on a move, in milliseconds, for the `go` fields `fields`
/// and the side to move of `board`.
pub fn go_time_limit(board: &Board, fields: &[&str]) -> (ms: u64)
    requires
        ({
            let (r, i) = clock_fields(board@.side_to_move, field_bytes(fields@));
            budget_computable(r, i)
        }),
    ensures
        ({
            let (r, i) = clock_fields(board@.side_to_move, field_bytes(fields@));
            ms == time_budget(r, i)
        }),
{
    let wtime: [u8; 5] = [119, 116, 105, 109, 101];
    let btime: [u8; 5] = [98, 116, 105, 109, 101];
    let winc: [u8; 4] = [119, 105, 110, 99];
    let binc: [u8; 4] = [98, 105, 110, 99];
    assert(wtime@ =~= name_wtime());
    assert(btime@ =~= name_btime());
    assert(winc@ =~= name_winc());
    assert(binc@ =~= name_binc());
    let (remaining, increment) = match board.side() {
        Color::White => (
            value_after(fields, &wtime, 0xFFFF_FFFF_FFFF_FFFF),
            value_after(fields, &winc, 0xFFFF_FFFF_FFFF_FFFF),
        ),
        Color::Black => (
            value_after(fields, &btime, 0xFFFF_FFFF_FFFF_FFFF),
            value_after(fields, &binc, 0xFFFF_FFFF_FFFF_FFFF),
        ),
    };
    let remaining = match remaining {
        Some(r) => r,
        None => {
            return 1000;
        },
    };
    let increment = match increment {
        Some(i) => i,
        None => 0,
    };

    // spend 1/30 of our time and most of the increment
    let prefered = remaining / 30 + increment * 3 / 4;

    let maximum_safe = if remaining > MOVE_OVERHEAD_MS {
        remaining - MOVE_OVERHEAD_MS
    } else {
        1
    };
    if prefered < 1 {
        1
    } else if prefered > maximum_safe {
        maximum_safe
    } else {
        prefered
    }
}

/// Whether `go_time_limit` can compute the budget for these fields: `None`
/// when the increment is too large to multiply by three, else the budget.
pub fn go_time_limit_checked(board: &Board, fields: &[&str]) -> (ms: Option<u64>)
    ensures
        ({
            let (r, i) = clock_fields(board@.side_to_move, field_bytes(fields@));
            &&& ms is None <==> !budget_computable(r, i)
            &&& ms matches Some(x) ==> x == time_budget(r, i)
        }),
{
    let wtime: [u8; 5] = [119, 116, 105, 109, 101];
    let btime: [u8; 5] = [98, 116, 105, 109, 101];
    let winc: [u8; 4] = [119, 105, 110, 99];
    let binc: [u8; 4] = [98, 105, 110, 99];
    assert(wtime@ =~= name_wtime());
    assert(btime@ =~= name_btime());
    assert(winc@ =~= name_winc());
    assert(binc@ =~= name_binc());
    let (remaining, increment) = match board.side() {
        Color::White => (
            value_after(fields, &wtime, 0xFFFF_FFFF_FFFF_FFFF),
            value_after(fields, &winc, 0xFFFF_FFFF_FFFF_FFFF),
        ),
        Color::Black => (
            value_after(fields, &btime, 0xFFFF_FFFF_FFFF_FFFF),
            value_after(fields, &binc, 0xFFFF_FFFF_FFFF_FFFF),
        ),
    };
    match (remaining, increment) {
        (Some(_), Some(i)) => {
            if i > 0x5555_5555_5555_5555 {
                return None;
            }
        },
        _ => {},
    }
    Some(go_time_limit(board, fields))
}

/// The depth a `go` command asks for: the number after `depth` when it reads
/// as a `u32`, else `MAX_SEARCH_DEPTH`.
pub fn go_depth(fields: &[&str]) -> (d: u32)
    ensures
        d == match number_after(field_bytes(fields@), name_depth(), u32::MAX as int, 0) {
            Some(x) => x,
            None => 64,
        },
{
    let depth: [u8; 5] = [100, 101, 112, 116, 104];
    assert(depth@ =~= name_depth());
    match value_after(fields, &depth, 0xFFFF_FFFF) {
        Some(d) => d as u32,
        None => MAX_SEARCH_DEPTH,
    }
}

/// The first index from `k` of a field equal to `name`.
pub open spec fn index_of(fs: Seq<Seq<u8>>, name: Seq<u8>, k: int) -> Option<int>
    decreases fs.len() - k,
{
    if k < 0 || k >= fs.len() {
        None
    } else if fs[k] == name {
        Some(k)
    } else {
        index_of(fs, name, k + 1)
    }
}

/// Plays the move texts `ts` from board `v` in turn, up to the first that
/// names no legal move; the final board and the number of moves played.
pub open spec fn play_texts(v: BoardView, ts: Seq<Seq<u8>>) -> (BoardView, int)
    decreases ts.len(),
{
    if ts.len() == 0 {
        (v, 0)
    } else {
        match parsed_move(v, ts[0]) {
            Some(m) => {
                let (w, n) = play_texts(v.after_move(m), ts.drop_first());
                (w, n + 1)
            },
            None => (v, 0),
        }
    }
}

/// The position of a `position startpos ...` command: the initial position
/// with the moves after the `moves` field played, up to the first move text
/// that names no legal move.
pub open spec fn startpos_with(rest: Seq<Seq<u8>>) -> (BoardView, int) {
    match index_of(rest, name_moves(), 0) {
        Some(k) => play_texts(start_view(), rest.skip(k + 1)),
        None => (start_view(), 0),
    }
}

/// Sets up the position of a `position startpos` command whose remaining
/// fields are `rest`. Returns the board, and the index in `rest` of the first
/// move text that names no legal move, if any.
pub fn position_startpos(rest: &[&str]) -> (r: (Board, Option<usize>))
    ensures
        r.0@ == startpos_with(field_bytes(rest@)).0,
        r.1 matches Some(k) ==> (k < rest@.len() && (index_of(field_bytes(rest@), name_moves(), 0)
            matches Some(j) && k == j + 1 + startpos_with(field_bytes(rest@)).1)),
        r.1 is None ==> (index_of(field_bytes(rest@), name_moves(), 0) matches Some(j) ==> j + 1
            + startpos_with(field_bytes(rest@)).1 == rest@.len()),
{
    let ghost fs = field_bytes(rest@);
    let mut board = Board::starting_position();
    let moves: [u8; 5] = [109, 111, 118, 101, 115];
    assert(moves@ =~= name_moves());
    let mut k: usize = 0;
    let mut found = false;
    while k < rest.len() && !found
        invariant
            k <= rest@.len(),
            fs == field_bytes(rest@),
            moves@ == name_moves(),
            !found ==> index_of(fs, name_moves(), k as int) == index_of(fs, name_moves(), 0),
            found ==> k < rest@.len() && index_of(fs, name_moves(), 0) == Some(k as int),
        decreases rest@.len() - k + if found {
            0int
        } else {
            1int
        },
    {
        assert(fs[k as int] == rest@[k as int].spec_bytes());
        if bytes_equal(rest[k].as_bytes(), &moves) {
            found = true;
        } else {
            k = k + 1;
        }
    }
    if !found {
        assert(board@ == startpos_with(fs).0);
        return (board, None);
    }
    let ghost start = k + 1;
    let ghost ts = fs.skip(start as int);
    let mut i: usize = k + 1;
    let mut failed = false;
    while i < rest.len() && !failed
        invariant
            start <= i <= rest@.len(),
            start == k + 1,
            fs == field_bytes(rest@),
            ts == fs.skip(start as int),
            index_of(fs, name_moves(), 0) == Some(k as int),
            !failed ==> play_texts(start_view(), ts) == ({
                let (w, n) = play_texts(board@, fs.skip(i as int));
                (w, n + (i - start))
            }),
            failed ==> i < rest@.len() && play_texts(start_view(), ts) == (board@, i - start)
                && parsed_move(board@, fs[i as int]) is None,
        decreases rest@.len() - i + if failed {
            0int
        } else {
            1int
        },
    {
        assert(fs[i as int] == rest@[i as int].spec_bytes());
        assert(fs.skip(i as int)[0] == fs[i as int]);
        assert(fs.skip(i as int).drop_first() =~= fs.skip(i + 1));
        match parse_move(&board, rest[i]) {
            Some(mv) => {
                board.make_move(mv);
                i = i + 1;
            },
            None => {
                failed = true;
            },
        }
    }
    if failed {
        (board, Some(i))
    } else {
        assert(fs.skip(i as int) =~= Seq::<Seq<u8>>::empty());
        (board, None)
    }
}


/// A UCI command line, by its leading fields.
#[derive(Copy, Clone, Debug, PartialEq, Eq, Structural)]
pub enum Command {
    /// `uci`: identify the engine.
    Identify,
    /// `isready`: answer that the engine is ready.
    Ready,
    /// `ucinewgame`: back to the initial position.
    NewGame,
    /// `position startpos ...`: the fields from index 2 set up the position.
    Position,
    /// `go ...`: the fields from index 1 give the search limits.
    Go,
    /// `quit`: stop reading commands.
    Quit,
    /// Anything else, which is ignored.
    Other,
}

pub open spec fn name_uci() -> Seq<u8> {
    seq![117u8, 99, 105]
}

pub open spec fn name_isready() -> Seq<u8> {
    seq![105u8, 115, 114, 101, 97, 100, 121]
}

pub open spec fn name_ucinewgame() -> Seq<u8> {
    seq![117u8, 99, 105, 110, 101, 119, 103, 97, 109, 101]
}

pub open spec fn name_position() -> Seq<u8> {
    seq![112u8, 111, 115, 105, 116, 105, 111, 110]
}

pub open spec fn name_startpos() -> Seq<u8> {
    seq![115u8, 116, 97, 114, 116, 112, 111, 115]
}

pub open spec fn name_go() -> Seq<u8> {
    seq![103u8, 111]
}

pub open spec fn name_quit() -> Seq<u8> {
    seq![113u8, 117, 105, 116]
}

/// The command the fields `fs` of a line make.
pub open spec fn command_of(fs: Seq<Seq<u8>>) -> Command {
    if fs.len() == 1 && fs[0] == name_uci() {
        Command::Identify
    } else if fs.len() == 1 && fs[0] == name_isready() {
        Command::Ready
    } else if fs.len() == 1 && fs[0] == name_ucinewgame() {
        Command::NewGame
    } else if fs.len() >= 2 && fs[0] == name_position() && fs[1] == name_startpos() {
        Command::Position
    } else if fs.len() >= 1 && fs[0] == name_go() {
        Command::Go
    } else if fs.len() == 1 && fs[0] == name_quit() {
        Command::Quit
    } else {
        Command::Other
    }
}

/// Reads which command the whitespace-separated fields of a line make.
pub fn read_command(fields: &[&str]) -> (c: Command)
    ensures
        c == command_of(field_bytes(fields@)),
{
    let ghost fs = field_bytes(fields@);
    let uci: [u8; 3] = [117, 99, 105];
    let isready: [u8; 7] = [105, 115, 114, 101, 97, 100, 121];
    let ucinewgame: [u8; 10] = [117, 99, 105, 110, 101, 119, 103, 97, 109, 101];
    let position: [u8; 8] = [112, 111, 115, 105, 116, 105, 111, 110];
    let startpos: [u8; 8] = [115, 116, 97, 114, 116, 112, 111, 115];
    let go: [u8; 2] = [103, 111];
    let quit: [u8; 4] = [113, 117, 105, 116];
    assert(uci@ =~= name_uci());
    assert(isready@ =~= name_isready());
    assert(ucinewgame@ =~= name_ucinewgame());
    assert(position@ =~= name_position());
    assert(startpos@ =~= name_startpos());
    assert(go@ =~= name_go());
    assert(quit@ =~= name_quit());
    if fields.len() == 0 {
        return Command::Other;
    }
    assert(fs[0] == fields@[0].spec_bytes());
    assert(fields@.len() >= 2 ==> fs[1] == fields@[1].spec_bytes());
    let first = fields[0].as_bytes();
    if fields.len() == 1 && bytes_equal(first, &uci) {
        Command::Identify
    } else if fields.len() == 1 && bytes_equal(first, &isready) {
        Command::Ready
    } else if fields.len() == 1 && bytes_equal(first, &ucinewgame) {
        Command::NewGame
    } else if fields.len() >= 2 && bytes_equal(first, &position) && bytes_equal(
        fields[1].as_bytes(),
        &startpos,
    ) {
        Command::Position
    } else if bytes_equal(first, &go) {
        Command::Go
    } else if fields.len() == 1 && bytes_equal(first, &quit) {
        Command::Quit
    } else {
        Command::Other
    }
}

proof fn lemma_square_text_round_trip(s: u8)
    requires
        s < 64,
    ensures
        square_text(square_bytes_of(s)) == Some(s),
{
    let t = square_bytes_of(s);
    assert(t[0] == (97 + s % 8) as u8);
    assert(t[1] == (49 + s / 8) as u8);
    assert((s / 8) * 8 + s % 8 == s);
}

/// Among moves `ms` that hold `m`, the first with `m`'s origin, target and
/// promotion is `m` itself.
proof fn lemma_first_match_finds(ms: Seq<Move>, m: Move)
    requires
        ms.contains(m),
    ensures
        first_match(ms, m.from, m.to, m.promotion) == Some(m),
    decreases ms.len(),
{
    if !(ms[0].from == m.from && ms[0].to == m.to && ms[0].promotion == m.promotion) {
        let j = choose|j: int| 0 <= j < ms.len() && ms[j] == m;
        assert(j > 0);
        assert(ms.drop_first()[j - 1] == m);
        lemma_first_match_finds(ms.drop_first(), m);
    }
}

/// Writing a legal move in coordinate notation and reading the text back on
/// the same board gives the same move; a legal move never promotes to a pawn
/// or a king, so it can always be written.
pub proof fn law_move_text_round_trip(v: BoardView, m: Move)
    requires
        v.legal_moves().contains(m),
    ensures
        m.promotion matches Some(p) ==> p != Piece::Pawn && p != Piece::King,
        parsed_move(v, move_bytes(m)) == Some(m),
{
    crate::board::movegen::law_moves_are_sound(v);
    let l = v.legal_moves();
    let j = choose|j: int| 0 <= j < l.len() && l[j] == m;
    assert(crate::board::movegen::sound_move(l[j]));
    let t = move_bytes(m);
    lemma_square_text_round_trip(m.from);
    lemma_square_text_round_trip(m.to);
    assert(t.subrange(0, 2) =~= square_bytes_of(m.from));
    assert(t.subrange(2, 4) =~= square_bytes_of(m.to));
    match m.promotion {
        Some(p) => {
            assert(t.len() == 5);
            assert(t[4] == promotion_byte(p));
            assert(promotion_letter(promotion_byte(p)) == Some(p));
        },
        None => {
            assert(t.len() == 4);
        },
    }
    assert(move_text(t) == Some((m.from, m.to, m.promotion)));
    lemma_first_match_finds(l, m);
}

/// What the front end does after one command line.
#[derive(Copy, Clone, Debug, PartialEq, Eq, Structural)]
pub enum Action {
    /// Print the engine's name, authors and `uciok`.
    Identify,
    /// Print `readyok`.
    ReadyOk,
    /// Nothing to print.
    Nothing,
    /// Setting up the position stopped at the move text at this index of the
    /// line's fields, which names no legal move.
    InvalidMove(usize),
    /// Search the board to this depth within this many milliseconds.
    Search(u32, u64),
    /// The `go` command's time budget does not fit in 64 bits.
    BudgetOverflow,
    /// Stop reading commands.
    Quit,
}

/// The index in `rest` of the first move text after `moves` that names no
/// legal move, when setting up `position startpos` with fields `rest`.
pub open spec fn startpos_invalid(rest: Seq<Seq<u8>>) -> Option<int> {
    match index_of(rest, name_moves(), 0) {
        Some(j) => if j + 1 + startpos_with(rest).1 < rest.len() {
            Some(j + 1 + startpos_with(rest).1)
        } else {
            None
        },
        None => None,
    }
}

/// The depth a `go` command with fields `rest` asks for.
pub open spec fn go_depth_of(rest: Seq<Seq<u8>>) -> int {
    match number_after(rest, name_depth(), u32::MAX as int, 0) {
        Some(x) => x,
        None => 64,
    }
}

/// How one command line with fields `fs` changes the board `before` into
/// `after`, and what the front end does then.
pub open spec fn uci_effect(before: BoardView, fs: Seq<Seq<u8>>, after: BoardView, a: Action) -> bool {
    match command_of(fs) {
        Command::Identify => after == before && a == Action::Identify,
        Command::Ready => after == before && a == Action::ReadyOk,
        Command::NewGame => after == start_view() && a == Action::Nothing,
        Command::Position => {
            let rest = fs.skip(2);
            &&& after == startpos_with(rest).0
            &&& a == match startpos_invalid(rest) {
                Some(k) => Action::InvalidMove((k + 2) as usize),
                None => Action::Nothing,
            }
        },
        Command::Go => {
            let rest = fs.skip(1);
            let (r, i) = clock_fields(before.side_to_move, rest);
            &&& after == before
            &&& a == if budget_computable(r, i) {
                Action::Search(go_depth_of(rest) as u32, time_budget(r, i) as u64)
            } else {
                Action::BudgetOverflow
            }
        },
        Command::Quit => after == before && a == Action::Quit,
        Command::Other => after == before && a == Action::Nothing,
    }
}

/// Carries out one UCI command line on the board and says what remains to be
/// done: what to print, or the search to run.
pub fn uci_step(board: &mut Board, fields: &[&str]) -> (a: Action)
    ensures
        uci_effect(old(board)@, field_bytes(fields@), final(board)@, a),
{
    let ghost fs = field_bytes(fields@);
    match read_command(fields) {
        Command::Identify => Action::Identify,
        Command::Ready => Action::ReadyOk,
        Command::NewGame => {
            *board = Board::starting_position();
            Action::Nothing
        },
        Command::Position => {
            let (_, rest) = fields.split_at(2);
            assert(field_bytes(rest@) =~= fs.skip(2));
            let (position, invalid) = position_startpos(rest);
            *board = position;
            match invalid {
                Some(k) => {
                    let n = fields.len();
                    assert(k < rest@.len() && rest@.len() == n - 2);
                    Action::InvalidMove(k + 2)
                },
                None => Action::Nothing,
            }
        },
        Command::Go => {
            let (_, rest) = fields.split_at(1);
            assert(field_bytes(rest@) =~= fs.skip(1));
            let depth = go_depth(rest);
            match go_time_limit_checked(board, rest) {
                Some(budget) => Action::Search(depth, budget),
                None => Action::BudgetOverflow,
            }
        },
        Command::Quit => Action::Quit,
        Command::Other => Action::Nothing,
    }
}

} // verus!
