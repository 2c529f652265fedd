//! Move generation: the pseudo-legal moves of a position in the order the
//! generator produces them, and the legal moves among them.
use vstd::prelude::*;
use crate::bits::{group_bits, has_bit, lemma_pop_lowest, lemma_test_bit, square_bit};
use super::{
    lemma_square_coords,
    Board, BoardView, Color, Move, Piece, diagonal_df, diagonal_dr, diagonal_offset,
    en_passant_victim, is_direction, knight_df, knight_dr, knight_offset, on_board,
    ray_measure, square_of, straight_df, straight_dr, straight_offset, BLACK_KINGSIDE,
    BLACK_QUEENSIDE, WHITE_KINGSIDE, WHITE_QUEENSIDE,
};

verus! {

broadcast use group_bits;

/// The directions a sliding piece moves in.
#[derive(Clone, Copy, Debug, PartialEq, Eq, Structural)]
pub enum Rays {
    Diagonal,
    Straight,
    Both,
}

pub open spec fn ray_count(rays: Rays) -> int {
    match rays {
        Rays::Both => 8,
        _ => 4,
    }
}

pub open spec fn ray_df(rays: Rays, i: int) -> int {
    match rays {
        Rays::Diagonal => diagonal_df(i),
        Rays::Straight => straight_df(i),
        Rays::Both => if i < 4 {
            diagonal_df(i)
        } else {
            straight_df(i - 4)
        },
    }
}

pub open spec fn ray_dr(rays: Rays, i: int) -> int {
    match rays {
        Rays::Diagonal => diagonal_dr(i),
        Rays::Straight => straight_dr(i),
        Rays::Both => if i < 4 {
            diagonal_dr(i)
        } else {
            straight_dr(i - 4)
        },
    }
}

fn ray_offset(rays: Rays, i: usize) -> (d: (i8, i8))
    requires
        i < ray_count(rays),
    ensures
        d.0 == ray_df(rays, i as int),
        d.1 == ray_dr(rays, i as int),
        is_direction(d.0 as int, d.1 as int),
{
    match rays {
        Rays::Diagonal => diagonal_offset(i),
        Rays::Straight => straight_offset(i),
        Rays::Both => if i < 4 {
            diagonal_offset(i)
        } else {
            straight_offset(i - 4)
        },
    }
}

pub open spec fn mk_move(from: int, to: int, promotion: Option<Piece>) -> Move {
    Move { from: from as u8, to: to as u8, promotion }
}

/// A pawn move from `from` to `to`: the four promotions (queen, rook, bishop,
/// knight) when `to` is on the first or last rank, else the plain move.
pub open spec fn pawn_move_set(from: int, to: int) -> Seq<Move> {
    if to / 8 == 0 || to / 8 == 7 {
        seq![
            mk_move(from, to, Some(Piece::Queen)),
            mk_move(from, to, Some(Piece::Rook)),
            mk_move(from, to, Some(Piece::Bishop)),
            mk_move(from, to, Some(Piece::Knight)),
        ]
    } else {
        seq![mk_move(from, to, None)]
    }
}

/// The moves of a sliding piece on `from` along one ray, starting at (`f`,
/// `r`): it stops before an own piece or the enemy king, and after the first
/// enemy piece, which it may take.
pub open spec fn ray_moves(
    from: int,
    f: int,
    r: int,
    df: int,
    dr: int,
    own: u64,
    enemy: u64,
    enemy_king: u64,
) -> Seq<Move>
    decreases ray_measure(f, r, df, dr),
{
    if !on_board(f, r) || !is_direction(df, dr) {
        seq![]
    } else {
        let t = square_of(f, r);
        if has_bit(own, t) || has_bit(enemy_king, t) {
            seq![]
        } else if has_bit(enemy, t) {
            seq![mk_move(from, t, None)]
        } else {
            seq![mk_move(from, t, None)] + ray_moves(
                from,
                f + df,
                r + dr,
                df,
                dr,
                own,
                enemy,
                enemy_king,
            )
        }
    }
}

/// The moves of a sliding piece on `from` along its first `n` rays.
pub open spec fn slider_rays(
    from: int,
    own: u64,
    enemy: u64,
    enemy_king: u64,
    rays: Rays,
    n: int,
) -> Seq<Move>
    decreases n,
{
    if n <= 0 {
        seq![]
    } else {
        slider_rays(from, own, enemy, enemy_king, rays, n - 1) + ray_moves(
            from,
            from % 8 + ray_df(rays, n - 1),
            from / 8 + ray_dr(rays, n - 1),
            ray_df(rays, n - 1),
            ray_dr(rays, n - 1),
            own,
            enemy,
            enemy_king,
        )
    }
}

/// A single step from `from` by (`df`, `dr`) onto a square that holds neither
/// an own piece nor the enemy king.
pub open spec fn step_move(from: int, df: int, dr: int, own: u64, enemy_king: u64) -> Seq<Move> {
    let f = from % 8 + df;
    let r = from / 8 + dr;
    if on_board(f, r) && !has_bit(own, square_of(f, r)) && !has_bit(enemy_king, square_of(f, r)) {
        seq![mk_move(from, square_of(f, r), None)]
    } else {
        seq![]
    }
}

/// The knight moves from `from` using the first `n` jumps.
pub open spec fn knight_jumps(from: int, own: u64, enemy_king: u64, n: int) -> Seq<Move>
    decreases n,
{
    if n <= 0 {
        seq![]
    } else {
        knight_jumps(from, own, enemy_king, n - 1) + step_move(
            from,
            knight_df(n - 1),
            knight_dr(n - 1),
            own,
            enemy_king,
        )
    }
}

/// The king moves from `from` using the first `n` of the eight directions.
pub open spec fn king_steps(from: int, own: u64, enemy_king: u64, n: int) -> Seq<Move>
    decreases n,
{
    if n <= 0 {
        seq![]
    } else {
        king_steps(from, own, enemy_king, n - 1) + step_move(
            from,
            ray_df(Rays::Both, n - 1),
            ray_dr(Rays::Both, n - 1),
            own,
            enemy_king,
        )
    }
}

/// Which per-square generator a bitboard walk applies.
pub enum SquareGen {
    Pawns(BoardView),
    Knights(u64, u64),
    Sliders(u64, u64, u64, Rays),
}

pub open spec fn gen_at(g: SquareGen, s: int) -> Seq<Move> {
    match g {
        SquareGen::Pawns(v) => v.pawn_moves_from(s),
        SquareGen::Knights(own, enemy_king) => knight_jumps(s, own, enemy_king, 8),
        SquareGen::Sliders(own, enemy, enemy_king, rays) => slider_rays(
            s,
            own,
            enemy,
            enemy_king,
            rays,
            ray_count(rays),
        ),
    }
}

/// The moves of the pieces on the squares of `bb` below `n`, square by square
/// in increasing order.
pub open spec fn gen_upto(bb: u64, n: int, g: SquareGen) -> Seq<Move>
    decreases n,
{
    if n <= 0 {
        seq![]
    } else {
        gen_upto(bb, n - 1, g) + if has_bit(bb, n - 1) {
            gen_at(g, n - 1)
        } else {
            seq![]
        }
    }
}

proof fn lemma_gen_skip(bb: u64, lo: int, hi: int, g: SquareGen)
    requires
        0 <= lo <= hi,
        forall|j: int| lo <= j < hi ==> !#[trigger] has_bit(bb, j),
    ensures
        gen_upto(bb, hi, g) == gen_upto(bb, lo, g),
    decreases hi - lo,
{
    if hi > lo {
        lemma_gen_skip(bb, lo, hi - 1, g);
        assert(!has_bit(bb, hi - 1));
        assert(gen_upto(bb, hi, g) =~= gen_upto(bb, hi - 1, g));
    }
}

/// One step of walking the set squares of `bb` from low to high: `rem` holds
/// the squares of `bb` from `lo` upwards.
proof fn lemma_gen_advance(bb: u64, rem: u64, lo: int, g: SquareGen)
    requires
        rem != 0,
        0 <= lo <= 64,
        forall|j: int| #[trigger] has_bit(rem, j) == (has_bit(bb, j) && j >= lo),
    ensures
        lo <= rem.trailing_zeros() < 64,
        has_bit(bb, rem.trailing_zeros() as int),
        forall|j: int| #[trigger]
            has_bit(rem & ((rem - 1) as u64), j) == (has_bit(bb, j) && j >= rem.trailing_zeros()
                + 1),
        gen_upto(bb, rem.trailing_zeros() + 1, g) == gen_upto(bb, lo, g) + gen_at(
            g,
            rem.trailing_zeros() as int,
        ),
{
    lemma_pop_lowest(rem);
    let t = rem.trailing_zeros() as int;
    if t < lo {
        assert(has_bit(rem, t));
    }
    assert forall|j: int| lo <= j < t implies !#[trigger] has_bit(bb, j) by {
        assert(!has_bit(rem, j));
    }
    lemma_gen_skip(bb, lo, t, g);
    assert(has_bit(rem, t));
    assert forall|j: int| #[trigger]
        has_bit(rem & ((rem - 1) as u64), j) == (has_bit(bb, j) && j >= t + 1) by {
        if j < t && j >= lo {
            assert(!has_bit(rem, j));
        }
    }
}

proof fn lemma_gen_done(bb: u64, rem: u64, lo: int, g: SquareGen)
    requires
        rem == 0,
        0 <= lo <= 64,
        forall|j: int| #[trigger] has_bit(rem, j) == (has_bit(bb, j) && j >= lo),
    ensures
        gen_upto(bb, 64, g) == gen_upto(bb, lo, g),
{
    assert forall|j: int| lo <= j < 64 implies !#[trigger] has_bit(bb, j) by {
        assert(!has_bit(rem, j));
    }
    lemma_gen_skip(bb, lo, 64, g);
}

impl BoardView {
    /// The rank direction the side to move's pawns advance in.
    pub open spec fn pawn_dir(self) -> int {
        if self.side_to_move == Color::White {
            1
        } else {
            -1
        }
    }

    /// The square `t` is the en-passant square, it is empty, and an enemy pawn
    /// stands behind it.
    pub open spec fn ep_target(self, t: int) -> bool {
        let us = self.side_to_move;
        &&& self.en_passant == Some(t as u8)
        &&& !has_bit(self.occupied(), t)
        &&& has_bit(self.bb(us.other(), Piece::Pawn), en_passant_victim(us, t))
    }

    /// The pawn capture from `from` towards file offset `df`.
    pub open spec fn pawn_capture(self, from: int, df: int) -> Seq<Move> {
        let them = self.side_to_move.other();
        let f = from % 8 + df;
        let r = from / 8 + self.pawn_dir();
        let t = square_of(f, r);
        if on_board(f, r) && ((has_bit(self.occ(them), t) && !has_bit(
            self.bb(them, Piece::King),
            t,
        )) || self.ep_target(t)) {
            pawn_move_set(from, t)
        } else {
            seq![]
        }
    }

    /// The pawn pushes from `from`: one square forward onto an empty square,
    /// and from the starting rank a second square if that is empty too.
    pub open spec fn pawn_pushes(self, from: int) -> Seq<Move> {
        let f = from % 8;
        let r = from / 8;
        let dir = self.pawn_dir();
        let start_rank: int = if self.side_to_move == Color::White {
            1
        } else {
            6
        };
        let occ = self.occupied();
        if on_board(f, r + dir) && !has_bit(occ, square_of(f, r + dir)) {
            pawn_move_set(from, square_of(f, r + dir)) + if r == start_rank && on_board(
                f,
                r + 2 * dir,
            ) && !has_bit(occ, square_of(f, r + 2 * dir)) {
                seq![mk_move(from, square_of(f, r + 2 * dir), None)]
            } else {
                seq![]
            }
        } else {
            seq![]
        }
    }

    /// The moves of a pawn of the side to move on `from`.
    pub open spec fn pawn_moves_from(self, from: int) -> Seq<Move> {
        self.pawn_pushes(from) + self.pawn_capture(from, -1) + self.pawn_capture(from, 1)
    }

    /// The castling moves of the side to move: the king on its home square,
    /// the right still held, the rook on its corner, the squares between them
    /// empty, and the king's square and the two it crosses not attacked.
    pub open spec fn castle_moves(self) -> Seq<Move> {
        let us = self.side_to_move;
        let them = us.other();
        let home: int = if us == Color::White {
            4
        } else {
            60
        };
        let king_right: u8 = if us == Color::White {
            1
        } else {
            4
        };
        let queen_right: u8 = if us == Color::White {
            2
        } else {
            8
        };
        let occ = self.occupied();
        let base = has_bit(self.bb(us, Piece::King), home) && !self.attacked(home, them);
        let kingside = self.castling_rights & king_right != 0 && base && has_bit(
            self.bb(us, Piece::Rook),
            home + 3,
        ) && !has_bit(occ, home + 1) && !has_bit(occ, home + 2) && !self.attacked(home + 1, them)
            && !self.attacked(home + 2, them);
        let queenside = self.castling_rights & queen_right != 0 && base && has_bit(
            self.bb(us, Piece::Rook),
            home - 4,
        ) && !has_bit(occ, home - 1) && !has_bit(occ, home - 2) && !has_bit(occ, home - 3)
            && !self.attacked(home - 1, them) && !self.attacked(home - 2, them);
        (if kingside {
            seq![mk_move(home, home + 2, None)]
        } else {
            seq![]
        }) + (if queenside {
            seq![mk_move(home, home - 2, None)]
        } else {
            seq![]
        })
    }

    /// The king moves of the side to move (for its lowest king, if it has one).
    pub open spec fn king_moves(self) -> Seq<Move> {
        let us = self.side_to_move;
        let them = us.other();
        match self.king_sq(us) {
            Some(s) => king_steps(s, self.occ(us), self.bb(them, Piece::King), 8),
            None => seq![],
        }
    }

    /// The pseudo-legal moves of the side to move, in generation order:
    /// pawns, knights, bishops, rooks, queens, the king, castling. Pieces are
    /// taken square by square from a1 to h8. No move takes the enemy king.
    pub open spec fn pseudo_moves(self) -> Seq<Move> {
        let us = self.side_to_move;
        let them = us.other();
        let own = self.occ(us);
        let enemy = self.occ(them);
        let enemy_king = self.bb(them, Piece::King);
        gen_upto(self.bb(us, Piece::Pawn), 64, SquareGen::Pawns(self)) + gen_upto(
            self.bb(us, Piece::Knight),
            64,
            SquareGen::Knights(own, enemy_king),
        ) + gen_upto(
            self.bb(us, Piece::Bishop),
            64,
            SquareGen::Sliders(own, enemy, enemy_king, Rays::Diagonal),
        ) + gen_upto(
            self.bb(us, Piece::Rook),
            64,
            SquareGen::Sliders(own, enemy, enemy_king, Rays::Straight),
        ) + gen_upto(
            self.bb(us, Piece::Queen),
            64,
            SquareGen::Sliders(own, enemy, enemy_king, Rays::Both),
        ) + self.king_moves() + self.castle_moves()
    }

    /// The moves of `ms` after which the mover's own king is not in check.
    pub open spec fn keep_legal(self, ms: Seq<Move>) -> Seq<Move>
        decreases ms.len(),
    {
        if ms.len() == 0 {
            seq![]
        } else {
            self.keep_legal(ms.drop_last()) + if self.after_move(ms.last()).in_check(
                self.side_to_move,
            ) {
                seq![]
            } else {
                seq![ms.last()]
            }
        }
    }

    /// The legal moves of the side to move, in generation order.
    pub open spec fn legal_moves(self) -> Seq<Move> {
        self.keep_legal(self.pseudo_moves())
    }

    /// A move that `make_move` accepts on this board: both squares on the board
    /// and a piece of the side to move on the origin square.
    pub open spec fn playable(self, m: Move) -> bool {
        m.from < 64 && m.to < 64 && self.piece_on(self.side_to_move, m.from as int) is Some
    }
}

/// Every move of `ms` starts on a square of `bb` and ends on the board.
pub open spec fn moves_from_in(ms: Seq<Move>, bb: u64) -> bool {
    forall|k: int| #![trigger ms[k]] 0 <= k < ms.len() ==> has_bit(bb, ms[k].from as int) && ms[k].to < 64
}

impl Board {
    /// Appends the move from `from` to `to`, as the four promotions when `to`
    /// is on the first or last rank.
    fn push_pawn_move(moves: &mut Vec<Move>, from: u8, to: u8)
        requires
            to < 64,
        ensures
            final(moves)@ == old(moves)@ + pawn_move_set(from as int, to as int),
    {
        let rank = to / 8;
        if rank == 0 || rank == 7 {
            moves.push(Move { from, to, promotion: Some(Piece::Queen) });
            moves.push(Move { from, to, promotion: Some(Piece::Rook) });
            moves.push(Move { from, to, promotion: Some(Piece::Bishop) });
            moves.push(Move { from, to, promotion: Some(Piece::Knight) });
        } else {
            moves.push(Move { from, to, promotion: None });
        }
        assert(final(moves)@ =~= old(moves)@ + pawn_move_set(from as int, to as int));
    }

    /// Appends the moves along one ray of a sliding piece on `from`.
    fn ray_moves(
        moves: &mut Vec<Move>,
        from: u8,
        file: i8,
        rank: i8,
        df: i8,
        dr: i8,
        own: u64,
        enemy: u64,
        enemy_king: u64,
    )
        requires
            from < 64,
            on_board(file as int, rank as int),
            is_direction(df as int, dr as int),
        ensures
            final(moves)@ == old(moves)@ + ray_moves(
                from as int,
                file + df,
                rank + dr,
                df as int,
                dr as int,
                own,
                enemy,
                enemy_king,
            ),
    {
        let ghost total = old(moves)@ + ray_moves(
            from as int,
            file + df,
            rank + dr,
            df as int,
            dr as int,
            own,
            enemy,
            enemy_king,
        );
        let mut f = file + df;
        let mut r = rank + dr;
        let mut done = false;
        while !done && 0 <= r && r < 8 && 0 <= f && f < 8
            invariant
                -1 <= f <= 8,
                -1 <= r <= 8,
                from < 64,
                is_direction(df as int, dr as int),
                !done ==> total == moves@ + ray_moves(
                    from as int,
                    f as int,
                    r as int,
                    df as int,
                    dr as int,
                    own,
                    enemy,
                    enemy_king,
                ),
                done ==> total == moves@,
            decreases ray_measure(f as int, r as int, df as int, dr as int) + if done {
                0int
            } else {
                1int
            },
        {
            let to = (r * 8 + f) as u8;
            let bit = 1u64 << (to as u64);
            proof {
                lemma_test_bit(own, to as int);
                lemma_test_bit(enemy, to as int);
                lemma_test_bit(enemy_king, to as int);
            }
            // enemy king is never taken
            if own & bit != 0 || enemy_king & bit != 0 {
                assert(total =~= moves@);
                done = true;
            } else {
                moves.push(Move { from, to, promotion: None });
                if enemy & bit != 0 {
                    assert(total =~= moves@);
                    done = true;
                } else {
                    assert(total =~= moves@ + ray_moves(
                        from as int,
                        f + df,
                        r + dr,
                        df as int,
                        dr as int,
                        own,
                        enemy,
                        enemy_king,
                    ));
                    f = f + df;
                    r = r + dr;
                }
            }
        }
        if !done {
            assert(total =~= moves@);
        }
    }

    /// Appends the moves of a sliding piece on `from` along each of its rays.
    fn slider_moves_from(
        moves: &mut Vec<Move>,
        from: u8,
        own: u64,
        enemy: u64,
        enemy_king: u64,
        rays: Rays,
    )
        requires
            from < 64,
        ensures
            final(moves)@ == old(moves)@ + slider_rays(
                from as int,
                own,
                enemy,
                enemy_king,
                rays,
                ray_count(rays),
            ),
    {
        let file = (from % 8) as i8;
        let rank = (from / 8) as i8;
        let count: usize = match rays {
            Rays::Both => 8,
            _ => 4,
        };
        let mut i: usize = 0;
        while i < count
            invariant
                i <= count,
                count == ray_count(rays),
                from < 64,
                file == from % 8,
                rank == from / 8,
                moves@ == old(moves)@ + slider_rays(
                    from as int,
                    own,
                    enemy,
                    enemy_king,
                    rays,
                    i as int,
                ),
            decreases count - i,
        {
            let (df, dr) = ray_offset(rays, i);
            Self::ray_moves(moves, from, file, rank, df, dr, own, enemy, enemy_king);
            assert(moves@ =~= old(moves)@ + slider_rays(
                from as int,
                own,
                enemy,
                enemy_king,
                rays,
                i + 1,
            ));
            i = i + 1;
        }
    }

    /// Appends the moves of every sliding piece in `pieces`, square by square.
    fn slider_moves(
        moves: &mut Vec<Move>,
        pieces: u64,
        own: u64,
        enemy: u64,
        enemy_king: u64,
        rays: Rays,
    )
        ensures
            final(moves)@ == old(moves)@ + gen_upto(
                pieces,
                64,
                SquareGen::Sliders(own, enemy, enemy_king, rays),
            ),
            moves_from_in(final(moves)@.skip(old(moves)@.len() as int), pieces),
    {
        let ghost g = SquareGen::Sliders(own, enemy, enemy_king, rays);
        let mut rem = pieces;
        let ghost mut lo: int = 0;
        while rem != 0
            invariant
                0 <= lo <= 64,
                forall|j: int| #[trigger] has_bit(rem, j) == (has_bit(pieces, j) && j >= lo),
                moves@ == old(moves)@ + gen_upto(pieces, lo, g),
                moves_from_in(moves@.skip(old(moves)@.len() as int), pieces),
                g == SquareGen::Sliders(own, enemy, enemy_king, rays),
            decreases 64 - lo,
        {
            proof {
                lemma_gen_advance(pieces, rem, lo, g);
            }
            let from = rem.trailing_zeros() as u8;
            rem = rem & (rem - 1);
            let ghost before = moves@;
            Self::slider_moves_from(moves, from, own, enemy, enemy_king, rays);
            proof {
                lemma_slider_rays_shape(
                    from as int,
                    own,
                    enemy,
                    enemy_king,
                    rays,
                    ray_count(rays),
                );
                lemma_moves_from_append(
                    before.skip(old(moves)@.len() as int),
                    slider_rays(from as int, own, enemy, enemy_king, rays, ray_count(rays)),
                    pieces,
                    from as int,
                );
                assert(moves@.skip(old(moves)@.len() as int) =~= before.skip(
                    old(moves)@.len() as int,
                ) + slider_rays(from as int, own, enemy, enemy_king, rays, ray_count(rays)));
                lo = from + 1;
            }
        }
        proof {
            lemma_gen_done(pieces, rem, lo, g);
        }
    }
}

impl Board {
    /// Appends the moves of the side to move's pawn on `from`.
    fn pawn_moves_from(
        &self,
        moves: &mut Vec<Move>,
        from: u8,
        occupied: u64,
        enemy: u64,
        enemy_king: u64,
        enemy_pawns: u64,
    )
        requires
            from < 64,
            occupied == self@.occupied(),
            enemy == self@.occ(self@.side_to_move.other()),
            enemy_king == self@.bb(self@.side_to_move.other(), Piece::King),
            enemy_pawns == self@.bb(self@.side_to_move.other(), Piece::Pawn),
        ensures
            final(moves)@ == old(moves)@ + self@.pawn_moves_from(from as int),
    {
        let ghost v = self@;
        let white = match self.side_to_move {
            Color::White => true,
            Color::Black => false,
        };
        let direction: i8 = if white {
            1
        } else {
            -1
        };
        let start_rank: i8 = if white {
            1
        } else {
            6
        };
        let file = (from % 8) as i8;
        let rank = (from / 8) as i8;
        let next_rank = rank + direction;

        // one square pawn push
        if 0 <= next_rank && next_rank < 8 {
            let to = (next_rank * 8 + file) as u8;
            let bit = 1u64 << (to as u64);
            proof {
                lemma_test_bit(occupied, to as int);
            }
            if occupied & bit == 0 {
                Self::push_pawn_move(moves, from, to);

                // two square pawn push
                if rank == start_rank {
                    let double_rank = rank + 2 * direction;
                    if 0 <= double_rank && double_rank < 8 {
                        let double_to = (double_rank * 8 + file) as u8;
                        let double_bit = 1u64 << (double_to as u64);
                        proof {
                            lemma_test_bit(occupied, double_to as int);
                        }
                        if occupied & double_bit == 0 {
                            moves.push(Move { from, to: double_to, promotion: None });
                        }
                    }
                }
            }
        }
        assert(moves@ =~= old(moves)@ + v.pawn_pushes(from as int));
        let ghost after_pushes = moves@;

        // pawn captures
        self.pawn_capture(moves, from, -1, occupied, enemy, enemy_king, enemy_pawns);
        self.pawn_capture(moves, from, 1, occupied, enemy, enemy_king, enemy_pawns);
        assert(moves@ =~= old(moves)@ + v.pawn_moves_from(from as int));
    }

    /// Appends the capture of the side to move's pawn on `from` towards file
    /// offset `df`, en passant included.
    fn pawn_capture(
        &self,
        moves: &mut Vec<Move>,
        from: u8,
        df: i8,
        occupied: u64,
        enemy: u64,
        enemy_king: u64,
        enemy_pawns: u64,
    )
        requires
            from < 64,
            df == -1 || df == 1,
            occupied == self@.occupied(),
            enemy == self@.occ(self@.side_to_move.other()),
            enemy_king == self@.bb(self@.side_to_move.other(), Piece::King),
            enemy_pawns == self@.bb(self@.side_to_move.other(), Piece::Pawn),
        ensures
            final(moves)@ == old(moves)@ + self@.pawn_capture(from as int, df as int),
    {
        let ghost v = self@;
        let white = match self.side_to_move {
            Color::White => true,
            Color::Black => false,
        };
        let direction: i8 = if white {
            1
        } else {
            -1
        };
        let file = (from % 8) as i8;
        let rank = (from / 8) as i8;
        let capture_file = file + df;
        let capture_rank = rank + direction;
        if 0 <= capture_file && capture_file < 8 && 0 <= capture_rank && capture_rank < 8 {
            let to = (capture_rank * 8 + capture_file) as u8;
            let bit = 1u64 << (to as u64);
            let victim: u8 = if white {
                to - 8
            } else {
                to + 8
            };
            proof {
                lemma_test_bit(occupied, to as int);
                lemma_test_bit(enemy, to as int);
                lemma_test_bit(enemy_king, to as int);
                lemma_test_bit(enemy_pawns, victim as int);
            }
            let is_en_passant = match self.en_passant {
                Some(ep) => ep == to && occupied & bit == 0 && enemy_pawns & (1u64 << (
                victim as u64)) != 0,
                None => false,
            };
            assert(is_en_passant == v.ep_target(to as int));
            if (enemy & bit != 0 && enemy_king & bit == 0) || is_en_passant {
                Self::push_pawn_move(moves, from, to);
            }
        }
    }

    /// Appends the moves of every pawn of the side to move, square by square.
    fn pawn_moves(&self, moves: &mut Vec<Move>, occupied: u64, enemy: u64, enemy_king: u64)
        requires
            occupied == self@.occupied(),
            enemy == self@.occ(self@.side_to_move.other()),
            enemy_king == self@.bb(self@.side_to_move.other(), Piece::King),
        ensures
            final(moves)@ == old(moves)@ + gen_upto(
                self@.bb(self@.side_to_move, Piece::Pawn),
                64,
                SquareGen::Pawns(self@),
            ),
            moves_from_in(
                final(moves)@.skip(old(moves)@.len() as int),
                self@.bb(self@.side_to_move, Piece::Pawn),
            ),
    {
        let pawns = self.bitboard(self.side_to_move, Piece::Pawn);
        let enemy_pawns = self.bitboard(self.side_to_move.opposite(), Piece::Pawn);
        let ghost g = SquareGen::Pawns(self@);
        let mut rem = pawns;
        let ghost mut lo: int = 0;
        while rem != 0
            invariant
                0 <= lo <= 64,
                pawns == self@.bb(self@.side_to_move, Piece::Pawn),
                enemy_pawns == self@.bb(self@.side_to_move.other(), Piece::Pawn),
                occupied == self@.occupied(),
                enemy == self@.occ(self@.side_to_move.other()),
                enemy_king == self@.bb(self@.side_to_move.other(), Piece::King),
                forall|j: int| #[trigger] has_bit(rem, j) == (has_bit(pawns, j) && j >= lo),
                moves@ == old(moves)@ + gen_upto(pawns, lo, g),
                moves_from_in(moves@.skip(old(moves)@.len() as int), pawns),
                g == SquareGen::Pawns(self@),
            decreases 64 - lo,
        {
            proof {
                lemma_gen_advance(pawns, rem, lo, g);
            }
            let from = rem.trailing_zeros() as u8;
            rem = rem & (rem - 1);
            let ghost before = moves@;
            self.pawn_moves_from(moves, from, occupied, enemy, enemy_king, enemy_pawns);
            proof {
                lemma_pawn_moves_shape(self@, from as int);
                lemma_moves_from_append(
                    before.skip(old(moves)@.len() as int),
                    self@.pawn_moves_from(from as int),
                    pawns,
                    from as int,
                );
                assert(moves@.skip(old(moves)@.len() as int) =~= before.skip(
                    old(moves)@.len() as int,
                ) + self@.pawn_moves_from(from as int));
                lo = from + 1;
            }
        }
        proof {
            lemma_gen_done(pawns, rem, lo, g);
        }
    }

    /// Appends the knight moves from `from`.
    fn knight_moves_from(moves: &mut Vec<Move>, from: u8, own: u64, enemy_king: u64)
        requires
            from < 64,
        ensures
            final(moves)@ == old(moves)@ + knight_jumps(from as int, own, enemy_king, 8),
    {
        let file = (from % 8) as i8;
        let rank = (from / 8) as i8;
        let mut i: usize = 0;
        while i < 8
            invariant
                i <= 8,
                from < 64,
                file == from % 8,
                rank == from / 8,
                moves@ == old(moves)@ + knight_jumps(from as int, own, enemy_king, i as int),
            decreases 8 - i,
        {
            let (df, dr) = knight_offset(i);
            let f = file + df;
            let r = rank + dr;
            if 0 <= f && f < 8 && 0 <= r && r < 8 {
                let to = (r * 8 + f) as u8;
                let bit = 1u64 << (to as u64);
                proof {
                    lemma_test_bit(own, to as int);
                    lemma_test_bit(enemy_king, to as int);
                }
                if own & bit == 0 && enemy_king & bit == 0 {
                    moves.push(Move { from, to, promotion: None });
                }
            }
            assert(moves@ =~= old(moves)@ + knight_jumps(
                from as int,
                own,
                enemy_king,
                i + 1,
            ));
            i = i + 1;
        }
    }

    /// Appends the moves of every knight in `knights`, square by square.
    fn knight_moves(moves: &mut Vec<Move>, knights: u64, own: u64, enemy_king: u64)
        ensures
            final(moves)@ == old(moves)@ + gen_upto(
                knights,
                64,
                SquareGen::Knights(own, enemy_king),
            ),
            moves_from_in(final(moves)@.skip(old(moves)@.len() as int), knights),
    {
        let ghost g = SquareGen::Knights(own, enemy_king);
        let mut rem = knights;
        let ghost mut lo: int = 0;
        while rem != 0
            invariant
                0 <= lo <= 64,
                forall|j: int| #[trigger] has_bit(rem, j) == (has_bit(knights, j) && j >= lo),
                moves@ == old(moves)@ + gen_upto(knights, lo, g),
                moves_from_in(moves@.skip(old(moves)@.len() as int), knights),
                g == SquareGen::Knights(own, enemy_king),
            decreases 64 - lo,
        {
            proof {
                lemma_gen_advance(knights, rem, lo, g);
            }
            let from = rem.trailing_zeros() as u8;
            rem = rem & (rem - 1);
            let ghost before = moves@;
            Self::knight_moves_from(moves, from, own, enemy_king);
            proof {
                lemma_knight_jumps_shape(from as int, own, enemy_king, 8);
                lemma_moves_from_append(
                    before.skip(old(moves)@.len() as int),
                    knight_jumps(from as int, own, enemy_king, 8),
                    knights,
                    from as int,
                );
                assert(moves@.skip(old(moves)@.len() as int) =~= before.skip(
                    old(moves)@.len() as int,
                ) + knight_jumps(from as int, own, enemy_king, 8));
                lo = from + 1;
            }
        }
        proof {
            lemma_gen_done(knights, rem, lo, g);
        }
    }

    /// Appends the king moves of the side to move.
    fn king_moves(&self, moves: &mut Vec<Move>, own: u64, enemy_king: u64)
        requires
            own == self@.occ(self@.side_to_move),
            enemy_king == self@.bb(self@.side_to_move.other(), Piece::King),
        ensures
            final(moves)@ == old(moves)@ + self@.king_moves(),
            moves_from_in(
                final(moves)@.skip(old(moves)@.len() as int),
                self@.bb(self@.side_to_move, Piece::King),
            ),
    {
        if let Some(from) = self.king_square(self.side_to_move) {
            proof {
                lemma_pop_lowest(self@.bb(self@.side_to_move, Piece::King));
            }
            let file = (from % 8) as i8;
            let rank = (from / 8) as i8;
            let mut i: usize = 0;
            while i < 8
                invariant
                    i <= 8,
                    from < 64,
                    file == from % 8,
                    rank == from / 8,
                    moves@ == old(moves)@ + king_steps(from as int, own, enemy_king, i as int),
                decreases 8 - i,
            {
                let (df, dr) = ray_offset(Rays::Both, i);
                let f = file + df;
                let r = rank + dr;
                if 0 <= f && f < 8 && 0 <= r && r < 8 {
                    let to = (r * 8 + f) as u8;
                    let bit = 1u64 << (to as u64);
                    proof {
                        lemma_test_bit(own, to as int);
                        lemma_test_bit(enemy_king, to as int);
                    }
                    if own & bit == 0 && enemy_king & bit == 0 {
                        moves.push(Move { from, to, promotion: None });
                    }
                }
                assert(moves@ =~= old(moves)@ + king_steps(
                    from as int,
                    own,
                    enemy_king,
                    i + 1,
                ));
                i = i + 1;
            }
            proof {
                lemma_king_steps_shape(from as int, own, enemy_king, 8);
                lemma_moves_from_append(
                    seq![],
                    king_steps(from as int, own, enemy_king, 8),
                    self@.bb(self@.side_to_move, Piece::King),
                    from as int,
                );
                assert(moves@.skip(old(moves)@.len() as int) =~= seq![] + king_steps(
                    from as int,
                    own,
                    enemy_king,
                    8,
                ));
            }
        } else {
            assert(moves@.skip(old(moves)@.len() as int) =~= seq![]);
        }
    }

    /// Appends the castling moves of the side to move.
    fn castling_moves(&self, moves: &mut Vec<Move>, occupied: u64)
        requires
            occupied == self@.occupied(),
        ensures
            final(moves)@ == old(moves)@ + self@.castle_moves(),
            moves_from_in(
                final(moves)@.skip(old(moves)@.len() as int),
                self@.bb(self@.side_to_move, Piece::King),
            ),
    {
        let ghost v = self@;
        let us = self.side_to_move;
        let them = us.opposite();
        let white = match us {
            Color::White => true,
            Color::Black => false,
        };
        let home: u8 = if white {
            4
        } else {
            60
        };
        let king_right = if white {
            WHITE_KINGSIDE
        } else {
            BLACK_KINGSIDE
        };
        let queen_right = if white {
            WHITE_QUEENSIDE
        } else {
            BLACK_QUEENSIDE
        };
        let kings = self.bitboard(us, Piece::King);
        let rooks = self.bitboard(us, Piece::Rook);
        proof {
            lemma_test_bit(kings, home as int);
            lemma_test_bit(rooks, home + 3);
            lemma_test_bit(rooks, home - 4);
            lemma_test_bit(occupied, home + 1);
            lemma_test_bit(occupied, home + 2);
            lemma_test_bit(occupied, home - 1);
            lemma_test_bit(occupied, home - 2);
            lemma_test_bit(occupied, home - 3);
        }
        if kings & (1u64 << (home as u64)) != 0 && !self.is_square_attacked(home, them) {
            if self.castling_rights & king_right != 0 && rooks & (1u64 << ((home + 3) as u64)) != 0
                && occupied & (1u64 << ((home + 1) as u64)) == 0 && occupied & (1u64 << ((home
                + 2) as u64)) == 0 && !self.is_square_attacked(home + 1, them)
                && !self.is_square_attacked(home + 2, them) {
                moves.push(Move { from: home, to: home + 2, promotion: None });
            }
            if self.castling_rights & queen_right != 0 && rooks & (1u64 << ((home - 4) as u64))
                != 0 && occupied & (1u64 << ((home - 1) as u64)) == 0 && occupied & (1u64 << ((home
                - 2) as u64)) == 0 && occupied & (1u64 << ((home - 3) as u64)) == 0
                && !self.is_square_attacked(home - 1, them) && !self.is_square_attacked(
                home - 2,
                them,
            ) {
                moves.push(Move { from: home, to: home - 2, promotion: None });
            }
        }
        assert(moves@ =~= old(moves)@ + v.castle_moves());
        assert forall|k: int| #![trigger moves@.skip(old(moves)@.len() as int)[k]]
            0 <= k < moves@.skip(old(moves)@.len() as int).len() implies has_bit(
            kings,
            moves@.skip(old(moves)@.len() as int)[k].from as int,
        ) && moves@.skip(old(moves)@.len() as int)[k].to < 64 by {
            assert(moves@.skip(old(moves)@.len() as int)[k] == moves@[old(moves)@.len() + k]);
        }
    }

    /// The pseudo-legal moves of the side to move: every move of its pieces
    /// that follows the piece's movement rules and does not land on an own
    /// piece or the enemy king, without regard to the mover's own king being
    /// left in check.
    pub fn generate_pseudo_legal_moves(&self) -> (moves: Vec<Move>)
        ensures
            moves@ == self@.pseudo_moves(),
            forall|k: int| 0 <= k < moves@.len() ==> self@.playable(#[trigger] moves@[k]),
    {
        let ghost v = self@;
        let mut moves = Vec::new();

        let side = self.side_to_move;
        let enemy_side = side.opposite();

        let own = self.occupied_by(side);
        let enemy = self.occupied_by(enemy_side);
        let enemy_king = self.bitboard(enemy_side, Piece::King);
        let occupied = self.occupied_squares();

        // pawns
        self.pawn_moves(&mut moves, occupied, enemy, enemy_king);
        let ghost m1 = moves@;
        proof {
            assert(m1.subrange(0, 0) =~= Seq::<Move>::empty());
            lemma_playable_extend(v, seq![], m1, Piece::Pawn);
        }

        // knights
        Self::knight_moves(&mut moves, self.bitboard(side, Piece::Knight), own, enemy_king);
        let ghost m2 = moves@;
        proof {
            assert(m2.subrange(0, m1.len() as int) =~= m1);
            lemma_playable_extend(v, m1, m2, Piece::Knight);
        }

        // bishops
        Self::slider_moves(
            &mut moves,
            self.bitboard(side, Piece::Bishop),
            own,
            enemy,
            enemy_king,
            Rays::Diagonal,
        );
        let ghost m3 = moves@;
        proof {
            assert(m3.subrange(0, m2.len() as int) =~= m2);
            lemma_playable_extend(v, m2, m3, Piece::Bishop);
        }

        // rooks
        Self::slider_moves(
            &mut moves,
            self.bitboard(side, Piece::Rook),
            own,
            enemy,
            enemy_king,
            Rays::Straight,
        );
        let ghost m4 = moves@;
        proof {
            assert(m4.subrange(0, m3.len() as int) =~= m3);
            lemma_playable_extend(v, m3, m4, Piece::Rook);
        }

        // queens
        Self::slider_moves(
            &mut moves,
            self.bitboard(side, Piece::Queen),
            own,
            enemy,
            enemy_king,
            Rays::Both,
        );
        let ghost m5 = moves@;
        proof {
            assert(m5.subrange(0, m4.len() as int) =~= m4);
            lemma_playable_extend(v, m4, m5, Piece::Queen);
        }

        // king
        self.king_moves(&mut moves, own, enemy_king);
        let ghost m6 = moves@;
        proof {
            assert(m6.subrange(0, m5.len() as int) =~= m5);
            lemma_playable_extend(v, m5, m6, Piece::King);
        }
        self.castling_moves(&mut moves, occupied);
        proof {
            assert(moves@.subrange(0, m6.len() as int) =~= m6);
            lemma_playable_extend(v, m6, moves@, Piece::King);
        }
        moves
    }
}

impl Board {
    /// The legal moves of the side to move: the pseudo-legal moves after which
    /// the mover's own king is not in check, in generation order.
    pub fn generate_legal_moves(&self) -> (legal: Vec<Move>)
        ensures
            legal@ == self@.legal_moves(),
            forall|k: int| 0 <= k < legal@.len() ==> self@.playable(#[trigger] legal@[k]),
    {
        let pseudo = self.generate_pseudo_legal_moves();
        let mut legal_moves: Vec<Move> = Vec::new();
        let moving_side = self.side_to_move;
        let mut i: usize = 0;
        while i < pseudo.len()
            invariant
                i <= pseudo@.len(),
                pseudo@ == self@.pseudo_moves(),
                moving_side == self@.side_to_move,
                forall|k: int| 0 <= k < pseudo@.len() ==> self@.playable(#[trigger] pseudo@[k]),
                legal_moves@ == self@.keep_legal(pseudo@.take(i as int)),
                forall|k: int|
                    0 <= k < legal_moves@.len() ==> self@.playable(#[trigger] legal_moves@[k]),
            decreases pseudo@.len() - i,
        {
            let mv = pseudo[i];
            assert(self@.playable(pseudo@[i as int]));
            let mut next_board = *self;
            next_board.make_move(mv);
            assert(pseudo@.take(i + 1).drop_last() =~= pseudo@.take(i as int));
            if !next_board.in_check(moving_side) {
                legal_moves.push(mv);
            }
            i = i + 1;
        }
        assert(pseudo@.take(pseudo@.len() as int) =~= pseudo@);
        legal_moves
    }

    /// Counts the move paths of length `depth` from this position.
    pub fn perft(&mut self, depth: u32) -> (nodes: u64)
        requires
            old(self)@.perft(depth as nat) <= u64::MAX,
        ensures
            nodes == old(self)@.perft(depth as nat),
            *final(self) == *old(self),
        decreases depth,
    {
        if depth == 0 {
            return 1;
        }
        let moves = self.generate_legal_moves();
        if depth == 1 {
            proof {
                lemma_perft_one(self@, moves@);
            }
            return moves.len() as u64;
        }
        let ghost v = self@;
        let ghost start = *self;
        let mut nodes: u64 = 0;
        let mut i: usize = 0;
        while i < moves.len()
            invariant
                i <= moves@.len(),
                depth >= 2,
                *self == start,
                self@ == v,
                moves@ == v.legal_moves(),
                forall|k: int| 0 <= k < moves@.len() ==> v.playable(#[trigger] moves@[k]),
                v.perft(depth as nat) <= u64::MAX,
                nodes == v.perft_sum(moves@.take(i as int), (depth - 1) as nat),
            decreases moves@.len() - i,
        {
            let mv = moves[i];
            assert(v.playable(moves@[i as int]));
            proof {
                lemma_perft_sum_prefix(v, moves@, (depth - 1) as nat, i as int + 1);
                assert(moves@.take(i + 1).drop_last() =~= moves@.take(i as int));
            }
            let undo = self.make_move(mv);
            let child = self.perft(depth - 1);
            self.unmake_move(undo);
            nodes = nodes + child;
            i = i + 1;
        }
        assert(moves@.take(moves@.len() as int) =~= moves@);
        nodes
    }
}

impl BoardView {
    /// The number of move paths of length `depth` from this position.
    pub open spec fn perft(self, depth: nat) -> nat
        decreases depth, 0int,
    {
        if depth == 0 {
            1
        } else {
            self.perft_sum(self.legal_moves(), (depth - 1) as nat)
        }
    }

    /// The number of move paths of length `depth` after each move of `ms`, added up.
    pub open spec fn perft_sum(self, ms: Seq<Move>, depth: nat) -> nat
        decreases depth, ms.len(),
    {
        if ms.len() == 0 {
            0
        } else {
            self.perft_sum(ms.drop_last(), depth) + self.after_move(ms.last()).perft(depth)
        }
    }
}

/// Counting paths of length one after each move of `ms` counts the moves.
pub proof fn lemma_perft_one(v: BoardView, ms: Seq<Move>)
    ensures
        v.perft_sum(ms, 0) == ms.len(),
    decreases ms.len(),
{
    if ms.len() > 0 {
        lemma_perft_one(v, ms.drop_last());
        assert(v.after_move(ms.last()).perft(0) == 1);
    }
}

/// A prefix of the moves contributes no more paths than all of them.
proof fn lemma_perft_sum_prefix(v: BoardView, ms: Seq<Move>, depth: nat, i: int)
    requires
        0 <= i <= ms.len(),
    ensures
        v.perft_sum(ms.take(i), depth) <= v.perft_sum(ms, depth),
    decreases ms.len() - i,
{
    if i < ms.len() {
        lemma_perft_sum_prefix(v, ms, depth, i + 1);
        assert(ms.take(i + 1).drop_last() =~= ms.take(i));
    } else {
        assert(ms.take(i) =~= ms);
    }
}

/// Extending a sequence of playable moves by moves that start on squares of
/// the mover's `kind` pieces keeps every move playable.
proof fn lemma_playable_extend(v: BoardView, before: Seq<Move>, after: Seq<Move>, kind: Piece)
    requires
        forall|k: int| 0 <= k < before.len() ==> v.playable(#[trigger] before[k]),
        before.len() <= after.len(),
        after.subrange(0, before.len() as int) == before,
        moves_from_in(after.skip(before.len() as int), v.bb(v.side_to_move, kind)),
    ensures
        forall|k: int| 0 <= k < after.len() ==> v.playable(#[trigger] after[k]),
{
    assert forall|k: int| 0 <= k < after.len() implies v.playable(#[trigger] after[k]) by {
        if k < before.len() {
            assert(after[k] == after.subrange(0, before.len() as int)[k]);
        } else {
            assert(after[k] == after.skip(before.len() as int)[k - before.len()]);
            assert(has_bit(v.bb(v.side_to_move, kind), after[k].from as int));
        }
    }
}

proof fn lemma_pawn_move_set_shape(from: int, to: int)
    requires
        0 <= from < 64,
        0 <= to < 64,
    ensures
        moves_from_square(pawn_move_set(from, to), from),
{
}

proof fn lemma_pawn_moves_shape(v: BoardView, from: int)
    requires
        0 <= from < 64,
    ensures
        moves_from_square(v.pawn_moves_from(from), from),
{
    let f = from % 8;
    let r = from / 8;
    let dir = v.pawn_dir();
    assert(moves_from_square(v.pawn_pushes(from), from)) by {
        if on_board(f, r + dir) && !has_bit(v.occupied(), square_of(f, r + dir)) {
            lemma_pawn_move_set_shape(from, square_of(f, r + dir));
            let extra = if r == (if v.side_to_move == Color::White {
                1int
            } else {
                6int
            }) && on_board(f, r + 2 * dir) && !has_bit(v.occupied(), square_of(f, r + 2 * dir)) {
                seq![mk_move(from, square_of(f, r + 2 * dir), None)]
            } else {
                seq![]
            };
            lemma_concat_from_square(pawn_move_set(from, square_of(f, r + dir)), extra, from);
        }
    }
    assert(moves_from_square(v.pawn_capture(from, -1), from)) by {
        if on_board(f - 1, r + dir) {
            lemma_pawn_move_set_shape(from, square_of(f - 1, r + dir));
        }
    }
    assert(moves_from_square(v.pawn_capture(from, 1), from)) by {
        if on_board(f + 1, r + dir) {
            lemma_pawn_move_set_shape(from, square_of(f + 1, r + dir));
        }
    }
    lemma_concat_from_square(v.pawn_pushes(from), v.pawn_capture(from, -1), from);
    lemma_concat_from_square(
        v.pawn_pushes(from) + v.pawn_capture(from, -1),
        v.pawn_capture(from, 1),
        from,
    );
}

proof fn lemma_knight_jumps_shape(from: int, own: u64, enemy_king: u64, n: int)
    requires
        0 <= from < 64,
    ensures
        moves_from_square(knight_jumps(from, own, enemy_king, n), from),
    decreases n,
{
    if n > 0 {
        lemma_knight_jumps_shape(from, own, enemy_king, n - 1);
        lemma_concat_from_square(
            knight_jumps(from, own, enemy_king, n - 1),
            step_move(from, knight_df(n - 1), knight_dr(n - 1), own, enemy_king),
            from,
        );
    }
}

proof fn lemma_king_steps_shape(from: int, own: u64, enemy_king: u64, n: int)
    requires
        0 <= from < 64,
    ensures
        moves_from_square(king_steps(from, own, enemy_king, n), from),
    decreases n,
{
    if n > 0 {
        lemma_king_steps_shape(from, own, enemy_king, n - 1);
        lemma_concat_from_square(
            king_steps(from, own, enemy_king, n - 1),
            step_move(from, ray_df(Rays::Both, n - 1), ray_dr(Rays::Both, n - 1), own, enemy_king),
            from,
        );
    }
}

/// Every move of `ms` starts on `from` and ends on the board.
pub open spec fn moves_from_square(ms: Seq<Move>, from: int) -> bool {
    forall|k: int| #![trigger ms[k]] 0 <= k < ms.len() ==> ms[k].from == from && ms[k].to < 64
}

proof fn lemma_moves_from_append(a: Seq<Move>, b: Seq<Move>, bb: u64, from: int)
    requires
        moves_from_in(a, bb),
        moves_from_square(b, from),
        has_bit(bb, from),
        0 <= from < 64,
    ensures
        moves_from_in(a + b, bb),
{
    assert forall|k: int| #![trigger (a + b)[k]] 0 <= k < (a + b).len() implies has_bit(
        bb,
        (a + b)[k].from as int,
    ) && (a + b)[k].to < 64 by {
        if k >= a.len() {
            assert((a + b)[k] == b[k - a.len()]);
        }
    }
}

proof fn lemma_concat_from_square(a: Seq<Move>, b: Seq<Move>, from: int)
    requires
        moves_from_square(a, from),
        moves_from_square(b, from),
    ensures
        moves_from_square(a + b, from),
{
    assert forall|k: int| #![trigger (a + b)[k]] 0 <= k < (a + b).len() implies (a + b)[k].from == from && (a
        + b)[k].to < 64 by {
        if k >= a.len() {
            assert((a + b)[k] == b[k - a.len()]);
        }
    }
}

proof fn lemma_ray_moves_shape(
    from: int,
    f: int,
    r: int,
    df: int,
    dr: int,
    own: u64,
    enemy: u64,
    enemy_king: u64,
)
    requires
        0 <= from < 64,
    ensures
        moves_from_square(ray_moves(from, f, r, df, dr, own, enemy, enemy_king), from),
    decreases ray_measure(f, r, df, dr),
{
    if on_board(f, r) && is_direction(df, dr) {
        let t = square_of(f, r);
        if !(has_bit(own, t) || has_bit(enemy_king, t)) && !has_bit(enemy, t) {
            lemma_ray_moves_shape(from, f + df, r + dr, df, dr, own, enemy, enemy_king);
            lemma_concat_from_square(
                seq![mk_move(from, t, None)],
                ray_moves(from, f + df, r + dr, df, dr, own, enemy, enemy_king),
                from,
            );
        }
    }
}

proof fn lemma_slider_rays_shape(
    from: int,
    own: u64,
    enemy: u64,
    enemy_king: u64,
    rays: Rays,
    n: int,
)
    requires
        0 <= from < 64,
    ensures
        moves_from_square(slider_rays(from, own, enemy, enemy_king, rays, n), from),
    decreases n,
{
    if n > 0 {
        lemma_slider_rays_shape(from, own, enemy, enemy_king, rays, n - 1);
        lemma_ray_moves_shape(
            from,
            from % 8 + ray_df(rays, n - 1),
            from / 8 + ray_dr(rays, n - 1),
            ray_df(rays, n - 1),
            ray_dr(rays, n - 1),
            own,
            enemy,
            enemy_king,
        );
        lemma_concat_from_square(
            slider_rays(from, own, enemy, enemy_king, rays, n - 1),
            ray_moves(
                from,
                from % 8 + ray_df(rays, n - 1),
                from / 8 + ray_dr(rays, n - 1),
                ray_df(rays, n - 1),
                ray_dr(rays, n - 1),
                own,
                enemy,
                enemy_king,
            ),
            from,
        );
    }
}


/// No move of `ms` lands on a square of `bb`.
pub open spec fn avoids(ms: Seq<Move>, bb: u64) -> bool {
    forall|k: int| #![trigger ms[k]] 0 <= k < ms.len() ==> !has_bit(bb, ms[k].to as int)
}

proof fn lemma_avoids_concat(a: Seq<Move>, b: Seq<Move>, bb: u64)
    requires
        avoids(a, bb),
        avoids(b, bb),
    ensures
        avoids(a + b, bb),
{
    assert forall|k: int| #![trigger (a + b)[k]] 0 <= k < (a + b).len() implies !has_bit(
        bb,
        (a + b)[k].to as int,
    ) by {
        if k >= a.len() {
            assert((a + b)[k] == b[k - a.len()]);
        }
    }
}

proof fn lemma_ray_avoids(
    from: int,
    f: int,
    r: int,
    df: int,
    dr: int,
    own: u64,
    enemy: u64,
    enemy_king: u64,
)
    ensures
        avoids(ray_moves(from, f, r, df, dr, own, enemy, enemy_king), enemy_king),
    decreases ray_measure(f, r, df, dr),
{
    if on_board(f, r) && is_direction(df, dr) {
        let t = square_of(f, r);
        if !(has_bit(own, t) || has_bit(enemy_king, t)) {
            assert(avoids(seq![mk_move(from, t, None)], enemy_king)) by {
                assert(seq![mk_move(from, t, None)][0].to as int == t);
            }
            if !has_bit(enemy, t) {
                lemma_ray_avoids(from, f + df, r + dr, df, dr, own, enemy, enemy_king);
                lemma_avoids_concat(
                    seq![mk_move(from, t, None)],
                    ray_moves(from, f + df, r + dr, df, dr, own, enemy, enemy_king),
                    enemy_king,
                );
            }
        }
    }
}

proof fn lemma_slider_avoids(from: int, own: u64, enemy: u64, enemy_king: u64, rays: Rays, n: int)
    ensures
        avoids(slider_rays(from, own, enemy, enemy_king, rays, n), enemy_king),
    decreases n,
{
    if n > 0 {
        lemma_slider_avoids(from, own, enemy, enemy_king, rays, n - 1);
        lemma_ray_avoids(
            from,
            from % 8 + ray_df(rays, n - 1),
            from / 8 + ray_dr(rays, n - 1),
            ray_df(rays, n - 1),
            ray_dr(rays, n - 1),
            own,
            enemy,
            enemy_king,
        );
        lemma_avoids_concat(
            slider_rays(from, own, enemy, enemy_king, rays, n - 1),
            ray_moves(
                from,
                from % 8 + ray_df(rays, n - 1),
                from / 8 + ray_dr(rays, n - 1),
                ray_df(rays, n - 1),
                ray_dr(rays, n - 1),
                own,
                enemy,
                enemy_king,
            ),
            enemy_king,
        );
    }
}

proof fn lemma_step_avoids(from: int, df: int, dr: int, own: u64, enemy_king: u64)
    ensures
        avoids(step_move(from, df, dr, own, enemy_king), enemy_king),
{
    let f = from % 8 + df;
    let r = from / 8 + dr;
    if on_board(f, r) && !has_bit(own, square_of(f, r)) && !has_bit(enemy_king, square_of(f, r)) {
        assert(step_move(from, df, dr, own, enemy_king)[0].to as int == square_of(f, r));
    }
}

proof fn lemma_knight_avoids(from: int, own: u64, enemy_king: u64, n: int)
    ensures
        avoids(knight_jumps(from, own, enemy_king, n), enemy_king),
    decreases n,
{
    if n > 0 {
        lemma_knight_avoids(from, own, enemy_king, n - 1);
        lemma_step_avoids(from, knight_df(n - 1), knight_dr(n - 1), own, enemy_king);
        lemma_avoids_concat(
            knight_jumps(from, own, enemy_king, n - 1),
            step_move(from, knight_df(n - 1), knight_dr(n - 1), own, enemy_king),
            enemy_king,
        );
    }
}

proof fn lemma_king_avoids(from: int, own: u64, enemy_king: u64, n: int)
    ensures
        avoids(king_steps(from, own, enemy_king, n), enemy_king),
    decreases n,
{
    if n > 0 {
        lemma_king_avoids(from, own, enemy_king, n - 1);
        lemma_step_avoids(from, ray_df(Rays::Both, n - 1), ray_dr(Rays::Both, n - 1), own, enemy_king);
        lemma_avoids_concat(
            king_steps(from, own, enemy_king, n - 1),
            step_move(from, ray_df(Rays::Both, n - 1), ray_dr(Rays::Both, n - 1), own, enemy_king),
            enemy_king,
        );
    }
}

proof fn lemma_pawn_set_avoids(from: int, to: int, bb: u64)
    requires
        0 <= to < 64,
        !has_bit(bb, to),
    ensures
        avoids(pawn_move_set(from, to), bb),
{
}

proof fn lemma_pawn_avoids(v: BoardView, from: int)
    ensures
        avoids(v.pawn_moves_from(from), v.bb(v.side_to_move.other(), Piece::King)),
{
    let ek = v.bb(v.side_to_move.other(), Piece::King);
    let f = from % 8;
    let r = from / 8;
    let dir = v.pawn_dir();
    assert(avoids(v.pawn_pushes(from), ek)) by {
        if on_board(f, r + dir) && !has_bit(v.occupied(), square_of(f, r + dir)) {
            lemma_pawn_set_avoids(from, square_of(f, r + dir), ek);
            let extra = if r == (if v.side_to_move == Color::White {
                1int
            } else {
                6int
            }) && on_board(f, r + 2 * dir) && !has_bit(v.occupied(), square_of(f, r + 2 * dir)) {
                seq![mk_move(from, square_of(f, r + 2 * dir), None)]
            } else {
                seq![]
            };
            assert(avoids(extra, ek)) by {
                if extra.len() > 0 {
                    assert(extra[0].to as int == square_of(f, r + 2 * dir));
                }
            }
            lemma_avoids_concat(pawn_move_set(from, square_of(f, r + dir)), extra, ek);
        }
    }
    assert(avoids(v.pawn_capture(from, -1), ek)) by {
        if on_board(f - 1, r + dir) {
            let t = square_of(f - 1, r + dir);
            if !has_bit(ek, t) {
                lemma_pawn_set_avoids(from, t, ek);
            }
        }
    }
    assert(avoids(v.pawn_capture(from, 1), ek)) by {
        if on_board(f + 1, r + dir) {
            let t = square_of(f + 1, r + dir);
            if !has_bit(ek, t) {
                lemma_pawn_set_avoids(from, t, ek);
            }
        }
    }
    lemma_avoids_concat(v.pawn_pushes(from), v.pawn_capture(from, -1), ek);
    lemma_avoids_concat(v.pawn_pushes(from) + v.pawn_capture(from, -1), v.pawn_capture(from, 1), ek);
}

proof fn lemma_gen_avoids(bb: u64, n: int, g: SquareGen, ek: u64)
    requires
        forall|s: int| #[trigger] avoids(gen_at(g, s), ek),
    ensures
        avoids(gen_upto(bb, n, g), ek),
    decreases n,
{
    if n > 0 {
        lemma_gen_avoids(bb, n - 1, g, ek);
        let last = if has_bit(bb, n - 1) {
            gen_at(g, n - 1)
        } else {
            seq![]
        };
        assert(avoids(gen_at(g, n - 1), ek));
        lemma_avoids_concat(gen_upto(bb, n - 1, g), last, ek);
    }
}

/// No pseudo-legal move takes the enemy king: every target square is free of
/// an enemy king.
pub proof fn law_pseudo_moves_spare_enemy_king(v: BoardView)
    ensures
        avoids(v.pseudo_moves(), v.bb(v.side_to_move.other(), Piece::King)),
{
    let us = v.side_to_move;
    let them = us.other();
    let own = v.occ(us);
    let enemy = v.occ(them);
    let ek = v.bb(them, Piece::King);
    assert forall|s: int| #[trigger] avoids(gen_at(SquareGen::Pawns(v), s), ek) by {
        lemma_pawn_avoids(v, s);
    }
    assert forall|s: int| #[trigger] avoids(gen_at(SquareGen::Knights(own, ek), s), ek) by {
        lemma_knight_avoids(s, own, ek, 8);
    }
    assert forall|s: int| #[trigger]
        avoids(gen_at(SquareGen::Sliders(own, enemy, ek, Rays::Diagonal), s), ek) by {
        lemma_slider_avoids(s, own, enemy, ek, Rays::Diagonal, 4);
    }
    assert forall|s: int| #[trigger]
        avoids(gen_at(SquareGen::Sliders(own, enemy, ek, Rays::Straight), s), ek) by {
        lemma_slider_avoids(s, own, enemy, ek, Rays::Straight, 4);
    }
    assert forall|s: int| #[trigger]
        avoids(gen_at(SquareGen::Sliders(own, enemy, ek, Rays::Both), s), ek) by {
        lemma_slider_avoids(s, own, enemy, ek, Rays::Both, 8);
    }
    let p1 = gen_upto(v.bb(us, Piece::Pawn), 64, SquareGen::Pawns(v));
    let p2 = gen_upto(v.bb(us, Piece::Knight), 64, SquareGen::Knights(own, ek));
    let p3 = gen_upto(v.bb(us, Piece::Bishop), 64, SquareGen::Sliders(own, enemy, ek, Rays::Diagonal));
    let p4 = gen_upto(v.bb(us, Piece::Rook), 64, SquareGen::Sliders(own, enemy, ek, Rays::Straight));
    let p5 = gen_upto(v.bb(us, Piece::Queen), 64, SquareGen::Sliders(own, enemy, ek, Rays::Both));
    lemma_gen_avoids(v.bb(us, Piece::Pawn), 64, SquareGen::Pawns(v), ek);
    lemma_gen_avoids(v.bb(us, Piece::Knight), 64, SquareGen::Knights(own, ek), ek);
    lemma_gen_avoids(v.bb(us, Piece::Bishop), 64, SquareGen::Sliders(own, enemy, ek, Rays::Diagonal), ek);
    lemma_gen_avoids(v.bb(us, Piece::Rook), 64, SquareGen::Sliders(own, enemy, ek, Rays::Straight), ek);
    lemma_gen_avoids(v.bb(us, Piece::Queen), 64, SquareGen::Sliders(own, enemy, ek, Rays::Both), ek);
    assert(avoids(v.king_moves(), ek)) by {
        if let Some(s) = v.king_sq(us) {
            lemma_king_avoids(s, own, ek, 8);
        }
    }
    assert(avoids(v.castle_moves(), ek)) by {
        let home: int = if us == Color::White {
            4
        } else {
            60
        };
        let c = v.castle_moves();
        assert forall|k: int| #![trigger c[k]] 0 <= k < c.len() implies !has_bit(ek, c[k].to as int) by {
            assert(c[k].to as int == home + 2 || c[k].to as int == home - 2);
        }
    }
    lemma_avoids_concat(p1, p2, ek);
    lemma_avoids_concat(p1 + p2, p3, ek);
    lemma_avoids_concat(p1 + p2 + p3, p4, ek);
    lemma_avoids_concat(p1 + p2 + p3 + p4, p5, ek);
    lemma_avoids_concat(p1 + p2 + p3 + p4 + p5, v.king_moves(), ek);
    lemma_avoids_concat(p1 + p2 + p3 + p4 + p5 + v.king_moves(), v.castle_moves(), ek);
}

/// Every legal move is a pseudo-legal move after which the mover's own king
/// is not in check.
pub proof fn law_legal_moves_are_safe(v: BoardView)
    ensures
        forall|k: int|
            #![trigger v.legal_moves()[k]]
            0 <= k < v.legal_moves().len() ==> v.pseudo_moves().contains(v.legal_moves()[k])
                && !v.after_move(v.legal_moves()[k]).in_check(v.side_to_move),
{
    lemma_keep_legal_safe(v, v.pseudo_moves());
}

proof fn lemma_keep_legal_safe(v: BoardView, ms: Seq<Move>)
    ensures
        forall|k: int|
            #![trigger v.keep_legal(ms)[k]]
            0 <= k < v.keep_legal(ms).len() ==> ms.contains(v.keep_legal(ms)[k])
                && !v.after_move(v.keep_legal(ms)[k]).in_check(v.side_to_move),
    decreases ms.len(),
{
    if ms.len() > 0 {
        let rest = ms.drop_last();
        lemma_keep_legal_safe(v, rest);
        let kept = v.keep_legal(rest);
        let tail = if v.after_move(ms.last()).in_check(v.side_to_move) {
            seq![]
        } else {
            seq![ms.last()]
        };
        assert(v.keep_legal(ms) == kept + tail);
        assert forall|k: int| #![trigger v.keep_legal(ms)[k]] 0 <= k < v.keep_legal(ms).len() implies ms.contains(
            v.keep_legal(ms)[k],
        ) && !v.after_move(v.keep_legal(ms)[k]).in_check(v.side_to_move) by {
            if k < kept.len() {
                assert(v.keep_legal(ms)[k] == kept[k]);
                let j = choose|j: int| 0 <= j < rest.len() && rest[j] == kept[k];
                assert(ms[j] == rest[j]);
            } else {
                assert(v.keep_legal(ms)[k] == tail[k - kept.len()]);
                assert(ms[ms.len() - 1] == ms.last());
            }
        }
    }
}

/// Every pseudo-legal move after which the mover's own king is not in check
/// is a legal move: the legal moves are exactly the safe pseudo-legal moves.
pub proof fn law_legal_moves_are_complete(v: BoardView, m: Move)
    requires
        v.pseudo_moves().contains(m),
        !v.after_move(m).in_check(v.side_to_move),
    ensures
        v.legal_moves().contains(m),
{
    lemma_keep_legal_complete(v, v.pseudo_moves(), m);
}

proof fn lemma_keep_legal_complete(v: BoardView, ms: Seq<Move>, m: Move)
    requires
        ms.contains(m),
        !v.after_move(m).in_check(v.side_to_move),
    ensures
        v.keep_legal(ms).contains(m),
    decreases ms.len(),
{
    let rest = ms.drop_last();
    let kept = v.keep_legal(rest);
    let tail = if v.after_move(ms.last()).in_check(v.side_to_move) {
        seq![]
    } else {
        seq![ms.last()]
    };
    assert(v.keep_legal(ms) == kept + tail);
    if ms.last() == m {
        assert((kept + tail)[kept.len() as int] == m);
    } else {
        let j = choose|j: int| 0 <= j < ms.len() && ms[j] == m;
        assert(j < ms.len() - 1);
        assert(rest[j] == m);
        lemma_keep_legal_complete(v, rest, m);
        let i = choose|i: int| 0 <= i < kept.len() && kept[i] == m;
        assert((kept + tail)[i] == m);
    }
}

/// A move on the board that promotes, if at all, to a queen, rook, bishop or
/// knight.
pub open spec fn sound_move(m: Move) -> bool {
    &&& m.from < 64
    &&& m.to < 64
    &&& m.promotion matches Some(p) ==> p != Piece::Pawn && p != Piece::King
}

/// Every move of `ms` is sound.
pub open spec fn all_sound(ms: Seq<Move>) -> bool {
    forall|k: int| #![trigger ms[k]] 0 <= k < ms.len() ==> sound_move(ms[k])
}

proof fn lemma_sound_concat(a: Seq<Move>, b: Seq<Move>)
    requires
        all_sound(a),
        all_sound(b),
    ensures
        all_sound(a + b),
{
    assert forall|k: int| #![trigger (a + b)[k]] 0 <= k < (a + b).len() implies sound_move(
        (a + b)[k],
    ) by {
        if k >= a.len() {
            assert((a + b)[k] == b[k - a.len()]);
        } else {
            assert((a + b)[k] == a[k]);
        }
    }
}

proof fn lemma_ray_sound(
    from: int,
    f: int,
    r: int,
    df: int,
    dr: int,
    own: u64,
    enemy: u64,
    enemy_king: u64,
)
    requires
        0 <= from < 64,
    ensures
        all_sound(ray_moves(from, f, r, df, dr, own, enemy, enemy_king)),
    decreases ray_measure(f, r, df, dr),
{
    if on_board(f, r) && is_direction(df, dr) {
        let t = square_of(f, r);
        if !(has_bit(own, t) || has_bit(enemy_king, t)) && !has_bit(enemy, t) {
            lemma_ray_sound(from, f + df, r + dr, df, dr, own, enemy, enemy_king);
            lemma_sound_concat(
                seq![mk_move(from, t, None)],
                ray_moves(from, f + df, r + dr, df, dr, own, enemy, enemy_king),
            );
        }
    }
}

proof fn lemma_slider_sound(from: int, own: u64, enemy: u64, enemy_king: u64, rays: Rays, n: int)
    requires
        0 <= from < 64,
    ensures
        all_sound(slider_rays(from, own, enemy, enemy_king, rays, n)),
    decreases n,
{
    if n > 0 {
        lemma_slider_sound(from, own, enemy, enemy_king, rays, n - 1);
        lemma_ray_sound(
            from,
            from % 8 + ray_df(rays, n - 1),
            from / 8 + ray_dr(rays, n - 1),
            ray_df(rays, n - 1),
            ray_dr(rays, n - 1),
            own,
            enemy,
            enemy_king,
        );
        lemma_sound_concat(
            slider_rays(from, own, enemy, enemy_king, rays, n - 1),
            ray_moves(
                from,
                from % 8 + ray_df(rays, n - 1),
                from / 8 + ray_dr(rays, n - 1),
                ray_df(rays, n - 1),
                ray_dr(rays, n - 1),
                own,
                enemy,
                enemy_king,
            ),
        );
    }
}

proof fn lemma_knight_sound(from: int, own: u64, enemy_king: u64, n: int)
    requires
        0 <= from < 64,
    ensures
        all_sound(knight_jumps(from, own, enemy_king, n)),
    decreases n,
{
    if n > 0 {
        lemma_knight_sound(from, own, enemy_king, n - 1);
        lemma_sound_concat(
            knight_jumps(from, own, enemy_king, n - 1),
            step_move(from, knight_df(n - 1), knight_dr(n - 1), own, enemy_king),
        );
    }
}

proof fn lemma_king_sound(from: int, own: u64, enemy_king: u64, n: int)
    requires
        0 <= from < 64,
    ensures
        all_sound(king_steps(from, own, enemy_king, n)),
    decreases n,
{
    if n > 0 {
        lemma_king_sound(from, own, enemy_king, n - 1);
        lemma_sound_concat(
            king_steps(from, own, enemy_king, n - 1),
            step_move(from, ray_df(Rays::Both, n - 1), ray_dr(Rays::Both, n - 1), own, enemy_king),
        );
    }
}

proof fn lemma_pawn_sound(v: BoardView, from: int)
    requires
        0 <= from < 64,
    ensures
        all_sound(v.pawn_moves_from(from)),
{
    let f = from % 8;
    let r = from / 8;
    let dir = v.pawn_dir();
    assert(all_sound(v.pawn_pushes(from))) by {
        if on_board(f, r + dir) && !has_bit(v.occupied(), square_of(f, r + dir)) {
            let extra = if r == (if v.side_to_move == Color::White {
                1int
            } else {
                6int
            }) && on_board(f, r + 2 * dir) && !has_bit(v.occupied(), square_of(f, r + 2 * dir)) {
                seq![mk_move(from, square_of(f, r + 2 * dir), None)]
            } else {
                seq![]
            };
            lemma_sound_concat(pawn_move_set(from, square_of(f, r + dir)), extra);
        }
    }
    lemma_sound_concat(v.pawn_pushes(from), v.pawn_capture(from, -1));
    lemma_sound_concat(v.pawn_pushes(from) + v.pawn_capture(from, -1), v.pawn_capture(from, 1));
}

proof fn lemma_gen_sound(bb: u64, n: int, g: SquareGen)
    requires
        n <= 64,
        forall|s: int| 0 <= s < 64 ==> #[trigger] all_sound(gen_at(g, s)),
    ensures
        all_sound(gen_upto(bb, n, g)),
    decreases n,
{
    if n > 0 {
        lemma_gen_sound(bb, n - 1, g);
        let last = if has_bit(bb, n - 1) {
            gen_at(g, n - 1)
        } else {
            seq![]
        };
        assert(all_sound(gen_at(g, n - 1)));
        lemma_sound_concat(gen_upto(bb, n - 1, g), last);
    }
}

/// Every pseudo-legal move, and so every legal move, is on the board and
/// promotes, if at all, to a queen, rook, bishop or knight.
pub proof fn law_moves_are_sound(v: BoardView)
    ensures
        all_sound(v.pseudo_moves()),
        all_sound(v.legal_moves()),
{
    let us = v.side_to_move;
    let them = us.other();
    let own = v.occ(us);
    let enemy = v.occ(them);
    let ek = v.bb(them, Piece::King);
    assert forall|s: int| 0 <= s < 64 implies #[trigger] all_sound(gen_at(SquareGen::Pawns(v), s)) by {
        lemma_pawn_sound(v, s);
    }
    assert forall|s: int| 0 <= s < 64 implies #[trigger] all_sound(
        gen_at(SquareGen::Knights(own, ek), s),
    ) by {
        lemma_knight_sound(s, own, ek, 8);
    }
    assert forall|s: int| 0 <= s < 64 implies #[trigger] all_sound(
        gen_at(SquareGen::Sliders(own, enemy, ek, Rays::Diagonal), s),
    ) by {
        lemma_slider_sound(s, own, enemy, ek, Rays::Diagonal, 4);
    }
    assert forall|s: int| 0 <= s < 64 implies #[trigger] all_sound(
        gen_at(SquareGen::Sliders(own, enemy, ek, Rays::Straight), s),
    ) by {
        lemma_slider_sound(s, own, enemy, ek, Rays::Straight, 4);
    }
    assert forall|s: int| 0 <= s < 64 implies #[trigger] all_sound(
        gen_at(SquareGen::Sliders(own, enemy, ek, Rays::Both), s),
    ) by {
        lemma_slider_sound(s, own, enemy, ek, Rays::Both, 8);
    }
    let p1 = gen_upto(v.bb(us, Piece::Pawn), 64, SquareGen::Pawns(v));
    let p2 = gen_upto(v.bb(us, Piece::Knight), 64, SquareGen::Knights(own, ek));
    let p3 = gen_upto(v.bb(us, Piece::Bishop), 64, SquareGen::Sliders(own, enemy, ek, Rays::Diagonal));
    let p4 = gen_upto(v.bb(us, Piece::Rook), 64, SquareGen::Sliders(own, enemy, ek, Rays::Straight));
    let p5 = gen_upto(v.bb(us, Piece::Queen), 64, SquareGen::Sliders(own, enemy, ek, Rays::Both));
    lemma_gen_sound(v.bb(us, Piece::Pawn), 64, SquareGen::Pawns(v));
    lemma_gen_sound(v.bb(us, Piece::Knight), 64, SquareGen::Knights(own, ek));
    lemma_gen_sound(v.bb(us, Piece::Bishop), 64, SquareGen::Sliders(own, enemy, ek, Rays::Diagonal));
    lemma_gen_sound(v.bb(us, Piece::Rook), 64, SquareGen::Sliders(own, enemy, ek, Rays::Straight));
    lemma_gen_sound(v.bb(us, Piece::Queen), 64, SquareGen::Sliders(own, enemy, ek, Rays::Both));
    assert(all_sound(v.king_moves())) by {
        if let Some(s) = v.king_sq(us) {
            lemma_pop_lowest(v.bb(us, Piece::King));
            lemma_king_sound(s, own, ek, 8);
        }
    }
    assert(all_sound(v.castle_moves())) by {
        let c = v.castle_moves();
        assert forall|k: int| #![trigger c[k]] 0 <= k < c.len() implies sound_move(c[k]) by {
        }
    }
    lemma_sound_concat(p1, p2);
    lemma_sound_concat(p1 + p2, p3);
    lemma_sound_concat(p1 + p2 + p3, p4);
    lemma_sound_concat(p1 + p2 + p3 + p4, p5);
    lemma_sound_concat(p1 + p2 + p3 + p4 + p5, v.king_moves());
    lemma_sound_concat(p1 + p2 + p3 + p4 + p5 + v.king_moves(), v.castle_moves());
    lemma_keep_legal_safe(v, v.pseudo_moves());
    let l = v.legal_moves();
    assert forall|k: int| #![trigger l[k]] 0 <= k < l.len() implies sound_move(l[k]) by {
        let ps = v.pseudo_moves();
        assert(ps.contains(l[k]));
        let j = choose|j: int| 0 <= j < ps.len() && ps[j] == l[k];
        assert(sound_move(ps[j]));
    }
}

/// Move `m` lands `df` files and `dr` ranks away from square `from`.
pub open spec fn lands_at(m: Move, from: int, df: int, dr: int) -> bool {
    &&& m.to % 8 == from % 8 + df
    &&& m.to / 8 == from / 8 + dr
}

/// Every move of `ms` leaves `from` by one of the first `n` knight jumps.
pub open spec fn knight_landings(ms: Seq<Move>, from: int, n: int) -> bool {
    forall|k: int|
        #![trigger ms[k]]
        0 <= k < ms.len() ==> ms[k].from == from && exists|i: int|
            0 <= i < n && #[trigger] lands_at(ms[k], from, knight_df(i), knight_dr(i))
}

/// Every move of `ms` leaves `from` by one of the first `n` king steps.
pub open spec fn king_landings(ms: Seq<Move>, from: int, n: int) -> bool {
    forall|k: int|
        #![trigger ms[k]]
        0 <= k < ms.len() ==> ms[k].from == from && exists|i: int|
            0 <= i < n && #[trigger] lands_at(
                ms[k],
                from,
                ray_df(Rays::Both, i),
                ray_dr(Rays::Both, i),
            )
}

proof fn lemma_knight_table(i: int, j: int)
    requires
        0 <= i < j < 8,
    ensures
        knight_df(i) != knight_df(j) || knight_dr(i) != knight_dr(j),
{
}

proof fn lemma_king_table(i: int, j: int)
    requires
        0 <= i < j < 8,
    ensures
        ray_df(Rays::Both, i) != ray_df(Rays::Both, j) || ray_dr(Rays::Both, i) != ray_dr(
            Rays::Both,
            j,
        ),
{
}

proof fn lemma_knight_distinct(from: int, own: u64, enemy_king: u64, n: int)
    requires
        0 <= from < 64,
        n <= 8,
    ensures
        knight_jumps(from, own, enemy_king, n).no_duplicates(),
        knight_landings(knight_jumps(from, own, enemy_king, n), from, n),
    decreases n,
{
    if n > 0 {
        lemma_knight_distinct(from, own, enemy_king, n - 1);
        let a = knight_jumps(from, own, enemy_king, n - 1);
        let b = step_move(from, knight_df(n - 1), knight_dr(n - 1), own, enemy_king);
        let f = from % 8 + knight_df(n - 1);
        let r = from / 8 + knight_dr(n - 1);
        if b.len() > 0 {
            lemma_square_coords(f, r);
            assert(lands_at(b[0], from, knight_df(n - 1), knight_dr(n - 1)));
            assert forall|x: int, y: int| 0 <= x < a.len() && 0 <= y < b.len() implies a[x]
                != b[y] by {
                let i = choose|i: int|
                    0 <= i < n - 1 && #[trigger] lands_at(a[x], from, knight_df(i), knight_dr(i));
                lemma_knight_table(i, n - 1);
            }
        }
        vstd::seq_lib::lemma_no_dup_in_concat(a, b);
        assert forall|k: int| #![trigger (a + b)[k]] 0 <= k < (a + b).len() implies (a + b)[k].from
            == from && exists|i: int|
            0 <= i < n && #[trigger] lands_at((a + b)[k], from, knight_df(i), knight_dr(i)) by {
            if k < a.len() {
                assert((a + b)[k] == a[k]);
                let i = choose|i: int|
                    0 <= i < n - 1 && #[trigger] lands_at(a[k], from, knight_df(i), knight_dr(i));
                assert(lands_at((a + b)[k], from, knight_df(i), knight_dr(i)));
            } else {
                assert((a + b)[k] == b[k - a.len()]);
                assert(lands_at((a + b)[k], from, knight_df(n - 1), knight_dr(n - 1)));
            }
        }
    }
}

proof fn lemma_king_distinct(from: int, own: u64, enemy_king: u64, n: int)
    requires
        0 <= from < 64,
        n <= 8,
    ensures
        king_steps(from, own, enemy_king, n).no_duplicates(),
        king_landings(king_steps(from, own, enemy_king, n), from, n),
    decreases n,
{
    if n > 0 {
        lemma_king_distinct(from, own, enemy_king, n - 1);
        let a = king_steps(from, own, enemy_king, n - 1);
        let b = step_move(from, ray_df(Rays::Both, n - 1), ray_dr(Rays::Both, n - 1), own, enemy_king);
        let f = from % 8 + ray_df(Rays::Both, n - 1);
        let r = from / 8 + ray_dr(Rays::Both, n - 1);
        if b.len() > 0 {
            lemma_square_coords(f, r);
            assert(lands_at(b[0], from, ray_df(Rays::Both, n - 1), ray_dr(Rays::Both, n - 1)));
            assert forall|x: int, y: int| 0 <= x < a.len() && 0 <= y < b.len() implies a[x]
                != b[y] by {
                let i = choose|i: int|
                    0 <= i < n - 1 && #[trigger] lands_at(
                        a[x],
                        from,
                        ray_df(Rays::Both, i),
                        ray_dr(Rays::Both, i),
                    );
                lemma_king_table(i, n - 1);
            }
        }
        vstd::seq_lib::lemma_no_dup_in_concat(a, b);
        assert forall|k: int| #![trigger (a + b)[k]] 0 <= k < (a + b).len() implies (a + b)[k].from
            == from && exists|i: int|
            0 <= i < n && #[trigger] lands_at(
                (a + b)[k],
                from,
                ray_df(Rays::Both, i),
                ray_dr(Rays::Both, i),
            ) by {
            if k < a.len() {
                assert((a + b)[k] == a[k]);
                let i = choose|i: int|
                    0 <= i < n - 1 && #[trigger] lands_at(
                        a[k],
                        from,
                        ray_df(Rays::Both, i),
                        ray_dr(Rays::Both, i),
                    );
                assert(lands_at((a + b)[k], from, ray_df(Rays::Both, i), ray_dr(Rays::Both, i)));
            } else {
                assert((a + b)[k] == b[k - a.len()]);
                assert(lands_at(
                    (a + b)[k],
                    from,
                    ray_df(Rays::Both, n - 1),
                    ray_dr(Rays::Both, n - 1),
                ));
            }
        }
    }
}

/// Square `t` lies on the ray from (`f`, `r`) in direction (`df`, `dr`),
/// (`f`, `r`) itself included.
pub open spec fn on_ray(f: int, r: int, df: int, dr: int, t: int) -> bool {
    let tf = t % 8;
    let tr = t / 8;
    &&& df == 0 ==> tf == f
    &&& df > 0 ==> tf >= f
    &&& df < 0 ==> tf <= f
    &&& dr == 0 ==> tr == r
    &&& dr > 0 ==> tr >= r
    &&& dr < 0 ==> tr <= r
    &&& df != 0 && dr != 0 && df == dr ==> tf - f == tr - r
    &&& df != 0 && dr != 0 && df != dr ==> tf - f == r - tr
}

/// Every move of `ms` leaves `from` along one of the first `n` rays of
/// `rays`.
pub open spec fn ray_landings(ms: Seq<Move>, from: int, rays: Rays, n: int) -> bool {
    forall|k: int|
        #![trigger ms[k]]
        0 <= k < ms.len() ==> ms[k].from == from && exists|i: int|
            0 <= i < n && #[trigger] on_ray(
                from % 8 + ray_df(rays, i),
                from / 8 + ray_dr(rays, i),
                ray_df(rays, i),
                ray_dr(rays, i),
                ms[k].to as int,
            )
}

proof fn lemma_ray_table(rays: Rays, i: int, j: int)
    requires
        0 <= i < j < ray_count(rays),
    ensures
        ray_df(rays, i) != ray_df(rays, j) || ray_dr(rays, i) != ray_dr(rays, j),
        is_direction(ray_df(rays, i), ray_dr(rays, i)),
        is_direction(ray_df(rays, j), ray_dr(rays, j)),
{
}

proof fn lemma_ray_distinct(
    from: int,
    f: int,
    r: int,
    df: int,
    dr: int,
    own: u64,
    enemy: u64,
    enemy_king: u64,
)
    requires
        0 <= from < 64,
    ensures
        ray_moves(from, f, r, df, dr, own, enemy, enemy_king).no_duplicates(),
        forall|k: int|
            #![trigger ray_moves(from, f, r, df, dr, own, enemy, enemy_king)[k]]
            0 <= k < ray_moves(from, f, r, df, dr, own, enemy, enemy_king).len() ==> ray_moves(
                from,
                f,
                r,
                df,
                dr,
                own,
                enemy,
                enemy_king,
            )[k].from == from && on_ray(
                f,
                r,
                df,
                dr,
                ray_moves(from, f, r, df, dr, own, enemy, enemy_king)[k].to as int,
            ),
    decreases ray_measure(f, r, df, dr),
{
    let ms = ray_moves(from, f, r, df, dr, own, enemy, enemy_king);
    if on_board(f, r) && is_direction(df, dr) {
        let t = square_of(f, r);
        lemma_square_coords(f, r);
        let head = seq![mk_move(from, t, None)];
        if has_bit(own, t) || has_bit(enemy_king, t) {
        } else if has_bit(enemy, t) {
            assert(ms == head);
        } else {
            let rest = ray_moves(from, f + df, r + dr, df, dr, own, enemy, enemy_king);
            lemma_ray_distinct(from, f + df, r + dr, df, dr, own, enemy, enemy_king);
            assert(ms == head + rest);
            assert forall|x: int, y: int| 0 <= x < head.len() && 0 <= y < rest.len() implies head[x]
                != rest[y] by {
                assert(on_ray(f + df, r + dr, df, dr, rest[y].to as int));
            }
            vstd::seq_lib::lemma_no_dup_in_concat(head, rest);
            assert forall|k: int| #![trigger ms[k]] 0 <= k < ms.len() implies ms[k].from == from
                && on_ray(f, r, df, dr, ms[k].to as int) by {
                if k > 0 {
                    assert(ms[k] == rest[k - 1]);
                }
            }
        }
    }
}

proof fn lemma_slider_distinct(
    from: int,
    own: u64,
    enemy: u64,
    enemy_king: u64,
    rays: Rays,
    n: int,
)
    requires
        0 <= from < 64,
        n <= ray_count(rays),
    ensures
        slider_rays(from, own, enemy, enemy_king, rays, n).no_duplicates(),
        ray_landings(slider_rays(from, own, enemy, enemy_king, rays, n), from, rays, n),
    decreases n,
{
    if n > 0 {
        lemma_slider_distinct(from, own, enemy, enemy_king, rays, n - 1);
        let df = ray_df(rays, n - 1);
        let dr = ray_dr(rays, n - 1);
        let f0 = from % 8;
        let r0 = from / 8;
        let a = slider_rays(from, own, enemy, enemy_king, rays, n - 1);
        let b = ray_moves(from, f0 + df, r0 + dr, df, dr, own, enemy, enemy_king);
        lemma_ray_distinct(from, f0 + df, r0 + dr, df, dr, own, enemy, enemy_king);
        assert forall|x: int, y: int| 0 <= x < a.len() && 0 <= y < b.len() implies a[x] != b[y] by {
            let i = choose|i: int|
                0 <= i < n - 1 && #[trigger] on_ray(
                    f0 + ray_df(rays, i),
                    r0 + ray_dr(rays, i),
                    ray_df(rays, i),
                    ray_dr(rays, i),
                    a[x].to as int,
                );
            lemma_ray_table(rays, i, n - 1);
            assert(on_ray(f0 + df, r0 + dr, df, dr, b[y].to as int));
        }
        vstd::seq_lib::lemma_no_dup_in_concat(a, b);
        let ms = a + b;
        assert forall|k: int| #![trigger ms[k]] 0 <= k < ms.len() implies ms[k].from == from
            && exists|i: int|
            0 <= i < n && #[trigger] on_ray(
                f0 + ray_df(rays, i),
                r0 + ray_dr(rays, i),
                ray_df(rays, i),
                ray_dr(rays, i),
                ms[k].to as int,
            ) by {
            if k < a.len() {
                assert(ms[k] == a[k]);
                let i = choose|i: int|
                    0 <= i < n - 1 && #[trigger] on_ray(
                        f0 + ray_df(rays, i),
                        r0 + ray_dr(rays, i),
                        ray_df(rays, i),
                        ray_dr(rays, i),
                        a[k].to as int,
                    );
                assert(on_ray(
                    f0 + ray_df(rays, i),
                    r0 + ray_dr(rays, i),
                    ray_df(rays, i),
                    ray_dr(rays, i),
                    ms[k].to as int,
                ));
            } else {
                assert(ms[k] == b[k - a.len()]);
                assert(on_ray(f0 + df, r0 + dr, df, dr, ms[k].to as int));
            }
        }
    }
}

proof fn lemma_pawn_set_distinct(from: int, to: int)
    requires
        0 <= to < 64,
    ensures
        pawn_move_set(from, to).no_duplicates(),
        forall|k: int|
            #![trigger pawn_move_set(from, to)[k]]
            0 <= k < pawn_move_set(from, to).len() ==> pawn_move_set(from, to)[k].to == to,
{
}

/// Every move of `ms` lands on file `f`.
pub open spec fn lands_on_file(ms: Seq<Move>, f: int) -> bool {
    forall|k: int| #![trigger ms[k]] 0 <= k < ms.len() ==> ms[k].to % 8 == f
}

proof fn lemma_pawn_distinct(v: BoardView, from: int)
    requires
        0 <= from < 64,
    ensures
        v.pawn_moves_from(from).no_duplicates(),
{
    let f = from % 8;
    let r = from / 8;
    let dir = v.pawn_dir();
    let pushes = v.pawn_pushes(from);
    assert(pushes.no_duplicates() && lands_on_file(pushes, f)) by {
        if on_board(f, r + dir) && !has_bit(v.occupied(), square_of(f, r + dir)) {
            let t1 = square_of(f, r + dir);
            lemma_square_coords(f, r + dir);
            lemma_pawn_set_distinct(from, t1);
            let one = pawn_move_set(from, t1);
            let extra = if r == (if v.side_to_move == Color::White {
                1int
            } else {
                6int
            }) && on_board(f, r + 2 * dir) && !has_bit(v.occupied(), square_of(f, r + 2 * dir)) {
                seq![mk_move(from, square_of(f, r + 2 * dir), None)]
            } else {
                seq![]
            };
            if extra.len() > 0 {
                lemma_square_coords(f, r + 2 * dir);
            }
            assert(pushes == one + extra);
            vstd::seq_lib::lemma_no_dup_in_concat(one, extra);
            assert forall|k: int| #![trigger pushes[k]] 0 <= k < pushes.len() implies pushes[k].to
                % 8 == f by {
                if k < one.len() {
                    assert(pushes[k] == one[k]);
                } else {
                    assert(pushes[k] == extra[k - one.len()]);
                }
            }
        }
    }
    let left = v.pawn_capture(from, -1);
    let right = v.pawn_capture(from, 1);
    assert(left.no_duplicates() && lands_on_file(left, f - 1)) by {
        if left.len() > 0 {
            lemma_square_coords(f - 1, r + dir);
            lemma_pawn_set_distinct(from, square_of(f - 1, r + dir));
        }
    }
    assert(right.no_duplicates() && lands_on_file(right, f + 1)) by {
        if right.len() > 0 {
            lemma_square_coords(f + 1, r + dir);
            lemma_pawn_set_distinct(from, square_of(f + 1, r + dir));
        }
    }
    assert forall|x: int, y: int| 0 <= x < pushes.len() && 0 <= y < left.len() implies pushes[x]
        != left[y] by {
        assert(pushes[x].to % 8 == f);
        assert(left[y].to % 8 == f - 1);
    }
    vstd::seq_lib::lemma_no_dup_in_concat(pushes, left);
    let pl = pushes + left;
    assert forall|x: int, y: int| 0 <= x < pl.len() && 0 <= y < right.len() implies pl[x]
        != right[y] by {
        assert(right[y].to % 8 == f + 1);
        if x < pushes.len() {
            assert(pl[x] == pushes[x]);
            assert(pushes[x].to % 8 == f);
        } else {
            assert(pl[x] == left[x - pushes.len()]);
            assert(left[x - pushes.len()].to % 8 == f - 1);
        }
    }
    vstd::seq_lib::lemma_no_dup_in_concat(pl, right);
}

proof fn lemma_gen_distinct(bb: u64, n: int, g: SquareGen)
    requires
        n <= 64,
        forall|s: int|
            0 <= s < 64 ==> (#[trigger] gen_at(g, s)).no_duplicates() && moves_from_square(
                gen_at(g, s),
                s,
            ),
    ensures
        gen_upto(bb, n, g).no_duplicates(),
        forall|k: int|
            #![trigger gen_upto(bb, n, g)[k]]
            0 <= k < gen_upto(bb, n, g).len() ==> gen_upto(bb, n, g)[k].from < n && has_bit(
                bb,
                gen_upto(bb, n, g)[k].from as int,
            ),
    decreases n,
{
    if n > 0 {
        lemma_gen_distinct(bb, n - 1, g);
        let a = gen_upto(bb, n - 1, g);
        let last = if has_bit(bb, n - 1) {
            gen_at(g, n - 1)
        } else {
            seq![]
        };
        assert(gen_at(g, n - 1).no_duplicates());
        assert forall|x: int, y: int| 0 <= x < a.len() && 0 <= y < last.len() implies a[x]
            != last[y] by {
            assert(a[x].from < n - 1);
            assert(last[y].from == n - 1);
        }
        vstd::seq_lib::lemma_no_dup_in_concat(a, last);
        let ms = a + last;
        assert forall|k: int| #![trigger ms[k]] 0 <= k < ms.len() implies ms[k].from < n && has_bit(
            bb,
            ms[k].from as int,
        ) by {
            if k < a.len() {
                assert(ms[k] == a[k]);
            } else {
                assert(ms[k] == last[k - a.len()]);
            }
        }
    }
}

/// The order in which move generation takes the kinds of pieces.
pub open spec fn kind_rank(p: Piece) -> int {
    match p {
        Piece::Pawn => 0,
        Piece::Knight => 1,
        Piece::Bishop => 2,
        Piece::Rook => 3,
        Piece::Queen => 4,
        Piece::King => 5,
    }
}

/// Every move of `ms` starts on a square of a piece of the side to move that
/// generation takes before the `n`-th kind.
pub open spec fn movers_below(v: BoardView, ms: Seq<Move>, n: int) -> bool {
    forall|k: int|
        #![trigger ms[k]]
        0 <= k < ms.len() ==> (v.piece_on(v.side_to_move, ms[k].from as int) matches Some(p)
            && kind_rank(p) < n)
}

/// Every move of `ms` starts on a square of the mover's `p`.
pub open spec fn moved_by(v: BoardView, ms: Seq<Move>, p: Piece) -> bool {
    forall|k: int|
        #![trigger ms[k]]
        0 <= k < ms.len() ==> v.piece_on(v.side_to_move, ms[k].from as int) == Some(p)
}

/// The side to move has at most one kind of piece on each square.
pub open spec fn kinds_apart(v: BoardView) -> bool {
    forall|a: Piece, b: Piece, s: int|
        #![trigger has_bit(v.bb(v.side_to_move, a), s), has_bit(v.bb(v.side_to_move, b), s)]
        a != b && has_bit(v.bb(v.side_to_move, a), s) ==> !has_bit(v.bb(v.side_to_move, b), s)
}

proof fn lemma_piece_on_kind(v: BoardView, p: Piece, s: int)
    requires
        kinds_apart(v),
        has_bit(v.bb(v.side_to_move, p), s),
    ensures
        v.piece_on(v.side_to_move, s) == Some(p),
{
    let us = v.side_to_move;
    assert(!has_bit(v.bb(us, Piece::Pawn), s) || p == Piece::Pawn);
    assert(!has_bit(v.bb(us, Piece::Knight), s) || p == Piece::Knight);
    assert(!has_bit(v.bb(us, Piece::Bishop), s) || p == Piece::Bishop);
    assert(!has_bit(v.bb(us, Piece::Rook), s) || p == Piece::Rook);
    assert(!has_bit(v.bb(us, Piece::Queen), s) || p == Piece::Queen);
    assert(!has_bit(v.bb(us, Piece::King), s) || p == Piece::King);
}

proof fn lemma_add_group(v: BoardView, acc: Seq<Move>, grp: Seq<Move>, p: Piece)
    requires
        acc.no_duplicates(),
        grp.no_duplicates(),
        movers_below(v, acc, kind_rank(p)),
        moved_by(v, grp, p),
    ensures
        (acc + grp).no_duplicates(),
        movers_below(v, acc + grp, kind_rank(p) + 1),
{
    assert forall|x: int, y: int| 0 <= x < acc.len() && 0 <= y < grp.len() implies acc[x]
        != grp[y] by {
        assert(v.piece_on(v.side_to_move, grp[y].from as int) == Some(p));
    }
    vstd::seq_lib::lemma_no_dup_in_concat(acc, grp);
    let ms = acc + grp;
    assert forall|k: int| #![trigger ms[k]] 0 <= k < ms.len() implies (v.piece_on(
        v.side_to_move,
        ms[k].from as int,
    ) matches Some(q) && kind_rank(q) < kind_rank(p) + 1) by {
        if k < acc.len() {
            assert(ms[k] == acc[k]);
        } else {
            assert(ms[k] == grp[k - acc.len()]);
        }
    }
}

proof fn lemma_gen_group(v: BoardView, p: Piece, g: SquareGen)
    requires
        kinds_apart(v),
        forall|s: int|
            0 <= s < 64 ==> (#[trigger] gen_at(g, s)).no_duplicates() && moves_from_square(
                gen_at(g, s),
                s,
            ),
    ensures
        gen_upto(v.bb(v.side_to_move, p), 64, g).no_duplicates(),
        moved_by(v, gen_upto(v.bb(v.side_to_move, p), 64, g), p),
{
    let ms = gen_upto(v.bb(v.side_to_move, p), 64, g);
    lemma_gen_distinct(v.bb(v.side_to_move, p), 64, g);
    assert forall|k: int| #![trigger ms[k]] 0 <= k < ms.len() implies v.piece_on(
        v.side_to_move,
        ms[k].from as int,
    ) == Some(p) by {
        lemma_piece_on_kind(v, p, ms[k].from as int);
    }
}

proof fn lemma_keep_legal_distinct(v: BoardView, ms: Seq<Move>)
    requires
        ms.no_duplicates(),
    ensures
        v.keep_legal(ms).no_duplicates(),
    decreases ms.len(),
{
    if ms.len() > 0 {
        let rest = ms.drop_last();
        lemma_keep_legal_distinct(v, rest);
        lemma_keep_legal_safe(v, rest);
        let kept = v.keep_legal(rest);
        let tail = if v.after_move(ms.last()).in_check(v.side_to_move) {
            seq![]
        } else {
            seq![ms.last()]
        };
        assert(v.keep_legal(ms) == kept + tail);
        assert forall|x: int, y: int| 0 <= x < kept.len() && 0 <= y < tail.len() implies kept[x]
            != tail[y] by {
            assert(rest.contains(kept[x]));
            let j = choose|j: int| 0 <= j < rest.len() && rest[j] == kept[x];
            assert(ms[j] == rest[j]);
            assert(tail[y] == ms[ms.len() - 1]);
        }
        vstd::seq_lib::lemma_no_dup_in_concat(kept, tail);
    }
}

/// When the side to move has at most one kind of piece on each square, move
/// generation never produces a move twice, and so neither does the list of
/// legal moves.
pub proof fn law_moves_are_distinct(v: BoardView)
    requires
        kinds_apart(v),
    ensures
        v.pseudo_moves().no_duplicates(),
        v.legal_moves().no_duplicates(),
{
    let us = v.side_to_move;
    let them = us.other();
    let own = v.occ(us);
    let enemy = v.occ(them);
    let ek = v.bb(them, Piece::King);
    assert forall|s: int| 0 <= s < 64 implies (#[trigger] gen_at(SquareGen::Pawns(v), s)).no_duplicates()
        && moves_from_square(gen_at(SquareGen::Pawns(v), s), s) by {
        lemma_pawn_distinct(v, s);
        lemma_pawn_moves_shape(v, s);
    }
    assert forall|s: int| 0 <= s < 64 implies (#[trigger] gen_at(
        SquareGen::Knights(own, ek),
        s,
    )).no_duplicates() && moves_from_square(gen_at(SquareGen::Knights(own, ek), s), s) by {
        lemma_knight_distinct(s, own, ek, 8);
        lemma_knight_jumps_shape(s, own, ek, 8);
    }
    assert forall|s: int| 0 <= s < 64 implies (#[trigger] gen_at(
        SquareGen::Sliders(own, enemy, ek, Rays::Diagonal),
        s,
    )).no_duplicates() && moves_from_square(
        gen_at(SquareGen::Sliders(own, enemy, ek, Rays::Diagonal), s),
        s,
    ) by {
        lemma_slider_distinct(s, own, enemy, ek, Rays::Diagonal, 4);
        lemma_slider_rays_shape(s, own, enemy, ek, Rays::Diagonal, 4);
    }
    assert forall|s: int| 0 <= s < 64 implies (#[trigger] gen_at(
        SquareGen::Sliders(own, enemy, ek, Rays::Straight),
        s,
    )).no_duplicates() && moves_from_square(
        gen_at(SquareGen::Sliders(own, enemy, ek, Rays::Straight), s),
        s,
    ) by {
        lemma_slider_distinct(s, own, enemy, ek, Rays::Straight, 4);
        lemma_slider_rays_shape(s, own, enemy, ek, Rays::Straight, 4);
    }
    assert forall|s: int| 0 <= s < 64 implies (#[trigger] gen_at(
        SquareGen::Sliders(own, enemy, ek, Rays::Both),
        s,
    )).no_duplicates() && moves_from_square(
        gen_at(SquareGen::Sliders(own, enemy, ek, Rays::Both), s),
        s,
    ) by {
        lemma_slider_distinct(s, own, enemy, ek, Rays::Both, 8);
        lemma_slider_rays_shape(s, own, enemy, ek, Rays::Both, 8);
    }
    let p1 = gen_upto(v.bb(us, Piece::Pawn), 64, SquareGen::Pawns(v));
    let p2 = gen_upto(v.bb(us, Piece::Knight), 64, SquareGen::Knights(own, ek));
    let p3 = gen_upto(v.bb(us, Piece::Bishop), 64, SquareGen::Sliders(own, enemy, ek, Rays::Diagonal));
    let p4 = gen_upto(v.bb(us, Piece::Rook), 64, SquareGen::Sliders(own, enemy, ek, Rays::Straight));
    let p5 = gen_upto(v.bb(us, Piece::Queen), 64, SquareGen::Sliders(own, enemy, ek, Rays::Both));
    lemma_gen_group(v, Piece::Pawn, SquareGen::Pawns(v));
    lemma_gen_group(v, Piece::Knight, SquareGen::Knights(own, ek));
    lemma_gen_group(v, Piece::Bishop, SquareGen::Sliders(own, enemy, ek, Rays::Diagonal));
    lemma_gen_group(v, Piece::Rook, SquareGen::Sliders(own, enemy, ek, Rays::Straight));
    lemma_gen_group(v, Piece::Queen, SquareGen::Sliders(own, enemy, ek, Rays::Both));
    let e: Seq<Move> = seq![];
    assert(movers_below(v, e, 0));
    lemma_add_group(v, e, p1, Piece::Pawn);
    assert(e + p1 == p1);
    lemma_add_group(v, p1, p2, Piece::Knight);
    lemma_add_group(v, p1 + p2, p3, Piece::Bishop);
    lemma_add_group(v, p1 + p2 + p3, p4, Piece::Rook);
    lemma_add_group(v, p1 + p2 + p3 + p4, p5, Piece::Queen);
    let km = v.king_moves();
    let cm = v.castle_moves();
    let home: int = if us == Color::White {
        4
    } else {
        60
    };
    assert(cm.no_duplicates());
    assert(moved_by(v, cm, Piece::King)) by {
        if cm.len() > 0 {
            lemma_piece_on_kind(v, Piece::King, home);
        }
    }
    assert(km.no_duplicates() && moved_by(v, km, Piece::King)) by {
        if let Some(s) = v.king_sq(us) {
            lemma_pop_lowest(v.bb(us, Piece::King));
            lemma_king_distinct(s, own, ek, 8);
            lemma_piece_on_kind(v, Piece::King, s);
        }
    }
    assert forall|x: int, y: int| 0 <= x < km.len() && 0 <= y < cm.len() implies km[x]
        != cm[y] by {
        if let Some(s) = v.king_sq(us) {
            lemma_pop_lowest(v.bb(us, Piece::King));
            lemma_king_distinct(s, own, ek, 8);
            let i = choose|i: int|
                0 <= i < 8 && #[trigger] lands_at(
                    km[x],
                    s,
                    ray_df(Rays::Both, i),
                    ray_dr(Rays::Both, i),
                );
            assert(cm[y].from == home);
            assert(cm[y].to == home + 2 || cm[y].to == home - 2);
        }
    }
    vstd::seq_lib::lemma_no_dup_in_concat(km, cm);
    assert(moved_by(v, km + cm, Piece::King)) by {
        let kc = km + cm;
        assert forall|k: int| #![trigger kc[k]] 0 <= k < kc.len() implies v.piece_on(
            us,
            kc[k].from as int,
        ) == Some(Piece::King) by {
            if k < km.len() {
                assert(kc[k] == km[k]);
            } else {
                assert(kc[k] == cm[k - km.len()]);
            }
        }
    }
    lemma_add_group(v, p1 + p2 + p3 + p4 + p5, km + cm, Piece::King);
    assert(v.pseudo_moves() == p1 + p2 + p3 + p4 + p5 + (km + cm));
    lemma_keep_legal_distinct(v, v.pseudo_moves());
}

proof fn lemma_gen_from(bb: u64, n: int, g: SquareGen)
    requires
        n <= 64,
        forall|s: int| 0 <= s < 64 ==> moves_from_square(#[trigger] gen_at(g, s), s),
    ensures
        forall|k: int|
            #![trigger gen_upto(bb, n, g)[k]]
            0 <= k < gen_upto(bb, n, g).len() ==> has_bit(bb, gen_upto(bb, n, g)[k].from as int),
    decreases n,
{
    if n > 0 {
        lemma_gen_from(bb, n - 1, g);
        let a = gen_upto(bb, n - 1, g);
        let last = if has_bit(bb, n - 1) {
            gen_at(g, n - 1)
        } else {
            seq![]
        };
        assert(moves_from_square(gen_at(g, n - 1), n - 1));
        let ms = a + last;
        assert forall|k: int| #![trigger ms[k]] 0 <= k < ms.len() implies has_bit(
            bb,
            ms[k].from as int,
        ) by {
            if k < a.len() {
                assert(ms[k] == a[k]);
            } else {
                assert(ms[k] == last[k - a.len()]);
            }
        }
    }
}

/// A pseudo-legal move of a king by two files is a castling move.
proof fn lemma_two_file_king_move_castles(v: BoardView, m: Move)
    requires
        v.pseudo_moves().contains(m),
        v.piece_on(v.side_to_move, m.from as int) == Some(Piece::King),
        m.to as int == m.from as int + 2 || m.to as int == m.from as int - 2,
    ensures
        v.castle_moves().contains(m),
{
    let us = v.side_to_move;
    let them = us.other();
    let own = v.occ(us);
    let enemy = v.occ(them);
    let ek = v.bb(them, Piece::King);
    assert forall|s: int| 0 <= s < 64 implies moves_from_square(
        #[trigger] gen_at(SquareGen::Pawns(v), s),
        s,
    ) by {
        lemma_pawn_moves_shape(v, s);
    }
    assert forall|s: int| 0 <= s < 64 implies moves_from_square(
        #[trigger] gen_at(SquareGen::Knights(own, ek), s),
        s,
    ) by {
        lemma_knight_jumps_shape(s, own, ek, 8);
    }
    assert forall|s: int| 0 <= s < 64 implies moves_from_square(
        #[trigger] gen_at(SquareGen::Sliders(own, enemy, ek, Rays::Diagonal), s),
        s,
    ) by {
        lemma_slider_rays_shape(s, own, enemy, ek, Rays::Diagonal, 4);
    }
    assert forall|s: int| 0 <= s < 64 implies moves_from_square(
        #[trigger] gen_at(SquareGen::Sliders(own, enemy, ek, Rays::Straight), s),
        s,
    ) by {
        lemma_slider_rays_shape(s, own, enemy, ek, Rays::Straight, 4);
    }
    assert forall|s: int| 0 <= s < 64 implies moves_from_square(
        #[trigger] gen_at(SquareGen::Sliders(own, enemy, ek, Rays::Both), s),
        s,
    ) by {
        lemma_slider_rays_shape(s, own, enemy, ek, Rays::Both, 8);
    }
    let p1 = gen_upto(v.bb(us, Piece::Pawn), 64, SquareGen::Pawns(v));
    let p2 = gen_upto(v.bb(us, Piece::Knight), 64, SquareGen::Knights(own, ek));
    let p3 = gen_upto(v.bb(us, Piece::Bishop), 64, SquareGen::Sliders(own, enemy, ek, Rays::Diagonal));
    let p4 = gen_upto(v.bb(us, Piece::Rook), 64, SquareGen::Sliders(own, enemy, ek, Rays::Straight));
    let p5 = gen_upto(v.bb(us, Piece::Queen), 64, SquareGen::Sliders(own, enemy, ek, Rays::Both));
    lemma_gen_from(v.bb(us, Piece::Pawn), 64, SquareGen::Pawns(v));
    lemma_gen_from(v.bb(us, Piece::Knight), 64, SquareGen::Knights(own, ek));
    lemma_gen_from(v.bb(us, Piece::Bishop), 64, SquareGen::Sliders(own, enemy, ek, Rays::Diagonal));
    lemma_gen_from(v.bb(us, Piece::Rook), 64, SquareGen::Sliders(own, enemy, ek, Rays::Straight));
    lemma_gen_from(v.bb(us, Piece::Queen), 64, SquareGen::Sliders(own, enemy, ek, Rays::Both));
    let km = v.king_moves();
    let cm = v.castle_moves();
    let ps = v.pseudo_moves();
    assert(ps == p1 + p2 + p3 + p4 + p5 + km + cm);
    let j = choose|j: int| 0 <= j < ps.len() && ps[j] == m;
    let n1 = p1.len() as int;
    let n2 = n1 + p2.len();
    let n3 = n2 + p3.len();
    let n4 = n3 + p4.len();
    let n5 = n4 + p5.len();
    let n6 = n5 + km.len();
    if j < n1 {
        assert(ps[j] == p1[j]);
    } else if j < n2 {
        assert(ps[j] == p2[j - n1]);
    } else if j < n3 {
        assert(ps[j] == p3[j - n2]);
    } else if j < n4 {
        assert(ps[j] == p4[j - n3]);
    } else if j < n5 {
        assert(ps[j] == p5[j - n4]);
    } else if j < n6 {
        assert(ps[j] == km[j - n5]);
        let s = v.king_sq(us).unwrap();
        lemma_pop_lowest(v.bb(us, Piece::King));
        lemma_king_distinct(s, own, ek, 8);
        let x = km[j - n5];
        let i = choose|i: int|
            0 <= i < 8 && #[trigger] lands_at(x, s, ray_df(Rays::Both, i), ray_dr(Rays::Both, i));
        assert(x.from == s);
        assert(x.to as int == (x.to / 8) * 8 + x.to % 8);
        assert(s == (s / 8) * 8 + s % 8);
        assert(false);
    } else {
        assert(ps[j] == cm[j - n6]);
    }
}

/// Castling is only generated when the king is on its home square, holds the
/// right, the rook is in its corner, the squares between them are empty, and
/// neither the king's square, the square it crosses nor the square it lands
/// on is attacked: every legal king move of two files is such a castling
/// move.
pub proof fn law_castling_needs_safe_empty_path(v: BoardView, m: Move)
    requires
        v.legal_moves().contains(m),
        v.piece_on(v.side_to_move, m.from as int) == Some(Piece::King),
        m.to as int == m.from as int + 2 || m.to as int == m.from as int - 2,
    ensures
        ({
            let us = v.side_to_move;
            let them = us.other();
            let home: int = if us == Color::White {
                4
            } else {
                60
            };
            let occ = v.occupied();
            &&& m.from == home
            &&& !v.attacked(home, them)
            &&& m.to == home + 2 ==> {
                &&& v.castling_rights & (if us == Color::White {
                    super::WHITE_KINGSIDE
                } else {
                    super::BLACK_KINGSIDE
                }) != 0
                &&& has_bit(v.bb(us, Piece::Rook), home + 3)
                &&& !has_bit(occ, home + 1) && !has_bit(occ, home + 2)
                &&& !v.attacked(home + 1, them) && !v.attacked(home + 2, them)
            }
            &&& m.to == home - 2 ==> {
                &&& v.castling_rights & (if us == Color::White {
                    super::WHITE_QUEENSIDE
                } else {
                    super::BLACK_QUEENSIDE
                }) != 0
                &&& has_bit(v.bb(us, Piece::Rook), home - 4)
                &&& !has_bit(occ, home - 1) && !has_bit(occ, home - 2) && !has_bit(occ, home - 3)
                &&& !v.attacked(home - 1, them) && !v.attacked(home - 2, them)
            }
        }),
{
    lemma_keep_legal_safe(v, v.pseudo_moves());
    let l = v.legal_moves();
    let k = choose|k: int| 0 <= k < l.len() && l[k] == m;
    assert(v.pseudo_moves().contains(l[k]));
    lemma_two_file_king_move_castles(v, m);
    let cm = v.castle_moves();
    let i = choose|i: int| 0 <= i < cm.len() && cm[i] == m;
}

/// The move `m` with promotion `q` instead.
pub open spec fn promoting_to(m: Move, q: Piece) -> Move {
    Move { promotion: Some(q), ..m }
}

/// Every promotion in `ms` comes with the other three: queen, rook, bishop
/// and knight.
pub open spec fn promotions_complete(ms: Seq<Move>) -> bool {
    forall|k: int|
        #![trigger ms[k]]
        0 <= k < ms.len() && ms[k].promotion is Some ==> ms.contains(promoting_to(ms[k], Piece::Queen))
            && ms.contains(promoting_to(ms[k], Piece::Rook)) && ms.contains(
            promoting_to(ms[k], Piece::Bishop),
        ) && ms.contains(promoting_to(ms[k], Piece::Knight))
}

/// No move of `ms` promotes.
pub open spec fn all_plain(ms: Seq<Move>) -> bool {
    forall|k: int| #![trigger ms[k]] 0 <= k < ms.len() ==> ms[k].promotion is None
}

proof fn lemma_complete_concat(a: Seq<Move>, b: Seq<Move>)
    requires
        promotions_complete(a),
        promotions_complete(b),
    ensures
        promotions_complete(a + b),
{
    let ab = a + b;
    assert forall|m: Move| a.contains(m) implies ab.contains(m) by {
        let j = choose|j: int| 0 <= j < a.len() && a[j] == m;
        assert(ab[j] == m);
    }
    assert forall|m: Move| b.contains(m) implies ab.contains(m) by {
        let j = choose|j: int| 0 <= j < b.len() && b[j] == m;
        assert(ab[a.len() + j] == m);
    }
    assert forall|k: int| #![trigger ab[k]] 0 <= k < ab.len() && ab[k].promotion is Some implies ab.contains(
        promoting_to(ab[k], Piece::Queen),
    ) && ab.contains(promoting_to(ab[k], Piece::Rook)) && ab.contains(
        promoting_to(ab[k], Piece::Bishop),
    ) && ab.contains(promoting_to(ab[k], Piece::Knight)) by {
        if k < a.len() {
            assert(ab[k] == a[k]);
        } else {
            assert(ab[k] == b[k - a.len()]);
        }
    }
}

proof fn lemma_plain_concat(a: Seq<Move>, b: Seq<Move>)
    requires
        all_plain(a),
        all_plain(b),
    ensures
        all_plain(a + b),
{
    assert forall|k: int| #![trigger (a + b)[k]] 0 <= k < (a + b).len() implies (a + b)[k].promotion is None by {
        if k < a.len() {
            assert((a + b)[k] == a[k]);
        } else {
            assert((a + b)[k] == b[k - a.len()]);
        }
    }
}

proof fn lemma_ray_plain(
    from: int,
    f: int,
    r: int,
    df: int,
    dr: int,
    own: u64,
    enemy: u64,
    enemy_king: u64,
)
    ensures
        all_plain(ray_moves(from, f, r, df, dr, own, enemy, enemy_king)),
    decreases ray_measure(f, r, df, dr),
{
    if on_board(f, r) && is_direction(df, dr) {
        let t = square_of(f, r);
        if !(has_bit(own, t) || has_bit(enemy_king, t)) && !has_bit(enemy, t) {
            lemma_ray_plain(from, f + df, r + dr, df, dr, own, enemy, enemy_king);
            lemma_plain_concat(
                seq![mk_move(from, t, None)],
                ray_moves(from, f + df, r + dr, df, dr, own, enemy, enemy_king),
            );
        }
    }
}

proof fn lemma_slider_plain(from: int, own: u64, enemy: u64, enemy_king: u64, rays: Rays, n: int)
    ensures
        all_plain(slider_rays(from, own, enemy, enemy_king, rays, n)),
    decreases n,
{
    if n > 0 {
        lemma_slider_plain(from, own, enemy, enemy_king, rays, n - 1);
        lemma_ray_plain(
            from,
            from % 8 + ray_df(rays, n - 1),
            from / 8 + ray_dr(rays, n - 1),
            ray_df(rays, n - 1),
            ray_dr(rays, n - 1),
            own,
            enemy,
            enemy_king,
        );
        lemma_plain_concat(
            slider_rays(from, own, enemy, enemy_king, rays, n - 1),
            ray_moves(
                from,
                from % 8 + ray_df(rays, n - 1),
                from / 8 + ray_dr(rays, n - 1),
                ray_df(rays, n - 1),
                ray_dr(rays, n - 1),
                own,
                enemy,
                enemy_king,
            ),
        );
    }
}

proof fn lemma_knight_plain(from: int, own: u64, enemy_king: u64, n: int)
    ensures
        all_plain(knight_jumps(from, own, enemy_king, n)),
    decreases n,
{
    if n > 0 {
        lemma_knight_plain(from, own, enemy_king, n - 1);
        lemma_plain_concat(
            knight_jumps(from, own, enemy_king, n - 1),
            step_move(from, knight_df(n - 1), knight_dr(n - 1), own, enemy_king),
        );
    }
}

proof fn lemma_king_plain(from: int, own: u64, enemy_king: u64, n: int)
    ensures
        all_plain(king_steps(from, own, enemy_king, n)),
    decreases n,
{
    if n > 0 {
        lemma_king_plain(from, own, enemy_king, n - 1);
        lemma_plain_concat(
            king_steps(from, own, enemy_king, n - 1),
            step_move(from, ray_df(Rays::Both, n - 1), ray_dr(Rays::Both, n - 1), own, enemy_king),
        );
    }
}

proof fn lemma_plain_complete(ms: Seq<Move>)
    requires
        all_plain(ms),
    ensures
        promotions_complete(ms),
{
}

proof fn lemma_pawn_set_complete(from: int, to: int)
    ensures
        promotions_complete(pawn_move_set(from, to)),
{
    let ms = pawn_move_set(from, to);
    if to / 8 == 0 || to / 8 == 7 {
        assert forall|k: int| #![trigger ms[k]] 0 <= k < ms.len() && ms[k].promotion is Some implies ms.contains(
            promoting_to(ms[k], Piece::Queen),
        ) && ms.contains(promoting_to(ms[k], Piece::Rook)) && ms.contains(
            promoting_to(ms[k], Piece::Bishop),
        ) && ms.contains(promoting_to(ms[k], Piece::Knight)) by {
            assert(promoting_to(ms[k], Piece::Queen) == ms[0]);
            assert(promoting_to(ms[k], Piece::Rook) == ms[1]);
            assert(promoting_to(ms[k], Piece::Bishop) == ms[2]);
            assert(promoting_to(ms[k], Piece::Knight) == ms[3]);
        }
    }
}

proof fn lemma_pawn_complete(v: BoardView, from: int)
    ensures
        promotions_complete(v.pawn_moves_from(from)),
{
    let f = from % 8;
    let r = from / 8;
    let dir = v.pawn_dir();
    assert(promotions_complete(v.pawn_pushes(from))) by {
        if on_board(f, r + dir) && !has_bit(v.occupied(), square_of(f, r + dir)) {
            let extra = if r == (if v.side_to_move == Color::White {
                1int
            } else {
                6int
            }) && on_board(f, r + 2 * dir) && !has_bit(v.occupied(), square_of(f, r + 2 * dir)) {
                seq![mk_move(from, square_of(f, r + 2 * dir), None)]
            } else {
                seq![]
            };
            lemma_pawn_set_complete(from, square_of(f, r + dir));
            lemma_plain_complete(extra);
            lemma_complete_concat(pawn_move_set(from, square_of(f, r + dir)), extra);
        }
    }
    assert(promotions_complete(v.pawn_capture(from, -1))) by {
        lemma_pawn_set_complete(from, square_of(f - 1, r + dir));
    }
    assert(promotions_complete(v.pawn_capture(from, 1))) by {
        lemma_pawn_set_complete(from, square_of(f + 1, r + dir));
    }
    lemma_complete_concat(v.pawn_pushes(from), v.pawn_capture(from, -1));
    lemma_complete_concat(v.pawn_pushes(from) + v.pawn_capture(from, -1), v.pawn_capture(from, 1));
}

proof fn lemma_gen_complete(bb: u64, n: int, g: SquareGen)
    requires
        forall|s: int| #[trigger] promotions_complete(gen_at(g, s)),
    ensures
        promotions_complete(gen_upto(bb, n, g)),
    decreases n,
{
    if n > 0 {
        lemma_gen_complete(bb, n - 1, g);
        let last = if has_bit(bb, n - 1) {
            gen_at(g, n - 1)
        } else {
            seq![]
        };
        assert(promotions_complete(gen_at(g, n - 1)));
        lemma_complete_concat(gen_upto(bb, n - 1, g), last);
    }
}

/// A pawn that promotes may promote to any of a queen, rook, bishop or
/// knight: each pseudo-legal promotion comes with the other three.
pub proof fn law_promotions_come_in_fours(v: BoardView)
    ensures
        promotions_complete(v.pseudo_moves()),
{
    let us = v.side_to_move;
    let them = us.other();
    let own = v.occ(us);
    let enemy = v.occ(them);
    let ek = v.bb(them, Piece::King);
    assert forall|s: int| #[trigger] promotions_complete(gen_at(SquareGen::Pawns(v), s)) by {
        lemma_pawn_complete(v, s);
    }
    assert forall|s: int| #[trigger] promotions_complete(gen_at(SquareGen::Knights(own, ek), s)) by {
        lemma_knight_plain(s, own, ek, 8);
        lemma_plain_complete(gen_at(SquareGen::Knights(own, ek), s));
    }
    assert forall|s: int| #[trigger] promotions_complete(
        gen_at(SquareGen::Sliders(own, enemy, ek, Rays::Diagonal), s),
    ) by {
        lemma_slider_plain(s, own, enemy, ek, Rays::Diagonal, 4);
        lemma_plain_complete(gen_at(SquareGen::Sliders(own, enemy, ek, Rays::Diagonal), s));
    }
    assert forall|s: int| #[trigger] promotions_complete(
        gen_at(SquareGen::Sliders(own, enemy, ek, Rays::Straight), s),
    ) by {
        lemma_slider_plain(s, own, enemy, ek, Rays::Straight, 4);
        lemma_plain_complete(gen_at(SquareGen::Sliders(own, enemy, ek, Rays::Straight), s));
    }
    assert forall|s: int| #[trigger] promotions_complete(
        gen_at(SquareGen::Sliders(own, enemy, ek, Rays::Both), s),
    ) by {
        lemma_slider_plain(s, own, enemy, ek, Rays::Both, 8);
        lemma_plain_complete(gen_at(SquareGen::Sliders(own, enemy, ek, Rays::Both), s));
    }
    let p1 = gen_upto(v.bb(us, Piece::Pawn), 64, SquareGen::Pawns(v));
    let p2 = gen_upto(v.bb(us, Piece::Knight), 64, SquareGen::Knights(own, ek));
    let p3 = gen_upto(v.bb(us, Piece::Bishop), 64, SquareGen::Sliders(own, enemy, ek, Rays::Diagonal));
    let p4 = gen_upto(v.bb(us, Piece::Rook), 64, SquareGen::Sliders(own, enemy, ek, Rays::Straight));
    let p5 = gen_upto(v.bb(us, Piece::Queen), 64, SquareGen::Sliders(own, enemy, ek, Rays::Both));
    lemma_gen_complete(v.bb(us, Piece::Pawn), 64, SquareGen::Pawns(v));
    lemma_gen_complete(v.bb(us, Piece::Knight), 64, SquareGen::Knights(own, ek));
    lemma_gen_complete(v.bb(us, Piece::Bishop), 64, SquareGen::Sliders(own, enemy, ek, Rays::Diagonal));
    lemma_gen_complete(v.bb(us, Piece::Rook), 64, SquareGen::Sliders(own, enemy, ek, Rays::Straight));
    lemma_gen_complete(v.bb(us, Piece::Queen), 64, SquareGen::Sliders(own, enemy, ek, Rays::Both));
    assert(promotions_complete(v.king_moves())) by {
        if let Some(s) = v.king_sq(us) {
            lemma_king_plain(s, own, ek, 8);
        }
        lemma_plain_complete(v.king_moves());
    }
    assert(promotions_complete(v.castle_moves())) by {
        assert(all_plain(v.castle_moves()));
    }
    lemma_complete_concat(p1, p2);
    lemma_complete_concat(p1 + p2, p3);
    lemma_complete_concat(p1 + p2 + p3, p4);
    lemma_complete_concat(p1 + p2 + p3 + p4, p5);
    lemma_complete_concat(p1 + p2 + p3 + p4 + p5, v.king_moves());
    lemma_complete_concat(p1 + p2 + p3 + p4 + p5 + v.king_moves(), v.castle_moves());
}

} // verus!
