//! Zobrist hashing keys, drawn from a splitmix64 generator with a fixed seed.
use vstd::prelude::*;
use crate::board::{Color, Piece};

verus! {

pub type ZobristKey = u64;

/// The splitmix64 increment.
pub open spec fn golden() -> u64 {
    0x9E3779B97F4A7C15
}

/// The generator's state after `n` draws from `seed`.
pub open spec fn prng_state(seed: u64, n: nat) -> u64
    decreases n,
{
    if n == 0 {
        seed
    } else {
        prng_state(seed, (n - 1) as nat).wrapping_add(golden())
    }
}

/// The splitmix64 output function.
pub open spec fn mix(state: u64) -> u64 {
    let z1 = (state ^ (state >> 30)).wrapping_mul(0xBF58476D1CE4E5B9);
    let z2 = (z1 ^ (z1 >> 27)).wrapping_mul(0x94D049BB133111EB);
    z2 ^ (z2 >> 31)
}

/// The `n`-th number (counting from 0) the generator draws from `seed`.
pub open spec fn prng_output(seed: u64, n: nat) -> u64 {
    mix(prng_state(seed, n + 1))
}

/// The seed of the engine's keys.
pub open spec fn default_seed() -> u64 {
    0x07072023
}

struct Prng {
    state: u64,
}

impl Prng {
    fn new(seed: u64) -> (p: Self)
        ensures
            p.state == seed,
    {
        Self { state: seed }
    }

    fn next_int(&mut self) -> (r: u64)
        ensures
            final(self).state == old(self).state.wrapping_add(golden()),
            r == mix(final(self).state),
    {
        self.state = self.state.wrapping_add(0x9E3779B97F4A7C15);
        let mut z = self.state;
        z = (z ^ (z >> 30)).wrapping_mul(0xBF58476D1CE4E5B9);
        z = (z ^ (z >> 27)).wrapping_mul(0x94D049BB133111EB);
        z ^ (z >> 31)
    }
}

/// The next `N` draws of the generator, which has made `start` draws from `seed`.
fn draw_keys<const N: usize>(prng: &mut Prng, Ghost(seed): Ghost<u64>, Ghost(start): Ghost<nat>) -> (keys: [u64; N])
    requires
        old(prng).state == prng_state(seed, start),
    ensures
        final(prng).state == prng_state(seed, (start + N) as nat),
        forall|k: int| 0 <= k < N ==> #[trigger] keys[k] == prng_output(seed, (start + k) as nat),
{
    let mut keys = [0u64; N];
    let mut i: usize = 0;
    while i < N
        invariant
            i <= N,
            prng.state == prng_state(seed, (start + i) as nat),
            forall|k: int| 0 <= k < i ==> #[trigger] keys[k] == prng_output(seed, (start + k) as nat),
        decreases N - i,
    {
        let key = prng.next_int();
        keys[i] = key;
        i = i + 1;
    }
    keys
}

/// Index of the draw that gives the key of a piece kind `piece` of colour
/// `side` on `square`; then come the sixteen castling keys, the two side keys
/// and the sixty-five en-passant keys.
pub open spec fn piece_draw(side: int, piece: int, square: int) -> int {
    side * 384 + piece * 64 + square
}

#[derive(Debug, Clone)]
pub struct ZobristRandoms {
    ///[side][piece_type][square]
    pub pieces: [[[ZobristKey; 64]; 6]; 2],
    pub side_to_move: [ZobristKey; 2],
    pub castling: [ZobristKey; 16],
    pub en_passant: [ZobristKey; 65],
}

impl ZobristRandoms {
    /// The keys are the generator's draws from `seed`, in the order pieces,
    /// castling, side to move, en passant.
    pub open spec fn drawn_from(self, seed: u64) -> bool {
        &&& forall|s: int, p: int, q: int|
            0 <= s < 2 && 0 <= p < 6 && 0 <= q < 64 ==> #[trigger] self.pieces[s][p][q]
                == prng_output(seed, piece_draw(s, p, q) as nat)
        &&& forall|i: int|
            0 <= i < 16 ==> #[trigger] self.castling[i] == prng_output(seed, (768 + i) as nat)
        &&& forall|i: int|
            0 <= i < 2 ==> #[trigger] self.side_to_move[i] == prng_output(seed, (784 + i) as nat)
        &&& forall|i: int|
            0 <= i < 65 ==> #[trigger] self.en_passant[i] == prng_output(seed, (786 + i) as nat)
    }
}

impl Default for ZobristRandoms {
    fn default() -> (z: Self)
        ensures
            z.drawn_from(default_seed()),
    {
        Self::new()
    }
}

impl ZobristRandoms {
    /// The keys drawn from the engine's fixed seed.
    pub fn new() -> (z: Self)
        ensures
            z.drawn_from(default_seed()),
    {
        Self::from_seed(0x07072023)
    }

    /// The keys drawn from `seed`.
    pub fn from_seed(seed: u64) -> (z: Self)
        ensures
            z.drawn_from(seed),
    {
        let mut prng = Prng::new(seed);

        let mut pieces = [[[0u64; 64]; 6]; 2];
        let mut side: usize = 0;
        while side < 2
            invariant
                side <= 2,
                prng.state == prng_state(seed, (side * 384) as nat),
                forall|s: int, p: int, q: int|
                    0 <= s < side && 0 <= p < 6 && 0 <= q < 64 ==> #[trigger] pieces[s][p][q]
                        == prng_output(seed, piece_draw(s, p, q) as nat),
            decreases 2 - side,
        {
            let mut piece: usize = 0;
            while piece < 6
                invariant
                    side < 2,
                    piece <= 6,
                    prng.state == prng_state(seed, (side * 384 + piece * 64) as nat),
                    forall|s: int, p: int, q: int|
                        0 <= s < 2 && 0 <= p < 6 && 0 <= q < 64 && (s < side || (s == side && p
                            < piece)) ==> #[trigger] pieces[s][p][q] == prng_output(
                            seed,
                            piece_draw(s, p, q) as nat,
                        ),
                decreases 6 - piece,
            {
                let row = draw_keys::<64>(&mut prng, Ghost(seed), Ghost((side * 384 + piece * 64) as nat));
                pieces[side][piece] = row;
                piece = piece + 1;
            }
            side = side + 1;
        }
        let castling = draw_keys::<16>(&mut prng, Ghost(seed), Ghost(768));
        let side_to_move = draw_keys::<2>(&mut prng, Ghost(seed), Ghost(784));
        let en_passant = draw_keys::<65>(&mut prng, Ghost(seed), Ghost(786));
        Self { pieces, side_to_move, castling, en_passant }
    }

    pub fn acc_piece(&self, side: usize, piece: usize, square: usize) -> (k: ZobristKey)
        requires
            side < 2,
            piece < 6,
            square < 64,
        ensures
            k == self.pieces[side as int][piece as int][square as int],
    {
        self.pieces[side][piece][square]
    }

    pub fn acc_castling(&self, castling_rights: usize) -> (k: ZobristKey)
        requires
            castling_rights < 16,
        ensures
            k == self.castling[castling_rights as int],
    {
        self.castling[castling_rights]
    }

    pub fn acc_side(&self, side: usize) -> (k: ZobristKey)
        requires
            side < 2,
        ensures
            k == self.side_to_move[side as int],
    {
        self.side_to_move[side]
    }

    /// The key of an en-passant square; `None` shares the last slot.
    pub fn acc_en_passant(&self, square: Option<usize>) -> (k: ZobristKey)
        requires
            square matches Some(sq) ==> sq < 65,
        ensures
            k == match square {
                Some(sq) => self.en_passant[sq as int],
                None => self.en_passant[64],
            },
    {
        match square {
            Some(sq) => self.en_passant[sq],
            None => self.en_passant[64],
        }
    }
}

/// The key of a piece on a square, from the engine's fixed seed.
pub fn piece_key(color: Color, piece: Piece, square: u8) -> (k: ZobristKey)
    requires
        square < 64,
    ensures
        k == prng_output(default_seed(), piece_draw(color.idx(), piece.idx(), square as int) as nat),
{
    let keys = ZobristRandoms::new();
    keys.acc_piece(color.index(), piece.index(), square as usize)
}

/// The key of Black to move.
pub fn side_key() -> (k: ZobristKey)
    ensures
        k == prng_output(default_seed(), 785),
{
    let keys = ZobristRandoms::new();
    keys.acc_side(1)
}

/// The key of a set of castling rights.
pub fn castling_key(castling_rights: u8) -> (k: ZobristKey)
    requires
        castling_rights < 16,
    ensures
        k == prng_output(default_seed(), (768 + castling_rights) as nat),
{
    let keys = ZobristRandoms::new();
    keys.acc_castling(castling_rights as usize)
}

/// The key of an en-passant square.
pub fn en_passant_key(square: u8) -> (k: ZobristKey)
    requires
        square < 65,
    ensures
        k == prng_output(default_seed(), (786 + square) as nat),
{
    let keys = ZobristRandoms::new();
    keys.acc_en_passant(Some(square as usize))
}

} // verus!
