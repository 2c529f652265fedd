//! Alpha-beta search with quiescence, move ordering and iterative deepening
//! under a time limit.
use vstd::prelude::*;
use std::time::{Duration, Instant};
use crate::board::{Board, BoardView, Move, Piece};
use crate::eval::{evaluate, evaluation, piece_value, value_of};

verus! {

#[verifier::external_type_specification]
#[verifier::external_body]
pub struct ExInstant(Instant);

/// `Instant::now`: the current time. Nothing is claimed about its value.
#[verifier::external_body]
fn now() -> Instant {
    Instant::now()
}

/// `Instant >= Instant`: whether `deadline` has been reached at `time`.
/// Nothing is claimed about the answer.
#[verifier::external_body]
fn reached(time: &Instant, deadline: &Instant) -> bool {
    *time >= *deadline
}

/// `Instant::checked_add`: the instant `limit` after `start`, `None` when it
/// cannot be represented. Nothing more is claimed.
#[verifier::external_body]
fn later_by(start: Instant, limit: Duration) -> Option<Instant> {
    start.checked_add(limit)
}

/// `Duration::from_secs`. Nothing is claimed about the result.
#[verifier::external_body]
fn seconds(secs: u64) -> Duration {
    Duration::from_secs(secs)
}

/// `Instant::elapsed`: the time since `start`. Nothing is claimed.
#[verifier::external_body]
fn elapsed_since(start: &Instant) -> Duration {
    start.elapsed()
}

/// `Duration::as_nanos`. Nothing is claimed about the result.
#[verifier::external_body]
fn duration_nanos(d: &Duration) -> u128 {
    d.as_nanos()
}

const CHECKMATE_SCORE: i32 = 100_000;

/// Bound on every evaluation and terminal score.
pub open spec fn score_bound() -> int {
    137_600
}

pub struct SearchContext {
    pub deadline: Instant,
    pub nodes: u64,
}

impl SearchContext {
    /// The clock is read every 1024 nodes; the answer is `true` only on such a
    /// node and once the deadline has passed.
    pub fn is_time_up(&mut self) -> (up: bool)
        ensures
            *final(self) == *old(self),
            up ==> old(self).nodes % 1024 == 0,
    {
        self.nodes % 1024 == 0 && reached(&now(), &self.deadline)
    }
}

/// A span of time in whole nanoseconds.
#[derive(Copy, Clone, Debug, PartialEq, Eq, Structural, PartialOrd, Ord, Hash)]
pub struct Elapsed {
    pub nanos: u128,
}

impl Elapsed {
    /// The span in whole milliseconds, rounded down.
    pub fn as_millis(&self) -> (ms: u128)
        ensures
            ms == self.nanos / 1_000_000,
    {
        self.nanos / 1_000_000
    }
}

#[derive(Copy, Clone, Debug)]
pub struct SearchInfo {
    pub depth: u32,
    pub score: i32,
    pub nodes: u64,
    pub qnodes: u64,
    pub elapsed: Elapsed,
}

/// Nodes per second for `nodes` nodes in `nanos` nanoseconds, rounded down and
/// capped at `u64::MAX`; 0 for a zero duration.
pub open spec fn rate(nodes: u64, nanos: u128) -> u64 {
    if nanos == 0 {
        0
    } else if nodes * 1_000_000_000 / (nanos as int) > u64::MAX {
        u64::MAX
    } else {
        (nodes * 1_000_000_000 / (nanos as int)) as u64
    }
}

/// Nodes per second for `nodes` nodes searched in `nanos` nanoseconds.
pub fn nodes_per_second(nodes: u64, nanos: u128) -> (r: u64)
    ensures
        r == rate(nodes, nanos),
{
    if nanos == 0 {
        return 0;
    }
    assert(nodes * 1_000_000_000 <= u64::MAX * 1_000_000_000) by (nonlinear_arith);
    let r = (nodes as u128) * 1_000_000_000 / nanos;
    if r > 0xFFFF_FFFF_FFFF_FFFFu128 {
        0xFFFF_FFFF_FFFF_FFFF
    } else {
        r as u64
    }
}

impl SearchInfo {
    /// Nodes searched per second of elapsed time.
    pub fn nps(&self) -> (r: u64)
        ensures
            r == rate(self.nodes, self.elapsed.nanos),
    {
        nodes_per_second(self.nodes, self.elapsed.nanos)
    }
}

/// The ordering score of a move: captures first, most valuable victim and
/// then least valuable attacker, and promotions above all.
pub open spec fn order_score(v: BoardView, m: Move) -> int {
    let us = v.side_to_move;
    let moving = v.piece_on(us, m.from as int).unwrap();
    (match v.piece_on(us.other(), m.to as int) {
        Some(c) => 10_000 + 10 * value_of(c) - value_of(moving),
        None => 0,
    }) + (match m.promotion {
        Some(p) => 20_000 + value_of(p),
        None => 0,
    })
}

/// `m` inserted into `s` before the first move that scores lower.
pub open spec fn insert_by_score(v: BoardView, s: Seq<Move>, m: Move) -> Seq<Move>
    decreases s.len(),
{
    if s.len() == 0 {
        seq![m]
    } else if order_score(v, s[0]) < order_score(v, m) {
        seq![m] + s
    } else {
        seq![s[0]] + insert_by_score(v, s.drop_first(), m)
    }
}

/// `ms` sorted by decreasing ordering score; moves that score the same keep
/// their order.
pub open spec fn sort_by_score(v: BoardView, ms: Seq<Move>) -> Seq<Move>
    decreases ms.len(),
{
    if ms.len() == 0 {
        seq![]
    } else {
        insert_by_score(v, sort_by_score(v, ms.drop_last()), ms.last())
    }
}

/// The legal moves in the order the search tries them.
pub open spec fn ordered_moves(v: BoardView) -> Seq<Move> {
    sort_by_score(v, v.legal_moves())
}

/// A move quiescence search looks at outside check: a capture, an en-passant
/// capture or a promotion.
pub open spec fn is_tactical(v: BoardView, m: Move) -> bool {
    let us = v.side_to_move;
    ||| v.piece_on(us.other(), m.to as int) is Some
    ||| (v.piece_on(us, m.from as int) == Some(Piece::Pawn) && v.en_passant == Some(m.to) && m.from
        % 8 != m.to % 8)
    ||| m.promotion is Some
}

/// The value quiescence search gives a position, `qply` plies into
/// quiescence: a mate or stalemate score when there is no legal move, no value
/// at 128 plies, else the best of standing pat (outside check) and the
/// tactical moves (all moves in check), with fail-hard cut-offs at `beta`.
pub open spec fn quiesce(v: BoardView, alpha: int, beta: int, qply: int) -> Option<int>
    decreases 128 - qply, 1int, 0int,
{
    let ms = ordered_moves(v);
    let in_check = v.in_check(v.side_to_move);
    if ms.len() == 0 {
        Some(
            if in_check {
                -100_000
            } else {
                0
            },
        )
    } else if qply >= 128 || qply < 0 {
        None
    } else if !in_check && evaluation(v) >= beta {
        Some(beta)
    } else {
        let a = if !in_check && evaluation(v) > alpha {
            evaluation(v)
        } else {
            alpha
        };
        quiesce_moves(v, ms, 0, a, beta, qply, in_check)
    }
}

/// Quiescence over the moves `ms` from index `i`, with the window's lower end
/// raised to `alpha` so far.
pub open spec fn quiesce_moves(
    v: BoardView,
    ms: Seq<Move>,
    i: int,
    alpha: int,
    beta: int,
    qply: int,
    in_check: bool,
) -> Option<int>
    decreases 128 - qply, 0int, ms.len() - i,
{
    if i >= ms.len() || i < 0 || qply >= 128 || qply < 0 {
        Some(alpha)
    } else if !in_check && !is_tactical(v, ms[i]) {
        quiesce_moves(v, ms, i + 1, alpha, beta, qply, in_check)
    } else {
        match quiesce(v.after_move(ms[i]), -beta, -alpha, qply + 1) {
            None => None,
            Some(x) => if -x >= beta {
                Some(beta)
            } else {
                quiesce_moves(
                    v,
                    ms,
                    i + 1,
                    if -x > alpha {
                        -x
                    } else {
                        alpha
                    },
                    beta,
                    qply,
                    in_check,
                )
            },
        }
    }
}

/// The value a fail-hard alpha-beta search of `depth` plies gives a position,
/// quiescence search taking over at depth 0.
pub open spec fn search_value(v: BoardView, depth: int, alpha: int, beta: int) -> Option<int>
    decreases depth, 1int, 0int,
{
    if depth <= 0 {
        quiesce(v, alpha, beta, 0)
    } else {
        let ms = ordered_moves(v);
        if ms.len() == 0 {
            Some(
                if v.in_check(v.side_to_move) {
                    -100_000
                } else {
                    0
                },
            )
        } else {
            search_moves(v, ms, 0, depth, alpha, beta)
        }
    }
}

/// Alpha-beta over the moves `ms` from index `i`.
pub open spec fn search_moves(
    v: BoardView,
    ms: Seq<Move>,
    i: int,
    depth: int,
    alpha: int,
    beta: int,
) -> Option<int>
    decreases depth, 0int, ms.len() - i,
{
    if i >= ms.len() || i < 0 || depth <= 0 {
        Some(alpha)
    } else {
        match search_value(v.after_move(ms[i]), depth - 1, -beta, -alpha) {
            None => None,
            Some(x) => if -x >= beta {
                Some(beta)
            } else {
                search_moves(
                    v,
                    ms,
                    i + 1,
                    depth,
                    if -x > alpha {
                        -x
                    } else {
                        alpha
                    },
                    beta,
                )
            },
        }
    }
}

/// A fail-hard result: one of the window's ends, or a score within the
/// evaluation bound.
pub open spec fn fail_hard(x: int, alpha: int, beta: int) -> bool {
    (-score_bound() <= x <= score_bound()) || x == alpha || x == beta
}

/// For a proper window, a result outside the evaluation bound is a window end
/// that itself lies beyond the bound on its side.
pub open spec fn window_law(x: int, alpha: int, beta: int) -> bool {
    alpha < beta ==> ((-score_bound() <= x <= score_bound()) || (x == alpha && alpha
        > score_bound()) || (x == beta && beta < -score_bound()))
}

/// The node counter `n` steps on from `start`, wrapping at 2^64.
pub open spec fn advanced(start: u64, n: int) -> u64 {
    ((start + n) % 0x1_0000_0000_0000_0000int) as u64
}

/// The search stopped on its clock: within its first `n` counted nodes, on a
/// node whose count is a multiple of 1024, leaving the counter at `end`.
pub open spec fn timed_out(start: u64, end: u64, n: int) -> bool {
    exists|k: int| 0 < k <= n && (start + k) % 1024 == 0 && #[trigger] advanced(start, k) == end
}

/// A search only stops on its clock when its count passes a multiple of 1024:
/// a search whose `n` counted nodes take the counter from `start` past no
/// multiple of 1024 never reads the clock, and so always has its value.
pub proof fn law_timeout_needs_a_polling_node(start: u64, end: u64, n: int)
    requires
        timed_out(start, end, n),
    ensures
        (start + n) / 1024 > start / 1024,
{
    let k = choose|k: int| 0 < k <= n && (start + k) % 1024 == 0 && #[trigger] advanced(start, k) == end;
    assert((start + k) / 1024 > start / 1024);
    assert((start + n) / 1024 >= (start + k) / 1024);
}

/// Nodes a quiescence search counts until it has its value: the node itself
/// and the searches of the moves it tries.
pub open spec fn quiesce_nodes(v: BoardView, alpha: int, beta: int, qply: int) -> nat
    decreases 128 - qply, 1int, 0int,
{
    let ms = ordered_moves(v);
    let in_check = v.in_check(v.side_to_move);
    if ms.len() == 0 || qply >= 128 || qply < 0 || (!in_check && evaluation(v) >= beta) {
        1
    } else {
        let a = if !in_check && evaluation(v) > alpha {
            evaluation(v)
        } else {
            alpha
        };
        1 + quiesce_moves_nodes(v, ms, 0, a, beta, qply, in_check)
    }
}

/// Nodes counted by the quiescence searches of the moves `ms` from index `i`.
pub open spec fn quiesce_moves_nodes(
    v: BoardView,
    ms: Seq<Move>,
    i: int,
    alpha: int,
    beta: int,
    qply: int,
    in_check: bool,
) -> nat
    decreases 128 - qply, 0int, ms.len() - i,
{
    if i >= ms.len() || i < 0 || qply >= 128 || qply < 0 {
        0
    } else if !in_check && !is_tactical(v, ms[i]) {
        quiesce_moves_nodes(v, ms, i + 1, alpha, beta, qply, in_check)
    } else {
        let c = quiesce_nodes(v.after_move(ms[i]), -beta, -alpha, qply + 1);
        match quiesce(v.after_move(ms[i]), -beta, -alpha, qply + 1) {
            None => c,
            Some(x) => if -x >= beta {
                c
            } else {
                c + quiesce_moves_nodes(
                    v,
                    ms,
                    i + 1,
                    if -x > alpha {
                        -x
                    } else {
                        alpha
                    },
                    beta,
                    qply,
                    in_check,
                )
            },
        }
    }
}

/// Nodes an alpha-beta search of `depth` plies counts until it has its value.
#[verifier::opaque]
pub open spec fn search_nodes(v: BoardView, depth: int, alpha: int, beta: int) -> nat
    decreases depth, 1int, 0int,
{
    if depth <= 0 {
        quiesce_nodes(v, alpha, beta, 0)
    } else if ordered_moves(v).len() == 0 {
        1
    } else {
        1 + search_moves_nodes(v, ordered_moves(v), 0, depth, alpha, beta)
    }
}

/// Nodes counted by the searches of the moves `ms` from index `i`.
#[verifier::opaque]
pub open spec fn search_moves_nodes(
    v: BoardView,
    ms: Seq<Move>,
    i: int,
    depth: int,
    alpha: int,
    beta: int,
) -> nat
    decreases depth, 0int, ms.len() - i,
{
    if i >= ms.len() || i < 0 || depth <= 0 {
        0
    } else {
        let c = search_nodes(v.after_move(ms[i]), depth - 1, -beta, -alpha);
        match search_value(v.after_move(ms[i]), depth - 1, -beta, -alpha) {
            None => c,
            Some(x) => if -x >= beta {
                c
            } else {
                c + search_moves_nodes(
                    v,
                    ms,
                    i + 1,
                    depth,
                    if -x > alpha {
                        -x
                    } else {
                        alpha
                    },
                    beta,
                )
            },
        }
    }
}

/// Quiescence nodes among the nodes an alpha-beta search of `depth` plies
/// counts until it has its value.
#[verifier::opaque]
pub open spec fn search_qnodes(v: BoardView, depth: int, alpha: int, beta: int) -> nat
    decreases depth, 1int, 0int,
{
    if depth <= 0 {
        quiesce_nodes(v, alpha, beta, 0)
    } else if ordered_moves(v).len() == 0 {
        0
    } else {
        search_moves_qnodes(v, ordered_moves(v), 0, depth, alpha, beta)
    }
}

/// Quiescence nodes counted by the searches of the moves `ms` from index `i`.
#[verifier::opaque]
pub open spec fn search_moves_qnodes(
    v: BoardView,
    ms: Seq<Move>,
    i: int,
    depth: int,
    alpha: int,
    beta: int,
) -> nat
    decreases depth, 0int, ms.len() - i,
{
    if i >= ms.len() || i < 0 || depth <= 0 {
        0
    } else {
        let c = search_qnodes(v.after_move(ms[i]), depth - 1, -beta, -alpha);
        match search_value(v.after_move(ms[i]), depth - 1, -beta, -alpha) {
            None => c,
            Some(x) => if -x >= beta {
                c
            } else {
                c + search_moves_qnodes(
                    v,
                    ms,
                    i + 1,
                    depth,
                    if -x > alpha {
                        -x
                    } else {
                        alpha
                    },
                    beta,
                )
            },
        }
    }
}

/// One step of the node counts of `search_moves` at move `i`.
proof fn lemma_search_moves_nodes_step(
    v: BoardView,
    ms: Seq<Move>,
    i: int,
    depth: int,
    alpha: int,
    beta: int,
)
    requires
        0 <= i < ms.len(),
        depth > 0,
    ensures
        ({
            let after = v.after_move(ms[i]);
            let c = search_nodes(after, depth - 1, -beta, -alpha);
            let qc = search_qnodes(after, depth - 1, -beta, -alpha);
            let n = search_moves_nodes(v, ms, i, depth, alpha, beta);
            let q = search_moves_qnodes(v, ms, i, depth, alpha, beta);
            match search_value(after, depth - 1, -beta, -alpha) {
                None => n == c && q == qc,
                Some(x) => if -x >= beta {
                    n == c && q == qc
                } else {
                    let a2 = if -x > alpha {
                        -x
                    } else {
                        alpha
                    };
                    &&& n == c + search_moves_nodes(v, ms, i + 1, depth, a2, beta)
                    &&& q == qc + search_moves_qnodes(v, ms, i + 1, depth, a2, beta)
                },
            }
        }),
{
    reveal(search_nodes);
    reveal(search_qnodes);
    reveal(search_moves_nodes);
    reveal(search_moves_qnodes);
}

/// The node counts of an alpha-beta search, one level unfolded.
proof fn lemma_search_nodes_unfold(v: BoardView, depth: int, alpha: int, beta: int)
    ensures
        depth <= 0 ==> search_nodes(v, depth, alpha, beta) == quiesce_nodes(v, alpha, beta, 0)
            && search_qnodes(v, depth, alpha, beta) == quiesce_nodes(v, alpha, beta, 0),
        depth > 0 && ordered_moves(v).len() == 0 ==> search_nodes(v, depth, alpha, beta) == 1
            && search_qnodes(v, depth, alpha, beta) == 0,
        depth > 0 && ordered_moves(v).len() > 0 ==> search_nodes(v, depth, alpha, beta) == 1
            + search_moves_nodes(v, ordered_moves(v), 0, depth, alpha, beta) && search_qnodes(
            v,
            depth,
            alpha,
            beta,
        ) == search_moves_qnodes(v, ordered_moves(v), 0, depth, alpha, beta),
        forall|ms: Seq<Move>, a: int|
            #![trigger search_moves_nodes(v, ms, ms.len() as int, depth, a, beta)]
            search_moves_nodes(v, ms, ms.len() as int, depth, a, beta) == 0
                && search_moves_qnodes(v, ms, ms.len() as int, depth, a, beta) == 0,
{
    reveal(search_nodes);
    reveal(search_qnodes);
    reveal(search_moves_nodes);
    reveal(search_moves_qnodes);
}

proof fn lemma_advanced_add(a: u64, n: int, m: int)
    requires
        n >= 0,
        m >= 0,
    ensures
        advanced(advanced(a, n), m) == advanced(a, n + m),
        advanced(a, n) % 1024 == (a + n) % 1024,
{
    let big = 0x1_0000_0000_0000_0000int;
    vstd::arithmetic::div_mod::lemma_add_mod_noop_right(m, a + n, big);
    assert(m + (a + n) == a + (n + m));
    assert(big == 1024 * 0x40_0000_0000_0000int);
    vstd::arithmetic::div_mod::lemma_mod_mod(a + n, 1024, 0x40_0000_0000_0000int);
}

proof fn lemma_wrapping_step(a: u64)
    ensures
        a.wrapping_add(1) == advanced(a, 1),
{
}

/// A timeout within a later stretch of the count is a timeout within the
/// whole count.
proof fn lemma_timed_out_shift(a: u64, p: int, e: u64, c: int, total: int)
    requires
        0 <= p,
        p + c <= total,
        timed_out(advanced(a, p), e, c),
    ensures
        timed_out(a, e, total),
{
    let b = advanced(a, p);
    let k = choose|k: int| 0 < k <= c && (b + k) % 1024 == 0 && #[trigger] advanced(b, k) == e;
    lemma_advanced_add(a, p, k);
    lemma_advanced_add(a, p, 0);
    vstd::arithmetic::div_mod::lemma_add_mod_noop(b as int, k, 1024);
    vstd::arithmetic::div_mod::lemma_add_mod_noop(a + p, k, 1024);
    assert((a + (p + k)) % 1024 == 0);
    assert(advanced(a, p + k) == e);
}

/// Orders moves: captures first, most valuable victim and then least
/// valuable attacker, and promotions above all.
fn move_order_score(board: &Board, mv: Move) -> (s: i32)
    requires
        board@.playable(mv),
    ensures
        s == order_score(board@, mv),
{
    let us = board.side();
    let enemy = us.opposite();
    let moving_piece = board.piece_at(us, mv.from).unwrap();
    let mut score: i32 = 0;
    if let Some(captured_piece) = board.piece_at(enemy, mv.to) {
        score = score + 10_000 + 10 * piece_value(captured_piece) - piece_value(moving_piece);
    }
    if let Some(promoted_piece) = mv.promotion {
        score = score + 20_000 + piece_value(promoted_piece);
    }
    score
}

proof fn lemma_insert_at(v: BoardView, s: Seq<Move>, m: Move, j: int)
    requires
        0 <= j <= s.len(),
        forall|k: int| 0 <= k < j ==> order_score(v, #[trigger] s[k]) >= order_score(v, m),
        j < s.len() ==> order_score(v, s[j]) < order_score(v, m),
    ensures
        s.insert(j, m) == insert_by_score(v, s, m),
    decreases s.len(),
{
    if j == 0 {
        if s.len() == 0 {
            assert(s.insert(0, m) =~= seq![m]);
        } else {
            assert(s.insert(0, m) =~= seq![m] + s);
        }
    } else {
        assert(order_score(v, s[0]) >= order_score(v, m));
        assert forall|k: int| 0 <= k < j - 1 implies order_score(v, #[trigger] s.drop_first()[k])
            >= order_score(v, m) by {
            assert(s.drop_first()[k] == s[k + 1]);
        }
        lemma_insert_at(v, s.drop_first(), m, j - 1);
        assert(s.insert(j, m) =~= seq![s[0]] + s.drop_first().insert(j - 1, m));
    }
}

proof fn lemma_sort_len(v: BoardView, ms: Seq<Move>)
    ensures
        sort_by_score(v, ms).len() == ms.len(),
    decreases ms.len(),
{
    if ms.len() > 0 {
        lemma_sort_len(v, ms.drop_last());
        lemma_insert_len(v, sort_by_score(v, ms.drop_last()), ms.last());
    }
}

proof fn lemma_insert_len(v: BoardView, s: Seq<Move>, m: Move)
    ensures
        insert_by_score(v, s, m).len() == s.len() + 1,
    decreases s.len(),
{
    if s.len() > 0 {
        lemma_insert_len(v, s.drop_first(), m);
    }
}

/// The legal moves, sorted by decreasing ordering score (stable).
fn ordered_legal_moves(board: &Board) -> (sorted: Vec<Move>)
    ensures
        sorted@ == ordered_moves(board@),
        sorted@.len() == board@.legal_moves().len(),
        forall|k: int| 0 <= k < sorted@.len() ==> board@.playable(#[trigger] sorted@[k]),
        forall|k: int|
            0 <= k < sorted@.len() ==> board@.legal_moves().contains(#[trigger] sorted@[k]),
{
    let ghost v = board@;
    let moves = board.generate_legal_moves();
    let mut sorted: Vec<Move> = Vec::new();
    let mut i: usize = 0;
    while i < moves.len()
        invariant
            i <= moves@.len(),
            moves@ == v.legal_moves(),
            v == board@,
            forall|k: int| 0 <= k < moves@.len() ==> v.playable(#[trigger] moves@[k]),
            sorted@ == sort_by_score(v, moves@.take(i as int)),
            sorted@.len() == i,
            forall|k: int| 0 <= k < sorted@.len() ==> v.playable(#[trigger] sorted@[k]),
            forall|k: int| 0 <= k < sorted@.len() ==> moves@.contains(#[trigger] sorted@[k]),
        decreases moves@.len() - i,
    {
        let mv = moves[i];
        assert(v.playable(moves@[i as int]));
        let sc = move_order_score(board, mv);
        let mut j: usize = 0;
        while j < sorted.len() && move_order_score(board, sorted[j]) >= sc
            invariant
                j <= sorted@.len(),
                v == board@,
                sc == order_score(v, mv),
                forall|k: int| 0 <= k < sorted@.len() ==> v.playable(#[trigger] sorted@[k]),
                forall|k: int| 0 <= k < j ==> order_score(v, #[trigger] sorted@[k]) >= sc,
            decreases sorted@.len() - j,
        {
            j = j + 1;
        }
        let ghost before = sorted@;
        proof {
            lemma_insert_at(v, before, mv, j as int);
            assert(moves@.take(i + 1).drop_last() =~= moves@.take(i as int));
            lemma_insert_len(v, before, mv);
        }
        sorted.insert(j, mv);
        assert forall|k: int| 0 <= k < sorted@.len() implies v.playable(#[trigger] sorted@[k])
            && moves@.contains(sorted@[k]) by {
            if k < j {
                assert(sorted@[k] == before[k]);
            } else if k == j {
                assert(sorted@[k] == moves@[i as int]);
            } else {
                assert(sorted@[k] == before[k - 1]);
            }
        }
        i = i + 1;
    }
    assert(moves@.take(moves@.len() as int) =~= moves@);
    sorted
}

/// Quiescence search: only tactical moves outside check, every move in check.
#[verifier::loop_isolation(false)]
#[verifier::spinoff_prover]
#[verifier::rlimit(60)]
fn quiescence(
    board: &mut Board,
    alpha: i32,
    beta: i32,
    ctx: &mut SearchContext,
    qnodes: &mut u64,
    qply: u32,
) -> (r: Option<i32>)
    requires
        alpha > i32::MIN,
        beta > i32::MIN,
        qply <= 128,
    ensures
        *final(board) == *old(board),
        r matches Some(x) ==> quiesce(old(board)@, alpha as int, beta as int, qply as int) == Some(
            x as int,
        ) && fail_hard(x as int, alpha as int, beta as int) && window_law(
            x as int,
            alpha as int,
            beta as int,
        ),
        final(ctx).deadline == old(ctx).deadline,
        r is Some ==> final(ctx).nodes == advanced(
            old(ctx).nodes,
            quiesce_nodes(old(board)@, alpha as int, beta as int, qply as int) as int,
        ) && *final(qnodes) == advanced(
            *old(qnodes),
            quiesce_nodes(old(board)@, alpha as int, beta as int, qply as int) as int,
        ),
        r is None ==> timed_out(
            old(ctx).nodes,
            final(ctx).nodes,
            quiesce_nodes(old(board)@, alpha as int, beta as int, qply as int) as int,
        ) || (quiesce(old(board)@, alpha as int, beta as int, qply as int) is None
            && final(ctx).nodes == advanced(
            old(ctx).nodes,
            quiesce_nodes(old(board)@, alpha as int, beta as int, qply as int) as int,
        )),
        r matches Some(x) ==> (alpha < beta && ordered_moves(old(board)@).len() > 0 ==> alpha <= x
            <= beta),
    decreases 128 - qply,
{
    let ghost n0 = ctx.nodes;
    let ghost q0 = *qnodes;
    let ghost deadline0 = ctx.deadline;
    let ghost total = quiesce_nodes(board@, alpha as int, beta as int, qply as int) as int;
    proof {
        lemma_wrapping_step(ctx.nodes);
        lemma_wrapping_step(*qnodes);
    }
    ctx.nodes = ctx.nodes.wrapping_add(1);
    *qnodes = qnodes.wrapping_add(1);

    if ctx.is_time_up() {
        proof {
            lemma_advanced_add(n0, 1, 0);
            assert(advanced(n0, 1) == ctx.nodes);
        }
        return None;
    }
    let ghost v = board@;
    let ghost mut prefix: int = 1;
    let ghost start = *board;
    let us = board.side();
    let in_check = board.in_check(us);
    let legal_moves = ordered_legal_moves(board);

    if legal_moves.len() == 0 {
        return Some(
            if in_check {
                -CHECKMATE_SCORE
            } else {
                0
            },
        );
    }
    if qply >= 128 {
        return None;
    }
    let alpha0 = alpha;
    let mut alpha = alpha;
    if !in_check {
        let stand_pat = evaluate(board);
        proof {
            lemma_evaluation_bound(v);
        }
        if stand_pat >= beta {
            return Some(beta);
        }
        if stand_pat > alpha {
            alpha = stand_pat;
        }
    }
    let enemy = us.opposite();
    let mut i: usize = 0;
    let mut done = false;
    let mut result: Option<i32> = None;
    while i < legal_moves.len() && !done
        invariant
            i <= legal_moves@.len(),
            *board == start,
            board@ == v,
            qply < 128,
            ctx.deadline == deadline0,
            total == quiesce_nodes(v, alpha0 as int, beta as int, qply as int),
            prefix >= 1,
            !done ==> ctx.nodes == advanced(n0, prefix) && *qnodes == advanced(q0, prefix)
                && total == prefix + quiesce_moves_nodes(
                v,
                legal_moves@,
                i as int,
                alpha as int,
                beta as int,
                qply as int,
                in_check,
            ),
            done ==> (result is Some ==> ctx.nodes == advanced(n0, total) && *qnodes == advanced(
                q0,
                total,
            )),
            done ==> (result is None ==> timed_out(n0, ctx.nodes, total) || (quiesce(
                v,
                alpha0 as int,
                beta as int,
                qply as int,
            ) is None && ctx.nodes == advanced(n0, total))),
            done ==> (result matches Some(x) ==> x == beta),
            us == v.side_to_move,
            enemy == us.other(),
            in_check == v.in_check(us),
            legal_moves@ == ordered_moves(v),
            forall|k: int|
                0 <= k < legal_moves@.len() ==> v.playable(#[trigger] legal_moves@[k]),
            alpha >= alpha0,
            alpha > i32::MIN,
            beta > i32::MIN,
            alpha0 < beta ==> alpha < beta,
            fail_hard(alpha as int, alpha0 as int, beta as int),
            !done && alpha0 < beta && (!in_check || i > 0) ==> (alpha >= -score_bound() || alpha0 >= -score_bound()),
            !done ==> quiesce(v, alpha0 as int, beta as int, qply as int) == quiesce_moves(
                v,
                legal_moves@,
                i as int,
                alpha as int,
                beta as int,
                qply as int,
                in_check,
            ),
            done ==> (result matches Some(x) ==> quiesce(
                v,
                alpha0 as int,
                beta as int,
                qply as int,
            ) == Some(x as int) && fail_hard(x as int, alpha0 as int, beta as int) && window_law(
                x as int,
                alpha0 as int,
                beta as int,
            )),
            done ==> (result is None ==> ctx.nodes % 1024 == 0 || quiesce(
                v,
                alpha0 as int,
                beta as int,
                qply as int,
            ) is None),
        decreases legal_moves@.len() - i,
    {
        let mv = legal_moves[i];
        assert(v.playable(legal_moves@[i as int]));
        let is_capture = board.piece_at(enemy, mv.to).is_some();
        let is_en_passant = match board.piece_at(us, mv.from) {
            Some(Piece::Pawn) => match board.en_passant_square() {
                Some(ep) => ep == mv.to && mv.from % 8 != mv.to % 8,
                None => false,
            },
            _ => false,
        };
        let is_promotion = mv.promotion.is_some();
        assert((is_capture || is_en_passant || is_promotion) == is_tactical(v, mv));

        if in_check || is_capture || is_en_passant || is_promotion {
            let ghost c = quiesce_nodes(
                v.after_move(mv),
                -beta as int,
                -alpha as int,
                qply as int + 1,
            ) as int;
            let ghost before = ctx.nodes;
            let undo = board.make_move(mv);
            let res = quiescence(board, -beta, -alpha, ctx, qnodes, qply + 1);
            board.unmake_move(undo);
            proof {
                lemma_advanced_add(n0, prefix, c);
                lemma_advanced_add(q0, prefix, c);
            }
            match res {
                None => {
                    proof {
                        if timed_out(before, ctx.nodes, c) {
                            lemma_timed_out_shift(n0, prefix, ctx.nodes, c, total);
                        }
                    }
                    done = true;
                    result = None;
                },
                Some(x) => {
                    let score = -x;
                    proof {
                        prefix = prefix + c;
                    }
                    if score >= beta {
                        done = true;
                        result = Some(beta);
                    } else if score > alpha {
                        alpha = score;
                    }
                },
            }
        }
        i = i + 1;
    }
    if !done {
        result = Some(alpha);
    }
    result
}

/// Alpha-beta search to `depth` plies, counting quiescence nodes in `qnodes`.
#[verifier::loop_isolation(false)]
#[verifier::spinoff_prover]
#[verifier::rlimit(60)]
fn search(
    board: &mut Board,
    depth: u32,
    alpha: i32,
    beta: i32,
    ctx: &mut SearchContext,
    qnodes: &mut u64,
) -> (r: Option<i32>)
    requires
        alpha > i32::MIN,
        beta > i32::MIN,
    ensures
        *final(board) == *old(board),
        r matches Some(x) ==> search_value(old(board)@, depth as int, alpha as int, beta as int)
            == Some(x as int) && fail_hard(x as int, alpha as int, beta as int) && window_law(
            x as int,
            alpha as int,
            beta as int,
        ),
        final(ctx).deadline == old(ctx).deadline,
        r is Some ==> final(ctx).nodes == advanced(
            old(ctx).nodes,
            search_nodes(old(board)@, depth as int, alpha as int, beta as int) as int,
        ) && *final(qnodes) == advanced(
            *old(qnodes),
            search_qnodes(old(board)@, depth as int, alpha as int, beta as int) as int,
        ),
        r is None ==> timed_out(
            old(ctx).nodes,
            final(ctx).nodes,
            search_nodes(old(board)@, depth as int, alpha as int, beta as int) as int,
        ) || (search_value(old(board)@, depth as int, alpha as int, beta as int) is None
            && final(ctx).nodes == advanced(
            old(ctx).nodes,
            search_nodes(old(board)@, depth as int, alpha as int, beta as int) as int,
        )),
        r matches Some(x) ==> (alpha < beta && ordered_moves(old(board)@).len() > 0 ==> alpha <= x
            <= beta),
    decreases depth,
{
    proof {
        lemma_search_nodes_unfold(board@, depth as int, alpha as int, beta as int);
    }
    if depth == 0 {
        return quiescence(board, alpha, beta, ctx, qnodes, 0);
    }
    let ghost n0 = ctx.nodes;
    let ghost q0 = *qnodes;
    let ghost qtotal = search_qnodes(board@, depth as int, alpha as int, beta as int) as int;
    let ghost mut qprefix: int = 0;
    let ghost deadline0 = ctx.deadline;
    let ghost total = search_nodes(board@, depth as int, alpha as int, beta as int) as int;
    proof {
        lemma_wrapping_step(ctx.nodes);
    }
    ctx.nodes = ctx.nodes.wrapping_add(1);
    if ctx.is_time_up() {
        proof {
            lemma_advanced_add(n0, 1, 0);
            assert(advanced(n0, 1) == ctx.nodes);
        }
        return None;
    }
    let ghost v = board@;
    let ghost mut prefix: int = 1;
    let ghost start = *board;
    let legal_moves = ordered_legal_moves(board);

    if legal_moves.len() == 0 {
        return Some(
            if board.in_check(board.side()) {
                -CHECKMATE_SCORE
            } else {
                0
            },
        );
    }
    let alpha0 = alpha;
    let mut alpha = alpha;
    let mut i: usize = 0;
    let mut done = false;
    let mut result: Option<i32> = None;
    while i < legal_moves.len() && !done
        invariant
            i <= legal_moves@.len(),
            depth >= 1,
            *board == start,
            board@ == v,
            ctx.deadline == deadline0,
            total == search_nodes(v, depth as int, alpha0 as int, beta as int),
            prefix >= 1,
            !done ==> ctx.nodes == advanced(n0, prefix) && total == prefix + search_moves_nodes(
                v,
                legal_moves@,
                i as int,
                depth as int,
                alpha as int,
                beta as int,
            ),
            done ==> (result is Some ==> ctx.nodes == advanced(n0, total)),
            qtotal == search_qnodes(v, depth as int, alpha0 as int, beta as int),
            qprefix >= 0,
            *qnodes == advanced(q0, qprefix) || done,
            !done ==> qtotal == qprefix + search_moves_qnodes(
                v,
                legal_moves@,
                i as int,
                depth as int,
                alpha as int,
                beta as int,
            ),
            done ==> (result is Some ==> *qnodes == advanced(q0, qtotal)),
            done ==> (result is None ==> timed_out(n0, ctx.nodes, total) || (search_value(
                v,
                depth as int,
                alpha0 as int,
                beta as int,
            ) is None && ctx.nodes == advanced(n0, total))),
            done ==> (result matches Some(x) ==> x == beta),
            legal_moves@ == ordered_moves(v),
            forall|k: int|
                0 <= k < legal_moves@.len() ==> v.playable(#[trigger] legal_moves@[k]),
            alpha >= alpha0,
            alpha > i32::MIN,
            beta > i32::MIN,
            alpha0 < beta ==> alpha < beta,
            fail_hard(alpha as int, alpha0 as int, beta as int),
            !done && alpha0 < beta && i > 0 ==> (alpha >= -score_bound() || alpha0 >= -score_bound()),
            !done ==> search_value(v, depth as int, alpha0 as int, beta as int) == search_moves(
                v,
                legal_moves@,
                i as int,
                depth as int,
                alpha as int,
                beta as int,
            ),
            done ==> (result matches Some(x) ==> search_value(
                v,
                depth as int,
                alpha0 as int,
                beta as int,
            ) == Some(x as int) && fail_hard(x as int, alpha0 as int, beta as int) && window_law(
                x as int,
                alpha0 as int,
                beta as int,
            )),
            done ==> (result is None ==> ctx.nodes % 1024 == 0 || search_value(
                v,
                depth as int,
                alpha0 as int,
                beta as int,
            ) is None),
        decreases legal_moves@.len() - i,
    {
        let mv = legal_moves[i];
        assert(v.playable(legal_moves@[i as int]));
        let ghost c = search_nodes(
            v.after_move(mv),
            depth - 1,
            -beta as int,
            -alpha as int,
        ) as int;
        let ghost before = ctx.nodes;
        let ghost qc = search_qnodes(
            v.after_move(mv),
            depth - 1,
            -beta as int,
            -alpha as int,
        ) as int;
        let undo = board.make_move(mv);
        let res = search(board, depth - 1, -beta, -alpha, ctx, qnodes);
        board.unmake_move(undo);
        proof {
            lemma_advanced_add(n0, prefix, c);
            lemma_advanced_add(q0, qprefix, qc);
            lemma_search_moves_nodes_step(
                v,
                legal_moves@,
                i as int,
                depth as int,
                alpha as int,
                beta as int,
            );
        }
        match res {
            None => {
                proof {
                    if timed_out(before, ctx.nodes, c) {
                        lemma_timed_out_shift(n0, prefix, ctx.nodes, c, total);
                    }
                }
                done = true;
                result = None;
            },
            Some(x) => {
                let score = -x;
                proof {
                    prefix = prefix + c;
                    qprefix = qprefix + qc;
                }
                if score >= beta {
                    done = true;
                    result = Some(beta);
                } else if score > alpha {
                    alpha = score;
                }
            },
        }
        i = i + 1;
    }
    if !done {
        result = Some(alpha);
    }
    result
}

/// Fail-hard alpha-beta search of `depth` plies with quiescence at the leaves.
/// Every node visited is counted in `ctx.nodes`: `search_nodes` of them when
/// the search runs to its end. `None` when the time ran out, which is only
/// noticed on a node whose count is a multiple of 1024 and leaves the counter
/// there, or when quiescence runs past its ply limit; a search that reaches
/// no such count always has its value. The board is left as it was.
pub fn alpha_beta(
    board: &mut Board,
    depth: u32,
    alpha: i32,
    beta: i32,
    ctx: &mut SearchContext,
) -> (r: Option<i32>)
    requires
        alpha > i32::MIN,
        beta > i32::MIN,
    ensures
        *final(board) == *old(board),
        r matches Some(x) ==> search_value(old(board)@, depth as int, alpha as int, beta as int)
            == Some(x as int) && fail_hard(x as int, alpha as int, beta as int) && window_law(
            x as int,
            alpha as int,
            beta as int,
        ),
        final(ctx).deadline == old(ctx).deadline,
        r is Some ==> final(ctx).nodes == advanced(
            old(ctx).nodes,
            search_nodes(old(board)@, depth as int, alpha as int, beta as int) as int,
        ),
        r is None ==> timed_out(
            old(ctx).nodes,
            final(ctx).nodes,
            search_nodes(old(board)@, depth as int, alpha as int, beta as int) as int,
        ) || (search_value(old(board)@, depth as int, alpha as int, beta as int) is None
            && final(ctx).nodes == advanced(
            old(ctx).nodes,
            search_nodes(old(board)@, depth as int, alpha as int, beta as int) as int,
        )),
        r matches Some(x) ==> (alpha < beta && old(board)@.legal_moves().len() > 0 ==> alpha <= x
            <= beta),
{
    proof {
        lemma_sort_len(board@, board@.legal_moves());
    }
    let mut qnodes: u64 = 0;
    search(board, depth, alpha, beta, ctx, &mut qnodes)
}

/// One root iteration over the moves `ms` from index `i`: each searched to
/// `depth - 1` further plies with the window (`alpha`, `i32::MAX`); the first
/// move of the highest score is kept. `None` if some search has no value.
pub open spec fn root_loop(
    v: BoardView,
    ms: Seq<Move>,
    i: int,
    depth: int,
    alpha: int,
    best_score: int,
    best: Option<Move>,
) -> Option<(Option<Move>, int)>
    decreases ms.len() - i,
{
    if i >= ms.len() || i < 0 {
        Some((best, best_score))
    } else {
        match search_value(v.after_move(ms[i]), depth - 1, -(i32::MAX as int), -alpha) {
            None => None,
            Some(x) => root_loop(
                v,
                ms,
                i + 1,
                depth,
                if -x > alpha {
                    -x
                } else {
                    alpha
                },
                if -x > best_score {
                    -x
                } else {
                    best_score
                },
                if -x > best_score {
                    Some(ms[i])
                } else {
                    best
                },
            ),
        }
    }
}

/// Nodes counted by a root iteration over the moves `ms` from index `i`.
pub open spec fn root_loop_nodes(v: BoardView, ms: Seq<Move>, i: int, depth: int, alpha: int) -> nat
    decreases ms.len() - i,
{
    if i >= ms.len() || i < 0 {
        0
    } else {
        let c = search_nodes(v.after_move(ms[i]), depth - 1, -(i32::MAX as int), -alpha);
        match search_value(v.after_move(ms[i]), depth - 1, -(i32::MAX as int), -alpha) {
            None => c,
            Some(x) => c + root_loop_nodes(
                v,
                ms,
                i + 1,
                depth,
                if -x > alpha {
                    -x
                } else {
                    alpha
                },
            ),
        }
    }
}

/// Quiescence nodes counted by a root iteration over the moves `ms` from
/// index `i`.
pub open spec fn root_loop_qnodes(v: BoardView, ms: Seq<Move>, i: int, depth: int, alpha: int) -> nat
    decreases ms.len() - i,
{
    if i >= ms.len() || i < 0 {
        0
    } else {
        let c = search_qnodes(v.after_move(ms[i]), depth - 1, -(i32::MAX as int), -alpha);
        match search_value(v.after_move(ms[i]), depth - 1, -(i32::MAX as int), -alpha) {
            None => c,
            Some(x) => c + root_loop_qnodes(
                v,
                ms,
                i + 1,
                depth,
                if -x > alpha {
                    -x
                } else {
                    alpha
                },
            ),
        }
    }
}

/// Quiescence nodes a root iteration of `depth` plies counts.
pub open spec fn root_qnodes(v: BoardView, depth: int) -> nat {
    root_loop_qnodes(v, ordered_moves(v), 0, depth, i32::MIN + 1)
}

/// Nodes a root iteration of `depth` plies counts.
pub open spec fn root_nodes(v: BoardView, depth: int) -> nat {
    root_loop_nodes(v, ordered_moves(v), 0, depth, i32::MIN + 1)
}

/// The move and score a root iteration of `depth` plies settles on.
pub open spec fn root_best(v: BoardView, depth: int) -> Option<(Option<Move>, int)> {
    root_loop(v, ordered_moves(v), 0, depth, i32::MIN + 1, i32::MIN + 1, None)
}

/// The move iterative deepening stands on after completing `depth`
/// iterations: the first move in search order before any completes.
pub open spec fn root_choice(v: BoardView, depth: int) -> Option<Move> {
    if depth <= 0 {
        Some(ordered_moves(v)[0])
    } else {
        match root_best(v, depth) {
            Some((m, _)) => m,
            None => None,
        }
    }
}

/// One iteration at the root: every move searched to `depth` plies with a
/// full window, keeping the first move of the best score. The flag is false
/// when the time ran out before the last move.
#[verifier::loop_isolation(false)]
#[verifier::spinoff_prover]
#[verifier::rlimit(60)]
fn root_iteration(
    board: &mut Board,
    moves: &Vec<Move>,
    depth: u32,
    ctx: &mut SearchContext,
    qnodes: &mut u64,
) -> (r: (bool, Option<Move>, i32))
    requires
        depth >= 1,
        moves@.len() > 0,
        moves@ == ordered_moves(old(board)@),
        forall|k: int| 0 <= k < moves@.len() ==> old(board)@.playable(#[trigger] moves@[k]),
    ensures
        *final(board) == *old(board),
        r.0 ==> r.1 is Some,
        r.0 ==> root_best(old(board)@, depth as int) == Some((r.1, r.2 as int)),
        r.1 matches Some(m) ==> moves@.contains(m),
        final(ctx).deadline == old(ctx).deadline,
        r.0 ==> final(ctx).nodes == advanced(
            old(ctx).nodes,
            root_nodes(old(board)@, depth as int) as int,
        ) && *final(qnodes) == advanced(*old(qnodes), root_qnodes(old(board)@, depth as int) as int),
        !r.0 ==> timed_out(
            old(ctx).nodes,
            final(ctx).nodes,
            root_nodes(old(board)@, depth as int) as int,
        ) || (root_best(old(board)@, depth as int) is None && final(ctx).nodes == advanced(
            old(ctx).nodes,
            root_nodes(old(board)@, depth as int) as int,
        )),
{
    let ghost v = board@;
    let ghost n0 = ctx.nodes;
    let ghost deadline0 = ctx.deadline;
    let ghost total = root_nodes(v, depth as int) as int;
    let ghost mut prefix: int = 0;
    let ghost q0 = *qnodes;
    let ghost qtotal = root_qnodes(v, depth as int) as int;
    let ghost mut qprefix: int = 0;
    proof {
        lemma_advanced_add(n0, 0, 0);
        lemma_advanced_add(q0, 0, 0);
    }
    let ghost start = *board;
    let mut curr_best_move: Option<Move> = None;
    let mut curr_best_score: i32 = i32::MIN + 1;
    let mut alpha: i32 = i32::MIN + 1;
    let beta: i32 = i32::MAX;
    let mut completed = true;
    let mut i: usize = 0;
    while i < moves.len() && completed
        invariant
            i <= moves@.len(),
            depth >= 1,
            *board == start,
            board@ == v,
            forall|k: int| 0 <= k < moves@.len() ==> v.playable(#[trigger] moves@[k]),
            alpha > i32::MIN,
            completed && i > 0 ==> curr_best_move is Some,
            curr_best_move is None ==> alpha == i32::MIN + 1 && curr_best_score == i32::MIN + 1,
            curr_best_move matches Some(m) ==> moves@.contains(m),
            moves@ == ordered_moves(v),
            beta == i32::MAX,
            ctx.deadline == deadline0,
            total == root_nodes(v, depth as int),
            prefix >= 0,
            completed ==> ctx.nodes == advanced(n0, prefix) && total == prefix + root_loop_nodes(
                v,
                moves@,
                i as int,
                depth as int,
                alpha as int,
            ),
            qtotal == root_qnodes(v, depth as int),
            qprefix >= 0,
            completed ==> *qnodes == advanced(q0, qprefix) && qtotal == qprefix + root_loop_qnodes(
                v,
                moves@,
                i as int,
                depth as int,
                alpha as int,
            ),
            !completed ==> timed_out(n0, ctx.nodes, total) || (root_best(v, depth as int) is None
                && ctx.nodes == advanced(n0, total)),
            completed ==> root_best(v, depth as int) == root_loop(
                v,
                moves@,
                i as int,
                depth as int,
                alpha as int,
                curr_best_score as int,
                curr_best_move,
            ),
        decreases moves@.len() - i,
    {
        let mv = moves[i];
        assert(v.playable(moves@[i as int]));
        let ghost c = search_nodes(
            v.after_move(mv),
            depth - 1,
            -beta as int,
            -alpha as int,
        ) as int;
        let ghost before = ctx.nodes;
        let ghost qc = search_qnodes(
            v.after_move(mv),
            depth - 1,
            -beta as int,
            -alpha as int,
        ) as int;
        let undo = board.make_move(mv);
        let res = search(board, depth - 1, -beta, -alpha, ctx, qnodes);
        board.unmake_move(undo);
        proof {
            lemma_advanced_add(n0, prefix, c);
            if res is None && timed_out(before, ctx.nodes, c) {
                lemma_timed_out_shift(n0, prefix, ctx.nodes, c, total);
            }
            prefix = prefix + c;
            lemma_advanced_add(q0, qprefix, qc);
            qprefix = qprefix + qc;
        }
        match res {
            Some(score) => {
                if -score > curr_best_score {
                    curr_best_score = -score;
                    curr_best_move = Some(mv);
                }
                if -score > alpha {
                    alpha = -score;
                }
            },
            None => {
                completed = false;
            },
        }
        i = i + 1;
    }
    (completed, curr_best_move, curr_best_score)
}

/// Nodes counted by the root iterations of depths 1 to `d`.
pub open spec fn deepen_nodes(v: BoardView, d: int) -> nat
    decreases d,
{
    if d <= 0 {
        0
    } else {
        deepen_nodes(v, d - 1) + root_nodes(v, d)
    }
}

/// Quiescence nodes counted by the root iterations of depths 1 to `d`.
pub open spec fn deepen_qnodes(v: BoardView, d: int) -> nat
    decreases d,
{
    if d <= 0 {
        0
    } else {
        deepen_qnodes(v, d - 1) + root_qnodes(v, d)
    }
}

/// Iterative deepening to `depth` completes every iteration when no
/// iteration runs out of moves' values and fewer than 1024 nodes are counted,
/// so that the clock is never read.
pub open spec fn deepening_unpolled(v: BoardView, depth: int) -> bool {
    &&& deepen_nodes(v, depth) < 1024
    &&& forall|d: int| 1 <= d <= depth ==> #[trigger] root_best(v, d) is Some
}

/// The report of completed depth `d`: the depth, its best score seen from
/// the side to move, and the nodes and quiescence nodes counted since the
/// search began.
pub open spec fn is_report_at(v: BoardView, d: int, info: SearchInfo) -> bool {
    &&& info.depth == d
    &&& root_best(v, d) matches Some((_, score)) && info.score == score
    &&& info.nodes == advanced(0, deepen_nodes(v, d) as int)
    &&& info.qnodes == advanced(0, deepen_qnodes(v, d) as int)
}

/// The reports `after` are those of `before` followed by the reports of
/// depths 1 to `k`, in order.
pub open spec fn reports_added(
    v: BoardView,
    before: Seq<SearchInfo>,
    after: Seq<SearchInfo>,
    k: int,
) -> bool {
    &&& after.len() == before.len() + k
    &&& after.take(before.len() as int) == before
    &&& forall|i: int| 0 <= i < k ==> #[trigger] is_report_at(v, i + 1, after[before.len() + i])
}

/// Iterative deepening to `depth` that completed `k` iterations settled on
/// `best`: the move of depth `k`'s iteration (the first move in search order
/// for `k == 0`), none at all without legal moves, and it stopped before
/// `depth` only because the clock was read (at least 1024 nodes counted when
/// it stopped) or an iteration had no value.
pub open spec fn deepening_result(v: BoardView, depth: int, k: int, best: Option<Move>) -> bool {
    &&& best is Some ==> best == root_choice(v, k)
    &&& v.legal_moves().len() == 0 ==> k == 0
    &&& v.legal_moves().len() > 0 && k < depth ==> deepen_nodes(v, k) >= 1024 || deepen_nodes(
        v,
        k + 1,
    ) >= 1024 || root_best(v, k + 1) is None
}

proof fn lemma_deepen_monotone(v: BoardView, a: int, b: int)
    requires
        a <= b,
    ensures
        deepen_nodes(v, a) <= deepen_nodes(v, b),
    decreases b - a,
{
    if a < b {
        lemma_deepen_monotone(v, a, b - 1);
    }
}

proof fn lemma_search_nodes_positive(v: BoardView, depth: int, alpha: int, beta: int)
    ensures
        search_nodes(v, depth, alpha, beta) >= 1,
{
    reveal(search_nodes);
    if depth <= 0 {
        assert(quiesce_nodes(v, alpha, beta, 0) >= 1);
    }
}

proof fn lemma_root_nodes_positive(v: BoardView, depth: int)
    requires
        ordered_moves(v).len() > 0,
    ensures
        root_nodes(v, depth) >= 1,
{
    let ms = ordered_moves(v);
    lemma_search_nodes_positive(
        v.after_move(ms[0]),
        depth - 1,
        -(i32::MAX as int),
        -(i32::MIN + 1),
    );
}

/// A count that starts at 0 and reaches a multiple of 1024 after `n > 0`
/// nodes has counted at least 1024 of them.
proof fn lemma_poll_needs_1024(n: int)
    requires
        n > 0,
        advanced(0, n) % 1024 == 0,
    ensures
        n >= 1024,
{
    lemma_advanced_add(0, n, 0);
}

/// Receives the report of each completed search depth.
pub trait Reporter {
    /// The reports received so far, oldest first.
    spec fn reported(&self) -> Seq<SearchInfo>;

    /// Whether the reporter can take `info`.
    spec fn accepts(&self, info: SearchInfo) -> bool;

    /// Receives one more report.
    fn report(&mut self, info: SearchInfo)
        requires
            old(self).accepts(info),
        ensures
            final(self).reported() == old(self).reported().push(info),
            forall|i: SearchInfo| #[trigger] final(self).accepts(i) == old(self).accepts(i),
    ;
}

/// A vector collects the reports in the order they come.
impl Reporter for Vec<SearchInfo> {
    open spec fn reported(&self) -> Seq<SearchInfo> {
        self@
    }

    open spec fn accepts(&self, info: SearchInfo) -> bool {
        true
    }

    fn report(&mut self, info: SearchInfo) {
        self.push(info);
    }
}

/// Hands each report to a callback as it comes, keeping a record of what it
/// handed over.
pub struct CallbackReporter<F: FnMut(SearchInfo)> {
    callback: F,
    handed: Ghost<Seq<SearchInfo>>,
}

impl<F: FnMut(SearchInfo)> CallbackReporter<F> {
    /// A reporter that has handed nothing over yet.
    pub fn new(callback: F) -> (r: Self)
        ensures
            r.reported() == Seq::<SearchInfo>::empty(),
            forall|info: SearchInfo| #[trigger] r.accepts(info) == call_requires(callback, (info,)),
    {
        CallbackReporter { callback, handed: Ghost(Seq::empty()) }
    }
}

/// The reports handed to the callback are exactly those received, in order.
impl<F: FnMut(SearchInfo)> Reporter for CallbackReporter<F> {
    closed spec fn reported(&self) -> Seq<SearchInfo> {
        self.handed@
    }

    closed spec fn accepts(&self, info: SearchInfo) -> bool {
        call_requires(self.callback, (info,))
    }

    fn report(&mut self, info: SearchInfo) {
        (self.callback)(info);
        self.handed = Ghost(self.handed@.push(info));
    }
}

/// The best move found by iterative deepening up to `depth` plies within
/// `limit`, with no report.
pub fn find_best_move(board: &mut Board, depth: u32, limit: Duration) -> (best: Option<Move>)
    ensures
        *final(board) == *old(board),
        best is None <==> old(board)@.legal_moves().len() == 0,
        best matches Some(m) ==> old(board)@.legal_moves().contains(m),
        exists|k: int|
            0 <= k <= depth && #[trigger] deepening_result(old(board)@, depth as int, k, best),
        deepening_unpolled(old(board)@, depth as int) && best is Some ==> best == root_choice(
            old(board)@,
            depth as int,
        ),
{
    let mut reports: Vec<SearchInfo> = Vec::new();
    find_best_move_with_info(board, depth, limit, &mut reports)
}

/// Iterative deepening from 1 to `depth` plies until `limit` runs out. After
/// each completed depth the reporter gets the depth, score and node counts,
/// and the depth's best move replaces the previous one; before any depth
/// completes, the first move in search order stands. When the clock is never
/// read every depth completes.
pub fn find_best_move_with_info<R: Reporter>(
    board: &mut Board,
    depth: u32,
    limit: Duration,
    reporter: &mut R,
) -> (best: Option<Move>)
    requires
        forall|info: SearchInfo| #[trigger] old(reporter).accepts(info),
    ensures
        *final(board) == *old(board),
        best is None <==> old(board)@.legal_moves().len() == 0,
        best matches Some(m) ==> old(board)@.legal_moves().contains(m),
        exists|k: int|
            0 <= k <= depth && #[trigger] deepening_result(old(board)@, depth as int, k, best)
                && reports_added(old(board)@, old(reporter).reported(), final(reporter).reported(), k),
        deepening_unpolled(old(board)@, depth as int) && best is Some ==> best == root_choice(
            old(board)@,
            depth as int,
        ),
{
    let started = now();
    let ghost r0 = reporter.reported();
    proof {
        assert(r0.take(r0.len() as int) =~= r0);
    }

    let moves = ordered_legal_moves(board);
    if moves.len() == 0 {
        proof {
            assert(deepening_result(board@, depth as int, 0, None));
        }
        return None;
    }
    let deadline = match later_by(now(), limit) {
        Some(d) => d,
        None => match later_by(now(), seconds(3_153_600_000)) {
            Some(d) => d,
            None => now(),
        },
    };
    let mut ctx = SearchContext { deadline, nodes: 0 };
    let mut qnodes: u64 = 0;

    let ghost v = board@;
    let ghost start = *board;
    let mut best_move = Some(moves[0]);
    let ghost mut chosen: int = 0;
    let mut curr_depth: u64 = 1;
    let mut stop = false;
    while curr_depth <= depth as u64 && !stop
        invariant
            1 <= curr_depth,
            *board == start,
            board@ == v,
            moves@.len() > 0,
            forall|k: int| 0 <= k < moves@.len() ==> v.playable(#[trigger] moves@[k]),
            forall|k: int| 0 <= k < moves@.len() ==> v.legal_moves().contains(#[trigger] moves@[k]),
            best_move matches Some(m) ==> moves@.contains(m),
            best_move is Some,
            moves@ == ordered_moves(v),
            0 <= chosen < curr_depth,
            chosen <= depth,
            best_move == root_choice(v, chosen),
            curr_depth <= depth as int + 1,
            reports_added(v, r0, reporter.reported(), chosen),
            forall|info: SearchInfo| #[trigger] reporter.accepts(info),
            stop ==> deepen_nodes(v, chosen) >= 1024 || deepen_nodes(v, chosen + 1) >= 1024
                || root_best(v, chosen + 1) is None,
            !stop ==> ctx.nodes == advanced(0, deepen_nodes(v, curr_depth - 1) as int),
            !stop ==> qnodes == advanced(0, deepen_qnodes(v, curr_depth - 1) as int),
            !stop ==> chosen == curr_depth - 1,
            !stop ==> forall|d: int| 1 <= d < curr_depth ==> #[trigger] root_best(v, d) is Some,
            stop ==> curr_depth >= 2,
            stop ==> deepen_nodes(v, curr_depth - 1) >= 1024 || root_best(v, curr_depth - 1) is None,
        decreases depth as u64 + 1 - curr_depth,
    {
        let ghost prev = deepen_nodes(v, curr_depth as int - 1) as int;
        proof {
            lemma_root_nodes_positive(v, curr_depth as int);
            lemma_advanced_add(0, prev, root_nodes(v, curr_depth as int) as int);
            lemma_advanced_add(
                0,
                deepen_qnodes(v, curr_depth as int - 1) as int,
                root_qnodes(v, curr_depth as int) as int,
            );
        }
        let (completed, curr_best_move, curr_best_score) = root_iteration(
            board,
            &moves,
            curr_depth as u32,
            &mut ctx,
            &mut qnodes,
        );
        if completed {
            best_move = curr_best_move;
            proof {
                chosen = curr_depth as int;
            }
            let info = SearchInfo {
                depth: curr_depth as u32,
                score: curr_best_score,
                nodes: ctx.nodes,
                qnodes,
                elapsed: Elapsed { nanos: duration_nanos(&elapsed_since(&started)) },
            };
            assert(is_report_at(v, curr_depth as int, info));
            let ghost before = reporter.reported();
            reporter.report(info);
            proof {
                let after = reporter.reported();
                assert(after.take(r0.len() as int) =~= r0) by {
                    assert(before.take(r0.len() as int) =~= r0);
                }
                assert forall|i: int| 0 <= i < curr_depth as int implies #[trigger] is_report_at(
                    v,
                    i + 1,
                    after[r0.len() + i],
                ) by {
                    if i < curr_depth - 1 {
                        assert(after[r0.len() + i] == before[r0.len() + i]);
                    }
                }
            }
        } else {
            proof {
                if timed_out(advanced(0, prev), ctx.nodes, root_nodes(v, curr_depth as int) as int) {
                    lemma_timed_out_shift(
                        0,
                        prev,
                        ctx.nodes,
                        root_nodes(v, curr_depth as int) as int,
                        prev + root_nodes(v, curr_depth as int),
                    );
                    let k = choose|k: int|
                        0 < k <= prev + root_nodes(v, curr_depth as int) && (0 + k) % 1024 == 0
                            && #[trigger] advanced(0, k) == ctx.nodes;
                }
            }
            stop = true;
        }
        if !stop && ctx.is_time_up() {
            proof {
                lemma_poll_needs_1024(deepen_nodes(v, curr_depth as int) as int);
            }
            stop = true;
        }
        curr_depth = curr_depth + 1;
    }
    proof {
        if stop {
            lemma_deepen_monotone(v, curr_depth - 1, depth as int);
            assert(!deepening_unpolled(v, depth as int));
        } else {
            assert(chosen == depth);
        }
        let m = best_move.unwrap();
        let k = choose|k: int| 0 <= k < moves@.len() && moves@[k] == m;
        assert(v.legal_moves().contains(moves@[k]));
        assert(best_move == root_choice(v, chosen));
        if !stop {
            assert(chosen == depth);
        }
        assert(deepening_result(v, depth as int, chosen, best_move));
    }
    best_move
}

proof fn lemma_evaluation_bound(v: BoardView)
    ensures
        -score_bound() <= evaluation(v) <= score_bound(),
{
    crate::eval::lemma_material_bound(v, crate::board::Color::White);
    crate::eval::lemma_material_bound(v, crate::board::Color::Black);
}


/// Where `insert_by_score` puts the new move: after every move scoring at
/// least as much, before the first that scores less.
proof fn lemma_insert_position(v: BoardView, s: Seq<Move>, m: Move) -> (j: int)
    ensures
        0 <= j <= s.len(),
        insert_by_score(v, s, m) == s.insert(j, m),
        forall|k: int| 0 <= k < j ==> order_score(v, #[trigger] s[k]) >= order_score(v, m),
        j < s.len() ==> order_score(v, s[j]) < order_score(v, m),
    decreases s.len(),
{
    if s.len() == 0 {
        assert(s.insert(0, m) =~= seq![m]);
        0
    } else if order_score(v, s[0]) < order_score(v, m) {
        assert(s.insert(0, m) =~= seq![m] + s);
        0
    } else {
        let j = lemma_insert_position(v, s.drop_first(), m);
        assert(s.insert(j + 1, m) =~= seq![s[0]] + s.drop_first().insert(j, m));
        assert forall|k: int| 0 <= k < j + 1 implies order_score(v, #[trigger] s[k]) >= order_score(
            v,
            m,
        ) by {
            if k > 0 {
                assert(s[k] == s.drop_first()[k - 1]);
            }
        }
        if j + 1 < s.len() {
            assert(s[j + 1] == s.drop_first()[j]);
        }
        j + 1
    }
}

pub open spec fn sorted_by_score(v: BoardView, s: Seq<Move>) -> bool {
    forall|i: int, j: int|
        0 <= i < j < s.len() ==> order_score(v, #[trigger] s[i]) >= order_score(v, #[trigger] s[j])
}

proof fn lemma_sort_sorted_permutation(v: BoardView, ms: Seq<Move>)
    ensures
        sort_by_score(v, ms).to_multiset() == ms.to_multiset(),
        sorted_by_score(v, sort_by_score(v, ms)),
    decreases ms.len(),
{
    broadcast use vstd::seq_lib::group_to_multiset_ensures;

    if ms.len() == 0 {
        assert(ms =~= Seq::<Move>::empty());
    } else {
        let rest = ms.drop_last();
        let m = ms.last();
        lemma_sort_sorted_permutation(v, rest);
        let s = sort_by_score(v, rest);
        let j = lemma_insert_position(v, s, m);
        vstd::seq_lib::to_multiset_insert(s, j, m);
        assert(ms =~= rest.push(m));
        vstd::seq_lib::to_multiset_build(rest, m);
        let t = s.insert(j, m);
        assert forall|a: int, b: int| 0 <= a < b < t.len() implies order_score(v, #[trigger] t[a])
            >= order_score(v, #[trigger] t[b]) by {
            if b < j {
                assert(t[a] == s[a] && t[b] == s[b]);
            } else if b == j {
                assert(t[a] == s[a]);
            } else if a < j {
                assert(t[a] == s[a] && t[b] == s[b - 1]);
                assert(order_score(v, s[j]) < order_score(v, m));
                if b - 1 > j {
                    assert(order_score(v, s[j]) >= order_score(v, s[b - 1]));
                }
            } else if a == j {
                assert(t[b] == s[b - 1]);
                if b - 1 > j {
                    assert(order_score(v, s[j]) >= order_score(v, s[b - 1]));
                }
            } else {
                assert(t[a] == s[a - 1] && t[b] == s[b - 1]);
            }
        }
    }
}

/// The search tries every legal move exactly once, in decreasing order of
/// ordering score: captures of valuable pieces and promotions first.
pub proof fn law_search_order_is_sorted_permutation(v: BoardView)
    ensures
        ordered_moves(v).to_multiset() == v.legal_moves().to_multiset(),
        sorted_by_score(v, ordered_moves(v)),
{
    lemma_sort_sorted_permutation(v, v.legal_moves());
}


/// A move that neither captures a piece on its target square nor promotes.
pub open spec fn quiet_move(v: BoardView, m: Move) -> bool {
    v.piece_on(v.side_to_move.other(), m.to as int) is None && m.promotion is None
}

/// A promotion, or a capture by a pawn, knight, bishop, rook or queen.
pub open spec fn forcing_move(v: BoardView, m: Move) -> bool {
    ||| m.promotion is Some
    ||| v.piece_on(v.side_to_move.other(), m.to as int) is Some && (v.piece_on(
        v.side_to_move,
        m.from as int,
    ) matches Some(p) && p != Piece::King)
}

/// The search tries promotions, and captures made by pieces other than the
/// king, before every quiet move.
pub proof fn law_search_tries_forcing_moves_first(v: BoardView)
    ensures
        forall|i: int, j: int|
            0 <= i < j < ordered_moves(v).len() && quiet_move(v, #[trigger] ordered_moves(v)[i])
                ==> !forcing_move(v, #[trigger] ordered_moves(v)[j]),
{
    lemma_sort_sorted_permutation(v, v.legal_moves());
    let ms = ordered_moves(v);
    assert forall|i: int, j: int|
        0 <= i < j < ms.len() && quiet_move(v, #[trigger] ms[i]) implies !forcing_move(
        v,
        #[trigger] ms[j],
    ) by {
        assert(order_score(v, ms[i]) >= order_score(v, ms[j]));
        assert(order_score(v, ms[i]) == 0);
        let m = ms[j];
        let us = v.side_to_move;
        let moving = v.piece_on(us, m.from as int).unwrap();
        assert(0 < value_of(moving) <= 20_000);
        match v.piece_on(us.other(), m.to as int) {
            Some(c) => {
                assert(100 <= value_of(c) <= 20_000);
            },
            None => {},
        }
        match m.promotion {
            Some(p) => {
                assert(100 <= value_of(p));
            },
            None => {},
        }
    }
}

/// `x` clamped into [`lo`, `hi`].
pub open spec fn clamp(x: int, lo: int, hi: int) -> int {
    if x <= lo {
        lo
    } else if x >= hi {
        hi
    } else {
        x
    }
}

/// The larger of `x` and an optional `o` (absent counts as minus infinity).
pub open spec fn max_with(x: int, o: Option<int>) -> int {
    match o {
        Some(b) => if b > x {
            b
        } else {
            x
        },
        None => x,
    }
}

/// The best negated child value among the moves of `ms` from index `i` that
/// quiescence looks at, without pruning: `None` when some child has no value,
/// `Some(None)` when no move is looked at.
pub open spec fn tactical_best(v: BoardView, ms: Seq<Move>, i: int, qply: int, in_check: bool) -> Option<
    Option<int>,
>
    decreases 128 - qply, 0int, ms.len() - i,
{
    if i >= ms.len() || i < 0 || qply >= 128 || qply < 0 {
        Some(None)
    } else if !in_check && !is_tactical(v, ms[i]) {
        tactical_best(v, ms, i + 1, qply, in_check)
    } else {
        match (quiescence_value(v.after_move(ms[i]), qply + 1), tactical_best(
            v,
            ms,
            i + 1,
            qply,
            in_check,
        )) {
            (Some(c), Some(rest)) => Some(Some(max_with(-c, rest))),
            _ => None,
        }
    }
}

/// The quiescence value of a position without pruning: the mate or
/// stalemate score without legal moves; else the best of standing pat
/// (outside check) and the negated values after the moves quiescence looks
/// at. `None` when a line reaches 128 plies.
pub open spec fn quiescence_value(v: BoardView, qply: int) -> Option<int>
    decreases 128 - qply, 1int, 0int,
{
    let ms = ordered_moves(v);
    let in_check = v.in_check(v.side_to_move);
    if ms.len() == 0 {
        Some(
            if in_check {
                -100_000
            } else {
                0
            },
        )
    } else if qply >= 128 || qply < 0 {
        None
    } else {
        match tactical_best(v, ms, 0, qply, in_check) {
            None => None,
            Some(o) => if !in_check {
                Some(max_with(evaluation(v), o))
            } else {
                o
            },
        }
    }
}

/// The best negated value of `depth - 1` plies after the moves of `ms` from
/// index `i`, without pruning.
pub open spec fn negamax_best(v: BoardView, ms: Seq<Move>, i: int, depth: int) -> Option<
    Option<int>,
>
    decreases depth, 0int, ms.len() - i,
{
    if i >= ms.len() || i < 0 || depth <= 0 {
        Some(None)
    } else {
        match (negamax(v.after_move(ms[i]), depth - 1), negamax_best(v, ms, i + 1, depth)) {
            (Some(c), Some(rest)) => Some(Some(max_with(-c, rest))),
            _ => None,
        }
    }
}

/// The negamax value of a position searched `depth` plies deep, with the
/// quiescence value at the leaves, without pruning.
pub open spec fn negamax(v: BoardView, depth: int) -> Option<int>
    decreases depth, 1int, 0int,
{
    if depth <= 0 {
        quiescence_value(v, 0)
    } else {
        let ms = ordered_moves(v);
        if ms.len() == 0 {
            Some(
                if v.in_check(v.side_to_move) {
                    -100_000
                } else {
                    0
                },
            )
        } else {
            match negamax_best(v, ms, 0, depth) {
                Some(Some(b)) => Some(b),
                _ => None,
            }
        }
    }
}

/// What a fail-hard window (`alpha`, `beta`) makes of a best-so-far `o` on
/// top of `alpha`.
pub open spec fn window_max(alpha: int, o: Option<int>, beta: int) -> int {
    match o {
        None => alpha,
        Some(b) => if b >= beta {
            beta
        } else if b > alpha {
            b
        } else {
            alpha
        },
    }
}

/// A child's fail-hard result seen from the parent: a terminal child's score
/// unclamped, any other clamped into the parent's window.
proof fn lemma_window_step(alpha: int, beta: int, x: int, s: int, rest: Option<int>)
    requires
        alpha < beta,
        s == x || s == clamp(x, alpha, beta),
    ensures
        s >= beta ==> window_max(alpha, Some(max_with(x, rest)), beta) == beta,
        s < beta ==> window_max(
            if s > alpha {
                s
            } else {
                alpha
            },
            rest,
            beta,
        ) == window_max(alpha, Some(max_with(x, rest)), beta),
        s < beta ==> (if s > alpha {
            s
        } else {
            alpha
        }) < beta,
{
}

proof fn lemma_quiesce_moves_law(
    v: BoardView,
    ms: Seq<Move>,
    i: int,
    alpha: int,
    beta: int,
    qply: int,
    in_check: bool,
    o: Option<int>,
)
    requires
        alpha < beta,
        0 <= i <= ms.len(),
        0 <= qply < 128,
        tactical_best(v, ms, i, qply, in_check) == Some(o),
    ensures
        quiesce_moves(v, ms, i, alpha, beta, qply, in_check) == Some(window_max(alpha, o, beta)),
    decreases 128 - qply, 0int, ms.len() - i,
{
    if i < ms.len() {
        if !in_check && !is_tactical(v, ms[i]) {
            lemma_quiesce_moves_law(v, ms, i + 1, alpha, beta, qply, in_check, o);
        } else {
            let child = v.after_move(ms[i]);
            let c = quiescence_value(child, qply + 1).unwrap();
            let rest = tactical_best(v, ms, i + 1, qply, in_check).unwrap();
            lemma_quiesce_law(child, -beta, -alpha, qply + 1, c);
            let r = quiesce(child, -beta, -alpha, qply + 1).unwrap();
            let s = -r;
            lemma_window_step(alpha, beta, -c, s, rest);
            if s < beta {
                let a2 = if s > alpha {
                    s
                } else {
                    alpha
                };
                lemma_quiesce_moves_law(v, ms, i + 1, a2, beta, qply, in_check, rest);
            }
        }
    }
}

/// Quiescence search with pruning agrees with the unpruned quiescence value:
/// inside a proper window (`alpha` < `beta`) it returns that value clamped
/// into the window, or unclamped in a position without legal moves.
pub proof fn lemma_quiesce_law(v: BoardView, alpha: int, beta: int, qply: int, val: int)
    requires
        alpha < beta,
        0 <= qply <= 128,
        quiescence_value(v, qply) == Some(val),
    ensures
        quiesce(v, alpha, beta, qply) == Some(
            if ordered_moves(v).len() == 0 {
                val
            } else {
                clamp(val, alpha, beta)
            },
        ),
    decreases 128 - qply, 1int, 0int,
{
    let ms = ordered_moves(v);
    let in_check = v.in_check(v.side_to_move);
    if ms.len() > 0 {
        let o = tactical_best(v, ms, 0, qply, in_check).unwrap();
        if !in_check {
            let e = evaluation(v);
            if e < beta {
                let a1 = if e > alpha {
                    e
                } else {
                    alpha
                };
                lemma_quiesce_moves_law(v, ms, 0, a1, beta, qply, in_check, o);
                lemma_window_step(alpha, beta, e, e, o);
            }
        } else {
            lemma_quiesce_moves_law(v, ms, 0, alpha, beta, qply, in_check, o);
        }
    }
}

proof fn lemma_search_moves_law(
    v: BoardView,
    ms: Seq<Move>,
    i: int,
    depth: int,
    alpha: int,
    beta: int,
    o: Option<int>,
)
    requires
        alpha < beta,
        0 <= i <= ms.len(),
        depth >= 1,
        negamax_best(v, ms, i, depth) == Some(o),
    ensures
        search_moves(v, ms, i, depth, alpha, beta) == Some(window_max(alpha, o, beta)),
    decreases depth, 0int, ms.len() - i,
{
    if i < ms.len() {
        let child = v.after_move(ms[i]);
        let c = negamax(child, depth - 1).unwrap();
        let rest = negamax_best(v, ms, i + 1, depth).unwrap();
        lemma_search_law(child, depth - 1, -beta, -alpha, c);
        let r = search_value(child, depth - 1, -beta, -alpha).unwrap();
        let s = -r;
        lemma_window_step(alpha, beta, -c, s, rest);
        if s < beta {
            let a2 = if s > alpha {
                s
            } else {
                alpha
            };
            lemma_search_moves_law(v, ms, i + 1, depth, a2, beta, rest);
        }
    }
}

/// Alpha-beta with pruning agrees with negamax: inside a proper window
/// (`alpha` < `beta`) it returns the negamax value clamped into the window,
/// or unclamped in a position without legal moves.
pub proof fn lemma_search_law(v: BoardView, depth: int, alpha: int, beta: int, val: int)
    requires
        alpha < beta,
        negamax(v, depth) == Some(val),
    ensures
        search_value(v, depth, alpha, beta) == Some(
            if ordered_moves(v).len() == 0 {
                val
            } else {
                clamp(val, alpha, beta)
            },
        ),
    decreases depth, 1int, 0int,
{
    if depth <= 0 {
        lemma_quiesce_law(v, alpha, beta, 0, val);
    } else {
        let ms = ordered_moves(v);
        if ms.len() > 0 {
            let o = negamax_best(v, ms, 0, depth).unwrap();
            lemma_search_moves_law(v, ms, 0, depth, alpha, beta, o);
        }
    }
}

/// The central law of the search: whenever `alpha_beta` completes inside a
/// proper window and the unpruned search has a value, the result is that
/// negamax value clamped into the window (unclamped for a position without
/// legal moves).
pub proof fn law_alpha_beta_is_clamped_negamax(
    v: BoardView,
    depth: int,
    alpha: int,
    beta: int,
    val: int,
    result: int,
)
    requires
        alpha < beta,
        negamax(v, depth) == Some(val),
        search_value(v, depth, alpha, beta) == Some(result),
    ensures
        result == if ordered_moves(v).len() == 0 {
            val
        } else {
            clamp(val, alpha, beta)
        },
{
    lemma_search_law(v, depth, alpha, beta, val);
}

} // verus!
