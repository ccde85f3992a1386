//! Built-in chess engine used for Human vs Engine mode and UI evaluation.
//!
//! The search is a negamax alpha-beta implementation with iterative deepening,
//! lightweight move ordering, configurable strength, and configurable think-time bounds.

use std::time::{Duration, Instant};
use vstd::prelude::*;

use crate::game::{
    apply, chosen_move, legal_move_list, legal_moves, status_of, Chess, ChessView, GameStatus, LegalMove, Move,
};
use eval::{
    eval_for_side_to_move, evaluate_for_white, evaluation, heuristic, move_heuristic,
    side_evaluation,
};

pub mod eval;
pub mod agreement;

verus! {

pub const MATE_SCORE: i32 = 100_000;

// ---------------------------------------------------------------------------
// Clock
// ---------------------------------------------------------------------------

#[verifier::external_type_specification]
#[verifier::external_body]
pub struct ExInstant(Instant);

/// `Instant::now`: the current time. Nothing is stated of it; it is read from the clock.
#[verifier::external_body]
fn clock_now() -> Instant {
    Instant::now()
}

/// `Instant::checked_add` of `ms` milliseconds: `None` where the sum is not
/// representable. Nothing more is stated; instants are opaque here.
#[verifier::external_body]
fn instant_after(start: &Instant, ms: u64) -> Option<Instant> {
    start.checked_add(Duration::from_millis(ms))
}

/// `>=` on instants. Nothing is stated; instants are opaque here.
#[verifier::external_body]
fn instant_reached(now: &Instant, deadline: &Instant) -> bool {
    *now >= *deadline
}

/// `Instant::elapsed` in whole milliseconds (truncated to `u64`). Nothing is
/// stated; it depends on the clock.
#[verifier::external_body]
fn elapsed_millis(start: &Instant) -> u64 {
    start.elapsed().as_millis() as u64
}

/// Whether the clock has passed `deadline` (never, without a deadline).
/// With a deadline the answer comes from the clock, so nothing more is stated.
fn timed_out(deadline: &Option<Instant>) -> (r: bool)
    ensures
        deadline is None ==> !r,
{
    match deadline {
        Some(d) => {
            let now = clock_now();
            instant_reached(&now, d)
        },
        None => false,
    }
}

// ---------------------------------------------------------------------------
// Configuration
// ---------------------------------------------------------------------------

/// Runtime tuning knobs for the built-in engine.
#[derive(Clone, Copy, Debug)]
pub struct EngineConfig {
    /// Coarse playing strength from `1` (weakest) to `10` (strongest).
    pub strength: u8,
    /// Minimum iterative-deepening depth (plies).
    pub min_depth: u8,
    /// Maximum iterative-deepening depth (plies).
    pub max_depth: u8,
    /// Minimum wall-clock think time for a move, in milliseconds.
    pub min_think_time: u64,
    /// Maximum wall-clock think time for a move, in milliseconds.
    pub max_think_time: u64,
}

impl Default for EngineConfig {
    fn default() -> (r: Self)
        ensures
            r.strength == 8,
            r.min_depth == 2,
            r.max_depth == 4,
            r.min_think_time == 150,
            r.max_think_time == 1_500,
    {
        EngineConfig {
            strength: 8,
            min_depth: 2,
            max_depth: 4,
            min_think_time: 150,
            max_think_time: 1_500,
        }
    }
}

/// Result returned by [`Engine::best_move_timed`].
#[derive(Clone, Copy, Debug)]
pub struct EngineMove {
    /// Chosen move.
    pub mv: Move,
    /// Evaluation in centipawns from White's perspective.
    pub eval: i32,
    /// Deepest fully completed depth in plies.
    pub depth_reached: u8,
    /// Wall-clock think time in milliseconds: the time spent searching, or
    /// the minimum think time when the search took less.
    pub elapsed: u64,
}

#[derive(Clone, Copy, Debug)]
enum SearchResult {
    Score(i32),
    Timeout,
}

pub struct Engine {
    config: EngineConfig,
}

impl Engine {
    #[verifier::type_invariant]
    spec fn config_in_range(self) -> bool {
        config_ok(self.config)
    }
}

/// A configuration brought into range: strength `1..=10`, depths at least 1
/// with the maximum not below the minimum, a maximum think time of at least
/// 1 ms and a minimum not above it.
pub open spec fn normalized(c: EngineConfig) -> EngineConfig {
    let min_depth = if c.min_depth < 1 {
        1u8
    } else {
        c.min_depth
    };
    let max_think = if c.max_think_time < 1 {
        1u64
    } else {
        c.max_think_time
    };
    EngineConfig {
        strength: if c.strength < 1 {
            1u8
        } else if c.strength > 10 {
            10u8
        } else {
            c.strength
        },
        min_depth,
        max_depth: if c.max_depth < min_depth {
            min_depth
        } else {
            c.max_depth
        },
        min_think_time: if c.min_think_time > max_think {
            max_think
        } else {
            c.min_think_time
        },
        max_think_time: max_think,
    }
}

pub open spec fn config_ok(c: EngineConfig) -> bool {
    1 <= c.strength <= 10 && 1 <= c.min_depth <= c.max_depth && 1 <= c.max_think_time
        && c.min_think_time <= c.max_think_time
}

// ---------------------------------------------------------------------------
// Ordering
// ---------------------------------------------------------------------------

/// Index of the first entry of `s` with a key below `key` (or `s.len()`).
pub open spec fn first_below(s: Seq<(Move, i32)>, key: i32) -> int
    decreases s.len(),
{
    if s.len() == 0 {
        0
    } else if s[0].1 < key {
        0
    } else {
        1 + first_below(s.drop_first(), key)
    }
}

/// Stable sort by descending key: each entry, taken in order, is placed after
/// every entry already placed whose key is at least its own.
pub open spec fn sort_desc(s: Seq<(Move, i32)>) -> Seq<(Move, i32)>
    decreases s.len(),
{
    if s.len() == 0 {
        s
    } else {
        let t = sort_desc(s.drop_last());
        t.insert(first_below(t, s.last().1), s.last())
    }
}

pub proof fn lemma_first_below_range(s: Seq<(Move, i32)>, key: i32)
    ensures
        0 <= first_below(s, key) <= s.len(),
    decreases s.len(),
{
    if s.len() > 0 {
        lemma_first_below_range(s.drop_first(), key);
    }
}

pub proof fn lemma_sort_len(s: Seq<(Move, i32)>)
    ensures
        sort_desc(s).len() == s.len(),
        forall|x: (Move, i32)| sort_desc(s).contains(x) <==> s.contains(x),
    decreases s.len(),
{
    if s.len() > 0 {
        let t = sort_desc(s.drop_last());
        lemma_sort_len(s.drop_last());
        lemma_first_below_range(t, s.last().1);
        let p = first_below(t, s.last().1);
        let u = t.insert(p, s.last());
        assert forall|x: (Move, i32)| u.contains(x) <==> s.contains(x) by {
            if u.contains(x) {
                let j = choose|j: int| 0 <= j < u.len() && u[j] == x;
                assert(t.contains(x) <==> s.drop_last().contains(x));
                if j < p {
                    assert(t[j] == x);
                    assert(t.contains(x));
                    let k = choose|k: int| 0 <= k < s.drop_last().len() && s.drop_last()[k] == x;
                    assert(s[k] == x);
                } else if j == p {
                    assert(s[s.len() - 1] == x);
                } else {
                    assert(t[j - 1] == x);
                    assert(t.contains(x));
                    assert(s.drop_last().contains(x));
                    let k = choose|k: int| 0 <= k < s.drop_last().len() && s.drop_last()[k] == x;
                    assert(s[k] == x);
                }
            }
            if s.contains(x) {
                let j = choose|j: int| 0 <= j < s.len() && s[j] == x;
                if j == s.len() - 1 {
                    assert(u[p] == x);
                } else {
                    assert(s.drop_last()[j] == x);
                    assert(s.drop_last().contains(x));
                    assert(t.contains(x) <==> s.drop_last().contains(x));
                    assert(t.contains(x));
                    let k = choose|k: int| 0 <= k < t.len() && t[k] == x;
                    if k < p {
                        assert(u[k] == x);
                    } else {
                        assert(u[k + 1] == x);
                    }
                }
            }
        }
    }
}

/// Sorts `v` by descending key, keeping the order of equal keys (see [`sort_desc`]).
fn sort_by_key_desc(v: &Vec<(Move, i32)>) -> (r: Vec<(Move, i32)>)
    ensures
        r@ == sort_desc(v@),
{
    let mut out: Vec<(Move, i32)> = Vec::new();
    let mut i: usize = 0;
    while i < v.len()
        invariant
            0 <= i <= v@.len(),
            out@ == sort_desc(v@.take(i as int)),
        decreases v@.len() - i,
    {
        let x = v[i];
        assert(v@.take(i + 1).drop_last() == v@.take(i as int));
        assert(v@.take(i + 1).last() == x);
        proof {
            lemma_sort_len(v@.take(i as int));
        }
        let mut p: usize = 0;
        assert(out@.skip(0) == out@);
        while p < out.len() && out[p].1 >= x.1
            invariant
                0 <= p <= out@.len(),
                first_below(out@, x.1) == p + first_below(out@.skip(p as int), x.1),
            decreases out@.len() - p,
        {
            assert(out@.skip(p as int).drop_first() == out@.skip(p + 1));
            p += 1;
        }
        proof {
            if p < out@.len() {
                assert(out@.skip(p as int)[0] == out@[p as int]);
            }
        }
        out.insert(p, x);
        i += 1;
    }
    assert(v@.take(i as int) == v@);
    out
}

/// The moves of `moves` paired with their ordering scores.
pub open spec fn keyed_moves(b: Seq<Option<crate::game::Piece>>, moves: Seq<Move>) -> Seq<(Move, i32)> {
    moves.map_values(|m: Move| (m, heuristic(b, m) as i32))
}

/// `moves` sorted by descending ordering score, stable.
pub open spec fn ordered(b: Seq<Option<crate::game::Piece>>, moves: Seq<Move>) -> Seq<Move> {
    sort_desc(keyed_moves(b, moves)).map_values(|p: (Move, i32)| p.0)
}

/// In-place move ordering used by search.
fn order_moves(game: &Chess, moves: &mut Vec<Move>)
    requires
        forall|i: int| 0 <= i < old(moves)@.len() ==> #[trigger] old(moves)@[i].to < 64,
    ensures
        final(moves)@ == ordered(game@.board, old(moves)@),
{
    let ghost b = game@.board;
    let mut keyed: Vec<(Move, i32)> = Vec::new();
    let mut i: usize = 0;
    while i < moves.len()
        invariant
            0 <= i <= moves@.len(),
            b == game@.board,
            forall|j: int| 0 <= j < moves@.len() ==> #[trigger] moves@[j].to < 64,
            keyed@ == keyed_moves(b, moves@.take(i as int)),
        decreases moves@.len() - i,
    {
        let mv = moves[i];
        let h = move_heuristic(game, mv);
        keyed.push((mv, h));
        assert(keyed_moves(b, moves@.take(i + 1)) =~= keyed_moves(b, moves@.take(i as int)).push(
            (mv, h),
        ));
        i += 1;
    }
    assert(moves@.take(i as int) == moves@);
    let sorted = sort_by_key_desc(&keyed);
    let mut out: Vec<Move> = Vec::new();
    let mut k: usize = 0;
    while k < sorted.len()
        invariant
            0 <= k <= sorted@.len(),
            out@ == sorted@.take(k as int).map_values(|p: (Move, i32)| p.0),
        decreases sorted@.len() - k,
    {
        out.push(sorted[k].0);
        assert(sorted@.take(k + 1).map_values(|p: (Move, i32)| p.0) =~= sorted@.take(k as int).map_values(
            |p: (Move, i32)| p.0,
        ).push(sorted@[k as int].0));
        k += 1;
    }
    assert(sorted@.take(k as int) == sorted@);
    *moves = out;
}

// ---------------------------------------------------------------------------
// Choosing among scored root moves
// ---------------------------------------------------------------------------

/// Centipawns a move may fall short of the best one and still be played.
pub open spec fn slack(strength: u8) -> int {
    let s = if strength < 1 {
        1
    } else if strength > 10 {
        10
    } else {
        strength as int
    };
    (10 - s) * 60
}

/// Walks `s` from index `i` while keys reach `threshold`, keeping the last such entry.
pub open spec fn select_from(s: Seq<(Move, i32)>, threshold: int, i: int, chosen: (Move, i32)) -> (
    Move,
    i32,
)
    decreases s.len() - i,
{
    if i >= s.len() || i < 0 {
        chosen
    } else if s[i].1 >= threshold {
        select_from(s, threshold, i + 1, s[i])
    } else {
        chosen
    }
}

/// The last entry of the leading run of `s` whose scores are within
/// [`slack`] of the first score.
pub open spec fn selected(s: Seq<(Move, i32)>, strength: u8) -> (Move, i32) {
    select_from(s, s[0].1 - slack(strength), 0, s[0])
}

pub proof fn lemma_select_in(s: Seq<(Move, i32)>, threshold: int, i: int, chosen: (Move, i32))
    requires
        0 <= i,
        s.contains(chosen),
    ensures
        s.contains(select_from(s, threshold, i, chosen)),
    decreases s.len() - i,
{
    if i < s.len() && s[i].1 >= threshold {
        assert(s.contains(s[i]));
        lemma_select_in(s, threshold, i + 1, s[i]);
    }
}

/// Picks a move from the top score band according to configured strength.
fn select_move_by_strength(scored_moves: &Vec<(Move, i32)>, strength: u8) -> (r: (Move, i32))
    requires
        scored_moves@.len() > 0,
        forall|i: int| 0 <= i < scored_moves@.len() ==> -300_000 <= #[trigger] scored_moves@[i].1 <= 300_000,
    ensures
        r == selected(scored_moves@, strength),
{
    let best = scored_moves[0].1;
    let s: u8 = if strength < 1 {
        1
    } else if strength > 10 {
        10
    } else {
        strength
    };
    let slack_cp = (10 - s) as i32 * 60;
    let threshold = best - slack_cp;
    let mut chosen = scored_moves[0];
    let mut i: usize = 0;
    while i < scored_moves.len() && scored_moves[i].1 >= threshold
        invariant
            0 <= i <= scored_moves@.len(),
            threshold as int == scored_moves@[0].1 - slack(strength),
            selected(scored_moves@, strength) == select_from(scored_moves@, threshold as int, i as int, chosen),
        decreases scored_moves@.len() - i,
    {
        let (mv, eval) = scored_moves[i];
        chosen = (mv, eval);
        i += 1;
    }
    chosen
}

// ---------------------------------------------------------------------------
// Search
// ---------------------------------------------------------------------------

/// The position after the move `mv` is played (as `Chess::try_make_move` plays it), if legal.
pub open spec fn child(v: ChessView, mv: Move) -> Option<ChessView> {
    match chosen_move(legal_moves(v), mv) {
        Some(lm) => Some(apply(v, lm)),
        None => None,
    }
}

/// Legal moves of the side to move in search order.
pub open spec fn ordered_moves(v: ChessView) -> Seq<Move> {
    ordered(v.board, legal_move_list(v))
}

/// Negamax value with alpha-beta pruning, from the side to move's point of
/// view: mates score `-MATE_SCORE + ply`, draws 0, depth 0 (or no move
/// left) the static evaluation; otherwise the best child value, stopping at a
/// beta cutoff. Inside the window it equals [`minimax`] (see
/// [`lemma_alpha_beta_is_minimax`]).
pub open spec fn negamax(v: ChessView, depth: int, alpha: int, beta: int, ply: int) -> int
    decreases depth, 1int, 0int,
{
    match status_of(v) {
        GameStatus::Checkmate { .. } => -MATE_SCORE + ply,
        GameStatus::Ongoing => {
            if depth <= 0 {
                side_evaluation(v.board, v.turn)
            } else {
                let moves = ordered_moves(v);
                if moves.len() == 0 {
                    side_evaluation(v.board, v.turn)
                } else {
                    moves_value(v, moves, depth, alpha, beta, ply, 0, -MATE_SCORE as int)
                }
            }
        },
        _ => 0,
    }
}

/// Best value over `moves[i..]` (see [`negamax`]), with running `alpha` and `best`.
pub open spec fn moves_value(
    v: ChessView,
    moves: Seq<Move>,
    depth: int,
    alpha: int,
    beta: int,
    ply: int,
    i: int,
    best: int,
) -> int
    decreases depth, 0int, moves.len() - i,
{
    if depth <= 0 || i >= moves.len() || i < 0 {
        best
    } else {
        match child(v, moves[i]) {
            None => moves_value(v, moves, depth, alpha, beta, ply, i + 1, best),
            Some(n) => {
                let score = -negamax(n, depth - 1, -beta, -alpha, ply + 1);
                let best2 = if score > best {
                    score
                } else {
                    best
                };
                let alpha2 = if score > alpha {
                    score
                } else {
                    alpha
                };
                if alpha2 >= beta {
                    best2
                } else {
                    moves_value(v, moves, depth, alpha2, beta, ply, i + 1, best2)
                }
            },
        }
    }
}

/// Plain minimax value (negamax form, without pruning) from the side to
/// move's point of view: mates score `-MATE_SCORE + ply`, draws 0, depth 0
/// (or no move left) the static evaluation; otherwise the best value among
/// the positions after each legal move, negated, starting from `-MATE_SCORE`.
pub open spec fn minimax(v: ChessView, depth: int, ply: int) -> int
    decreases depth, 1int, 0int,
{
    match status_of(v) {
        GameStatus::Checkmate { .. } => -MATE_SCORE + ply,
        GameStatus::Ongoing => {
            if depth <= 0 {
                side_evaluation(v.board, v.turn)
            } else {
                let moves = ordered_moves(v);
                if moves.len() == 0 {
                    side_evaluation(v.board, v.turn)
                } else {
                    best_value(v, moves, depth, ply, 0, -MATE_SCORE as int)
                }
            }
        },
        _ => 0,
    }
}

/// The larger of `best` and the minimax values of the moves `moves[i..]`.
pub open spec fn best_value(v: ChessView, moves: Seq<Move>, depth: int, ply: int, i: int, best: int) -> int
    decreases depth, 0int, moves.len() - i,
{
    if depth <= 0 || i >= moves.len() || i < 0 {
        best
    } else {
        match child(v, moves[i]) {
            None => best_value(v, moves, depth, ply, i + 1, best),
            Some(n) => {
                let score = -minimax(n, depth - 1, ply + 1);
                best_value(v, moves, depth, ply, i + 1, if score > best { score } else { best })
            },
        }
    }
}

/// Two starting values at or below `a` give the same best value once it
/// exceeds `a`, and agree on whether it does.
proof fn lemma_best_value_start(v: ChessView, moves: Seq<Move>, depth: int, ply: int, i: int, x: int, y: int, a: int)
    requires
        x <= a,
        y <= a,
    ensures
        best_value(v, moves, depth, ply, i, x) <= a <==> best_value(v, moves, depth, ply, i, y) <= a,
        best_value(v, moves, depth, ply, i, x) > a ==> best_value(v, moves, depth, ply, i, x) == best_value(
            v,
            moves,
            depth,
            ply,
            i,
            y,
        ),
    decreases moves.len() - i,
{
    if !(depth <= 0 || i >= moves.len() || i < 0) {
        match child(v, moves[i]) {
            None => lemma_best_value_start(v, moves, depth, ply, i + 1, x, y, a),
            Some(n) => {
                let score = -minimax(n, depth - 1, ply + 1);
                if score <= a {
                    lemma_best_value_start(
                        v,
                        moves,
                        depth,
                        ply,
                        i + 1,
                        if score > x { score } else { x },
                        if score > y { score } else { y },
                        a,
                    );
                }
            },
        }
    }
}

/// The pruned search over `moves[i..]` never reports less than `best`.
proof fn lemma_moves_value_at_least_best(
    v: ChessView,
    moves: Seq<Move>,
    depth: int,
    alpha: int,
    beta: int,
    ply: int,
    i: int,
    best: int,
)
    ensures
        moves_value(v, moves, depth, alpha, beta, ply, i, best) >= best,
    decreases moves.len() - i,
{
    if !(depth <= 0 || i >= moves.len() || i < 0) {
        match child(v, moves[i]) {
            None => lemma_moves_value_at_least_best(v, moves, depth, alpha, beta, ply, i + 1, best),
            Some(n) => {
                let score = -negamax(n, depth - 1, -beta, -alpha, ply + 1);
                let best2 = if score > best { score } else { best };
                let alpha2 = if score > alpha { score } else { alpha };
                if alpha2 < beta {
                    lemma_moves_value_at_least_best(v, moves, depth, alpha2, beta, ply, i + 1, best2);
                }
            },
        }
    }
}

/// Alpha-beta pruning computes the minimax value: for a window
/// `alpha < beta` within `[-MATE_SCORE, MATE_SCORE]`, [`negamax`] equals
/// [`minimax`] when that value lies strictly inside the window, is at most
/// `alpha` when the value is, and at least `beta` when the value is.
pub proof fn lemma_alpha_beta_is_minimax(v: ChessView, depth: int, alpha: int, beta: int, ply: int)
    requires
        -MATE_SCORE <= alpha < beta <= MATE_SCORE,
    ensures
        alpha < minimax(v, depth, ply) < beta ==> negamax(v, depth, alpha, beta, ply) == minimax(v, depth, ply),
        minimax(v, depth, ply) <= alpha ==> negamax(v, depth, alpha, beta, ply) <= alpha,
        minimax(v, depth, ply) >= beta ==> negamax(v, depth, alpha, beta, ply) >= beta,
    decreases depth, 1int, 0int,
{
    if status_of(v) == GameStatus::Ongoing && depth > 0 && ordered_moves(v).len() > 0 {
        lemma_moves_value_is_best_value(v, ordered_moves(v), depth, alpha, beta, ply, 0, -MATE_SCORE as int);
    }
}

/// The pruned search over `moves[i..]` against the plain best value (see
/// [`lemma_alpha_beta_is_minimax`]), when `best` is at most `alpha`.
proof fn lemma_moves_value_is_best_value(
    v: ChessView,
    moves: Seq<Move>,
    depth: int,
    alpha: int,
    beta: int,
    ply: int,
    i: int,
    best: int,
)
    requires
        -MATE_SCORE <= alpha < beta <= MATE_SCORE,
        best <= alpha,
        depth >= 1,
    ensures
        ({
            let r = moves_value(v, moves, depth, alpha, beta, ply, i, best);
            let b = best_value(v, moves, depth, ply, i, best);
            &&& alpha < b < beta ==> r == b
            &&& b <= alpha ==> r <= alpha
            &&& b >= beta ==> r >= beta
        }),
    decreases depth, 0int, moves.len() - i,
{
    if !(i >= moves.len() || i < 0) {
        match child(v, moves[i]) {
            None => lemma_moves_value_is_best_value(v, moves, depth, alpha, beta, ply, i + 1, best),
            Some(n) => {
                lemma_alpha_beta_is_minimax(n, depth - 1, -beta, -alpha, ply + 1);
                let c = -minimax(n, depth - 1, ply + 1);
                let s = -negamax(n, depth - 1, -beta, -alpha, ply + 1);
                let best2 = if s > best { s } else { best };
                let alpha2 = if s > alpha { s } else { alpha };
                let bc = if c > best { c } else { best };
                if alpha2 >= beta {
                    lemma_best_value_ge(v, moves, depth, ply, i + 1, bc);
                } else if c <= alpha {
                    lemma_moves_value_is_best_value(v, moves, depth, alpha, beta, ply, i + 1, best2);
                    lemma_best_value_start(v, moves, depth, ply, i + 1, bc, best2, alpha);
                } else {
                    lemma_moves_value_is_best_value(v, moves, depth, alpha2, beta, ply, i + 1, best2);
                    lemma_moves_value_at_least_best(v, moves, depth, alpha2, beta, ply, i + 1, best2);
                    lemma_best_value_ge(v, moves, depth, ply, i + 1, bc);
                }
            },
        }
    }
}

/// The plain best value over `moves[i..]` is at least its starting value.
proof fn lemma_best_value_ge(v: ChessView, moves: Seq<Move>, depth: int, ply: int, i: int, best: int)
    ensures
        best_value(v, moves, depth, ply, i, best) >= best,
    decreases moves.len() - i,
{
    if !(depth <= 0 || i >= moves.len() || i < 0) {
        match child(v, moves[i]) {
            None => lemma_best_value_ge(v, moves, depth, ply, i + 1, best),
            Some(n) => {
                let score = -minimax(n, depth - 1, ply + 1);
                lemma_best_value_ge(v, moves, depth, ply, i + 1, if score > best { score } else { best });
            },
        }
    }
}

impl Engine {
    /// Creates a deterministic full-strength engine fixed to one depth.
    pub fn new(max_depth: u8) -> (r: Self)
        ensures
            r.config() == normalized(
                EngineConfig {
                    strength: 10,
                    min_depth: if max_depth < 1 { 1 } else { max_depth },
                    max_depth: if max_depth < 1 { 1 } else { max_depth },
                    min_think_time: 0,
                    max_think_time: 60_000,
                },
            ),
    {
        let d = if max_depth < 1 {
            1
        } else {
            max_depth
        };
        Self::with_config(
            EngineConfig {
                strength: 10,
                min_depth: d,
                max_depth: d,
                min_think_time: 0,
                max_think_time: 60_000,
            },
        )
    }

    /// The configuration in use.
    pub closed spec fn config(&self) -> EngineConfig {
        self.config
    }

    /// Creates an engine from user-provided config.
    ///
    /// Values are normalized to safe ranges (depth/time/strength clamps).
    pub fn with_config(config: EngineConfig) -> (r: Self)
        ensures
            r.config() == normalized(config),
            config_ok(r.config()),
    {
        let mut cfg = config;
        cfg.strength = if cfg.strength < 1 {
            1
        } else if cfg.strength > 10 {
            10
        } else {
            cfg.strength
        };
        cfg.min_depth = if cfg.min_depth < 1 {
            1
        } else {
            cfg.min_depth
        };
        cfg.max_depth = if cfg.max_depth < cfg.min_depth {
            cfg.min_depth
        } else {
            cfg.max_depth
        };
        cfg.max_think_time = if cfg.max_think_time < 1 {
            1
        } else {
            cfg.max_think_time
        };
        cfg.min_think_time = if cfg.min_think_time > cfg.max_think_time {
            cfg.max_think_time
        } else {
            cfg.min_think_time
        };
        Self { config: cfg }
    }

    /// The minimum think time of the configuration in use, in milliseconds
    /// (waiting it out after a search is left to the caller).
    pub fn min_think_time(&self) -> (r: u64)
        ensures
            r == self.config().min_think_time,
    {
        self.config.min_think_time
    }

    /// The maximum search depth of the configuration in use, in plies.
    pub fn max_depth(&self) -> (r: u8)
        ensures
            r == self.config().max_depth,
    {
        self.config.max_depth
    }

    /// Returns a static position evaluation in centipawns from White's perspective.
    pub fn evaluate_position(&self, game: &Chess) -> (r: i32)
        ensures
            r == evaluation(game@.board),
    {
        evaluate_for_white(game)
    }

    fn search(
        &self,
        game: &Chess,
        depth: u8,
        alpha: i32,
        beta: i32,
        ply: i32,
        deadline: &Option<Instant>,
        enforce_deadline: bool,
        nodes: &mut u64,
    ) -> (r: SearchResult)
        requires
            -200_000 <= alpha <= 200_000,
            -200_000 <= beta <= 200_000,
            0 <= ply,
            ply + depth <= 1000,
            game@.fullmove_number + depth < u32::MAX,
        ensures
            match r {
                SearchResult::Score(s) => s == negamax(game@, depth as int, alpha as int, beta as int, ply as int)
                    && -200_000 <= s <= 200_000 && (-MATE_SCORE <= alpha < beta <= MATE_SCORE && alpha
                    < minimax(game@, depth as int, ply as int) < beta ==> s == minimax(
                    game@,
                    depth as int,
                    ply as int,
                )),
                SearchResult::Timeout => enforce_deadline && deadline is Some,
            },
            status_of(game@) != GameStatus::Ongoing || depth == 0 ==> *final(nodes) == (if *old(nodes)
                == u64::MAX {
                0
            } else {
                *old(nodes) + 1
            }),
        decreases depth,
    {
        proof {
            if -MATE_SCORE <= alpha < beta <= MATE_SCORE {
                lemma_alpha_beta_is_minimax(game@, depth as int, alpha as int, beta as int, ply as int);
            }
        }
        *nodes = nodes.wrapping_add(1);
        if enforce_deadline && (*nodes & 1023 == 0) && timed_out(deadline) {
            return SearchResult::Timeout;
        }
        match game.status() {
            GameStatus::Checkmate { .. } => return SearchResult::Score(-MATE_SCORE + ply),
            GameStatus::Stalemate | GameStatus::DrawFiftyMove | GameStatus::DrawThreefoldRepetition
            | GameStatus::DrawInsufficientMaterial => return SearchResult::Score(0),
            GameStatus::Ongoing => {},
        }
        if depth == 0 {
            return SearchResult::Score(eval_for_side_to_move(game));
        }
        let mut moves = game.legal_moves_for_turn();
        if moves.len() == 0 {
            return SearchResult::Score(eval_for_side_to_move(game));
        }
        proof {
            game.lemma_legal_moves_on_board();
        }
        order_moves(game, &mut moves);
        let ghost ms = moves@;
        let ghost alpha0 = alpha;
        let mut alpha = alpha;
        let mut best: i32 = -MATE_SCORE;
        let mut i: usize = 0;
        while i < moves.len()
            invariant_except_break
                negamax(game@, depth as int, alpha0 as int, beta as int, ply as int) == moves_value(
                    game@,
                    ms,
                    depth as int,
                    alpha as int,
                    beta as int,
                    ply as int,
                    i as int,
                    best as int,
                ),
            invariant
                0 <= i <= ms.len(),
                ms == moves@,
                ms == ordered_moves(game@),
                depth >= 1,
                status_of(game@) == GameStatus::Ongoing,
                -200_000 <= alpha <= 200_000,
                -200_000 <= beta <= 200_000,
                -200_000 <= best <= 200_000,
                0 <= ply,
                ply + depth <= 1000,
                game@.fullmove_number + depth < u32::MAX,
            ensures
                negamax(game@, depth as int, alpha0 as int, beta as int, ply as int) == best as int,
            decreases ms.len() - i,
        {
            if enforce_deadline && (*nodes & 255 == 0) && timed_out(deadline) {
                return SearchResult::Timeout;
            }
            let mv = moves[i];
            let mut next = game.clone();
            proof {
                lemma_ongoing_clocks(game@);
            }
            match next.try_make_move(mv) {
                Ok(()) => {},
                Err(_) => {
                    i += 1;
                    continue;
                },
            }
            let score = match self.search(
                &next,
                depth - 1,
                -beta,
                -alpha,
                ply + 1,
                deadline,
                enforce_deadline,
                nodes,
            ) {
                SearchResult::Score(score) => -score,
                SearchResult::Timeout => return SearchResult::Timeout,
            };
            if score > best {
                best = score;
            }
            if score > alpha {
                alpha = score;
            }
            if alpha >= beta {
                break;
            }
            i += 1;
        }
        SearchResult::Score(best)
    }
}

pub proof fn lemma_ongoing_clocks(v: ChessView)
    requires
        status_of(v) == GameStatus::Ongoing,
        v.fullmove_number < u32::MAX,
    ensures
        crate::game::clocks_ok(v),
{
}

/// Scores of the root moves `moves[i..]` at `depth`, in order, with running
/// `alpha`; the list stops after a move whose score reaches `MATE_SCORE`.
pub open spec fn root_scores(v: ChessView, moves: Seq<Move>, depth: int, i: int, alpha: int) -> Seq<
    (Move, i32),
>
    decreases moves.len() - i,
{
    if i >= moves.len() || i < 0 {
        seq![]
    } else {
        match child(v, moves[i]) {
            None => root_scores(v, moves, depth, i + 1, alpha),
            Some(n) => {
                let d = if depth >= 1 {
                    depth - 1
                } else {
                    0
                };
                let score = -negamax(n, d, -MATE_SCORE as int, -alpha, 1);
                let alpha2 = if score > alpha {
                    score
                } else {
                    alpha
                };
                if alpha2 >= MATE_SCORE {
                    seq![(moves[i], score as i32)]
                } else {
                    seq![(moves[i], score as i32)] + root_scores(v, moves, depth, i + 1, alpha2)
                }
            },
        }
    }
}

/// The move (and its score) chosen at the root for a search of `depth`:
/// among the scored root moves sorted by descending score, the one
/// [`selected`] for `strength`.
pub open spec fn root_choice(v: ChessView, moves: Seq<Move>, depth: int, strength: u8) -> Option<
    (Move, i32),
> {
    let sc = root_scores(v, moves, depth, 0, -MATE_SCORE as int);
    if sc.len() == 0 {
        None
    } else {
        Some(selected(sort_desc(sc), strength))
    }
}

/// A score of the side `turn` seen from White's side.
pub open spec fn white_score(turn: crate::game::Color, score: int) -> int {
    match turn {
        crate::game::Color::White => score,
        crate::game::Color::Black => -score,
    }
}

/// The smallest depth that is always searched to completion.
pub open spec fn required_depth(c: EngineConfig) -> int {
    let m = if c.min_depth < c.max_depth {
        c.min_depth as int
    } else {
        c.max_depth as int
    };
    if m < 1 {
        1
    } else {
        m
    }
}

pub proof fn lemma_root_scores_moves(v: ChessView, moves: Seq<Move>, depth: int, i: int, alpha: int)
    ensures
        forall|j: int| 0 <= j < root_scores(v, moves, depth, i, alpha).len() ==> moves.contains(
            (#[trigger] root_scores(v, moves, depth, i, alpha)[j]).0,
        ),
    decreases moves.len() - i,
{
    let r = root_scores(v, moves, depth, i, alpha);
    if 0 <= i < moves.len() {
        assert(moves.contains(moves[i]));
        match child(v, moves[i]) {
            None => {
                lemma_root_scores_moves(v, moves, depth, i + 1, alpha);
                assert(r == root_scores(v, moves, depth, i + 1, alpha));
            },
            Some(n) => {
                let d = if depth >= 1 {
                    depth - 1
                } else {
                    0
                };
                let score = -negamax(n, d, -MATE_SCORE as int, -alpha, 1);
                let alpha2 = if score > alpha {
                    score
                } else {
                    alpha
                };
                lemma_root_scores_moves(v, moves, depth, i + 1, alpha2);
                let t = root_scores(v, moves, depth, i + 1, alpha2);
                assert forall|j: int| 0 <= j < r.len() implies moves.contains((#[trigger] r[j]).0) by {
                    if j == 0 {
                        assert(r[0].0 == moves[i]);
                    } else {
                        assert(r[j] == t[j - 1]);
                    }
                }
            },
        }
    }
}

/// A move of `s` matched by the request `w` makes [`first_match`] find one.
pub proof fn lemma_first_match_found(s: Seq<LegalMove>, w: Move, j: int)
    requires
        0 <= j < s.len(),
        crate::game::request_ok(s[j], w, false),
    ensures
        crate::game::first_match(s, w, false) is Some,
    decreases s.len(),
{
    if j < s.len() - 1 {
        assert(s.drop_last()[j] == s[j]);
        lemma_first_match_found(s.drop_last(), w, j);
    }
}

/// Every legal move, requested as a plain move, is played.
pub proof fn lemma_legal_move_playable(v: ChessView, m: Move)
    requires
        legal_move_list(v).contains(m),
    ensures
        child(v, m) is Some,
{
    let l = legal_moves(v);
    let j = choose|j: int| 0 <= j < legal_move_list(v).len() && legal_move_list(v)[j] == m;
    assert(l[j].mv == m);
    lemma_first_match_found(l, m, j);
}

/// The search-ordered moves are the legal moves.
pub proof fn lemma_ordered_moves(v: ChessView)
    ensures
        ordered_moves(v).len() == legal_move_list(v).len(),
        forall|m: Move| ordered_moves(v).contains(m) ==> legal_move_list(v).contains(m),
{
    let l = legal_move_list(v);
    let keyed = keyed_moves(v.board, l);
    lemma_sort_len(keyed);
    let sorted = sort_desc(keyed);
    assert forall|m: Move| ordered_moves(v).contains(m) implies l.contains(m) by {
        let k = choose|k: int| 0 <= k < ordered_moves(v).len() && ordered_moves(v)[k] == m;
        assert(sorted.contains(sorted[k]));
        assert(keyed.contains(sorted[k]));
        let j = choose|j: int| 0 <= j < keyed.len() && keyed[j] == sorted[k];
        assert(l[j] == m);
    }
}

/// With a legal move available, every depth yields a root choice.
pub proof fn lemma_root_choice_some(v: ChessView, depth: int, strength: u8)
    requires
        legal_move_list(v).len() > 0,
    ensures
        root_choice(v, ordered_moves(v), depth, strength) is Some,
{
    lemma_ordered_moves(v);
    let ms = ordered_moves(v);
    assert(ms.contains(ms[0]));
    lemma_legal_move_playable(v, ms[0]);
}

pub proof fn lemma_select_from_band(s: Seq<(Move, i32)>, threshold: int, i: int, chosen: (Move, i32))
    requires
        0 <= i,
        chosen.1 >= threshold,
        forall|a: int, b: int| 0 <= a <= b < s.len() ==> s[a].1 >= s[b].1,
        i > 0 ==> i <= s.len() && chosen.1 <= s[0].1,
        i == 0 ==> s.len() > 0 && chosen == s[0],
    ensures
        threshold <= select_from(s, threshold, i, chosen).1 <= s[0].1,
    decreases s.len() - i,
{
    if i < s.len() && s[i].1 >= threshold {
        lemma_select_from_band(s, threshold, i + 1, s[i]);
    }
}

/// Playing strength: among scores sorted best first, the selected move
/// scores at most [`slack`] below the best one (at full strength, `slack` is
/// zero and the best score is played).
pub proof fn lemma_selected_within_slack(s: Seq<(Move, i32)>, strength: u8)
    requires
        s.len() > 0,
        forall|a: int, b: int| 0 <= a <= b < s.len() ==> s[a].1 >= s[b].1,
    ensures
        s[0].1 - slack(strength) <= selected(s, strength).1 <= s[0].1,
        strength >= 10 ==> selected(s, strength).1 == s[0].1,
{
    lemma_select_from_band(s, s[0].1 - slack(strength), 0, s[0]);
}

pub proof fn lemma_first_below_split(t: Seq<(Move, i32)>, key: i32)
    ensures
        forall|j: int| 0 <= j < first_below(t, key) ==> t[j].1 >= key,
        first_below(t, key) < t.len() ==> t[first_below(t, key)].1 < key,
    decreases t.len(),
{
    lemma_first_below_range(t, key);
    if t.len() > 0 && t[0].1 >= key {
        lemma_first_below_split(t.drop_first(), key);
        lemma_first_below_range(t.drop_first(), key);
        assert forall|j: int| 0 <= j < first_below(t, key) implies t[j].1 >= key by {
            if j > 0 {
                assert(t[j] == t.drop_first()[j - 1]);
            }
        }
        if first_below(t, key) < t.len() {
            assert(t[first_below(t, key)] == t.drop_first()[first_below(t, key) - 1]);
        }
    }
}

/// [`sort_desc`] orders by descending key.
pub proof fn lemma_sort_desc_sorted(s: Seq<(Move, i32)>)
    ensures
        forall|a: int, b: int| 0 <= a <= b < sort_desc(s).len() ==> sort_desc(s)[a].1 >= sort_desc(s)[b].1,
    decreases s.len(),
{
    if s.len() > 0 {
        let t = sort_desc(s.drop_last());
        lemma_sort_desc_sorted(s.drop_last());
        lemma_sort_len(s.drop_last());
        let x = s.last();
        let p = first_below(t, x.1);
        lemma_first_below_range(t, x.1);
        lemma_first_below_split(t, x.1);
        let u = t.insert(p, x);
        assert forall|a: int, b: int| 0 <= a <= b < u.len() implies u[a].1 >= u[b].1 by {
            let ka = if a < p { t[a].1 } else if a == p { x.1 } else { t[a - 1].1 };
            let kb = if b < p { t[b].1 } else if b == p { x.1 } else { t[b - 1].1 };
            assert(u[a].1 == ka);
            assert(u[b].1 == kb);
            if a < p && b > p {
                assert(t[a].1 >= t[p].1);
                assert(t[p].1 >= t[b - 1].1);
            }
            if a == p && b > p {
                assert(t[p].1 >= t[b - 1].1);
            }
        }
    }
}

/// Playing strength at the root: no scored root move is worth more than
/// [`slack`] above the chosen one.
pub proof fn lemma_root_choice_band(v: ChessView, depth: int, strength: u8)
    ensures
        root_choice(v, ordered_moves(v), depth, strength) matches Some(p) ==> forall|j: int|
            0 <= j < root_scores(v, ordered_moves(v), depth, 0, -MATE_SCORE as int).len() ==> (#[trigger] root_scores(
                v,
                ordered_moves(v),
                depth,
                0,
                -MATE_SCORE as int,
            )[j]).1 <= p.1 + slack(strength),
{
    let sc = root_scores(v, ordered_moves(v), depth, 0, -MATE_SCORE as int);
    if sc.len() > 0 {
        let sorted = sort_desc(sc);
        lemma_sort_len(sc);
        lemma_sort_desc_sorted(sc);
        lemma_selected_within_slack(sorted, strength);
        assert forall|j: int| 0 <= j < sc.len() implies (#[trigger] sc[j]).1 <= selected(sorted, strength).1
            + slack(strength) by {
            assert(sc.contains(sc[j]));
            assert(sorted.contains(sc[j]));
            let k = choose|k: int| 0 <= k < sorted.len() && sorted[k] == sc[j];
            assert(sorted[0].1 >= sorted[k].1);
        }
    }
}

/// An engine made by `Engine::new` always searches to its one depth: its
/// required depth is its maximum depth.
pub proof fn lemma_new_engine_fixed_depth(max_depth: u8)
    ensures
        ({
            let d: u8 = if max_depth < 1 { 1 } else { max_depth };
            let c = normalized(
                EngineConfig {
                    strength: 10,
                    min_depth: d,
                    max_depth: d,
                    min_think_time: 0,
                    max_think_time: 60_000,
                },
            );
            required_depth(c) == c.max_depth && c.max_depth == d && c.strength == 10
        }),
{
}

/// With the required depth equal to the maximum depth, the move and score
/// that `Engine::best_move` may return are the root choice at that depth:
/// the search is deterministic.
pub proof fn lemma_fixed_depth_deterministic(c: EngineConfig, v: ChessView, p: (Move, i32))
    requires
        required_depth(c) == c.max_depth,
        exists|d: int|
            required_depth(c) <= d <= c.max_depth && (#[trigger] root_choice(v, ordered_moves(v), d, c.strength)
                matches Some(q) && q.0 == p.0 && p.1 == white_score(v.turn, q.1 as int)),
    ensures
        root_choice(v, ordered_moves(v), c.max_depth as int, c.strength) matches Some(q) && q.0 == p.0 && p.1
            == white_score(v.turn, q.1 as int),
{
}

/// Whatever the depth and strength, the root choice is a legal move of the side to move.
pub proof fn lemma_root_choice_legal(v: ChessView, depth: int, strength: u8)
    ensures
        root_choice(v, ordered_moves(v), depth, strength) matches Some(p) ==> legal_move_list(v).contains(p.0),
{
    let ms = ordered_moves(v);
    let sc = root_scores(v, ms, depth, 0, -MATE_SCORE as int);
    if sc.len() > 0 {
        lemma_root_scores_moves(v, ms, depth, 0, -MATE_SCORE as int);
        lemma_ordered_moves(v);
        lemma_sort_len(sc);
        let sorted = sort_desc(sc);
        assert(sorted.contains(sorted[0]));
        lemma_select_in(sorted, sorted[0].1 - slack(strength), 0, sorted[0]);
        let p = selected(sorted, strength);
        assert(sc.contains(p));
        let j = choose|j: int| 0 <= j < sc.len() && sc[j] == p;
        assert(ms.contains(sc[j].0));
    }
}

impl Engine {
    fn search_root(
        &self,
        game: &Chess,
        root_moves: &Vec<Move>,
        depth: u8,
        deadline: &Option<Instant>,
        enforce_deadline: bool,
    ) -> (r: Option<(Move, i32)>)
        requires
            crate::game::clocks_ok(game@),
            game@.fullmove_number + depth + 1 < u32::MAX,
        ensures
            !enforce_deadline ==> r == root_choice(game@, root_moves@, depth as int, self.config().strength),
            r is Some ==> r == root_choice(game@, root_moves@, depth as int, self.config().strength),
            r matches Some(p) ==> -200_000 <= p.1 <= 200_000,
    {
        let ghost v = game@;
        let ghost ms = root_moves@;
        let mut alpha: i32 = -MATE_SCORE;
        let beta: i32 = MATE_SCORE;
        let mut scored: Vec<(Move, i32)> = Vec::new();
        let mut nodes: u64 = 0;
        let mut i: usize = 0;
        while i < root_moves.len()
            invariant_except_break
                scored@ + root_scores(v, ms, depth as int, i as int, alpha as int) == root_scores(
                    v,
                    ms,
                    depth as int,
                    0,
                    -MATE_SCORE as int,
                ),
                alpha < beta,
            invariant
                0 <= i <= ms.len(),
                v == game@,
                ms == root_moves@,
                beta == MATE_SCORE,
                -200_000 <= alpha <= 200_000,
                forall|k: int| 0 <= k < scored@.len() ==> -200_000 <= #[trigger] scored@[k].1 <= 200_000,
                crate::game::clocks_ok(game@),
                game@.fullmove_number + depth + 1 < u32::MAX,
            ensures
                scored@ == root_scores(v, ms, depth as int, 0, -MATE_SCORE as int),
                forall|k: int| 0 <= k < scored@.len() ==> -200_000 <= #[trigger] scored@[k].1 <= 200_000,
            decreases ms.len() - i,
        {
            if enforce_deadline && timed_out(deadline) {
                return None;
            }
            let mv = root_moves[i];
            let mut next = game.clone();
            match next.try_make_move(mv) {
                Ok(()) => {},
                Err(_) => {
                    i += 1;
                    continue;
                },
            }
            let d = if depth >= 1 {
                depth - 1
            } else {
                0
            };
            let score = match self.search(&next, d, -beta, -alpha, 1, deadline, enforce_deadline, &mut nodes) {
                SearchResult::Score(score) => -score,
                SearchResult::Timeout => return None,
            };
            let ghost prev = scored@;
            scored.push((mv, score));
            if score > alpha {
                alpha = score;
            }
            if alpha >= beta {
                break;
            }
            assert(scored@ + root_scores(v, ms, depth as int, i + 1, alpha as int) == prev + (seq![(mv, score)] + root_scores(v, ms, depth as int, i + 1, alpha as int)));
            i += 1;
        }
        if scored.len() == 0 {
            return None;
        }
        proof {
            lemma_sort_len(scored@);
        }
        let sorted = sort_by_key_desc(&scored);
        proof {
            assert forall|k: int| 0 <= k < sorted@.len() implies -200_000 <= #[trigger] sorted@[k].1 <= 200_000 by {
                assert(sorted@.contains(sorted@[k]));
                assert(scored@.contains(sorted@[k]));
                let j = choose|j: int| 0 <= j < scored@.len() && scored@[j] == sorted@[k];
                assert(-200_000 <= scored@[j].1 <= 200_000);
            }
        }
        let chosen = select_move_by_strength(&sorted, self.config.strength);
        proof {
            assert(sorted@.contains(sorted@[0]));
            lemma_select_in(sorted@, sorted@[0].1 - slack(self.config.strength), 0, sorted@[0]);
            let k = choose|k: int| 0 <= k < sorted@.len() && sorted@[k] == chosen;
            assert(-200_000 <= sorted@[k].1 <= 200_000);
        }
        Some(chosen)
    }

    /// Finds a move via iterative deepening within configured depth/time
    /// constraints. Depths up to the required depth are always completed;
    /// deeper iterations stop at the maximum depth or when the think time
    /// runs out. The reported time is at least the minimum think time: a
    /// search that ends earlier reports the minimum, which the caller waits
    /// out before playing the move.
    pub fn best_move_timed(&self, game: &Chess) -> (r: Option<EngineMove>)
        requires
            crate::game::clocks_ok(game@),
            game@.fullmove_number + self.config().max_depth + 1 < u32::MAX,
        ensures
            r is None <==> legal_move_list(game@).len() == 0,
            r matches Some(em) ==> required_depth(self.config()) <= em.depth_reached <= self.config().max_depth
                && (root_choice(game@, ordered_moves(game@), em.depth_reached as int, self.config().strength)
                matches Some(p) && p.0 == em.mv && em.eval == white_score(game@.turn, p.1 as int)),
            r matches Some(em) ==> legal_move_list(game@).contains(em.mv),
            r matches Some(em) ==> em.elapsed >= self.config().min_think_time,
    {
        let ghost v = game@;
        proof {
            use_type_invariant(self);
        }
        let mut root_moves = game.legal_moves_for_turn();
        if root_moves.len() == 0 {
            return None;
        }
        proof {
            game.lemma_legal_moves_on_board();
        }
        order_moves(game, &mut root_moves);
        let start = clock_now();
        let deadline = instant_after(&start, self.config.max_think_time);
        let m = if self.config.min_depth < self.config.max_depth {
            self.config.min_depth
        } else {
            self.config.max_depth
        };
        let required: u8 = if m < 1 {
            1
        } else {
            m
        };
        let max_depth = self.config.max_depth;
        let mut best_completed: Option<(Move, i32, u8)> = None;
        let mut depth: u16 = 1;
        while depth <= max_depth as u16
            invariant_except_break
                best_completed matches Some((mv, ev, d)) ==> d + 1 == depth,
                depth as int - 1 < required ==> (best_completed is None || (best_completed matches Some((mv, ev, d)) && d + 1 == depth)),
            invariant
                1 <= depth <= max_depth as u16 + 1,
                v == game@,
                root_moves@ == ordered_moves(v),
                root_moves@.len() > 0,
                crate::game::clocks_ok(game@),
                game@.fullmove_number + max_depth + 1 < u32::MAX,
                max_depth == self.config().max_depth,
                required as int == required_depth(self.config()),
                1 <= required <= max_depth,
                legal_move_list(v).len() > 0,
                best_completed is None ==> depth == 1,
                best_completed matches Some((mv, ev, d)) ==> 1 <= d <= max_depth && (d >= required
                    || d + 1 == depth) && root_choice(v, ordered_moves(v), d as int, self.config().strength)
                    == Some((mv, ev)) && -200_000 <= ev <= 200_000,
            ensures
                best_completed matches Some((mv, ev, d)) && required <= d <= max_depth
                    && root_choice(v, ordered_moves(v), d as int, self.config().strength) == Some((mv, ev))
                    && -200_000 <= ev <= 200_000,
            decreases max_depth as u16 + 1 - depth,
        {
            let d = depth as u8;
            proof {
                lemma_root_choice_some(v, d as int, self.config().strength);
            }
            let enforce_deadline = d > required;
            if d > required && timed_out(&deadline) {
                break;
            }
            let search = self.search_root(game, &root_moves, d, &deadline, enforce_deadline);
            let (best_mv, best_eval) = match search {
                Some(x) => x,
                None => break,
            };
            best_completed = Some((best_mv, best_eval, d));
            if d >= required && timed_out(&deadline) {
                break;
            }
            depth += 1;
        }
        let (mv, eval, depth_reached) = match best_completed {
            Some(x) => x,
            None => return None,
        };
        proof {
            lemma_root_choice_legal(v, depth_reached as int, self.config().strength);
        }
        let white_eval = match game.current_turn() {
            crate::game::Color::White => eval,
            crate::game::Color::Black => -eval,
        };
        let spent = elapsed_millis(&start);
        let elapsed = if spent < self.config.min_think_time {
            self.config.min_think_time
        } else {
            spent
        };
        Some(EngineMove { mv, eval: white_eval, depth_reached, elapsed })
    }

    /// Finds the best move and evaluation, without timing metadata.
    pub fn best_move(&self, game: &Chess) -> (r: Option<(Move, i32)>)
        requires
            crate::game::clocks_ok(game@),
            game@.fullmove_number + self.config().max_depth + 1 < u32::MAX,
        ensures
            r is None <==> legal_move_list(game@).len() == 0,
            r matches Some(p) ==> exists|d: int|
                required_depth(self.config()) <= d <= self.config().max_depth
                && (#[trigger] root_choice(game@, ordered_moves(game@), d, self.config().strength) matches Some(q)
                && q.0 == p.0 && p.1 == white_score(game@.turn, q.1 as int)),
            r matches Some(p) ==> legal_move_list(game@).contains(p.0),
    {
        match self.best_move_timed(game) {
            Some(res) => Some((res.mv, res.eval)),
            None => None,
        }
    }
}

} // verus!
