use chess::engine::eval::material_value;
use chess::engine::{Engine, EngineConfig};
use chess::game::board::file_rank_to_idx;
use chess::game::{Chess, Color, GameStatus, Move, PieceKind};

#[test]
fn eval_prefers_extra_queen() {
    let winning = Chess::from_fen("4k3/8/8/8/8/8/8/3QK3 w - - 0 1").expect("valid");
    let equal = Chess::from_fen("4k3/8/8/8/8/8/8/4K3 w - - 0 1").expect("valid");
    let engine = Engine::new(2);
    assert!(engine.evaluate_position(&winning) > engine.evaluate_position(&equal));
}

#[test]
fn finds_mate_in_one() {
    let game = Chess::from_fen("7k/8/5KQ1/8/8/8/8/8 w - - 0 1").expect("valid");
    let engine = Engine::new(2);
    let (best, _) = engine.best_move(&game).expect("best move");
    let mut after = game.clone();
    after.try_make_move(best).expect("best move must be legal");
    assert_eq!(
        after.status(),
        GameStatus::Checkmate {
            winner: Color::White
        }
    );
}

// ---------------------------------------------------------------------------
// Further scenarios
// ---------------------------------------------------------------------------

#[test]
fn no_move_when_game_is_over() {
    let mated = Chess::from_fen("7k/5Q2/6K1/8/8/8/8/8 b - - 0 1").unwrap();
    let engine = Engine::new(2);
    assert!(engine.best_move(&mated).is_none());
    assert!(engine.best_move_timed(&mated).is_none());
}

#[test]
fn chosen_move_is_legal() {
    let game = Chess::new();
    let engine = Engine::with_config(EngineConfig {
        strength: 3,
        min_depth: 1,
        max_depth: 2,
        min_think_time: 0,
        max_think_time: 10_000,
    });
    let result = engine.best_move_timed(&game).expect("a move");
    assert!(game.legal_moves_for_turn().contains(&result.mv));
    assert!(result.depth_reached >= 1 && result.depth_reached <= 2);
}

#[test]
fn engine_takes_a_hanging_queen() {
    let game = Chess::from_fen("4k3/8/8/3q4/8/8/8/3RK3 w - - 0 1").unwrap();
    let engine = Engine::new(1);
    let (best, score) = engine.best_move(&game).unwrap();
    assert_eq!(
        best,
        Move { from: file_rank_to_idx(3, 0), to: file_rank_to_idx(3, 4), promotion: None }
    );
    assert!(score > 0);
}

#[test]
fn start_position_evaluation() {
    // Everything cancels out but the king-centre distance term of king
    // safety: 2 * 4 for White's king on e1, 2 * 5 for Black's on e8.
    let engine = Engine::new(1);
    assert_eq!(engine.evaluate_position(&Chess::new()), -2);
}

#[test]
fn evaluation_is_from_whites_side() {
    let engine = Engine::new(1);
    let white_up = Chess::from_fen("4k3/8/8/8/8/8/8/R3K3 w - - 0 1").unwrap();
    let black_up = Chess::from_fen("r3k3/8/8/8/8/8/8/4K3 w - - 0 1").unwrap();
    assert!(engine.evaluate_position(&white_up) > 0);
    assert!(engine.evaluate_position(&black_up) < 0);
}

#[test]
fn material_values() {
    assert_eq!(material_value(PieceKind::Pawn), 100);
    assert_eq!(material_value(PieceKind::Knight), 320);
    assert_eq!(material_value(PieceKind::Bishop), 330);
    assert_eq!(material_value(PieceKind::Rook), 500);
    assert_eq!(material_value(PieceKind::Queen), 900);
    assert_eq!(material_value(PieceKind::King), 0);
}

#[test]
fn default_config_values() {
    let c = EngineConfig::default();
    assert_eq!(c.strength, 8);
    assert_eq!(c.min_depth, 2);
    assert_eq!(c.max_depth, 4);
    assert_eq!(c.min_think_time, 150);
    assert_eq!(c.max_think_time, 1_500);
}

#[test]
fn think_time_limits_depth() {
    let engine = Engine::with_config(EngineConfig {
        strength: 10,
        min_depth: 1,
        max_depth: 12,
        min_think_time: 0,
        max_think_time: 1,
    });
    let result = engine.best_move_timed(&Chess::new()).expect("a move");
    assert!(result.depth_reached >= 1 && result.depth_reached < 12);
    assert!(Chess::new().legal_moves_for_turn().contains(&result.mv));
}

#[test]
fn config_is_normalized() {
    let engine = Engine::with_config(EngineConfig {
        strength: 0,
        min_depth: 0,
        max_depth: 0,
        min_think_time: 5_000,
        max_think_time: 0,
    });
    assert_eq!(engine.min_think_time(), 1);
    let engine = Engine::with_config(EngineConfig::default());
    assert_eq!(engine.min_think_time(), 150);
    assert_eq!(Engine::new(3).min_think_time(), 0);
}

#[test]
fn fixed_depth_engine_is_deterministic() {
    let game = Chess::from_fen("r1bqkbnr/pppp1ppp/2n5/4p3/4P3/5N2/PPPP1PPP/RNBQKB1R w KQkq - 2 3").unwrap();
    let engine = Engine::new(2);
    let first = engine.best_move(&game).unwrap();
    let second = engine.best_move(&game).unwrap();
    assert_eq!(first, second);
}

#[test]
fn weak_engine_stays_within_its_band() {
    // A free queen is worth far more than the slack of the weakest setting.
    let game = Chess::from_fen("4k3/8/8/3q4/8/8/8/3RK3 w - - 0 1").unwrap();
    let engine = Engine::with_config(EngineConfig {
        strength: 1,
        min_depth: 1,
        max_depth: 1,
        min_think_time: 0,
        max_think_time: 60_000,
    });
    let (best, _) = engine.best_move(&game).unwrap();
    assert_eq!(best, Move { from: file_rank_to_idx(3, 0), to: file_rank_to_idx(3, 4), promotion: None });
}

#[test]
fn evaluation_of_best_move_is_from_whites_side() {
    let game = Chess::from_fen("3rk3/8/8/8/3Q4/8/8/4K3 b - - 0 1").unwrap();
    let engine = Engine::new(1);
    let (best, score) = engine.best_move(&game).unwrap();
    assert_eq!(best, Move { from: file_rank_to_idx(3, 7), to: file_rank_to_idx(3, 3), promotion: None });
    assert!(score < 0);
}

#[test]
fn reported_think_time_covers_the_minimum() {
    let engine = Engine::with_config(EngineConfig {
        strength: 10,
        min_depth: 1,
        max_depth: 1,
        min_think_time: 400,
        max_think_time: 1_000,
    });
    assert_eq!(engine.max_depth(), 1);
    let result = engine.best_move_timed(&Chess::new()).expect("a move");
    assert!(result.elapsed >= 400);
    assert_eq!(result.depth_reached, 1);
}
