use honeycomb::board::{Board, Color, Move, Piece, BLACK_KINGSIDE, WHITE_QUEENSIDE};
use honeycomb::eval::{evaluate, piece_value};
use honeycomb::search::{
    alpha_beta, find_best_move, find_best_move_with_info, nodes_per_second, CallbackReporter,
    Elapsed, SearchContext, SearchInfo,
};
use honeycomb::uci::{
    go_depth, go_time_limit, go_time_limit_checked, move_to_uci, parse_move, position_startpos,
    promotion, read_command, square, uci_step, Action, Command,
};
use honeycomb::zobrist::{
    castling_key, en_passant_key, piece_key, side_key, ZobristRandoms,
};
use std::time::{Duration, Instant};

fn splitmix_outputs(seed: u64, count: usize) -> Vec<u64> {
    let mut state = seed;
    let mut out = Vec::new();
    for _ in 0..count {
        state = state.wrapping_add(0x9E3779B97F4A7C15);
        let mut z = state;
        z = (z ^ (z >> 30)).wrapping_mul(0xBF58476D1CE4E5B9);
        z = (z ^ (z >> 27)).wrapping_mul(0x94D049BB133111EB);
        out.push(z ^ (z >> 31));
    }
    out
}

#[test]
fn placed_piece_reads_back_and_replaces_the_old_one() {
    let mut board = Board::empty();
    board.set_piece(Color::White, Piece::Knight, 27);
    assert_eq!(board.piece_at(Color::White, 27), Some(Piece::Knight));
    assert_eq!(board.piece_at(Color::Black, 27), None);
    board.set_piece(Color::Black, Piece::Queen, 27);
    assert_eq!(board.piece_at(Color::White, 27), None);
    assert_eq!(board.piece_at(Color::Black, 27), Some(Piece::Queen));
    assert_eq!(board.bitboard(Color::White, Piece::Knight), 0);
    assert_eq!(board.bitboard(Color::Black, Piece::Queen), 1u64 << 27);
}

#[test]
fn cleared_square_is_empty_for_both_colours() {
    let mut board = Board::starting_position();
    board.clear_square(4);
    board.clear_square(60);
    assert_eq!(board.piece_at(Color::White, 4), None);
    assert_eq!(board.piece_at(Color::Black, 60), None);
    assert_eq!(board.king_square(Color::White), None);
    assert_eq!(board.piece_at(Color::White, 3), Some(Piece::Queen));
}

#[test]
fn occupancy_of_the_starting_position() {
    let board = Board::starting_position();
    assert_eq!(board.occupied_by(Color::White), 0x000000000000FFFF);
    assert_eq!(board.occupied_by(Color::Black), 0xFFFF000000000000);
    assert_eq!(board.occupied_squares(), 0xFFFF00000000FFFF);
    assert_eq!(board.empty_squares(), 0x0000FFFFFFFF0000);
    assert_eq!(board.king_square(Color::White), Some(4));
    assert_eq!(board.king_square(Color::Black), Some(60));
    assert!(!board.in_check(Color::White));
    assert!(!board.is_square_attacked(35, Color::White));
    assert!(board.is_square_attacked(20, Color::White));
    assert!(board.is_square_attacked(42, Color::Black));
}

#[test]
fn opposite_swaps_colours() {
    assert_eq!(Color::White.opposite(), Color::Black);
    assert_eq!(Color::Black.opposite(), Color::White);
}

#[test]
fn perft_one_counts_legal_moves_and_keeps_the_board() {
    let mut board = Board::from_fen("r3k2r/8/8/8/8/8/8/R3K2R w KQkq - 0 1").unwrap();
    let before = board.clone();
    let legal = board.generate_legal_moves().len() as u64;
    assert_eq!(board.perft(1), legal);
    assert_eq!(board.perft(0), 1);
    assert_eq!(board, before);
}

#[test]
fn pseudo_legal_moves_never_take_the_enemy_king() {
    let board = Board::from_fen("8/8/8/3k4/4P3/8/8/4K2R w - - 0 1").unwrap();
    let pseudo = board.generate_pseudo_legal_moves();
    assert!(pseudo.iter().all(|mv| mv.to != 35));
    assert!(pseudo.contains(&Move { from: 7, to: 6, promotion: None }));
}

#[test]
fn pseudo_legal_moves_include_moves_into_check_that_legal_moves_drop() {
    let board = Board::from_fen("4k3/8/8/8/8/8/r7/4K3 w - - 0 1").unwrap();
    let pseudo = board.generate_pseudo_legal_moves();
    let legal = board.generate_legal_moves();
    let into_check = Move { from: 4, to: 12, promotion: None };
    assert!(pseudo.contains(&into_check));
    assert!(!legal.contains(&into_check));
    assert!(legal.contains(&Move { from: 4, to: 3, promotion: None }));
    assert_eq!(legal.len(), 2);
}

#[test]
fn make_move_updates_clocks_rights_and_en_passant() {
    let mut board = Board::starting_position();
    board.make_move(Move { from: 12, to: 28, promotion: None });
    assert_eq!(board.en_passant, Some(20));
    assert_eq!(board.halfmove_clock, 0);
    assert_eq!(board.fullmove_number, 1);
    assert_eq!(board.side_to_move, Color::Black);
    board.make_move(Move { from: 62, to: 45, promotion: None });
    assert_eq!(board.en_passant, None);
    assert_eq!(board.halfmove_clock, 1);
    assert_eq!(board.fullmove_number, 2);
    board.make_move(Move { from: 4, to: 12, promotion: None });
    assert_eq!(board.castling_rights, BLACK_KINGSIDE | 8);
    let mut rook_board = Board::from_fen("r3k2r/8/8/8/8/8/8/R3K2R b KQkq - 0 1").unwrap();
    rook_board.make_move(Move { from: 63, to: 7, promotion: None });
    assert_eq!(rook_board.castling_rights, WHITE_QUEENSIDE | 8);
    assert_eq!(rook_board.halfmove_clock, 0);
}

#[test]
fn fen_accepts_five_fields_and_any_whitespace() {
    let board = Board::from_fen(" 4k3/8/8/8/8/8/8/4K3\tb  Kq - 12 ").unwrap();
    assert_eq!(board.side_to_move, Color::Black);
    assert_eq!(board.castling_rights, 1 | 8);
    assert_eq!(board.halfmove_clock, 12);
    assert_eq!(board.fullmove_number, 1);
    assert!(Board::from_fen("4k3/8/8/8/8/8/8/4K3 w - - 0 1 extra").is_none());
    assert!(Board::from_fen("4k3/8/8/8/8/8/8/4K3 w - - 4294967296 1").is_none());
    assert!(Board::from_fen("4k3/8/8/8/8/8/8/4K3 w - - 4294967295 1").is_some());
    assert!(Board::from_fen("4k3/8/8/8/8/8/8/4K3 w -K - 0 1").is_none());
    assert!(Board::from_fen("44k3/8/8/8/8/8/8/4K3 w - - 0 1").is_none());
    assert!(Board::from_fen("4k12/8/8/8/8/8/8/4K3 w - - 0 1").is_some());
}

#[test]
fn evaluation_counts_material_without_kings() {
    assert_eq!(evaluate(&Board::starting_position()), 0);
    let board = Board::from_fen("4k3/pp6/8/8/8/8/8/RN2K3 w - - 0 1").unwrap();
    assert_eq!(evaluate(&board), 500 + 320 - 200);
    let board = Board::from_fen("4k3/pp6/8/8/8/8/8/RN2K3 b - - 0 1").unwrap();
    assert_eq!(evaluate(&board), -(500 + 320 - 200));
}

#[test]
fn piece_values_in_centipawns() {
    assert_eq!(piece_value(Piece::Pawn), 100);
    assert_eq!(piece_value(Piece::Knight), 320);
    assert_eq!(piece_value(Piece::Bishop), 330);
    assert_eq!(piece_value(Piece::Rook), 500);
    assert_eq!(piece_value(Piece::Queen), 900);
    assert_eq!(piece_value(Piece::King), 20_000);
}

#[test]
fn nodes_per_second_rounds_down_and_saturates() {
    assert_eq!(nodes_per_second(100, 0), 0);
    assert_eq!(nodes_per_second(100, 500_000), 200_000);
    assert_eq!(nodes_per_second(7, 3_000_000_000), 2);
    assert_eq!(nodes_per_second(u64::MAX, 1), u64::MAX);
}

#[test]
fn time_is_only_read_every_1024_nodes() {
    let mut ctx = SearchContext {
        deadline: Instant::now() - Duration::from_secs(1),
        nodes: 1023,
    };
    assert!(!ctx.is_time_up());
    ctx.nodes = 1024;
    assert!(ctx.is_time_up());
    ctx.deadline = Instant::now() + Duration::from_secs(60);
    assert!(!ctx.is_time_up());
}

#[test]
fn zobrist_keys_are_splitmix_draws_in_table_order() {
    let draws = splitmix_outputs(0x07072023, 851);
    let keys = ZobristRandoms::new();
    assert_eq!(keys.acc_piece(0, 0, 0), draws[0]);
    assert_eq!(keys.acc_piece(1, 5, 63), draws[767]);
    assert_eq!(keys.acc_castling(15), draws[783]);
    assert_eq!(keys.acc_side(0), draws[784]);
    assert_eq!(keys.acc_side(1), draws[785]);
    assert_eq!(keys.acc_en_passant(Some(0)), draws[786]);
    assert_eq!(keys.acc_en_passant(None), draws[850]);
    assert_eq!(piece_key(Color::Black, Piece::Rook, 7), draws[384 + 3 * 64 + 7]);
    assert_eq!(side_key(), draws[785]);
    assert_eq!(castling_key(3), draws[771]);
    assert_eq!(en_passant_key(20), draws[806]);
    let other = ZobristRandoms::from_seed(1);
    assert_eq!(other.acc_piece(0, 0, 0), splitmix_outputs(1, 1)[0]);
    assert_ne!(other.acc_piece(0, 0, 0), keys.acc_piece(0, 0, 0));
}

#[test]
fn zobrist_default_matches_new() {
    let a = ZobristRandoms::default();
    let b = ZobristRandoms::new();
    assert_eq!(a.pieces, b.pieces);
    assert_eq!(a.castling, b.castling);
    assert_eq!(a.side_to_move, b.side_to_move);
    assert_eq!(a.en_passant, b.en_passant);
}

#[test]
fn squares_and_promotions_in_coordinate_notation() {
    assert_eq!(square("e2"), Some(12));
    assert_eq!(square("h8"), Some(63));
    assert_eq!(square("a1"), Some(0));
    assert_eq!(square("i1"), None);
    assert_eq!(square("e9"), None);
    assert_eq!(square("e22"), None);
    assert_eq!(square("e"), None);
    assert_eq!(promotion(b'q'), Some(Piece::Queen));
    assert_eq!(promotion(b'n'), Some(Piece::Knight));
    assert_eq!(promotion(b'k'), None);
}

#[test]
fn parse_move_finds_the_named_legal_move() {
    let board = Board::starting_position();
    assert_eq!(
        parse_move(&board, "e2e4"),
        Some(Move { from: 12, to: 28, promotion: None })
    );
    assert_eq!(parse_move(&board, "e2e5"), None);
    assert_eq!(parse_move(&board, "e2"), None);
    assert_eq!(parse_move(&board, "g1f3xyz"), Some(Move { from: 6, to: 21, promotion: None }));
    let board = Board::from_fen("k7/4P3/8/8/8/8/8/4K3 w - - 0 1").unwrap();
    assert_eq!(
        parse_move(&board, "e7e8n"),
        Some(Move { from: 52, to: 60, promotion: Some(Piece::Knight) })
    );
    assert_eq!(parse_move(&board, "e7e8"), None);
}

#[test]
fn moves_are_written_in_coordinate_notation() {
    assert_eq!(move_to_uci(Move { from: 12, to: 28, promotion: None }), "e2e4");
    assert_eq!(
        move_to_uci(Move { from: 52, to: 60, promotion: Some(Piece::Queen) }),
        "e7e8q"
    );
    assert_eq!(
        move_to_uci(Move { from: 9, to: 0, promotion: Some(Piece::Rook) }),
        "b2a1r"
    );
}

#[test]
fn go_time_limit_budgets_the_side_to_move_clock() {
    let white = Board::starting_position();
    let black = Board::from_fen("4k3/8/8/8/8/8/8/4K3 b - - 0 1").unwrap();
    let fields = ["wtime", "30000", "btime", "6000", "winc", "1000", "binc", "400"];
    assert_eq!(go_time_limit(&white, &fields), 30000 / 30 + 750);
    assert_eq!(go_time_limit(&black, &fields), 6000 / 30 + 300);
    assert_eq!(go_time_limit(&white, &["depth", "3"]), 1000);
    assert_eq!(go_time_limit(&white, &["wtime", "150"]), 1);
    assert_eq!(go_time_limit(&white, &["wtime", "250", "winc", "10000"]), 50);
    assert_eq!(go_time_limit(&white, &["wtime", "0"]), 1);
    assert_eq!(go_time_limit(&white, &["wtime", "x"]), 1000);
    assert_eq!(go_time_limit_checked(&white, &["wtime", "1000", "winc", "18446744073709551615"]), None);
    assert_eq!(go_time_limit_checked(&white, &["wtime", "3000"]), Some(100));
}

#[test]
fn go_depth_reads_the_depth_field() {
    assert_eq!(go_depth(&["depth", "7"]), 7);
    assert_eq!(go_depth(&["wtime", "5", "depth", "+2"]), 2);
    assert_eq!(go_depth(&["depth"]), 64);
    assert_eq!(go_depth(&["depth", "4294967296"]), 64);
    assert_eq!(go_depth(&[]), 64);
}

#[test]
fn position_startpos_plays_moves_until_an_invalid_one() {
    let (board, invalid) = position_startpos(&["moves", "e2e4", "e7e5"]);
    let mut expected = Board::starting_position();
    expected.make_move(Move { from: 12, to: 28, promotion: None });
    expected.make_move(Move { from: 52, to: 36, promotion: None });
    assert_eq!(board, expected);
    assert_eq!(invalid, None);

    let (board, invalid) = position_startpos(&["moves", "e2e4", "e2e4", "d7d5"]);
    let mut expected = Board::starting_position();
    expected.make_move(Move { from: 12, to: 28, promotion: None });
    assert_eq!(board, expected);
    assert_eq!(invalid, Some(2));

    let (board, invalid) = position_startpos(&[]);
    assert_eq!(board, Board::starting_position());
    assert_eq!(invalid, None);
}

#[test]
fn a_passed_deadline_goes_unnoticed_between_polling_nodes() {
    let mut board = Board::starting_position();
    let mut ctx = SearchContext {
        deadline: Instant::now() - Duration::from_secs(1),
        nodes: 1,
    };
    let score = alpha_beta(&mut board, 1, -200_000, 200_000, &mut ctx);
    assert!(score.is_some());
    assert!(ctx.nodes > 1 && ctx.nodes < 1024);

    let mut late = SearchContext {
        deadline: Instant::now() - Duration::from_secs(1),
        nodes: 1023,
    };
    assert_eq!(alpha_beta(&mut board, 1, -200_000, 200_000, &mut late), None);
    assert_eq!(late.nodes % 1024, 0);
    assert_eq!(board, Board::starting_position());
}

#[test]
fn a_cutoff_at_the_root_counts_exactly_one_node() {
    let mut board = Board::from_fen("7k/8/8/8/8/8/8/R6K w - - 0 1").unwrap();
    let mut ctx = SearchContext {
        deadline: Instant::now() + Duration::from_secs(10),
        nodes: u64::MAX,
    };
    assert_eq!(alpha_beta(&mut board, 0, -200_000, 100, &mut ctx), Some(100));
    assert_eq!(ctx.nodes, 0);
}

#[test]
fn a_small_search_completes_with_no_time_at_all() {
    let mut board = Board::from_fen("7k/8/8/8/8/8/q7/R6K w - - 0 1").unwrap();
    let rook_takes_queen = Move { from: 0, to: 8, promotion: None };
    assert_eq!(find_best_move(&mut board, 1, Duration::ZERO), Some(rook_takes_queen));
    let mut reports: Vec<SearchInfo> = Vec::new();
    find_best_move_with_info(&mut board, 2, Duration::ZERO, &mut reports);
    assert_eq!(reports.len(), 2);
    assert_eq!(reports[0].depth, 1);
    assert_eq!(reports[1].depth, 2);
    assert!(reports[0].nodes < reports[1].nodes);
    assert_eq!(reports[0].nodes, reports[0].qnodes);
}

#[test]
fn elapsed_time_in_milliseconds_rounds_down() {
    assert_eq!(Elapsed { nanos: 1_999_999 }.as_millis(), 1);
    assert_eq!(Elapsed { nanos: 0 }.as_millis(), 0);
}

#[test]
fn setters_change_only_their_field() {
    let mut board = Board::starting_position();
    board.set_side_to_move(Color::Black);
    board.set_castling_rights(0);
    board.set_en_passant(Some(20));
    board.set_clocks(7, 9);
    assert_eq!(board.side(), Color::Black);
    assert_eq!(board.castling(), 0);
    assert_eq!(board.en_passant_square(), Some(20));
    assert_eq!((board.halfmove(), board.fullmove()), (7, 9));
    assert_eq!(board.piece_at(Color::White, 4), Some(Piece::King));
}

#[test]
fn commands_are_read_by_their_leading_fields() {
    assert_eq!(read_command(&["uci"]), Command::Identify);
    assert_eq!(read_command(&["isready"]), Command::Ready);
    assert_eq!(read_command(&["ucinewgame"]), Command::NewGame);
    assert_eq!(read_command(&["position", "startpos", "moves", "e2e4"]), Command::Position);
    assert_eq!(read_command(&["position", "fen"]), Command::Other);
    assert_eq!(read_command(&["go", "depth", "3"]), Command::Go);
    assert_eq!(read_command(&["go"]), Command::Go);
    assert_eq!(read_command(&["quit"]), Command::Quit);
    assert_eq!(read_command(&["uci", "extra"]), Command::Other);
    assert_eq!(read_command(&[]), Command::Other);
}

#[test]
fn a_callback_reporter_hands_every_report_to_its_callback() {
    let mut board = Board::from_fen("7k/8/8/8/8/8/q7/R6K w - - 0 1").unwrap();
    let mut depths: Vec<u32> = Vec::new();
    let mut scores: Vec<i32> = Vec::new();
    {
        let mut reporter = CallbackReporter::new(|info: SearchInfo| {
            depths.push(info.depth);
            scores.push(info.score);
        });
        find_best_move_with_info(&mut board, 2, Duration::from_secs(10), &mut reporter);
    }
    assert_eq!(depths, vec![1, 2]);
    assert_eq!(scores[0], 500);
}

#[test]
fn legal_moves_read_back_from_their_text() {
    let board = Board::starting_position();
    for mv in board.clone().generate_legal_moves() {
        assert_eq!(parse_move(&board, &move_to_uci(mv)), Some(mv));
    }
    let promoting = Board::from_fen("7k/P7/8/8/8/8/8/7K w - - 0 1").unwrap();
    for mv in promoting.clone().generate_legal_moves() {
        assert_eq!(parse_move(&promoting, &move_to_uci(mv)), Some(mv));
    }
}

#[test]
fn uci_steps_change_the_board_and_name_the_action() {
    let mut board = Board::starting_position();
    assert_eq!(uci_step(&mut board, &["uci"]), Action::Identify);
    assert_eq!(uci_step(&mut board, &["isready"]), Action::ReadyOk);
    assert_eq!(
        uci_step(&mut board, &["position", "startpos", "moves", "e2e4", "e9e5"]),
        Action::InvalidMove(4)
    );
    let (after_e4, _) = position_startpos(&["moves", "e2e4"]);
    assert_eq!(board, after_e4);
    assert_eq!(uci_step(&mut board, &["go", "depth", "3", "btime", "3000"]), Action::Search(3, 100));
    assert_eq!(
        uci_step(&mut board, &["go", "btime", "1000", "binc", "18446744073709551615"]),
        Action::BudgetOverflow
    );
    assert_eq!(board, after_e4);
    assert_eq!(uci_step(&mut board, &["ucinewgame"]), Action::Nothing);
    assert_eq!(board, Board::starting_position());
    assert_eq!(uci_step(&mut board, &["quit"]), Action::Quit);
    assert_eq!(uci_step(&mut board, &["stop"]), Action::Nothing);
}

#[test]
fn generated_moves_are_distinct_and_legal_ones_are_the_safe_ones() {
    let board = Board::from_fen("r3k2r/1P6/8/3pP3/8/8/8/R3K2R w KQkq d6 0 1").unwrap();
    let pseudo = board.clone().generate_pseudo_legal_moves();
    for (i, a) in pseudo.iter().enumerate() {
        for b in &pseudo[i + 1..] {
            assert_ne!(a, b);
        }
    }
    let legal = board.clone().generate_legal_moves();
    for mv in &pseudo {
        let mut after = board.clone();
        after.make_move(*mv);
        assert_eq!(legal.contains(mv), !after.in_check(Color::White));
        if let Some(p) = mv.promotion {
            assert!(p != Piece::Pawn && p != Piece::King);
        }
    }
}
