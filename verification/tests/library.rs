//! Tests of the library's own promises: round trips, error messages, the
//! game history, the transposition table and the notation helpers.

use chess_engine::analysis::{
    analyze_position, classify_game, final_eval, game_positions, mark_decided_move, pv_to_san,
    side_counts, to_annotated_pgn, AnalyzedMove, MoveClass, MATE_CP,
};
use chess_engine::analysis::position_report;
use chess_engine::fen::{is_playable, parse, to_fen, START_FEN};
use chess_engine::magic::{bishop_attacks, rook_attacks, slow_slider_attacks, Magics};
use chess_engine::{Bitboard, SearchResult};
use chess_engine::pgn::{from_pgn, result_string, strip_move_number, to_pgn, tokenize, wrap};
use chess_engine::rules::insufficient_material;
use chess_engine::tt::{Bound, TranspositionTable};
use chess_engine::types::{Color, PieceType, Square};
use chess_engine::{
    compute_hash, perft_divide, DrawReason, Game, Move, MoveFlag, MoveList, Position, SearchLimits, Status,
};

fn err_of<T>(r: Result<T, String>) -> String {
    match r {
        Ok(_) => panic!("expected an error"),
        Err(e) => e,
    }
}

fn sq(name: &str) -> Square {
    Square::from_str(name).unwrap()
}

// --- FEN ----------------------------------------------------------------

#[test]
fn start_position_writes_the_standard_record() {
    assert_eq!(to_fen(&Position::start()), START_FEN);
    assert_eq!(Game::new().fen(), START_FEN);
}

#[test]
fn fen_round_trip_keeps_every_field() {
    let records = [
        "8/8/8/4k3/8/8/8/4K2R w K - 0 1",
        "rnbqkbnr/ppp1pppp/8/3pP3/8/8/PPPP1PPP/RNBQKBNR w KQkq d6 0 3",
        "r3k2r/8/8/8/8/8/8/R3K2R b Qk - 17 42",
        "7k/5Q2/6K1/8/8/8/8/8 b - - 0 1",
    ];
    for record in records {
        let p = parse(record).unwrap();
        let written = to_fen(&p);
        assert_eq!(written, record);
        let q = parse(&written).unwrap();
        assert_eq!(to_fen(&q), record);
        assert_eq!(q.hash(), p.hash());
    }
}

#[test]
fn fen_clocks_default_when_missing_or_unreadable() {
    let p = parse("4k3/8/8/8/8/8/8/4K3 w - -").unwrap();
    assert_eq!(p.halfmove_clock(), 0);
    assert_eq!(p.fullmove_number(), 1);
    let q = parse("4k3/8/8/8/8/8/8/4K3 w - - x 70000").unwrap();
    assert_eq!(q.halfmove_clock(), 0);
    assert_eq!(q.fullmove_number(), 1);
    let r = parse("4k3/8/8/8/8/8/8/4K3 w - - +12 65535").unwrap();
    assert_eq!(r.halfmove_clock(), 12);
    assert_eq!(r.fullmove_number(), 65535);
}

#[test]
fn fen_errors_name_what_is_wrong() {
    assert_eq!(err_of(parse("8/8/8 w -")), "FEN needs at least 4 fields, got 3");
    assert_eq!(err_of(parse("")), "FEN needs at least 4 fields, got 0");
    assert_eq!(err_of(parse("9/8/8/8/8/8/8/8 w - -")), "rank 8 has 9 files");
    assert_eq!(err_of(parse("7/8/8/8/8/8/8/8 w - -")), "rank 8 has 7 files");
    assert_eq!(err_of(parse("8/8/8/8/8/8/8/8/8 w - -")), "too many ranks in FEN");
    assert_eq!(err_of(parse("8/8/8/8/8/8/8 w - -")), "not enough ranks in FEN");
    assert_eq!(err_of(parse("8/8/8/3x4/8/8/8/8 w - -")), "bad piece 'x'");
    assert_eq!(err_of(parse("8/8/8/8/8/8/8/8K w - -")), "rank overflow in FEN");
    assert_eq!(err_of(parse("4k3/8/8/8/8/8/8/4K3 x - -")), "bad side 'x'");
    assert_eq!(err_of(parse("4k3/8/8/8/8/8/8/4K3 w KX -")), "bad castling char 'X'");
    assert_eq!(err_of(parse("4k3/8/8/8/8/8/8/4K3 w - e9")), "bad ep square 'e9'");
    assert_eq!(
        err_of(parse("8/8/8/8/8/8/8/8 w - -")),
        "White must have exactly one king, found 0"
    );
    assert_eq!(
        err_of(parse("4k3/8/8/8/8/8/8/3KK3 w - -")),
        "White must have exactly one king, found 2"
    );
    assert_eq!(
        err_of(parse("8/8/8/8/8/8/8/4K3 w - -")),
        "Black must have exactly one king, found 0"
    );
    assert_eq!(
        err_of(parse("4k3/4R3/8/8/8/8/8/4K3 w - -")),
        "side not to move is in check (illegal position)"
    );
    // Records whose rights or en-passant square do not fit the board parse,
    // but cannot start a game.
    let p = parse("4k3/8/8/8/8/8/8/4K3 w K - 0 1").unwrap();
    assert!(!is_playable(&p));
    assert_eq!(to_fen(&p), "4k3/8/8/8/8/8/8/4K3 w K - 0 1");
    assert!(!is_playable(&parse("4k3/8/8/8/8/8/8/4K3 w - e6").unwrap()));
    assert!(is_playable(&parse("4k3/8/8/8/8/8/8/4K2R w K - 0 1").unwrap()));
    assert_eq!(
        err_of(Game::from_fen("4k3/8/8/8/8/8/8/4K3 w K -")),
        "castling rights without king and rook on their home squares"
    );
    assert_eq!(
        err_of(Game::from_fen("4k3/8/8/8/8/8/8/4K3 w - e6")),
        "en-passant square without a pawn that just moved two squares"
    );
}

// --- Game history ---------------------------------------------------------

#[test]
fn undo_after_play_restores_the_game() {
    let mut g = Game::new();
    g.play_san("e4").unwrap();
    let fen_before = g.fen();
    let sans_before = g.san_history().to_vec();
    let moves_before = g.move_history().to_vec();
    g.play_uci("c7c5").unwrap();
    assert_eq!(g.san_history().len(), 2);
    assert!(g.undo());
    assert_eq!(g.fen(), fen_before);
    assert_eq!(g.san_history(), sans_before.as_slice());
    assert_eq!(g.move_history(), moves_before.as_slice());
}

#[test]
fn undo_without_moves_does_nothing() {
    let mut g = Game::new();
    assert!(!g.undo());
    assert_eq!(g.fen(), START_FEN);
    assert!(g.san_history().is_empty());
}

#[test]
fn illegal_moves_are_refused_with_their_reason() {
    let mut g = Game::new();
    let mv = Move::new(sq("e2"), sq("e5"), MoveFlag::Quiet);
    assert_eq!(err_of(g.play(mv)), "illegal move e2e5");
    assert_eq!(err_of(g.play_move(sq("e2"), sq("e5"), None)), "no legal move e2e5");
    assert_eq!(err_of(g.play_uci("e2")), "bad UCI move 'e2'");
    assert_eq!(err_of(g.play_uci("z2e4")), "bad from in 'z2e4'");
    assert_eq!(err_of(g.play_uci("e2e9")), "bad to in 'e2e9'");
    assert_eq!(err_of(g.play_san("Ke2")), "no legal move for SAN 'Ke2'");
    assert_eq!(g.fen(), START_FEN);
    assert!(g.move_history().is_empty());
}

#[test]
fn moves_are_played_in_every_notation() {
    let mut g = Game::new();
    assert_eq!(g.play_move(sq("e2"), sq("e4"), None).unwrap(), "e4");
    assert_eq!(g.play_uci("e7e5").unwrap(), "e5");
    assert_eq!(g.play_san("Nf3").unwrap(), "Nf3");
    assert_eq!(g.play_san("nc6").unwrap_err(), "no legal move for SAN 'nc6'");
    assert_eq!(g.play_san("Nc6!?").unwrap(), "Nc6");
    assert_eq!(g.side_to_move(), Color::White);
    assert_eq!(
        g.fen(),
        "r1bqkbnr/pppp1ppp/2n5/4p3/4P3/5N2/PPPP1PPP/RNBQKB1R w KQkq - 2 3"
    );
}

#[test]
fn castling_written_with_zeros_is_understood() {
    let mut g = Game::from_fen("r3k2r/8/8/8/8/8/8/R3K2R w KQkq - 0 1").unwrap();
    assert_eq!(g.play_san("0-0").unwrap(), "O-O");
    assert_eq!(g.play_san("O-O-O").unwrap(), "O-O-O");
}

#[test]
fn promotion_needs_its_piece() {
    let mut g = Game::from_fen("8/P7/8/4k3/8/8/8/6K1 w - - 0 1").unwrap();
    assert_eq!(err_of(g.play_move(sq("a7"), sq("a8"), None)), "no legal move a7a8");
    assert_eq!(g.play_uci("a7a8n").unwrap(), "a8=N");
    assert_eq!(g.move_history()[0].promotion(), Some(PieceType::Knight));
}

#[test]
fn legal_destinations_are_distinct_and_in_move_order() {
    let mut g = Game::new();
    let d: Vec<u8> = g.legal_destinations(sq("g1")).into_iter().map(|s| s.0).collect();
    assert_eq!(d, vec![sq("f3").0, sq("h3").0]);
    let e: Vec<u8> = g.legal_destinations(sq("e2")).into_iter().map(|s| s.0).collect();
    assert_eq!(e, vec![sq("e3").0, sq("e4").0]);
    assert!(g.legal_destinations(sq("e4")).is_empty());
}

#[test]
fn legal_moves_come_with_their_san() {
    let mut g = Game::new();
    let list = g.legal_moves_san();
    assert_eq!(list.len(), 20);
    for (m, san) in &list {
        let mut h = Game::new();
        assert_eq!(&h.play(*m).unwrap(), san);
    }
}

#[test]
fn status_reports_draws_and_their_reason() {
    let mut g = Game::from_fen("8/8/4k3/8/8/4K3/8/8 w - - 0 1").unwrap();
    assert_eq!(g.status(), Status::Draw(DrawReason::InsufficientMaterial));
    assert!(g.status().is_over());
    let mut h = Game::new();
    assert_eq!(h.status(), Status::Ongoing);
    assert!(!h.status().is_over());
}

// --- Perft and hashing ----------------------------------------------------

#[test]
fn perft_divide_lists_every_root_move() {
    let mut p = Position::start();
    let d = perft_divide(&mut p, 2);
    assert_eq!(d.len(), 20);
    assert!(d.iter().all(|(_, n)| *n == 20));
    assert!(d.iter().any(|(u, _)| u == "e2e4"));
    let one = perft_divide(&mut p, 1);
    assert!(one.iter().all(|(_, n)| *n == 1));
    assert_eq!(to_fen(&p), START_FEN);
}

#[test]
fn incremental_hash_matches_a_fresh_one() {
    let mut g = Game::new();
    for san in ["e4", "d5", "exd5", "Qxd5", "Nc3", "Qa5"] {
        g.play_san(san).unwrap();
        assert_eq!(g.position().hash(), compute_hash(g.position()));
    }
}

// --- Transposition table --------------------------------------------------

#[test]
fn table_gives_back_what_was_stored() {
    let mut t = TranspositionTable::new(1);
    let best = Move::new(sq("e2"), sq("e4"), MoveFlag::DoublePush);
    assert!(t.probe(12345).is_none());
    t.store(12345, 5, 42, Bound::Exact, best);
    let e = t.probe(12345).unwrap();
    assert_eq!((e.key, e.depth, e.score, e.bound, e.best), (12345, 5, 42, Bound::Exact, best));
    // A shallower result for the same key does not replace a deeper one.
    t.store(12345, 3, -7, Bound::Lower, best);
    assert_eq!(t.probe(12345).unwrap().score, 42);
    // An equally deep one does.
    t.store(12345, 5, -7, Bound::Upper, best);
    assert_eq!(t.probe(12345).unwrap().score, -7);
    t.clear();
    assert!(t.probe(12345).is_none());
}

// --- PGN helpers ----------------------------------------------------------

#[test]
fn result_tokens_follow_the_status() {
    assert_eq!(result_string(Status::Checkmate(Color::Black)), "1-0");
    assert_eq!(result_string(Status::Checkmate(Color::White)), "0-1");
    assert_eq!(result_string(Status::Stalemate), "1/2-1/2");
    assert_eq!(result_string(Status::Draw(DrawReason::FiftyMove)), "1/2-1/2");
    assert_eq!(result_string(Status::Ongoing), "*");
}

#[test]
fn wrap_breaks_lines_between_words() {
    assert_eq!(wrap("aa bb cc", 5), "aa bb\ncc");
    assert_eq!(wrap("  aa   bb  ", 80), "aa bb");
    assert_eq!(wrap("abcdef gh", 3), "abcdef\ngh");
    assert_eq!(wrap("", 10), "");
}

#[test]
fn tokenizer_drops_comments_variations_and_nags() {
    assert_eq!(
        tokenize("1. e4 {a comment} e5 $1 2. Nf3 (2. f4) Nc6 *"),
        vec!["1.", "e4", "e5", "2.", "Nf3", "Nc6", "*"]
    );
    assert_eq!(tokenize("e4{x}e5"), vec!["e4e5"]);
    assert_eq!(tokenize("a ) b } c"), vec!["a", "b", "c"]);
}

#[test]
fn move_numbers_are_stripped() {
    assert_eq!(strip_move_number("12."), "");
    assert_eq!(strip_move_number("12...Nf6"), "Nf6");
    assert_eq!(strip_move_number("3.e4"), "e4");
    assert_eq!(strip_move_number("e4"), "e4");
    assert_eq!(strip_move_number("12"), "12");
    assert_eq!(strip_move_number(".5"), ".5");
}

#[test]
fn pgn_round_trip_keeps_a_custom_start() {
    let mut g = Game::from_fen("8/8/8/4k3/8/8/8/4K2R w K - 0 1").unwrap();
    g.play_san("Kf2").unwrap();
    g.play_san("Kd5").unwrap();
    let text = to_pgn(&mut g, Some("2024.01.02"));
    assert!(text.contains("[Date \"2024.01.02\"]"));
    assert!(text.contains("[SetUp \"1\"]"));
    assert!(text.contains("[FEN \"8/8/8/4k3/8/8/8/4K2R w K - 0 1\"]"));
    let back = from_pgn(&text).unwrap();
    assert_eq!(back.san_history(), g.san_history());
    assert_eq!(back.fen(), g.fen());
    assert!(to_pgn(&mut g, None).contains("[Date \"????.??.??\"]"));
}

#[test]
fn pgn_import_reports_the_bad_move() {
    let e = err_of(from_pgn("1. e4 e5 2. Ke3 *"));
    assert!(e.contains("Ke3"), "unexpected error {}", e);
}

// --- Analysis helpers -----------------------------------------------------

fn analyzed(ply: usize, color: Color, cpl: i32, class: MoveClass, turning_point: bool) -> AnalyzedMove {
    AnalyzedMove {
        ply,
        color,
        san: String::from("x"),
        best_san: String::from("y"),
        eval_before: 0,
        eval_after: 0,
        cpl,
        class,
        turning_point,
        decided_game: false,
        pv_san: Vec::new(),
    }
}

#[test]
fn the_last_lasting_turning_point_decides_a_won_game() {
    // White's advantage appears after ply 1, is lost at ply 2 and regained
    // for good at ply 3; Black is mated at the end.
    let white_eval = [0, 0, 300, 0, 400];
    let mut moves = vec![
        analyzed(0, Color::White, 0, MoveClass::Best, false),
        analyzed(1, Color::Black, 0, MoveClass::Best, true),
        analyzed(2, Color::White, 0, MoveClass::Best, true),
        analyzed(3, Color::Black, 0, MoveClass::Best, true),
    ];
    mark_decided_move(&mut moves, &white_eval, Status::Checkmate(Color::Black));
    let decided: Vec<bool> = moves.iter().map(|m| m.decided_game).collect();
    assert_eq!(decided, vec![false, false, false, true]);

    let mut drawn: Vec<AnalyzedMove> = moves.iter().map(|m| analyzed(m.ply, m.color, 0, MoveClass::Best, m.turning_point)).collect();
    mark_decided_move(&mut drawn, &white_eval, Status::Stalemate);
    assert!(drawn.iter().all(|m| !m.decided_game));
}

#[test]
fn side_counts_sum_each_class() {
    let moves = vec![
        analyzed(0, Color::White, 0, MoveClass::Best, false),
        analyzed(1, Color::Black, 120, MoveClass::Inaccuracy, false),
        analyzed(2, Color::White, 30, MoveClass::Good, false),
        analyzed(3, Color::Black, 400, MoveClass::Blunder, false),
        analyzed(4, Color::White, 250, MoveClass::Mistake, false),
    ];
    let w = side_counts(&moves, Color::White);
    assert_eq!((w.moves, w.total_cpl, w.avg_cpl), (3, 280, 93));
    assert_eq!((w.best, w.inaccuracies, w.mistakes, w.blunders), (2, 0, 1, 0));
    let b = side_counts(&moves, Color::Black);
    assert_eq!((b.moves, b.total_cpl, b.avg_cpl), (2, 520, 260));
    assert_eq!((b.best, b.inaccuracies, b.mistakes, b.blunders), (0, 1, 0, 1));
    let none = side_counts(&[], Color::White);
    assert_eq!((none.moves, none.avg_cpl), (0, 0));
}

#[test]
fn final_evaluation_follows_the_winner() {
    assert_eq!(final_eval(Status::Checkmate(Color::Black)), MATE_CP);
    assert_eq!(final_eval(Status::Checkmate(Color::White)), -MATE_CP);
    assert_eq!(final_eval(Status::Stalemate), 0);
}

#[test]
fn principal_variation_is_written_in_san_up_to_the_cap() {
    let p = Position::start();
    let pv = [
        Move::new(sq("e2"), sq("e4"), MoveFlag::DoublePush),
        Move::new(sq("e7"), sq("e5"), MoveFlag::DoublePush),
        Move::new(sq("g1"), sq("f3"), MoveFlag::Quiet),
    ];
    assert_eq!(pv_to_san(&p, &pv, 8), vec!["e4", "e5", "Nf3"]);
    assert_eq!(pv_to_san(&p, &pv, 2), vec!["e4", "e5"]);
    // The line stops at the first move that is not legal.
    let bad = [pv[0], pv[0]];
    assert_eq!(pv_to_san(&p, &bad, 8), vec!["e4"]);
}

#[test]
fn insufficient_material_cases() {
    let yes = ["8/8/4k3/8/8/4K3/8/8 w - - 0 1", "8/8/4k3/8/8/4KN2/8/8 w - - 0 1"];
    for f in yes {
        assert!(insufficient_material(&parse(f).unwrap()), "{}", f);
    }
    let no = ["8/8/4k3/8/8/4K3/4P3/8 w - - 0 1", "8/8/4k3/8/8/3NKN2/8/8 w - - 0 1"];
    for f in no {
        assert!(!insufficient_material(&parse(f).unwrap()), "{}", f);
    }
}

#[test]
fn every_san_reads_back_as_its_move() {
    let records = [
        START_FEN,
        "r3k2r/p1ppqpb1/bn2pnp1/3PN3/1p2P3/2N2Q1p/PPPBBPPP/R3K2R w KQkq - 0 1",
        "4k3/8/8/8/8/2N5/8/4K1N1 w - - 0 1",
        "rnbqkbnr/ppp1pppp/8/3pP3/8/8/PPPP1PPP/RNBQKBNR w KQkq d6 0 3",
        "8/P6k/8/8/8/8/p7/4K3 w - - 0 1",
    ];
    for record in records {
        let mut g = Game::from_fen(record).unwrap();
        for (m, san) in g.legal_moves_san() {
            let mut h = Game::from_fen(record).unwrap();
            assert_eq!(h.play_san(&san).unwrap(), san);
            assert_eq!(h.move_history(), &[m][..]);
            let mut annotated = Game::from_fen(record).unwrap();
            let noisy = format!("{}!?", san.replace('O', "0"));
            assert_eq!(annotated.play_san(&noisy).unwrap(), san);
        }
    }
}

#[test]
fn pgn_round_trip_of_a_longer_game() {
    let mut g = Game::new();
    for san in ["d4", "d5", "c4", "e6", "Nc3", "Nf6", "Bg5", "Be7", "e3", "O-O", "Nf3", "Nbd7"] {
        g.play_san(san).unwrap();
    }
    let text = to_pgn(&mut g, Some("2024.05.06"));
    let back = from_pgn(&text).unwrap();
    assert_eq!(back.san_history(), g.san_history());
    assert_eq!(back.move_history(), g.move_history());
    assert_eq!(back.fen(), g.fen());
    assert!(!text.contains("[FEN"));
}

#[test]
fn move_list_can_be_reordered_in_place() {
    let mut list = MoveList::new();
    let a = Move::new(sq("e2"), sq("e4"), MoveFlag::DoublePush);
    let b = Move::new(sq("g1"), sq("f3"), MoveFlag::Quiet);
    list.push(a);
    list.push(b);
    list.as_mut_slice().swap(0, 1);
    assert_eq!(list.to_vec(), vec![b, a]);
    assert_eq!(list.len(), 2);
}

fn analyzed_moves(game: &mut Game, depth: u8) -> (Vec<AnalyzedMove>, Vec<i32>) {
    let limits = SearchLimits { max_depth: depth, time_ms: 1000 };
    let status = game.status();
    let positions = game_positions(game);
    let sans: Vec<String> = game.san_history().to_vec();
    let n = sans.len();
    let mut white_eval = vec![0i32; n + 1];
    let mut reports = Vec::new();
    for i in 0..n {
        let report = analyze_position(&positions[i], limits, || 0);
        white_eval[i] = report.white_eval;
        reports.push(report);
    }
    white_eval[n] = final_eval(status);
    let moves = classify_game(positions[0].side_to_move(), &sans, &reports, &white_eval, status);
    (moves, white_eval)
}

fn annotated_pgn_of(game: &mut Game) -> String {
    let status = game.status();
    let result = result_string(status);
    let (moves, white_eval) = analyzed_moves(game, 2);
    let w = side_counts(&moves, Color::White);
    let b = side_counts(&moves, Color::Black);
    to_annotated_pgn(game, &moves, &result, &white_eval, 2, &w, &b, "87.5", "91.0")
}

#[test]
fn hanging_the_queen_is_a_blunder_and_a_turning_point() {
    let mut g = Game::from_fen("3rk3/8/8/8/8/8/8/3QK3 w - - 0 1").unwrap();
    g.play_uci("d1d4").unwrap();
    g.play_uci("d8d4").unwrap();
    let (moves, _) = analyzed_moves(&mut g, 3);
    assert_eq!(moves.len(), 2);
    assert_eq!(moves[0].san, "Qd4");
    assert_eq!(moves[0].class, MoveClass::Blunder);
    assert!(moves[0].cpl >= 200);
    assert!(moves[0].turning_point);
}

#[test]
fn the_blunder_into_mate_decides_the_game() {
    let mut g = Game::new();
    for san in ["f3", "e5", "g4", "Qh4#"] {
        g.play_san(san).unwrap();
    }
    assert_eq!(result_string(g.status()), "0-1");
    let (moves, _) = analyzed_moves(&mut g, 2);
    assert_eq!(moves.len(), 4);
    assert_eq!(moves[2].san, "g4");
    assert_eq!(moves[2].class, MoveClass::Blunder);
    assert!(moves[2].decided_game);
    assert_eq!(moves.iter().filter(|m| m.decided_game).count(), 1);
}

#[test]
fn a_stalemated_start_gives_an_empty_annotated_game() {
    let mut g = Game::from_fen("7k/5Q2/6K1/8/8/8/8/8 b - - 0 1").unwrap();
    assert_eq!(g.status(), Status::Stalemate);
    let text = annotated_pgn_of(&mut g);
    assert!(text.contains("[SetUp \"1\"]"));
    assert!(text.contains("1/2-1/2"));
    let back = from_pgn(&text).unwrap();
    assert!(back.san_history().is_empty());
}

#[test]
fn annotated_pgn_reads_back_as_the_game() {
    let mut g = Game::new();
    for san in ["f3", "e5", "g4", "Qh4#"] {
        g.play_san(san).unwrap();
    }
    let text = annotated_pgn_of(&mut g);
    assert!(text.contains("[WhiteAccuracy \"87.5\"]"));
    assert!(text.contains("[BlackAccuracy \"91.0\"]"));
    let mut back = from_pgn(&text).unwrap();
    assert_eq!(back.san_history(), g.san_history());
    assert_eq!(back.status(), g.status());

    let mut h = Game::from_fen("8/8/8/4k3/8/8/8/4K2R w K - 0 1").unwrap();
    h.play_san("Kf2").unwrap();
    h.play_san("Kd5").unwrap();
    let text = annotated_pgn_of(&mut h);
    assert!(text.contains("[FEN \"8/8/8/4k3/8/8/8/4K2R w K - 0 1\"]"));
    let back = from_pgn(&text).unwrap();
    assert_eq!(back.san_history(), h.san_history());
    assert_eq!(back.fen(), h.fen());
}

// --- Magic bitboards, reports, search results ---------------------------

#[test]
fn magic_tables_agree_with_the_ray_walk() {
    let m = Magics::new().expect("magics are found");
    let mut x: u64 = 0x9E37_79B9_7F4A_7C15;
    for s in 0..64u8 {
        for _ in 0..8 {
            x ^= x << 13;
            x ^= x >> 7;
            x ^= x << 17;
            let occ = Bitboard(x & x.rotate_left(21));
            assert_eq!(m.rook(Square(s), occ), rook_attacks(Square(s), occ));
            assert_eq!(m.bishop(Square(s), occ), bishop_attacks(Square(s), occ));
        }
    }
    assert_eq!(
        slow_slider_attacks(Square(0), 1 << 16, &[(1, 0), (-1, 0), (0, 1), (0, -1)]),
        Bitboard(0x101FE)
    );
    // Any non-null step walks the board, not only single steps.
    assert_eq!(
        slow_slider_attacks(Square(0), 0, &[(2, 0), (0, 2), (2, 2), (3, 1)]),
        Bitboard(0x41001100450854)
    );
    // A step that leaves the board at once gives an empty ray.
    assert_eq!(
        slow_slider_attacks(Square(0), 0, &[(121, 0), (0, 1), (1, 1), (-1, 0)]),
        Bitboard(0x8141211109050300)
    );
}

#[test]
fn position_report_turns_the_score_to_whites_side() {
    let black_to_move = parse("4k3/8/8/8/8/8/8/4K2R b K - 0 1").unwrap();
    let res = SearchResult { best_move: None, score: 120, depth: 1, nodes: 0, pv: Vec::new() };
    let r = position_report(&black_to_move, res);
    assert_eq!(r.white_eval, -120);
    assert!(r.pv.is_empty());
    assert_eq!(r.best_san, "");
    let white_to_move = parse("4k3/8/8/8/8/8/8/4K2R w K - 0 1").unwrap();
    let res = SearchResult { best_move: None, score: 120, depth: 1, nodes: 0, pv: Vec::new() };
    assert_eq!(position_report(&white_to_move, res).white_eval, 120);
}

#[test]
fn search_without_a_legal_move_scores_zero() {
    let stalemate = parse("7k/5Q2/6K1/8/8/8/8/8 b - - 0 1").unwrap();
    let r = chess_engine::search(&stalemate, SearchLimits { max_depth: 3, time_ms: 1000 }, || 0);
    assert!(r.best_move.is_none());
    assert_eq!(r.score, 0);
    assert!(r.pv.is_empty());
    assert_eq!(r.depth, 3);
}

#[test]
fn search_stops_deepening_at_a_proven_mate() {
    let root = parse("6k1/5ppp/8/8/8/8/8/R5K1 w - - 0 1").unwrap();
    let r = chess_engine::search(&root, SearchLimits { max_depth: 4, time_ms: 2000 }, || 0);
    assert_eq!(r.best_move.unwrap().to_uci(), "a1a8");
    assert_eq!(r.score, 29999);
    assert_eq!(r.depth, 1);
    assert!(r.pv.len() <= 65);
}
