use scam::history::HashHist;
use scam::moves::{Move, CASTLING, ENPASSANT, NORMAL, PROMOTION};
use scam::perft::perft;
use scam::position::Position;
use scam::search::{search, SearchThread, Limits};
use scam::transposition::{TT, FLAG_EXACT, INFINITE, MATE};
use scam::bitboard::BitBoard;
use scam::movepicker::MovePicker;
use scam::types::{square_to_str, str_to_square};
use std::sync::atomic::AtomicBool;

const KIWIPETE: &str = "r3k2r/p1ppqpb1/bn2pnp1/3PN3/1p2P3/2N2Q1p/PPPBBPPP/R3K2R w KQkq - 0 1";

#[test]
fn perft_startpos_depth1() {
    let (mut pos, ci) = Position::startpos().unwrap();
    assert_eq!(perft(&mut pos, &ci, 1), 20);
}

#[test]
fn perft_startpos_depth2() {
    let (mut pos, ci) = Position::startpos().unwrap();
    assert_eq!(perft(&mut pos, &ci, 2), 400);
}

#[test]
fn perft_startpos_depth3() {
    let (mut pos, ci) = Position::startpos().unwrap();
    assert_eq!(perft(&mut pos, &ci, 3), 8902);
}

#[test]
fn perft_kiwipete_depth1() {
    let (mut pos, ci) = Position::parse_fen(KIWIPETE).unwrap();
    assert_eq!(perft(&mut pos, &ci, 1), 48);
}

#[test]
fn perft_kiwipete_depth2() {
    let (mut pos, ci) = Position::parse_fen(KIWIPETE).unwrap();
    assert_eq!(perft(&mut pos, &ci, 2), 2039);
}

#[test]
fn make_unmake_restores_everything() {
    let (mut pos, ci) = Position::startpos().unwrap();
    let (fresh, _) = Position::startpos().unwrap();
    let mv = Move::from_str(&pos, &ci, "e2e4").unwrap();
    assert!(pos.make_move(mv, &ci));
    pos.unmake_move();
    assert_eq!(pos.hash, fresh.hash);
    assert_eq!(pos.ctm, fresh.ctm);
    assert_eq!(pos.ep, fresh.ep);
    assert_eq!(pos.mr50, fresh.mr50);
    assert_eq!(pos.cr, fresh.cr);
    assert_eq!(pos.fullmove, fresh.fullmove);
    assert_eq!(pos.piece_eval, fresh.piece_eval);
    for sq in 0u32..64 {
        assert_eq!(pos.piece_on(sq), fresh.piece_on(sq));
    }
}

#[test]
fn incremental_hash_matches_reparse() {
    let (mut pos, ci) = Position::startpos().unwrap();
    for m in ["e2e4", "c7c5", "g1f3"] {
        let mv = Move::from_str(&pos, &ci, m).unwrap();
        assert!(pos.make_move(mv, &ci));
    }
    let (again, _) =
        Position::parse_fen("rnbqkbnr/pp1ppppp/8/2p5/4P3/5N2/PPPP1PPP/RNBQKB1R b KQkq - 1 2")
            .unwrap();
    assert_eq!(pos.hash, again.hash);
    assert_eq!(pos.piece_eval, again.piece_eval);
}

#[test]
fn legality_filter_rejects_pinned_pawn() {
    // The d2 pawn is pinned to the king by the a5 bishop.
    let (mut pos, ci) = Position::parse_fen("4k3/8/8/b7/8/8/3P4/4K3 w - - 0 1").unwrap();
    let pinned = Move::from_str(&pos, &ci, "d2d3").unwrap();
    assert!(!pos.make_move(pinned, &ci));
    let legal = Move::from_str(&pos, &ci, "e1e2").unwrap();
    assert!(pos.make_move(legal, &ci));
}

#[test]
fn legality_filter_rejects_castling_through_check() {
    // The black rook on f8 attacks f1, which the white king must cross.
    let (mut pos, ci) = Position::parse_fen("4kr2/8/8/8/8/8/8/4K2R w K - 0 1").unwrap();
    let castle = Move::from_str(&pos, &ci, "e1g1").unwrap();
    assert!(!pos.make_move(castle, &ci));
}

#[test]
fn castling_works_and_unmakes() {
    let (mut pos, ci) = Position::parse_fen("4k3/8/8/8/8/8/8/4K2R w K - 0 1").unwrap();
    let before_hash = pos.hash;
    let castle = Move::from_str(&pos, &ci, "e1g1").unwrap();
    assert_eq!(castle.move_type(), CASTLING);
    assert!(pos.make_move(castle, &ci));
    assert_eq!(pos.piece_on(6), Some(6)); // white king on g1
    assert_eq!(pos.piece_on(5), Some(4)); // white rook on f1
    pos.unmake_move();
    assert_eq!(pos.hash, before_hash);
    assert_eq!(pos.piece_on(4), Some(6));
    assert_eq!(pos.piece_on(7), Some(4));
}

#[test]
fn en_passant_capture() {
    let (mut pos, ci) = Position::parse_fen("4k3/8/8/8/4pP2/8/8/4K3 b - f3 0 1").unwrap();
    let ep = Move::from_str(&pos, &ci, "e4f3").unwrap();
    assert_eq!(ep.move_type(), ENPASSANT);
    assert!(pos.make_move(ep, &ci));
    assert_eq!(pos.piece_on(29), None); // the f4 pawn is gone
    assert_eq!(pos.piece_on(21), Some(9)); // a black pawn stands on f3
}

#[test]
fn promotion_generates_four_moves() {
    let (pos, ci) = Position::parse_fen("8/P3k3/8/8/8/8/8/4K3 w - - 0 1").unwrap();
    let list = pos.gen_pseudo_legals(&ci);
    let mut promos = 0;
    for i in 0..list.len() {
        let m = list.get(i);
        if m.move_type() == PROMOTION {
            promos += 1;
        }
    }
    assert_eq!(promos, 4);
}

#[test]
fn move_encoding_round_trip() {
    let m = Move::new(12, 28, NORMAL, None);
    assert_eq!(m.from(), 12);
    assert_eq!(m.to(), 28);
    assert_eq!(m.move_type(), NORMAL);
    let p = Move::new(52, 60, PROMOTION, Some(5));
    assert_eq!(p.promo_type(), 5);
    assert_eq!(p.to_str(&Position::startpos().unwrap().1), "e7e8q");
}

#[test]
fn tt_insert_then_read_round_trip() {
    let (pos, _ci) = Position::startpos().unwrap();
    let mut tt = TT::new();
    tt.allocate(1);
    let mv = Move::new(12, 28, NORMAL, None);
    tt.insert(&pos, 123, 3, mv, 7, FLAG_EXACT);
    let e = tt.read(&pos).expect("entry must be found");
    assert_eq!(e.mv, mv);
    assert_eq!(e.depth, 7);
    assert!(e.is_exact());
    assert_eq!(e.score(3), 123);
}

#[test]
fn tt_mate_score_round_trip() {
    let (pos, _ci) = Position::startpos().unwrap();
    let mut tt = TT::new();
    tt.allocate(1);
    let mate_in_3 = MATE - 3;
    tt.insert(&pos, mate_in_3, 5, Move::new(12, 28, NORMAL, None), 9, FLAG_EXACT);
    let e = tt.read(&pos).expect("entry must be found");
    assert_eq!(e.score(5), mate_in_3);
}

#[test]
fn repetition_is_detected() {
    let (mut pos, ci) = Position::startpos().unwrap();
    let mut hist = HashHist::new();
    hist.push(&pos);
    for m in ["g1f3", "g8f6", "f3g1", "f6g8"] {
        let mv = Move::from_str(&pos, &ci, m).unwrap();
        assert!(pos.make_move(mv, &ci));
        hist.push(&pos);
    }
    assert!(hist.is_2fold(&pos));
}

#[test]
fn no_repetition_without_recurrence() {
    let (mut pos, ci) = Position::startpos().unwrap();
    let mut hist = HashHist::new();
    hist.push(&pos);
    for m in ["e2e4", "e7e5", "g1f3", "b8c6"] {
        let mv = Move::from_str(&pos, &ci, m).unwrap();
        assert!(pos.make_move(mv, &ci));
        hist.push(&pos);
    }
    assert!(!hist.is_2fold(&pos));
}

#[test]
fn eval_startpos_is_zero() {
    let (pos, _ci) = Position::startpos().unwrap();
    assert_eq!(scam::eval::eval(&pos), 0);
}

#[test]
fn eval_counts_material() {
    let (pos, _ci) = Position::parse_fen("4k3/8/8/8/8/8/8/Q3K3 w - - 0 1").unwrap();
    assert_eq!(scam::eval::eval(&pos), 900);
    let (pos2, _ci2) = Position::parse_fen("4k3/8/8/8/8/8/8/Q3K3 b - - 0 1").unwrap();
    assert_eq!(scam::eval::eval(&pos2), -900);
}

#[test]
fn search_depth1_startpos_returns_zero_and_legal_move() {
    let (pos, ci) = Position::startpos().unwrap();
    let mut tt = TT::new();
    tt.allocate(1);
    let abort = AtomicBool::new(false);
    let mut th = SearchThread {
        id: 0,
        nodes: 0,
        limits: Limits::new(),
        root: pos.duplicate(),
        ci: ci.duplicate(),
        hist: HashHist::new(),
        best_move: Move::none(),
        stopped: false,
    };
    let score = search(&mut th, &mut tt, &abort, &pos, 1, 0, -INFINITE, INFINITE);
    assert_eq!(score, 0);
    // The reported move must be one of the 20 legal root moves.
    let list = pos.gen_pseudo_legals(&ci);
    let mut found = false;
    for i in 0..list.len() {
        if list.get(i) == th.best_move {
            found = true;
        }
    }
    assert!(found);
    let mut check = pos.duplicate();
    assert!(check.make_move(th.best_move, &ci));
}

#[test]
fn search_finds_mate_in_one() {
    // White mates with the queen: back-rank mate supported by the rook.
    let (pos, ci) = Position::parse_fen("6k1/5ppp/8/8/8/8/Q7/4K2R w - - 0 1").unwrap();
    let mut tt = TT::new();
    tt.allocate(1);
    let abort = AtomicBool::new(false);
    let mut th = SearchThread {
        id: 0,
        nodes: 0,
        limits: Limits::new(),
        root: pos.duplicate(),
        ci: ci.duplicate(),
        hist: HashHist::new(),
        best_move: Move::none(),
        stopped: false,
    };
    let score = search(&mut th, &mut tt, &abort, &pos, 3, 0, -INFINITE, INFINITE);
    assert_eq!(score, MATE - 1);
    assert_eq!(th.best_move.to_str(&ci), "a2a8");
}

#[test]
fn parse_fen_rejects_garbage() {
    assert!(Position::parse_fen("not a fen").is_none());
    assert!(Position::parse_fen("").is_none());
    assert!(Position::parse_fen("8/8/8/8/8/8/8/8 w - - 0 1").is_none()); // no kings
    assert!(Position::parse_fen("rnbqkbnr/pppppppp/8/8/8/8/PPPPPPPP/RNBQKBNR x KQkq - 0 1")
        .is_none());
}

#[test]
fn bitboard_shift_masks_wraparound() {
    let a1 = BitBoard::single(0);
    assert!(a1.shift(-1).is_empty()); // west off the board
    assert_eq!(a1.shift(8).0, 1u64 << 8); // north to a2
    let h1 = BitBoard::single(7);
    assert!(h1.shift(1).is_empty()); // east off the board
    assert!(h1.shift(9).is_empty()); // north-east off the board
}

#[test]
fn square_string_round_trip() {
    assert_eq!(square_to_str(0), "a1");
    assert_eq!(square_to_str(63), "h8");
    assert_eq!(str_to_square("e4"), Some(28));
    assert_eq!(str_to_square("z9"), None);
}

#[test]
fn fifty_move_counter_and_ep_square() {
    let (mut pos, ci) = Position::startpos().unwrap();
    let mv = Move::from_str(&pos, &ci, "e2e4").unwrap();
    assert!(pos.make_move(mv, &ci));
    assert_eq!(pos.mr50, 0); // pawn move resets the clock
    assert_eq!(pos.ep, 20); // e3 is the en-passant target
    let mv2 = Move::from_str(&pos, &ci, "g8f6").unwrap();
    assert!(pos.make_move(mv2, &ci));
    assert_eq!(pos.mr50, 1);
    assert_eq!(pos.ep, 0);
}

#[test]
fn pseudolegality_filter_for_cached_moves() {
    let (pos, ci) = Position::startpos().unwrap();
    // Every generated move passes the filter.
    let list = pos.gen_pseudo_legals(&ci);
    for i in 0..list.len() {
        assert!(list.get(i).is_pseudolegal(&pos, &ci));
    }
    // A torn or stale entry does not: queen a1 to b3 is no move at all.
    let junk = Move::new(0, 17, NORMAL, None);
    assert!(!junk.is_pseudolegal(&pos, &ci));
    // A move of the wrong side is rejected too.
    let black_push = Move::new(52, 44, NORMAL, None);
    assert!(!black_push.is_pseudolegal(&pos, &ci));
}

#[test]
fn search_reports_stalemate_as_draw() {
    // Black to move has no legal move and is not in check.
    let (pos, ci) = Position::parse_fen("7k/5Q2/6K1/8/8/8/8/8 b - - 0 1").unwrap();
    let mut tt = TT::new();
    tt.allocate(1);
    let abort = AtomicBool::new(false);
    let mut th = SearchThread {
        id: 0,
        nodes: 0,
        limits: Limits::new(),
        root: pos.duplicate(),
        ci: ci.duplicate(),
        hist: HashHist::new(),
        best_move: Move::none(),
        stopped: false,
    };
    let score = search(&mut th, &mut tt, &abort, &pos, 2, 0, -INFINITE, INFINITE);
    assert_eq!(score, 0);
}

#[test]
fn tt_generations_and_fill() {
    let (pos, _ci) = Position::startpos().unwrap();
    let mut tt = TT::new();
    tt.allocate(1);
    assert_eq!(tt.hashfull(), 0);
    tt.insert(&pos, 10, 0, Move::new(12, 28, NORMAL, None), 1, FLAG_EXACT);
    // Entries of the current generation carry no age bonus.
    assert_eq!(TT::age_diff(tt.age, 0), 0);
    tt.increment_age();
    // One generation later the same entry is easier to replace.
    assert_eq!(TT::age_diff(tt.age, 0), 4);
}

#[test]
fn counters_parse_after_en_passant_field() {
    let (pos, _ci) = Position::parse_fen("4k3/8/8/8/4pP2/8/8/4K3 b - f3 7 42").unwrap();
    assert_eq!(pos.mr50, 7);
    assert_eq!(pos.fullmove, 42);
}

#[test]
fn movepicker_yields_table_move_first_and_skips_it_later() {
    let (pos, ci) = Position::startpos().unwrap();
    let tt_move = Move::from_str(&pos, &ci, "e2e4").unwrap();
    let mut picker = MovePicker::new(tt_move);
    let first = picker.next(&pos, &ci).unwrap();
    assert_eq!(first, tt_move);
    let mut seen = 0;
    while let Some(m) = picker.next(&pos, &ci) {
        assert_ne!(m, tt_move);
        seen += 1;
    }
    assert_eq!(seen, 19); // the other 19 root moves, each once
}

#[test]
fn junk_table_move_is_filtered_by_the_picker() {
    let (pos, ci) = Position::startpos().unwrap();
    let junk = Move::new(0, 17, NORMAL, None);
    let mut picker = MovePicker::new(junk);
    let mut count = 0;
    while let Some(m) = picker.next(&pos, &ci) {
        assert!(m.is_pseudolegal(&pos, &ci));
        count += 1;
    }
    assert_eq!(count, 20);
}

#[test]
fn shredder_fen_castling_letters() {
    // A shuffled start: white king e1 between its rooks d1 and f1.
    let (mut pos, ci) = Position::parse_fen("k7/8/8/8/8/8/8/3RKR2 w DF - 0 1").unwrap();
    assert!(ci.frc);
    assert_eq!(pos.cr, 3);
    assert_eq!(ci.castle_rooks[1], 5); // white kingside rook on f1
    assert_eq!(ci.castle_rooks[2], 3); // white queenside rook on d1
    assert_eq!(ci.castle_kings[1], 4);
    // Kingside castling: king e1 takes its own rook square f1, king to g1,
    // rook to f1.
    let castle = Move::from_str(&pos, &ci, "e1f1").unwrap();
    assert_eq!(castle.move_type(), CASTLING);
    assert!(pos.make_move(castle, &ci));
    assert_eq!(pos.piece_on(6), Some(6));
    assert_eq!(pos.piece_on(5), Some(4));
}

#[test]
fn clean_search_reports_not_stopped() {
    let (pos, ci) = Position::startpos().unwrap();
    let mut tt = TT::new();
    tt.allocate(1);
    let abort = AtomicBool::new(false);
    let mut th = SearchThread {
        id: 0,
        nodes: 0,
        limits: Limits::new(),
        root: pos.duplicate(),
        ci: ci.duplicate(),
        hist: HashHist::new(),
        best_move: Move::none(),
        stopped: false,
    };
    let score = search(&mut th, &mut tt, &abort, &pos, 2, 0, -INFINITE, INFINITE);
    assert!(!th.stopped);
    assert_eq!(score, 0); // the symmetric opening stays balanced at depth 2
}

#[test]
fn preset_abort_is_observed_and_scores_zero() {
    let (pos, ci) = Position::startpos().unwrap();
    let mut tt = TT::new();
    tt.allocate(1);
    let abort = AtomicBool::new(true);
    let mut th = SearchThread {
        id: 0,
        nodes: 0,
        limits: Limits::new(),
        root: pos.duplicate(),
        ci: ci.duplicate(),
        hist: HashHist::new(),
        best_move: Move::none(),
        stopped: false,
    };
    let score = search(&mut th, &mut tt, &abort, &pos, 3, 0, -INFINITE, INFINITE);
    assert!(th.stopped);
    assert_eq!(score, 0);
    assert_eq!(th.best_move, Move::none()); // nothing was searched
}
