//! Tests for post-game analysis: classification thresholds, perspective,
//! evaluation buckets and comment formatting.

use chess_engine::analysis::{
    bucket, classify_move, format_eval, pov, Bucket, MoveClass, BEST_CP, DECISIVE_CP, GOOD_CP,
    INACCURACY_CP, MATE_CP, MATE_THRESHOLD, MISTAKE_CP,
};
use chess_engine::Color;

#[test]
fn classification_thresholds() {
    assert_eq!(MoveClass::from_cpl(0), MoveClass::Best);
    assert_eq!(MoveClass::from_cpl(BEST_CP - 1), MoveClass::Best);
    assert_eq!(MoveClass::from_cpl(BEST_CP), MoveClass::Good);
    assert_eq!(MoveClass::from_cpl(GOOD_CP - 1), MoveClass::Good);
    assert_eq!(MoveClass::from_cpl(GOOD_CP), MoveClass::Inaccuracy);
    assert_eq!(MoveClass::from_cpl(INACCURACY_CP - 1), MoveClass::Inaccuracy);
    assert_eq!(MoveClass::from_cpl(INACCURACY_CP), MoveClass::Mistake);
    assert_eq!(MoveClass::from_cpl(MISTAKE_CP - 1), MoveClass::Mistake);
    assert_eq!(MoveClass::from_cpl(MISTAKE_CP), MoveClass::Blunder);
    assert_eq!(MoveClass::from_cpl(10_000), MoveClass::Blunder);
}

#[test]
fn forced_moves_are_never_penalized() {
    // Even a huge eval drop is not penalized when it was the only legal move.
    let (cpl, class) = classify_move(5_000, true);
    assert_eq!(cpl, 0);
    assert_eq!(class, MoveClass::Best);

    let (cpl, class) = classify_move(5_000, false);
    assert_eq!(cpl, 5_000);
    assert_eq!(class, MoveClass::Blunder);
}

#[test]
fn pov_flips_for_black() {
    assert_eq!(pov(120, Color::White), 120);
    assert_eq!(pov(120, Color::Black), -120);
}

#[test]
fn bucket_thresholds() {
    assert_eq!(bucket(DECISIVE_CP + 1), Bucket::White);
    assert_eq!(bucket(DECISIVE_CP), Bucket::Balanced);
    assert_eq!(bucket(0), Bucket::Balanced);
    assert_eq!(bucket(-DECISIVE_CP), Bucket::Balanced);
    assert_eq!(bucket(-DECISIVE_CP - 1), Bucket::Black);
}

#[test]
fn format_eval_handles_mate_and_centipawns() {
    assert_eq!(format_eval(0), "+0.00");
    assert_eq!(format_eval(193), "+1.93");
    assert_eq!(format_eval(-40), "-0.40");
    assert_eq!(format_eval(MATE_THRESHOLD), "+M");
    assert_eq!(format_eval(MATE_CP), "+M");
    assert_eq!(format_eval(-MATE_THRESHOLD), "-M");
    assert_eq!(format_eval(-MATE_CP), "-M");
}

#[test]
fn glyphs_mark_the_weak_classes() {
    assert_eq!(MoveClass::Best.glyph(), "");
    assert_eq!(MoveClass::Good.glyph(), "");
    assert_eq!(MoveClass::Inaccuracy.glyph(), "?!");
    assert_eq!(MoveClass::Mistake.glyph(), "?");
    assert_eq!(MoveClass::Blunder.glyph(), "??");
}

#[test]
fn format_eval_pads_small_values() {
    assert_eq!(format_eval(5), "+0.05");
    assert_eq!(format_eval(-1205), "-12.05");
    assert_eq!(format_eval(MATE_THRESHOLD - 1), "+289.99");
}
