use hanzi_core::grade::{inversion_count, out_of_order_flags, Verdict};

#[test]
fn out_of_order_flags_mark_every_inverted_stroke() {
    assert!(out_of_order_flags(&[]).is_empty());
    assert_eq!(out_of_order_flags(&[0]), vec![false]);
    assert_eq!(out_of_order_flags(&[0, 1, 2, 3]), vec![false; 4]);

    // One adjacent swap flags both swapped strokes and nothing else.
    assert_eq!(
        out_of_order_flags(&[0, 2, 1, 3]),
        vec![false, true, true, false]
    );
    // The first stroke drawn too late: it and the one it jumped are flagged.
    assert_eq!(
        out_of_order_flags(&[1, 0, 2, 3]),
        vec![true, true, false, false]
    );
    // Written completely backwards: every stroke is inverted.
    assert_eq!(out_of_order_flags(&[2, 1, 0]), vec![true; 3]);
}

#[test]
fn inversions_are_counted_pair_by_pair() {
    assert_eq!(inversion_count(&[]), 0);
    assert_eq!(inversion_count(&[0, 1, 2, 3]), 0);
    assert_eq!(inversion_count(&[0, 2, 1, 3]), 1);
    assert_eq!(inversion_count(&[2, 1, 0]), 3);
    assert_eq!(inversion_count(&[3, 0, 1, 2]), 3);
}

#[test]
fn no_inversions_is_exactly_no_flags() {
    for sequence in [vec![0, 1, 2], vec![1, 0, 2], vec![2, 0, 1], vec![0, 0, 1]] {
        let none_flagged = out_of_order_flags(&sequence).iter().all(|f| !f);
        assert_eq!(inversion_count(&sequence) == 0, none_flagged, "{sequence:?}");
    }
}

#[test]
fn only_a_correct_stroke_is_not_an_error() {
    assert!(!Verdict::Correct.is_error());
    for verdict in [
        Verdict::ShapeOff,
        Verdict::PositionOff,
        Verdict::WrongDirection,
        Verdict::OutOfOrder,
        Verdict::Faint,
        Verdict::Missing,
    ] {
        assert!(verdict.is_error());
    }
}

use hanzi_core::grade::{first_error, is_perfect, stroke_verdict};

#[test]
fn the_worst_fault_names_the_stroke() {
    assert_eq!(stroke_verdict(true, true, false, false, true), Verdict::Correct);
    assert_eq!(stroke_verdict(false, false, true, true, false), Verdict::ShapeOff);
    assert_eq!(stroke_verdict(true, false, true, true, false), Verdict::PositionOff);
    assert_eq!(stroke_verdict(true, true, true, true, false), Verdict::WrongDirection);
    assert_eq!(stroke_verdict(true, true, false, true, false), Verdict::OutOfOrder);
    assert_eq!(stroke_verdict(true, true, false, false, false), Verdict::Faint);
}

#[test]
fn feedback_starts_at_the_first_faulty_stroke() {
    let verdicts = [Verdict::Correct, Verdict::Missing, Verdict::Faint];
    assert_eq!(first_error(&verdicts), Some(1));
    assert_eq!(first_error(&[Verdict::Correct, Verdict::Correct]), None);
    assert_eq!(first_error(&[]), None);
    assert!(is_perfect(true, true, &[Verdict::Correct, Verdict::Correct]));
    assert!(!is_perfect(true, true, &verdicts));
    assert!(!is_perfect(false, true, &[Verdict::Correct]));
    assert!(!is_perfect(true, false, &[]));
}
