//! The dependence tests on pairs of subscripts.

use helix::deps::{test_dimension, test_pair, Affine, DepOutcome, IterRange};

/// Whether two iterations of the range touch the same element, by trying all of them.
fn box_brute_force(range: IterRange, src: Affine, dst: Affine) -> bool {
    for i in range.lo..=range.hi {
        for j in range.lo..=range.hi {
            if src.a * i + src.b == dst.a * j + dst.b {
                return true;
            }
        }
    }
    false
}

const R: IterRange = IterRange { lo: 0, hi: 99 };

fn outcome_is_independent(src: Affine, dst: Affine) -> bool {
    matches!(test_dimension(src, dst, R), DepOutcome::Independent)
}

#[test]
fn ziv_cases() {
    assert!(outcome_is_independent(
        Affine { a: 0, b: 3 },
        Affine { a: 0, b: 5 }
    ));
    assert!(!outcome_is_independent(
        Affine { a: 0, b: 3 },
        Affine { a: 0, b: 3 }
    ));
}

#[test]
fn strong_siv_distance_one() {
    // a[i-1] vs a[i]: src coeff 1 b -1; dst coeff 1 b 0 => distance = (0-(-1))/1 = 1
    match test_dimension(Affine { a: 1, b: -1 }, Affine { a: 1, b: 0 }, R) {
        DepOutcome::Dependence {
            distance: Some(1),
            dirs,
        } => {
            assert!(dirs[0].gt && !dirs[0].lt && !dirs[0].eq);
        }
        other => panic!("expected distance-1 dependence, got {other:?}"),
    }
}

#[test]
fn strong_siv_proves_independence_on_nondivisible() {
    // 2i vs 2i+1: delta = 1 not divisible by 2 -> independent
    assert!(outcome_is_independent(
        Affine { a: 2, b: 0 },
        Affine { a: 2, b: 1 }
    ));
}

#[test]
fn weak_zero_hits_single_point() {
    // src a[i], dst a[7]: single point i=7 in range -> dependence exists
    assert!(!outcome_is_independent(
        Affine { a: 1, b: 0 },
        Affine { a: 0, b: 7 }
    ));
    // but a[200] out of range -> independent
    assert!(outcome_is_independent(
        Affine { a: 1, b: 0 },
        Affine { a: 0, b: 200 }
    ));
}

#[test]
fn weak_crossing() {
    // src a[i], dst a[-i + 100]: crossing at i=50 in range
    assert!(!outcome_is_independent(
        Affine { a: 1, b: 0 },
        Affine { a: -1, b: 100 }
    ));
    // a[i] vs a[-i + 300]: crossing at 150 out of [0,99]
    assert!(outcome_is_independent(
        Affine { a: 1, b: 0 },
        Affine { a: -1, b: 300 }
    ));
}

#[test]
fn weak_crossing_even_coefficient_solutions() {
    // Regression: the old crossing test divided by 2a instead of a, so
    // |a| > 1 pairs with even sums were wrongly declared independent.
    // src = -2i - 1, dst = 2j - 3 over [0,12]: sum i+j = (-3+1)/-2 = 1,
    // solutions (0,1),(1,0) — dependent.
    assert!(!outcome_is_independent(
        Affine { a: -2, b: -1 },
        Affine { a: 2, b: -3 }
    ));
    // Same coefficients but no in-range pair adds to the sum:
    // src = -2i (a=-2,b=0), dst = 2j + 50 over [0,12]: i+j = 25 needs
    // one side >= 13 — out of range. Independent.
    assert!(outcome_is_independent(
        Affine { a: -2, b: 0 },
        Affine { a: 2, b: 50 }
    ));
}

#[test]
fn gcd_box_general_case() {
    // a[2i] vs a[i]: 2i - j = 0, gcd(2,1)=1 divides 0 -> solutions exist (i=j even)
    assert!(!outcome_is_independent(
        Affine { a: 2, b: 0 },
        Affine { a: 1, b: 0 }
    ));
    // a[2i] vs a[2j+1]: 2i - 2j = 1, gcd 2 does not divide 1 -> independent
    assert!(outcome_is_independent(
        Affine { a: 2, b: 0 },
        Affine { a: 2, b: 1 }
    ));
}

#[test]
fn negative_range_guards() {
    // a[i-100] vs a[i] over 200 trips: distance-100 pairs exist (i >= 100)
    match test_dimension(
        Affine { a: 1, b: -100 },
        Affine { a: 1, b: 0 },
        IterRange { lo: 0, hi: 199 },
    ) {
        DepOutcome::Dependence {
            distance: Some(100),
            ..
        } => {}
        other => panic!("expected distance 100, got {other:?}"),
    }
    // Over exactly 100 trips [0,99] the reader needs iteration >= 100:
    // unreachable -> independent (bounds-awareness catches off-by-one bugs)
    assert!(matches!(
        test_dimension(
            Affine { a: 1, b: -100 },
            Affine { a: 1, b: 0 },
            IterRange { lo: 0, hi: 99 }
        ),
        DepOutcome::Independent
    ));
}

#[test]
fn multi_dim_conjunction() {
    // 2D: first dim proves independence -> overall independent
    assert!(matches!(
        test_pair(
            &[Affine { a: 0, b: 1 }, Affine { a: 1, b: 0 }],
            &[Affine { a: 0, b: 2 }, Affine { a: 1, b: 0 }],
            R
        ),
        DepOutcome::Independent
    ));
}

// ---- negative-coefficient regression tests --------------------------------
//
// box_has_solution previously flipped the feasible-t interval whenever the
// parametric step was negative (a negative subscript coefficient reaches
// the general gcd/box path via Unary::Neg, `n - i` invariant collapse, or a
// literal like `5 - 3*i`), reporting truly dependent pairs as Independent —
// an unsound SAFE verdict. These cases all have real in-range solutions.

#[test]
fn negative_step_dependent_pairs_are_never_independent() {
    // src = 5 - 2i (a[5-2i]), dst = i (a[i]) over [0,9]:
    // solutions at (i=0,j=5),(1,3),(2,1). Old code said Independent.
    let src = Affine { a: -2, b: 5 };
    let dst = Affine { a: 1, b: 0 };
    let r = IterRange { lo: 0, hi: 9 };
    assert!(
        matches!(test_dimension(src, dst, r), DepOutcome::Dependence { .. }),
        "a[5-2i] vs a[i] has real dependences at i=0..2"
    );
    // Cross-check against brute force.
    assert!(box_brute_force(r, src, dst));
}

#[test]
fn negative_step_both_sides_still_detected() {
    // src = 2i (write a[2i]), dst = 5 - i (read a[5-i]) over [0,9]:
    // equation 2i + j = 5; solutions (0,5),(1,3),(2,1).
    let src = Affine { a: 2, b: 0 };
    let dst = Affine { a: -1, b: 5 };
    let r = IterRange { lo: 0, hi: 9 };
    assert!(matches!(
        test_dimension(src, dst, r),
        DepOutcome::Dependence { .. }
    ));
    assert!(box_brute_force(r, src, dst));
}

#[test]
fn negative_coefficient_out_of_range_is_still_independent() {
    // Same shapes but the crossing points fall outside the range.
    let r = IterRange { lo: 100, hi: 199 };
    // src = 5 - 2i vs dst = i over [100,199]: lhs <= -195, rhs >= 100.
    assert!(matches!(
        test_dimension(
            Affine { a: -2, b: 5 },
            Affine { a: 1, b: 0 },
            r
        ),
        DepOutcome::Independent
    ));
    assert!(!box_brute_force(r, Affine { a: -2, b: 5 }, Affine { a: 1, b: 0 }));
}

#[test]
fn box_agrees_with_brute_force_over_sign_grid() {
    // Property sweep: every coefficient-sign combination and offset over a
    // small box must agree with brute force. This is the net that catches
    // any future sign-handling regression in the general-case path.
    let r = IterRange { lo: 0, hi: 12 };
    for sa in [-3i128, -2, -1, 1, 2, 3] {
        for sb in [-4i128, -1, 0, 3, 7] {
            for da in [-2i128, -1, 1, 2] {
                for db in [-3i128, 0, 2, 6] {
                    let src = Affine { a: sa, b: sb };
                    let dst = Affine { a: da, b: db };
                    // Skip pairs routed to earlier battery stages? No:
                    // brute force must agree with the WHOLE test_dimension,
                    // which is exactly what production runs.
                    let algebra = matches!(
                        test_dimension(src, dst, r),
                        DepOutcome::Dependence { .. }
                    );
                    let truth = box_brute_force(r, src, dst);
                    assert_eq!(
                        algebra, truth,
                        "src={sa}*i{sb:+} dst={da}*j{db:+} range=[0,12]"
                    );
                }
            }
        }
    }
}

#[test]
fn large_coefficients_are_still_analysed() {
    let big: i128 = 1 << 61;
    // The difference is odd and both coefficients are even.
    assert!(outcome_is_independent(
        Affine { a: big, b: 0 },
        Affine { a: big + 2, b: 1 }
    ));
    assert!(!outcome_is_independent(
        Affine { a: big, b: 0 },
        Affine { a: big + 2, b: 0 }
    ));
}
