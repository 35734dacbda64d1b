//! The programs that are measured, and changing their sizes.

use helix::kernels::{
    registry, ExpectedVerdict, RunOutputLike, Tolerance, DOT_SRC, FIB_SRC, JACOBI_SRC, MATMUL_SRC,
    ONE_BILLIONTH, SAXPY_SRC, SMALL_N_SRC,
};
use helix::resize::resize_source;

/// Compares two lines as numbers, up to a relative bound.
fn close(eps: u64, x: &String, y: &String) -> bool {
    match (x.parse::<f64>(), y.parse::<f64>()) {
        (Ok(fx), Ok(fy)) => {
            let scale = fx.abs().max(fy.abs());
            (fx - fy).abs() <= f64::from_bits(eps) * scale
        }
        _ => false,
    }
}

#[test]
fn registry_has_expected_members_and_order() {
    let reg = registry();
    let names: Vec<_> = reg.iter().map(|k| k.name.as_str()).collect();
    assert_eq!(
        names,
        vec![
            "scale",
            "saxpy",
            "dot_reduction",
            "minmax_reduction",
            "count_primes_sieve",
            "recurrence_reject",
            "small_n",
            "jacobi_2d",
            "matmul",
            "fib_recursion",
        ]
    );
    // Exactly one deliberate negative, clearly labelled.
    assert_eq!(
        reg.iter()
            .filter(|k| k.expected_verdict == ExpectedVerdict::Sequential)
            .map(|k| k.name.as_str())
            .collect::<Vec<_>>(),
        vec!["recurrence_reject"]
    );
}

#[test]
fn resize_rewrites_declared_sizes_only() {
    let resized = resize_source(MATMUL_SRC, &[("N", 8)]);
    assert!(resized.contains("const N: i64 = 8;"));
    assert!(!resized.contains("const N: i64 = 512;"));
    // The init loop bound `for i in 0..nn` derives from N, untouched.
    assert!(resized.contains("let nn = N * N;"));

    let saxpy_small = resize_source(SAXPY_SRC, &[("n", 1024)]);
    assert!(saxpy_small.contains("let n = 1024;"));
    assert!(!saxpy_small.contains("33554432"));
}

#[test]
fn resize_is_idempotent_and_leaves_other_names_alone() {
    let once = resize_source(JACOBI_SRC, &[("SIZE", 16), ("ITER", 2)]);
    let twice = resize_source(&once, &[("SIZE", 16), ("ITER", 2)]);
    assert_eq!(once, twice);
    // Unknown names change nothing.
    assert_eq!(resize_source(SMALL_N_SRC, &[("zzz", 5)]), SMALL_N_SRC);
}

#[test]
fn tolerance_policies_behave() {
    let lines = |xs: &[&str]| -> Vec<String> { xs.iter().map(|s| (*s).to_string()).collect() };
    let eps = Tolerance::RelEps(1e-9f64.to_bits());
    assert!(Tolerance::Exact.matches(&lines(&["25"]), &lines(&["25"]), &close));
    assert!(!Tolerance::Exact.matches(
        &lines(&["0.30000000000000004"]),
        &lines(&["0.3"]),
        &close
    ));
    assert!(eps.matches(&lines(&["1000000.000001"]), &lines(&["1000000.0"]), &close));
    assert!(!eps.matches(&lines(&["1.1"]), &lines(&["1.2"]), &close));
    // Length mismatch fails under any policy.
    assert!(!Tolerance::Exact.matches(&lines(&["1"]), &lines(&["1", "2"]), &close));
    assert_eq!(Tolerance::Exact.name(""), "exact");
    assert_eq!(eps.name(&format!("{:e}", 1e-9)), "rel_eps=1e-9");
}

#[test]
fn source_at_size_targets_each_kernel_shape() {
    let reg = registry();
    let matmul = reg.iter().find(|k| k.name == "matmul").unwrap();
    assert!(matmul.source_at_size(128).contains("const N: i64 = 128;"));
    let jacobi = reg.iter().find(|k| k.name == "jacobi_2d").unwrap();
    assert!(jacobi.source_at_size(64).contains("const SIZE: i64 = 64;"));
    let saxpy = reg.iter().find(|k| k.name == "saxpy").unwrap();
    assert!(saxpy.source_at_size(65_536).contains("let n = 65536;"));
}

#[test]
fn parallel_candidates_exclude_negative_and_correctness_kernels() {
    let reg = registry();
    let seq = reg
        .iter()
        .filter(|k| !k.is_parallel_candidate())
        .map(|k| k.name.as_str())
        .collect::<Vec<_>>();
    assert_eq!(seq, vec!["recurrence_reject", "fib_recursion"]);
}

#[test]
fn the_bound_is_one_billionth() {
    assert_eq!(f64::from_bits(ONE_BILLIONTH), 1e-9);
}

#[test]
fn registered_kernels_carry_their_data() {
    let reg = registry();
    let dot = &reg[2];
    assert_eq!(dot.perf_source, DOT_SRC);
    assert!(dot.correctness_source.contains("let n = 4096;"));
    assert_eq!(dot.sizes, vec![65_536, 4_194_304]);
    assert_eq!(dot.tolerance, Tolerance::RelEps(ONE_BILLIONTH));
    assert_eq!(dot.expected_printed, vec!["5206.808080808095"]);
    assert_eq!(dot.interp_max_size, 400_000);
    let fib = &reg[9];
    assert_eq!(fib.correctness_source, FIB_SRC);
    assert!(fib.correctness_only);
    assert_eq!(fib.interp_max_size, i64::MAX);
    assert_eq!(fib.expected_verdict.label(), "NotApplicable");
}

#[test]
fn only_the_first_declaration_is_rewritten() {
    let src = "let n = 1;\n  let n = 2;\nconst n: i64 = 3;\n";
    assert_eq!(
        resize_source(src, &[("n", 9)]),
        "let n = 9;\n  let n = 2;\nconst n: i64 = 9;\n"
    );
}

#[test]
fn rewriting_keeps_indentation_and_line_ends() {
    // tabs become as many spaces as they take bytes; a carriage return stays
    assert_eq!(resize_source("a\r\n\t\tlet n = 5;\r\nb\n\n", &[("n", -7)]),
        "a\r\n  let n = -7;\r\nb\n\n");
    // names match as a whole
    assert_eq!(resize_source("let nn = 5;", &[("n", 1)]), "let nn = 5;");
    // one change after another
    assert_eq!(
        resize_source("let a = 1;\nlet b = 2;", &[("a", 3), ("b", 4)]),
        "let a = 3;\nlet b = 4;"
    );
}

#[test]
fn outputs_are_taken_over_as_they_are() {
    let out = helix::interp::RunOutput { printed: vec!["1".to_string(), "2".to_string()], checksum: 77 };
    let like = RunOutputLike::from_engine(&out);
    assert_eq!(like.printed, vec!["1", "2"]);
    assert_eq!(like.checksum, 77);
}
