use titanmk::adversarial::{
    bad_cycle, bad_dangling_wait, bad_nested_cycle, bad_race_diff_sm, bad_sm_conflict, good_linear,
    good_nested_repeated_block,
};
use titanmk::cuda_codegen::{generate, CudaCodegenError};
use titanmk::validator::{fingerprint_schedule, validate, ValidationError};

#[test]
fn good_linear_passes() {
    let cert = validate(&good_linear()).expect("should validate");
    assert_eq!(cert.node_count, 3);
    assert!(!cert.fingerprint.is_empty());
}

#[test]
fn cycle_rejected() {
    let err = validate(&bad_cycle()).unwrap_err();
    assert!(matches!(err, ValidationError::Cycle(_)));
}

#[test]
fn dangling_wait_rejected() {
    let err = validate(&bad_dangling_wait()).unwrap_err();
    assert_eq!(err, ValidationError::DanglingWait(0, 99));
}

#[test]
fn sm_conflict_rejected() {
    let err = validate(&bad_sm_conflict()).unwrap_err();
    assert!(matches!(err, ValidationError::SmOrderConflict { .. }));
}

#[test]
fn cross_sm_race_rejected() {
    let err = validate(&bad_race_diff_sm()).unwrap_err();
    assert!(matches!(err, ValidationError::Race { .. }));
}

#[test]
fn nested_cycle_surfaces_as_nested_failure() {
    let err = validate(&bad_nested_cycle()).unwrap_err();
    match err {
        ValidationError::NestedFailure(name, inner) => {
            assert_eq!(name, "bad_cycle");
            assert!(matches!(*inner, ValidationError::Cycle(_)));
        }
        other => panic!("expected NestedFailure, got {other:?}"),
    }
}

#[test]
fn nested_repeated_block_passes_and_aggregates_interface() {
    let cert = validate(&good_nested_repeated_block()).expect("should validate");
    // 2 nested schedules of 3 nodes each, and the 2 nodes that hold them.
    assert!(cert.node_count >= 6);
    assert!(cert.interface.contains_key("x0"));
    assert!(cert.interface.contains_key("x2"));
}

#[test]
fn fingerprints_are_deterministic_and_distinct() {
    let f1 = fingerprint_schedule(&good_linear());
    let f2 = fingerprint_schedule(&good_linear());
    let f3 = fingerprint_schedule(&bad_cycle());
    assert_eq!(f1, f2);
    assert_ne!(f1, f3);
}

#[test]
fn cuda_codegen_good_linear_emits_expected_calls() {
    let src = generate(&good_linear(), 8).expect("codegen ok");
    assert!(src.contains("struct TensorSet"));
    assert!(src.contains("void run_megakernel"));
    assert!(src.contains("titan_elementwise(x1, x0"));
    assert!(src.contains("titan_elementwise(x2, x1"));
    // The source node must not clobber its tensor.
    assert!(!src.contains("titan_zero_init(x0"));
}

#[test]
fn cuda_codegen_rejects_uncertified_schedule() {
    let err = generate(&bad_cycle(), 8).unwrap_err();
    assert!(matches!(err, CudaCodegenError::Cycle(_)));
}

#[test]
fn cuda_codegen_nested_repeated_block_inlines_recursively() {
    let src = generate(&good_nested_repeated_block(), 8).expect("codegen ok");
    let occurrences = src.matches("sub-schedule: good_linear").count();
    assert_eq!(occurrences, 2);
}
