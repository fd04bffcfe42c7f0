use titanmk::adversarial::{bad_cycle, bad_nested_cycle, good_linear, good_nested_repeated_block};
use titanmk::cuda_codegen::{generate_with_fields, CudaCodegenError};
use titanmk::driver::{certified_source, demo_cases, run_case, CertifiedSourceError, DemoCase};
use titanmk::ir::{Node, NodeKind, OpKind, Schedule};
use titanmk::validator::{validate, ValidationError};

#[test]
fn certified_schedules_get_source() {
    let out = certified_source(&good_nested_repeated_block(), 8).expect("certified");
    let (source, fields) = generate_with_fields(&good_nested_repeated_block(), 8).expect("ordered");
    assert_eq!(out.source, source);
    assert_eq!(out.fields, fields);
    let cert = validate(&good_nested_repeated_block()).expect("certified");
    assert_eq!(out.certificate.fingerprint, cert.fingerprint);
    assert_eq!(out.certificate.schedule_name, cert.schedule_name);
}

#[test]
fn rejected_schedules_get_none() {
    match certified_source(&bad_cycle(), 8) {
        Err(CertifiedSourceError::Rejected(ValidationError::Cycle(_))) => {}
        other => panic!("expected a rejection, got {other:?}"),
    }
    match certified_source(&bad_nested_cycle(), 8) {
        Err(CertifiedSourceError::Rejected(ValidationError::NestedFailure(name, _))) => {
            assert_eq!(name, "bad_cycle")
        }
        other => panic!("expected a rejection, got {other:?}"),
    }
}

#[test]
fn certified_schedules_can_lack_tensors() {
    let mut s = Schedule::new("s");
    s.push(Node {
        id: 2,
        kind: NodeKind::Op(OpKind::RmsNorm { dim: 4 }),
        inputs: vec![],
        outputs: vec![],
        sm: 0,
        waits_on: vec![],
    });
    match certified_source(&s, 8) {
        Err(CertifiedSourceError::Codegen(CudaCodegenError::BadArity(2, op))) => {
            assert_eq!(op, OpKind::RmsNorm { dim: 4 })
        }
        other => panic!("expected too few tensors, got {other:?}"),
    }
}

#[test]
fn every_demo_case_behaves() {
    let cases = demo_cases();
    let names: Vec<&str> = cases.iter().map(|c| c.name.as_str()).collect();
    assert_eq!(
        names,
        vec![
            "good_linear",
            "good_nested_repeated_block",
            "bad_cycle",
            "bad_dangling_wait",
            "bad_sm_conflict",
            "bad_race_diff_sm",
            "bad_nested_cycle",
        ]
    );
    for case in &cases {
        let outcome = run_case(case);
        assert!(outcome.as_expected, "{}", case.name);
        assert_eq!(outcome.result.is_ok(), case.expect_ok);
    }
}

#[test]
fn a_wrong_expectation_shows() {
    let case = DemoCase {
        name: "hopeful".to_string(),
        schedule: bad_cycle(),
        expect_ok: true,
    };
    let outcome = run_case(&case);
    assert!(!outcome.as_expected);
    assert!(outcome.result.is_err());
    let doubtful = DemoCase {
        name: "doubtful".to_string(),
        schedule: good_linear(),
        expect_ok: false,
    };
    assert!(!run_case(&doubtful).as_expected);
}
