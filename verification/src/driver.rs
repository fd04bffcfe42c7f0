//! What the command line does with a schedule once it has been read.
use vstd::prelude::*;

use crate::adversarial::{
    bad_cycle, bad_dangling_wait, bad_nested_cycle, bad_race_diff_sm, bad_sm_conflict, cycle_model,
    dangling_wait_model, good_linear, good_nested_repeated_block, linear_model, nested_cycle_model,
    race_model, repeated_block_model, sm_conflict_model,
};
use crate::cuda_codegen::{
    cuda_fields, cuda_source, generate_with_fields, CodegenErrorModel, CudaCodegenError,
};
use crate::ir::{Schedule, ScheduleModel};
use crate::rules::{certifiable, rejects};
use crate::validator::{validate, Certificate, ValidationError};

verus! {

/// Source for a schedule, together with the certificate it was issued on.
#[derive(Debug)]
pub struct CertifiedSource {
    pub certificate: Certificate,
    /// The source itself.
    pub source: String,
    /// The list of pointers to its tensors.
    pub fields: String,
}

/// Why no source was issued.
#[derive(Debug)]
pub enum CertifiedSourceError {
    /// The schedule was not certified, so nothing was generated for it.
    Rejected(ValidationError),
    /// The schedule was certified, but generating source failed.
    Codegen(CudaCodegenError),
}

/// Validates a schedule, and generates source for it only if it is certified.
pub fn certified_source(schedule: &Schedule, tensor_len: u64) -> (res: Result<
    CertifiedSource,
    CertifiedSourceError,
>)
    ensures
        match res {
            Ok(out) => {
                &&& certifiable(schedule@)
                &&& out.certificate.describes(schedule@)
                &&& cuda_source(schedule@, tensor_len) == Ok::<_, CodegenErrorModel>(out.source@)
                &&& out.fields@ == cuda_fields(schedule@)
            },
            Err(CertifiedSourceError::Rejected(e)) => !certifiable(schedule@) && rejects(
                schedule@,
                e@,
            ),
            Err(CertifiedSourceError::Codegen(e)) => certifiable(schedule@) && cuda_source(
                schedule@,
                tensor_len,
            ) == Err::<Seq<char>, _>(e@),
        },
{
    let certificate = match validate(schedule) {
        Ok(certificate) => certificate,
        Err(e) => {
            return Err(CertifiedSourceError::Rejected(e));
        },
    };
    match generate_with_fields(schedule, tensor_len) {
        Ok((source, fields)) => Ok(CertifiedSource { certificate, source, fields }),
        Err(e) => Err(CertifiedSourceError::Codegen(e)),
    }
}

/// A schedule with a name, and whether it is expected to be certified.
#[derive(Debug)]
pub struct DemoCase {
    pub name: String,
    pub schedule: Schedule,
    pub expect_ok: bool,
}

/// What a [`DemoCase`] is.
#[verifier::ext_equal]
pub struct DemoCaseModel {
    pub name: Seq<char>,
    pub schedule: ScheduleModel,
    pub expect_ok: bool,
}

impl View for DemoCase {
    type V = DemoCaseModel;

    open spec fn view(&self) -> DemoCaseModel {
        DemoCaseModel { name: self.name@, schedule: self.schedule@, expect_ok: self.expect_ok }
    }
}

/// How a case came out.
#[derive(Debug)]
pub struct CaseOutcome {
    pub as_expected: bool,
    pub result: Result<Certificate, ValidationError>,
}

/// The cases of the demo.
pub open spec fn demo_models() -> Seq<DemoCaseModel> {
    seq![
        DemoCaseModel { name: "good_linear"@, schedule: linear_model(), expect_ok: true },
        DemoCaseModel {
            name: "good_nested_repeated_block"@,
            schedule: repeated_block_model(),
            expect_ok: true,
        },
        DemoCaseModel { name: "bad_cycle"@, schedule: cycle_model(), expect_ok: false },
        DemoCaseModel {
            name: "bad_dangling_wait"@,
            schedule: dangling_wait_model(),
            expect_ok: false,
        },
        DemoCaseModel { name: "bad_sm_conflict"@, schedule: sm_conflict_model(), expect_ok: false },
        DemoCaseModel { name: "bad_race_diff_sm"@, schedule: race_model(), expect_ok: false },
        DemoCaseModel {
            name: "bad_nested_cycle"@,
            schedule: nested_cycle_model(),
            expect_ok: false,
        },
    ]
}

fn add_case(cases: &mut Vec<DemoCase>, name: &str, schedule: Schedule, expect_ok: bool)
    ensures
        final(cases)@.len() == old(cases)@.len() + 1,
        forall|i: int|
            0 <= i < old(cases)@.len() ==> #[trigger] final(cases)@[i] == old(cases)@[i],
        final(cases)@[old(cases)@.len() as int]@ == (DemoCaseModel {
            name: name@,
            schedule: schedule@,
            expect_ok,
        }),
{
    cases.push(DemoCase { name: name.to_owned(), schedule, expect_ok });
}

/// The cases of the demo. What is expected of each is what it deserves.
pub fn demo_cases() -> (res: Vec<DemoCase>)
    ensures
        res@.map_values(|c: DemoCase| c@) == demo_models(),
        forall|i: int|
            0 <= i < res@.len() ==> (#[trigger] res@[i]).expect_ok == certifiable(
                res@[i].schedule@,
            ),
{
    let mut cases: Vec<DemoCase> = Vec::new();
    add_case(&mut cases, "good_linear", good_linear(), true);
    add_case(&mut cases, "good_nested_repeated_block", good_nested_repeated_block(), true);
    add_case(&mut cases, "bad_cycle", bad_cycle(), false);
    add_case(&mut cases, "bad_dangling_wait", bad_dangling_wait(), false);
    add_case(&mut cases, "bad_sm_conflict", bad_sm_conflict(), false);
    add_case(&mut cases, "bad_race_diff_sm", bad_race_diff_sm(), false);
    add_case(&mut cases, "bad_nested_cycle", bad_nested_cycle(), false);
    assert(cases@.map_values(|c: DemoCase| c@) =~= demo_models());
    cases
}

/// Validates the schedule of a case and compares with what is expected of it.
pub fn run_case(case: &DemoCase) -> (res: CaseOutcome)
    ensures
        res.as_expected == (certifiable(case.schedule@) == case.expect_ok),
        match res.result {
            Ok(cert) => certifiable(case.schedule@) && cert.describes(case.schedule@),
            Err(e) => !certifiable(case.schedule@) && rejects(case.schedule@, e@),
        },
{
    let result = validate(&case.schedule);
    let ok = match &result {
        Ok(_) => true,
        Err(_) => false,
    };
    CaseOutcome { as_expected: ok == case.expect_ok, result }
}

} // verus!
