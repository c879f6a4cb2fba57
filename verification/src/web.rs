//! The answers of the editor's endpoints, computed from the outcome of parsing
//! the submitted YAML (the architecture, or the parser's error text).
use vstd::prelude::*;
use crate::model::Arch;
use crate::simulate::{SimResp, SimRespView, spec_simulate, simulate, step, step_view, steps_view};
use crate::validate::{
    ErrView, VErr, arch_outcomes, errs_view, passes, spec_errors, validate, within_limits,
};

verus! {

/// The answer to a validation request.
#[derive(Debug, Clone, PartialEq, Eq)]
pub struct ValidateResp {
    pub ok: bool,
    pub pass: usize,
    pub fail: usize,
    pub errors: Vec<VErr>,
}

/// The answer to a save request: whether the model is clean, its violations,
/// and the model when it parsed.
#[derive(Debug, Clone, PartialEq, Eq)]
pub struct PutResp {
    pub ok: bool,
    pub errors: Vec<VErr>,
    pub graph: Option<Arch>,
}

/// The message that reports a YAML parse failure.
pub open spec fn parse_failure_message(detail: Seq<char>) -> Seq<char> {
    "YAML 解析失败: "@ + detail
}

pub open spec fn yaml_err_view(msg: Seq<char>) -> ErrView {
    ErrView { element: Seq::empty(), rule: "yaml-parse"@, message: msg }
}

/// The violation that stands for unparsable YAML.
pub fn yaml_err(msg: String) -> (r: VErr)
    ensures
        r@ == yaml_err_view(msg@),
{
    VErr { element: String::new(), rule: String::from_str("yaml-parse"), message: msg }
}

fn parse_failure(detail: &str) -> (r: VErr)
    ensures
        r@ == yaml_err_view(parse_failure_message(detail@)),
{
    let mut m = String::from_str("YAML 解析失败: ");
    m.append(detail);
    yaml_err(m)
}

/// The answer to a validation request for the parsed model or the parse error.
pub fn validate_response(parsed: Result<Arch, String>) -> (r: ValidateResp)
    requires
        parsed matches Ok(g) ==> within_limits(g),
    ensures
        match parsed {
            Err(detail) => !r.ok && r.pass == 0 && r.fail == 1 && errs_view(r.errors@) == seq![
                yaml_err_view(parse_failure_message(detail@)),
            ],
            Ok(g) => errs_view(r.errors@) == spec_errors(g) && r.pass == passes(arch_outcomes(g)) && r.fail
                == spec_errors(g).len() && r.ok == (r.fail == 0),
        },
{
    match parsed {
        Err(detail) => {
            let errors = vec![parse_failure(detail.as_str())];
            assert(errs_view(errors@) =~= seq![yaml_err_view(parse_failure_message(detail@))]);
            ValidateResp { ok: false, pass: 0, fail: 1, errors }
        },
        Ok(graph) => {
            let (ok, pass, fail, errors) = validate(&graph);
            ValidateResp { ok, pass, fail, errors }
        },
    }
}

/// The answer to a save request for the parsed model or the parse error.
pub fn put_response(parsed: Result<Arch, String>) -> (r: PutResp)
    requires
        parsed matches Ok(g) ==> within_limits(g),
    ensures
        match parsed {
            Err(detail) => !r.ok && r.graph is None && errs_view(r.errors@) == seq![
                yaml_err_view(parse_failure_message(detail@)),
            ],
            Ok(g) => errs_view(r.errors@) == spec_errors(g) && r.ok == (spec_errors(g).len() == 0)
                && r.graph == Some(g),
        },
{
    match parsed {
        Err(detail) => {
            let errors = vec![parse_failure(detail.as_str())];
            assert(errs_view(errors@) =~= seq![yaml_err_view(parse_failure_message(detail@))]);
            PutResp { ok: false, errors, graph: None }
        },
        Ok(graph) => {
            let (ok, _, _, errors) = validate(&graph);
            PutResp { ok, errors, graph: Some(graph) }
        },
    }
}

/// The answer to a simulation request for the parsed model or the parse error.
pub fn simulate_response(parsed: Result<Arch, String>) -> (r: SimResp)
    requires
        parsed matches Ok(g) ==> within_limits(g),
    ensures
        match parsed {
            Err(detail) => r@ == (SimRespView {
                ok: false,
                entry: Seq::empty(),
                hops: 0,
                steps: seq![step_view("stall"@, "-"@, Some(parse_failure_message(detail@)))],
            }),
            Ok(g) => r@ == spec_simulate(g),
        },
{
    match parsed {
        Err(detail) => {
            let mut m = String::from_str("YAML 解析失败: ");
            m.append(detail.as_str());
            let steps = vec![step("stall", "-", Some(m))];
            let r = SimResp { ok: false, entry: String::new(), hops: 0, steps };
            assert(steps_view(r.steps@) =~= seq![
                step_view("stall"@, "-"@, Some(parse_failure_message(detail@))),
            ]);
            r
        },
        Ok(graph) => simulate(&graph),
    }
}

} // verus!
