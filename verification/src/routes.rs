//! The two services and their methods, and the request paths that name them.

use vstd::prelude::*;

verus! {

/// A method of the linear bounded tree service.
#[derive(Clone, Copy, Debug, PartialEq, Eq, Structural)]
pub enum LbtMethod {
    PropagateLbtStreamed,
    PropagateLbt,
}

/// A method of the evaluation service.
#[derive(Clone, Copy, Debug, PartialEq, Eq, Structural)]
pub enum EvaluationMethod {
    EvaluatePairs,
    EvaluatePairStreamed,
    EvaluateProduct,
}

/// The method of the linear bounded tree service that `path` names.
pub open spec fn lbt_method_of(path: Seq<char>) -> Option<LbtMethod> {
    if path == "/puan_core.LbtEvaluationService/PropagateLbtStreamed"@ {
        Some(LbtMethod::PropagateLbtStreamed)
    } else if path == "/puan_core.LbtEvaluationService/PropagateLbt"@ {
        Some(LbtMethod::PropagateLbt)
    } else {
        None
    }
}

/// The method of the evaluation service that `path` names.
pub open spec fn evaluation_method_of(path: Seq<char>) -> Option<EvaluationMethod> {
    if path == "/puan_eval.EvaluationService/EvaluatePairs"@ {
        Some(EvaluationMethod::EvaluatePairs)
    } else if path == "/puan_eval.EvaluationService/EvaluatePairStreamed"@ {
        Some(EvaluationMethod::EvaluatePairStreamed)
    } else if path == "/puan_eval.EvaluationService/EvaluateProduct"@ {
        Some(EvaluationMethod::EvaluateProduct)
    } else {
        None
    }
}

/// Which method of the linear bounded tree service a request path asks for;
/// `None` for a path that the service does not implement.
pub fn lbt_method(path: &str) -> (r: Option<LbtMethod>)
    ensures
        r == lbt_method_of(path@),
{
    let asked: String = path.to_owned();
    if asked == "/puan_core.LbtEvaluationService/PropagateLbtStreamed".to_owned() {
        Some(LbtMethod::PropagateLbtStreamed)
    } else if asked == "/puan_core.LbtEvaluationService/PropagateLbt".to_owned() {
        Some(LbtMethod::PropagateLbt)
    } else {
        None
    }
}

/// Which method of the evaluation service a request path asks for; `None`
/// for a path that the service does not implement.
pub fn evaluation_method(path: &str) -> (r: Option<EvaluationMethod>)
    ensures
        r == evaluation_method_of(path@),
{
    let asked: String = path.to_owned();
    if asked == "/puan_eval.EvaluationService/EvaluatePairs".to_owned() {
        Some(EvaluationMethod::EvaluatePairs)
    } else if asked == "/puan_eval.EvaluationService/EvaluatePairStreamed".to_owned() {
        Some(EvaluationMethod::EvaluatePairStreamed)
    } else if asked == "/puan_eval.EvaluationService/EvaluateProduct".to_owned() {
        Some(EvaluationMethod::EvaluateProduct)
    } else {
        None
    }
}

} // verus!
