use puan::evaluation::ShapeError;
use puan::propagation::unset_node;
use puan::puan_core::{
    BicOrBound, BinaryInequalityConstraint, Bound, CoefRelation, Composite, Direction,
    LinearBoundedTree, Primitive, Variable, VariableKind,
};
use puan::puan_eval::{Fact, Interpretation, PropositionInterpretationPair};
use puan::routes::{evaluation_method, lbt_method, EvaluationMethod, LbtMethod};
use puan::stream::{after_emit, on_pair, on_tree, Inbound, Outbound, Producer};

fn leaf_pair(bias: i64, value: Option<i64>) -> PropositionInterpretationPair {
    PropositionInterpretationPair {
        proposition: Some(Composite {
            direction: Direction::Positive,
            bias,
            variables: vec![Variable {
                kind: Some(VariableKind::Primitive(Primitive {
                    bound: Some(Bound { lower: 0, upper: 1 }),
                    id: "x".to_string(),
                })),
            }],
        }),
        interpretation: Some(Interpretation {
            facts: value.into_iter().map(|v| Fact { id: "x".to_string(), value: v }).collect(),
        }),
    }
}

#[test]
fn lbt_paths_name_their_methods() {
    assert_eq!(
        lbt_method("/puan_core.LbtEvaluationService/PropagateLbtStreamed"),
        Some(LbtMethod::PropagateLbtStreamed)
    );
    assert_eq!(
        lbt_method("/puan_core.LbtEvaluationService/PropagateLbt"),
        Some(LbtMethod::PropagateLbt)
    );
    assert_eq!(lbt_method("/puan_core.LbtEvaluationService/Propagate"), None);
    assert_eq!(lbt_method("/puan_core.LbtEvaluationService/PropagateLbt/"), None);
    assert_eq!(lbt_method("/puan_eval.EvaluationService/EvaluatePairs"), None);
    assert_eq!(lbt_method(""), None);
}

#[test]
fn evaluation_paths_name_their_methods() {
    assert_eq!(
        evaluation_method("/puan_eval.EvaluationService/EvaluatePairs"),
        Some(EvaluationMethod::EvaluatePairs)
    );
    assert_eq!(
        evaluation_method("/puan_eval.EvaluationService/EvaluatePairStreamed"),
        Some(EvaluationMethod::EvaluatePairStreamed)
    );
    assert_eq!(
        evaluation_method("/puan_eval.EvaluationService/EvaluateProduct"),
        Some(EvaluationMethod::EvaluateProduct)
    );
    assert_eq!(evaluation_method("/puan_eval.EvaluationService/evaluateproduct"), None);
    assert_eq!(evaluation_method("/puan_core.LbtEvaluationService/PropagateLbt"), None);
    assert_eq!(evaluation_method("/"), None);
}

#[test]
fn pair_stream_emits_one_result_for_each_element() {
    let step: (Producer, Option<Outbound<Bound, String>>) =
        on_pair(Inbound::Element(leaf_pair(-1, Some(1))));
    assert_eq!(step, (Producer::Draining, Some(Outbound::Value(Bound { lower: 1, upper: 1 }))));
    let step: (Producer, Option<Outbound<Bound, String>>) =
        on_pair(Inbound::Element(leaf_pair(-1, None)));
    assert_eq!(step, (Producer::Draining, Some(Outbound::Value(Bound { lower: 0, upper: 1 }))));
}

#[test]
fn pair_stream_goes_on_after_a_malformed_element() {
    let missing = PropositionInterpretationPair { proposition: None, interpretation: None };
    let step: (Producer, Option<Outbound<Bound, String>>) = on_pair(Inbound::Element(missing));
    assert_eq!(
        step,
        (Producer::Draining, Some(Outbound::Rejected(ShapeError::MissingProposition)))
    );
}

#[test]
fn pair_stream_hands_a_fault_on_in_its_place() {
    let step: (Producer, Option<Outbound<Bound, String>>) =
        on_pair(Inbound::Fault("decode".to_string()));
    assert_eq!(step, (Producer::Draining, Some(Outbound::Fault("decode".to_string()))));
}

#[test]
fn pair_stream_is_done_at_the_end_of_its_input() {
    let step: (Producer, Option<Outbound<Bound, String>>) = on_pair(Inbound::End);
    assert_eq!(step, (Producer::Done, None));
}

#[test]
fn producer_stops_at_the_first_failed_emit() {
    assert_eq!(after_emit(true), Producer::Draining);
    assert_eq!(after_emit(false), Producer::Done);
}

#[test]
fn tree_stream_emits_the_propagated_tree() {
    let mut t = LinearBoundedTree::new();
    t.insert("a".to_string(), BicOrBound::from_bound(Bound { lower: 0, upper: 1 }));
    t.insert(
        "r".to_string(),
        BicOrBound::from_bic(BinaryInequalityConstraint {
            relations: vec![CoefRelation { id: "a".to_string(), coefficient: -1 }],
        }),
    );
    let step: (Producer, Option<Outbound<LinearBoundedTree, String>>) = on_tree(Inbound::Element(t));
    assert_eq!(step.0, Producer::Draining);
    match step.1 {
        Some(Outbound::Value(out)) => {
            assert_eq!(out.get("r"), Some(&BicOrBound::from_bound(Bound { lower: 0, upper: 1 })));
            assert_eq!(out.len(), 2);
        }
        _ => panic!("a tree was expected"),
    }
}

#[test]
fn tree_stream_hands_faults_on_and_ends_with_its_input() {
    let step: (Producer, Option<Outbound<LinearBoundedTree, i32>>) = on_tree(Inbound::Fault(7));
    assert_eq!(step.0, Producer::Draining);
    assert!(matches!(step.1, Some(Outbound::Fault(7))));
    let step: (Producer, Option<Outbound<LinearBoundedTree, i32>>) = on_tree(Inbound::End);
    assert_eq!(step.0, Producer::Done);
    assert!(step.1.is_none());
}

#[test]
fn unset_node_finds_the_first_node_without_a_part() {
    let mut t = LinearBoundedTree::new();
    assert_eq!(unset_node(&t), None);
    t.insert("a".to_string(), BicOrBound::from_bound(Bound { lower: 0, upper: 1 }));
    assert_eq!(unset_node(&t), None);
    t.insert("u".to_string(), BicOrBound { part: None });
    t.insert("v".to_string(), BicOrBound { part: None });
    assert_eq!(unset_node(&t), Some("u".to_string()));
    t.insert("u".to_string(), BicOrBound::from_bound(Bound { lower: 1, upper: 1 }));
    assert_eq!(unset_node(&t), Some("v".to_string()));
}
