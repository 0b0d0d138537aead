use puan::batch::{evaluate_pair, evaluate_pairs, evaluate_product, evaluate_row};
use puan::evaluation::ShapeError;
use puan::puan_core::{Bound, Composite, Direction, Primitive, Variable, VariableKind};
use puan::puan_eval::{
    BoundCollection, BoundSet, Fact, Interpretation, PropositionInterpretationPair,
    PropositionInterpretationPairSet, PropositionInterpretationSet,
};

fn leaf(bias: i64) -> Composite {
    Composite {
        direction: Direction::Positive,
        bias,
        variables: vec![Variable {
            kind: Some(VariableKind::Primitive(Primitive {
                bound: Some(Bound { lower: 0, upper: 1 }),
                id: "x".to_string(),
            })),
        }],
    }
}

fn broken() -> Composite {
    Composite { direction: Direction::Positive, bias: 0, variables: vec![Variable { kind: None }] }
}

fn needs_x() -> Composite {
    Composite {
        direction: Direction::Positive,
        bias: 0,
        variables: vec![Variable {
            kind: Some(VariableKind::Primitive(Primitive { bound: None, id: "x".to_string() })),
        }],
    }
}

fn x_is(value: i64) -> Interpretation {
    Interpretation { facts: vec![Fact { id: "x".to_string(), value }] }
}

fn nothing() -> Interpretation {
    Interpretation { facts: vec![] }
}

fn pair(c: Composite, i: Interpretation) -> PropositionInterpretationPair {
    PropositionInterpretationPair { proposition: Some(c), interpretation: Some(i) }
}

fn b(lower: i64, upper: i64) -> Bound {
    Bound { lower, upper }
}

#[test]
fn pair_evaluates_its_proposition_under_its_interpretation() {
    assert_eq!(evaluate_pair(&pair(leaf(-1), x_is(1))), Ok(b(1, 1)));
    assert_eq!(evaluate_pair(&pair(leaf(-1), x_is(0))), Ok(b(0, 0)));
    assert_eq!(evaluate_pair(&pair(leaf(-1), nothing())), Ok(b(0, 1)));
}

#[test]
fn pair_without_proposition_or_interpretation_is_an_error() {
    let p = PropositionInterpretationPair { proposition: None, interpretation: Some(nothing()) };
    assert_eq!(evaluate_pair(&p), Err(ShapeError::MissingProposition));
    let p = PropositionInterpretationPair { proposition: Some(leaf(0)), interpretation: None };
    assert_eq!(evaluate_pair(&p), Err(ShapeError::MissingInterpretation));
    let p = PropositionInterpretationPair { proposition: None, interpretation: None };
    assert_eq!(evaluate_pair(&p), Err(ShapeError::MissingProposition));
    assert_eq!(evaluate_pair(&pair(broken(), nothing())), Err(ShapeError::EmptyVariable));
    assert_eq!(evaluate_pair(&pair(needs_x(), nothing())), Err(ShapeError::UnboundPrimitive));
}

#[test]
fn pair_batch_is_aligned_by_position() {
    let set = PropositionInterpretationPairSet {
        pairs: vec![
            pair(leaf(-1), x_is(1)),
            pair(leaf(-1), nothing()),
            pair(leaf(-2), nothing()),
            pair(leaf(0), x_is(-1)),
        ],
    };
    assert_eq!(
        evaluate_pairs(&set),
        Ok(BoundSet { bounds: vec![b(1, 1), b(0, 1), b(0, 0), b(0, 0)] })
    );
}

#[test]
fn empty_pair_batch_gives_no_bounds() {
    let set = PropositionInterpretationPairSet { pairs: vec![] };
    assert_eq!(evaluate_pairs(&set), Ok(BoundSet { bounds: vec![] }));
}

#[test]
fn pair_batch_fails_with_its_first_error() {
    let set = PropositionInterpretationPairSet {
        pairs: vec![
            pair(leaf(0), nothing()),
            pair(needs_x(), nothing()),
            PropositionInterpretationPair { proposition: None, interpretation: None },
        ],
    };
    assert_eq!(evaluate_pairs(&set), Err(ShapeError::UnboundPrimitive));
    let set = PropositionInterpretationPairSet {
        pairs: vec![
            PropositionInterpretationPair { proposition: Some(leaf(0)), interpretation: None },
            pair(broken(), nothing()),
        ],
    };
    assert_eq!(evaluate_pairs(&set), Err(ShapeError::MissingInterpretation));
}

#[test]
fn product_batch_keeps_both_orders() {
    let set = PropositionInterpretationSet {
        propositions: vec![leaf(0), leaf(-1), leaf(-2)],
        interpretations: vec![nothing(), x_is(1), x_is(2)],
    };
    assert_eq!(
        evaluate_product(&set),
        Ok(BoundCollection {
            bound_sets: vec![
                BoundSet { bounds: vec![b(1, 1), b(1, 1), b(1, 1)] },
                BoundSet { bounds: vec![b(0, 1), b(1, 1), b(1, 1)] },
                BoundSet { bounds: vec![b(0, 0), b(0, 0), b(1, 1)] },
            ],
        })
    );
}

#[test]
fn product_batch_without_interpretations_gives_empty_sets() {
    let set = PropositionInterpretationSet {
        propositions: vec![leaf(0), broken()],
        interpretations: vec![],
    };
    assert_eq!(
        evaluate_product(&set),
        Ok(BoundCollection {
            bound_sets: vec![BoundSet { bounds: vec![] }, BoundSet { bounds: vec![] }],
        })
    );
    let set = PropositionInterpretationSet { propositions: vec![], interpretations: vec![x_is(1)] };
    assert_eq!(evaluate_product(&set), Ok(BoundCollection { bound_sets: vec![] }));
}

#[test]
fn product_batch_fails_with_its_first_error() {
    let set = PropositionInterpretationSet {
        propositions: vec![leaf(0), needs_x(), broken()],
        interpretations: vec![x_is(1), nothing()],
    };
    assert_eq!(evaluate_product(&set), Err(ShapeError::UnboundPrimitive));
    let set = PropositionInterpretationSet {
        propositions: vec![broken(), needs_x()],
        interpretations: vec![nothing()],
    };
    assert_eq!(evaluate_product(&set), Err(ShapeError::EmptyVariable));
}

#[test]
fn row_holds_one_bound_for_each_table() {
    let tables = vec![nothing().to_map(), x_is(1).to_map(), x_is(-3).to_map()];
    assert_eq!(
        evaluate_row(&leaf(-1), &tables),
        Ok(BoundSet { bounds: vec![b(0, 1), b(1, 1), b(0, 0)] })
    );
    assert_eq!(evaluate_row(&needs_x(), &tables), Err(ShapeError::UnboundPrimitive));
}

#[test]
fn bound_sets_clone_by_value() {
    let set = BoundSet { bounds: vec![b(0, 1), b(1, 1)] };
    assert_eq!(set.clone(), set);
    let collection =
        BoundCollection { bound_sets: vec![set.clone(), BoundSet { bounds: vec![] }, set] };
    assert_eq!(collection.clone(), collection);
    let fact = Fact { id: "x".to_string(), value: -4 };
    assert_eq!(fact.clone(), fact);
}
