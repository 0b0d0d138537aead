use puan::evaluation::{evaluate, evaluate_under, primitive_bound, ShapeError};
use puan::puan_core::{Bound, Composite, Direction, Primitive, Variable, VariableKind};
use puan::puan_eval::{Fact, Interpretation};

fn primitive(id: &str, lower: i64, upper: i64) -> Variable {
    Variable {
        kind: Some(VariableKind::Primitive(Primitive {
            bound: Some(Bound { lower, upper }),
            id: id.to_string(),
        })),
    }
}

fn bare(id: &str) -> Variable {
    Variable { kind: Some(VariableKind::Primitive(Primitive { bound: None, id: id.to_string() })) }
}

fn composite(direction: Direction, bias: i64, variables: Vec<Variable>) -> Composite {
    Composite { direction, bias, variables }
}

fn nested(c: Composite) -> Variable {
    Variable { kind: Some(VariableKind::Composite(c)) }
}

fn interpretation(facts: &[(&str, i64)]) -> Interpretation {
    Interpretation {
        facts: facts.iter().map(|(id, value)| Fact { id: id.to_string(), value: *value }).collect(),
    }
}

fn ok(lower: i64, upper: i64) -> Result<Bound, ShapeError> {
    Ok(Bound { lower, upper })
}

#[test]
fn leaf_composite_satisfied() {
    let c = composite(Direction::Positive, 0, vec![primitive("x", 0, 1)]);
    assert_eq!(evaluate(&c, &interpretation(&[("x", 1)])), ok(1, 1));
}

#[test]
fn leaf_composite_default_bound_range() {
    let none = interpretation(&[]);
    let c = composite(Direction::Positive, 0, vec![primitive("x", 0, 1)]);
    assert_eq!(evaluate(&c, &none), ok(1, 1));
    let c = composite(Direction::Positive, -1, vec![primitive("x", 0, 1)]);
    assert_eq!(evaluate(&c, &none), ok(0, 1));
    let c = composite(Direction::Positive, -2, vec![primitive("x", 0, 1)]);
    assert_eq!(evaluate(&c, &none), ok(0, 0));
}

#[test]
fn sign_flip() {
    let c = composite(Direction::Negative, 0, vec![primitive("x", 0, 1)]);
    assert_eq!(evaluate(&c, &interpretation(&[])), ok(0, 1));
}

#[test]
fn nested_composite() {
    let outer = composite(
        Direction::Positive,
        0,
        vec![nested(composite(
            Direction::Positive,
            -1,
            vec![primitive("a", 0, 1), primitive("b", 0, 1)],
        ))],
    );
    assert_eq!(evaluate(&outer, &interpretation(&[("a", 1), ("b", 1)])), ok(1, 1));
    assert_eq!(evaluate(&outer, &interpretation(&[])), ok(1, 1));
}

#[test]
fn nested_composite_inner_bounds() {
    let inner = composite(
        Direction::Positive,
        -1,
        vec![primitive("a", 0, 1), primitive("b", 0, 1)],
    );
    assert_eq!(evaluate(&inner, &interpretation(&[("a", 1), ("b", 1)])), ok(1, 1));
    assert_eq!(evaluate(&inner, &interpretation(&[])), ok(0, 1));
    assert_eq!(evaluate(&inner, &interpretation(&[("a", 0), ("b", 0)])), ok(0, 0));
}

#[test]
fn result_is_a_truth_interval() {
    let shapes = vec![
        composite(Direction::Positive, 0, vec![]),
        composite(Direction::Positive, -3, vec![primitive("x", -5, 9), primitive("y", 2, 2)]),
        composite(Direction::Negative, 4, vec![primitive("x", -5, 9), primitive("y", 2, 2)]),
        composite(
            Direction::Negative,
            0,
            vec![nested(composite(Direction::Positive, -1, vec![primitive("x", 0, 1)]))],
        ),
    ];
    let interpretations =
        vec![interpretation(&[]), interpretation(&[("x", 7)]), interpretation(&[("x", -7), ("y", 0)])];
    for c in &shapes {
        for i in &interpretations {
            let b = evaluate(c, i).unwrap();
            assert!(b.lower == 0 || b.lower == 1);
            assert!(b.upper == 0 || b.upper == 1);
            assert!(b.lower <= b.upper);
        }
    }
}

#[test]
fn evaluation_is_deterministic() {
    let build = || {
        composite(
            Direction::Negative,
            2,
            vec![
                primitive("x", 0, 3),
                nested(composite(Direction::Positive, -1, vec![primitive("y", 0, 1)])),
            ],
        )
    };
    let i = interpretation(&[("y", 1)]);
    let first = evaluate(&build(), &i);
    assert_eq!(first, evaluate(&build(), &i));
    assert_eq!(first, evaluate(&build(), &interpretation(&[("y", 1)])));
    // -[0,3] - [1,1] + 2 = [-2,1]
    assert_eq!(first, ok(0, 1));
}

#[test]
fn interpretation_shadows_the_default_bound() {
    for v in [-2i64, 0, 1, 5] {
        let with_entry = composite(
            Direction::Positive,
            -1,
            vec![primitive("p", 0, 1), primitive("q", 0, 1)],
        );
        let pinned = composite(
            Direction::Positive,
            -1,
            vec![primitive("p", v, v), primitive("q", 0, 1)],
        );
        assert_eq!(
            evaluate(&with_entry, &interpretation(&[("p", v)])),
            evaluate(&pinned, &interpretation(&[]))
        );
    }
    // below a nested composite, and for a primitive that occurs twice
    let with_entry = composite(
        Direction::Negative,
        1,
        vec![
            primitive("p", 0, 1),
            nested(composite(Direction::Positive, 0, vec![primitive("p", 0, 1)])),
        ],
    );
    let pinned = composite(
        Direction::Negative,
        1,
        vec![
            primitive("p", 1, 1),
            nested(composite(Direction::Positive, 0, vec![primitive("p", 1, 1)])),
        ],
    );
    assert_eq!(
        evaluate(&with_entry, &interpretation(&[("p", 1)])),
        evaluate(&pinned, &interpretation(&[]))
    );
    assert_eq!(evaluate(&pinned, &interpretation(&[])), ok(0, 0));
}

#[test]
fn negative_direction_negates_every_contribution() {
    // children [1,3] and [-2,5]: positive sums [-1,8], negative sums [-8,1]
    let children = || vec![primitive("x", 1, 3), primitive("y", -2, 5)];
    for (bias, positive, negative) in [
        (0, ok(0, 1), ok(0, 1)),
        (1, ok(1, 1), ok(0, 1)),
        (-1, ok(0, 1), ok(0, 1)),
        (8, ok(1, 1), ok(1, 1)),
        (-2, ok(0, 1), ok(0, 0)),
        (-9, ok(0, 0), ok(0, 0)),
    ] {
        let i = interpretation(&[]);
        assert_eq!(evaluate(&composite(Direction::Positive, bias, children()), &i), positive);
        assert_eq!(evaluate(&composite(Direction::Negative, bias, children()), &i), negative);
        // the same as the positive composite over the negated bounds
        let negated = vec![primitive("x", -3, -1), primitive("y", -5, 2)];
        assert_eq!(evaluate(&composite(Direction::Positive, bias, negated), &i), negative);
    }
}

#[test]
fn empty_child_list_depends_on_the_bias_alone() {
    let i = interpretation(&[("x", 1)]);
    assert_eq!(evaluate(&composite(Direction::Positive, 0, vec![]), &i), ok(1, 1));
    assert_eq!(evaluate(&composite(Direction::Positive, 3, vec![]), &i), ok(1, 1));
    assert_eq!(evaluate(&composite(Direction::Positive, -1, vec![]), &i), ok(0, 0));
    assert_eq!(evaluate(&composite(Direction::Negative, -1, vec![]), &i), ok(0, 0));
    assert_eq!(evaluate(&composite(Direction::Negative, 0, vec![]), &i), ok(1, 1));
}

#[test]
fn variable_without_a_kind_is_an_error() {
    let c = composite(Direction::Positive, 0, vec![primitive("x", 0, 1), Variable { kind: None }]);
    assert_eq!(evaluate(&c, &interpretation(&[])), Err(ShapeError::EmptyVariable));
    let deep = composite(Direction::Positive, 0, vec![nested(c)]);
    assert_eq!(evaluate(&deep, &interpretation(&[("x", 1)])), Err(ShapeError::EmptyVariable));
}

#[test]
fn primitive_without_bound_needs_a_value() {
    let c = composite(Direction::Positive, 0, vec![bare("x")]);
    assert_eq!(evaluate(&c, &interpretation(&[])), Err(ShapeError::UnboundPrimitive));
    assert_eq!(evaluate(&c, &interpretation(&[("y", 1)])), Err(ShapeError::UnboundPrimitive));
    assert_eq!(evaluate(&c, &interpretation(&[("x", 1)])), ok(1, 1));
    assert_eq!(evaluate(&c, &interpretation(&[("x", -1)])), ok(0, 0));
}

#[test]
fn first_error_in_order_is_reported() {
    let c = composite(Direction::Positive, 0, vec![bare("x"), Variable { kind: None }]);
    assert_eq!(evaluate(&c, &interpretation(&[])), Err(ShapeError::UnboundPrimitive));
    let c = composite(Direction::Positive, 0, vec![Variable { kind: None }, bare("x")]);
    assert_eq!(evaluate(&c, &interpretation(&[])), Err(ShapeError::EmptyVariable));
    let c = composite(
        Direction::Positive,
        0,
        vec![
            nested(composite(Direction::Positive, 0, vec![Variable { kind: None }])),
            bare("x"),
        ],
    );
    assert_eq!(evaluate(&c, &interpretation(&[])), Err(ShapeError::EmptyVariable));
}

#[test]
fn later_fact_about_an_identifier_wins() {
    let c = composite(Direction::Positive, -1, vec![primitive("x", 0, 1)]);
    assert_eq!(evaluate(&c, &interpretation(&[("x", 0), ("x", 1)])), ok(1, 1));
    assert_eq!(evaluate(&c, &interpretation(&[("x", 1), ("x", 0)])), ok(0, 0));
    assert_eq!(evaluate(&c, &interpretation(&[("x", 1), ("y", 0), ("x", 0), ("y", 5)])), ok(0, 0));
}

#[test]
fn ill_ordered_bound_gives_an_ill_ordered_interval() {
    let c = composite(Direction::Positive, 0, vec![primitive("x", 1, -1)]);
    assert_eq!(evaluate(&c, &interpretation(&[])), ok(1, 0));
}

#[test]
fn evaluator_sums_wrap_round_in_sixty_four_bits() {
    let c = composite(
        Direction::Positive,
        0,
        vec![primitive("x", i64::MAX, i64::MAX), primitive("y", 1, 1)],
    );
    assert_eq!(evaluate(&c, &interpretation(&[])), ok(0, 0));
    let c = composite(Direction::Positive, 1, vec![primitive("x", i64::MAX, i64::MAX)]);
    assert_eq!(evaluate(&c, &interpretation(&[])), ok(0, 0));
    // the negation of the least value is itself
    let c = composite(Direction::Negative, 0, vec![primitive("x", i64::MIN, i64::MIN)]);
    assert_eq!(evaluate(&c, &interpretation(&[])), ok(0, 0));
    // a sum that leaves the range and comes back is exact
    let c = composite(
        Direction::Positive,
        0,
        vec![primitive("x", i64::MAX, i64::MAX), primitive("y", 5, 5), primitive("z", -10, -10)],
    );
    assert_eq!(evaluate(&c, &interpretation(&[])), ok(1, 1));
}

#[test]
fn evaluate_under_a_table_agrees_with_evaluate() {
    let c = composite(
        Direction::Negative,
        1,
        vec![primitive("x", 0, 1), bare("y")],
    );
    let i = interpretation(&[("y", 1), ("y", 0)]);
    let table = i.to_map();
    assert_eq!(evaluate_under(&c, &table), evaluate(&c, &i));
    // -[0,1] - [0,0] + 1 = [0,1]
    assert_eq!(evaluate_under(&c, &table), ok(1, 1));
}

#[test]
fn primitive_bound_prefers_the_table() {
    let i = interpretation(&[("x", 4)]);
    let table = i.to_map();
    let x = Primitive { bound: Some(Bound { lower: 0, upper: 1 }), id: "x".to_string() };
    let y = Primitive { bound: Some(Bound { lower: 0, upper: 1 }), id: "y".to_string() };
    let z = Primitive { bound: None, id: "z".to_string() };
    assert_eq!(primitive_bound(&x, &table), ok(4, 4));
    assert_eq!(primitive_bound(&y, &table), ok(0, 1));
    assert_eq!(primitive_bound(&z, &table), Err(ShapeError::UnboundPrimitive));
}

#[test]
fn variables_are_built_from_their_kind() {
    let p = Primitive { bound: Some(Bound { lower: 0, upper: 1 }), id: "x".to_string() };
    assert_eq!(Variable::from_primitive(p.clone()), primitive("x", 0, 1));
    let c = composite(Direction::Negative, 3, vec![primitive("x", 0, 1)]);
    let v = Variable::from_composite(c.clone());
    assert_eq!(v, nested(composite(Direction::Negative, 3, vec![primitive("x", 0, 1)])));
    assert_eq!(v.clone(), v);
    assert_eq!(c.clone(), c);
}

#[test]
fn clone_of_a_proposition_evaluates_alike() {
    let c = composite(
        Direction::Negative,
        1,
        vec![
            primitive("x", 0, 3),
            nested(composite(Direction::Positive, -2, vec![primitive("y", 0, 1), bare("z")])),
            Variable { kind: None },
        ],
    );
    let i = interpretation(&[("z", 2)]);
    assert_eq!(evaluate(&c.clone(), &i.clone()), evaluate(&c, &i));
    assert_eq!(evaluate(&c, &i), Err(ShapeError::EmptyVariable));
    assert_eq!(i.clone(), i);
}
