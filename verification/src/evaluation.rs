//! The evaluator: folds a composite proposition and an interpretation into
//! the truth interval of the proposition.

use vstd::prelude::*;
use vstd::hash_map::StringHashMap;
use crate::puan_core::{
    lemma_truth_interval_ordered, truth_interval, Bound, Composite, CompositeValue, Direction,
    Primitive, PrimitiveValue, VariableKind, VariableValue,
};
use crate::puan_eval::Interpretation;
use crate::wrap::{add64, indicator, lemma_wrap64_add, neg64, wrap64};

verus! {

/// What is wrong with the shape of an input.
#[derive(Clone, Copy, Debug, PartialEq, Eq, Structural)]
pub enum ShapeError {
    /// A variable is neither a composite nor a primitive.
    EmptyVariable,
    /// A primitive has no value in the interpretation and no bound of its own.
    UnboundPrimitive,
    /// A pair has no proposition.
    MissingProposition,
    /// A pair has no interpretation.
    MissingInterpretation,
}

/// The bound that a primitive contributes: the single value that the
/// assignment gives it, else its own bound.
pub open spec fn contribution(primitive: PrimitiveValue, a: Map<Seq<char>, i64>) -> Result<
    Bound,
    ShapeError,
> {
    if a.contains_key(primitive.id) {
        Ok(Bound { lower: a[primitive.id], upper: a[primitive.id] })
    } else {
        match primitive.bound {
            Some(bound) => Ok(bound),
            None => Err(ShapeError::UnboundPrimitive),
        }
    }
}

/// The ends of a child's bound as they enter the sum of a composite with
/// direction `direction`: as they are, or negated and swapped.
pub open spec fn signed(direction: Direction, bound: Bound) -> (int, int) {
    match direction {
        Direction::Positive => (bound.lower as int, bound.upper as int),
        Direction::Negative => (-bound.upper, -bound.lower),
    }
}

/// The truth interval of a composite under an assignment, or the first
/// malformed input met on the way, children taken depth first and in order.
pub open spec fn evaluation(composite: CompositeValue, a: Map<Seq<char>, i64>) -> Result<
    Bound,
    ShapeError,
>
    decreases composite,
{
    match signed_sums(composite.variables, composite.direction, a) {
        Ok(sums) => Ok(truth_interval(sums.0 + composite.bias, sums.1 + composite.bias)),
        Err(e) => Err(e),
    }
}

/// The bound of one child.
pub open spec fn variable_bound(variable: VariableValue, a: Map<Seq<char>, i64>) -> Result<
    Bound,
    ShapeError,
>
    decreases variable,
{
    match variable {
        VariableValue::Composite(composite) => evaluation(composite, a),
        VariableValue::Primitive(primitive) => contribution(primitive, a),
        VariableValue::Unset => Err(ShapeError::EmptyVariable),
    }
}

/// The exact lower and upper sums of the signed bounds of `variables`, or the
/// error of the first child that has one.
pub open spec fn signed_sums(
    variables: Seq<VariableValue>,
    direction: Direction,
    a: Map<Seq<char>, i64>,
) -> Result<(int, int), ShapeError>
    decreases variables,
{
    if variables.len() == 0 {
        Ok((0int, 0int))
    } else {
        match signed_sums(variables.drop_last(), direction, a) {
            Err(e) => Err(e),
            Ok(sums) => match variable_bound(variables.last(), a) {
                Err(e) => Err(e),
                Ok(bound) => Ok(
                    (sums.0 + signed(direction, bound).0, sums.1 + signed(direction, bound).1),
                ),
            },
        }
    }
}

/// An error among the first children is the error of them all.
pub proof fn lemma_sums_error(
    variables: Seq<VariableValue>,
    direction: Direction,
    a: Map<Seq<char>, i64>,
    n: int,
)
    requires
        0 <= n <= variables.len(),
        signed_sums(variables.take(n), direction, a) is Err,
    ensures
        signed_sums(variables, direction, a) == signed_sums(variables.take(n), direction, a),
    decreases variables.len() - n,
{
    if n < variables.len() {
        let next = variables.take(n + 1);
        assert(next.drop_last() =~= variables.take(n));
        lemma_sums_error(variables, direction, a, n + 1);
    } else {
        assert(variables.take(n) =~= variables);
    }
}

/// The bound of a primitive under the assignment held in `table`.
pub fn primitive_bound(primitive: &Primitive, table: &StringHashMap<i64>) -> (r: Result<
    Bound,
    ShapeError,
>)
    ensures
        r == contribution(primitive@, table@),
{
    match table.get(primitive.id.as_str()) {
        Some(value) => Ok(Bound { lower: *value, upper: *value }),
        None => match primitive.bound {
            Some(bound) => Ok(bound),
            None => Err(ShapeError::UnboundPrimitive),
        },
    }
}

/// Evaluates a composite under the assignment held in `table`.
pub fn evaluate_under(composite: &Composite, table: &StringHashMap<i64>) -> (r: Result<
    Bound,
    ShapeError,
>)
    ensures
        r == evaluation(composite@, table@),
        r matches Ok(bound) ==> bound.truth_valued(),
    decreases composite,
{
    let ghost a = table@;
    let ghost variables = composite@.variables;
    proof {
        composite.lemma_view();
    }
    let mut lower: i64 = 0;
    let mut upper: i64 = 0;
    let ghost mut lower_sum: int = 0;
    let ghost mut upper_sum: int = 0;
    let mut i: usize = 0;
    while i < composite.variables.len()
        invariant
            a == table@,
            variables == composite@.variables,
            variables.len() == composite.variables.len(),
            forall|j: int|
                0 <= j < variables.len() ==> #[trigger] variables[j] == composite.variables@[j]@,
            composite@.direction == composite.direction,
            composite@.bias == composite.bias,
            i <= composite.variables.len(),
            signed_sums(variables.take(i as int), composite.direction, a) == Ok::<
                (int, int),
                ShapeError,
            >((lower_sum, upper_sum)),
            lower == wrap64(lower_sum),
            upper == wrap64(upper_sum),
        decreases composite.variables.len() - i,
    {
        let variable = &composite.variables[i];
        assert(variables[i as int] == variable@);
        proof {
            let next = variables.take(i + 1);
            assert(next.drop_last() =~= variables.take(i as int));
            assert(next.last() == variables[i as int]);
        }
        let child = match &variable.kind {
            Some(VariableKind::Composite(inner)) => evaluate_under(inner, table),
            Some(VariableKind::Primitive(primitive)) => primitive_bound(primitive, table),
            None => Err(ShapeError::EmptyVariable),
        };
        assert(child == variable_bound(variables[i as int], a));
        match child {
            Err(e) => {
                proof {
                    lemma_sums_error(variables, composite.direction, a, i + 1);
                }
                return Err(e);
            },
            Ok(bound) => {
                proof {
                    let s = signed(composite.direction, bound);
                    lemma_wrap64_add(lower_sum, s.0);
                    lemma_wrap64_add(upper_sum, s.1);
                    lower_sum = lower_sum + s.0;
                    upper_sum = upper_sum + s.1;
                }
                match composite.direction {
                    Direction::Positive => {
                        lower = add64(lower, bound.lower);
                        upper = add64(upper, bound.upper);
                    },
                    Direction::Negative => {
                        lower = add64(lower, neg64(bound.upper));
                        upper = add64(upper, neg64(bound.lower));
                    },
                }
            },
        }
        i += 1;
    }
    assert(variables.take(i as int) =~= variables);
    proof {
        lemma_wrap64_add(lower_sum, composite.bias as int);
        lemma_wrap64_add(upper_sum, composite.bias as int);
    }
    let lower_total: i64 = add64(lower, composite.bias);
    let upper_total: i64 = add64(upper, composite.bias);
    Ok(
        Bound { lower: if lower_total >= 0 {
            1
        } else {
            0
        }, upper: if upper_total >= 0 {
            1
        } else {
            0
        } },
    )
}

/// Evaluates a composite under an interpretation: the truth interval of
/// `sum(signed children) + bias >= 0`, each end `0` or `1`.
///
/// Fails exactly when the walk meets a variable that is neither composite
/// nor primitive, or a primitive that has no value in the interpretation and
/// no bound of its own; the error is that of the first such child in order.
pub fn evaluate(composite: &Composite, interpretation: &Interpretation) -> (r: Result<
    Bound,
    ShapeError,
>)
    ensures
        r == evaluation(composite@, interpretation@),
        r matches Ok(bound) ==> bound.truth_valued(),
{
    let table = interpretation.to_map();
    evaluate_under(composite, &table)
}

/// Evaluation is a function of the values of its inputs: two composites
/// with the same value, under interpretations that stand for the same
/// assignment, evaluate alike.
pub proof fn lemma_evaluation_deterministic(
    c1: Composite,
    i1: Interpretation,
    c2: Composite,
    i2: Interpretation,
)
    requires
        c1@ == c2@,
        i1@ == i2@,
    ensures
        evaluation(c1@, i1@) == evaluation(c2@, i2@),
{
}

/// Every evaluation that succeeds gives a truth value at each end.
pub proof fn lemma_evaluation_truth_valued(composite: CompositeValue, a: Map<Seq<char>, i64>)
    ensures
        evaluation(composite, a) matches Ok(bound) ==> bound.truth_valued(),
{
}

/// The interval `[lower, upper]` negated: `[-upper, -lower]`.
pub open spec fn negated(sums: (int, int)) -> (int, int) {
    (-sums.1, -sums.0)
}

/// Sign-flip duality for one child: under the opposite direction a bound
/// enters the sum negated.
pub proof fn lemma_signed_opposite(direction: Direction, bound: Bound)
    ensures
        signed(direction.opposite(), bound) == negated(signed(direction, bound)),
{
}

/// Sign-flip duality for the sums: under the opposite direction the sums
/// are the negated sums, and an error is the same error.
pub proof fn lemma_sums_opposite(
    variables: Seq<VariableValue>,
    direction: Direction,
    a: Map<Seq<char>, i64>,
)
    ensures
        signed_sums(variables, direction.opposite(), a) == match signed_sums(
            variables,
            direction,
            a,
        ) {
            Ok(sums) => Ok::<(int, int), ShapeError>(negated(sums)),
            Err(e) => Err(e),
        },
    decreases variables.len(),
{
    if variables.len() > 0 {
        lemma_sums_opposite(variables.drop_last(), direction, a);
    }
}

/// Sign-flip duality: a composite with its direction turned round evaluates
/// to the truth interval of the negated sums of the children plus the bias.
pub proof fn lemma_evaluation_opposite(composite: CompositeValue, a: Map<Seq<char>, i64>)
    ensures
        evaluation(
            CompositeValue {
                direction: composite.direction.opposite(),
                bias: composite.bias,
                variables: composite.variables,
            },
            a,
        ) == match signed_sums(composite.variables, composite.direction, a) {
            Ok(sums) => Ok::<Bound, ShapeError>(
                truth_interval(negated(sums).0 + composite.bias, negated(sums).1 + composite.bias),
            ),
            Err(e) => Err(e),
        },
{
    lemma_sums_opposite(composite.variables, composite.direction, a);
}

/// `variable` with every primitive named `id` given the bound
/// `[value, value]`.
pub open spec fn pinned_variable(variable: VariableValue, id: Seq<char>, value: i64) -> VariableValue
    decreases variable,
{
    match variable {
        VariableValue::Composite(composite) => VariableValue::Composite(
            pinned(composite, id, value),
        ),
        VariableValue::Primitive(primitive) => if primitive.id == id {
            VariableValue::Primitive(
                PrimitiveValue { id: id, bound: Some(Bound { lower: value, upper: value }) },
            )
        } else {
            variable
        },
        VariableValue::Unset => VariableValue::Unset,
    }
}

/// `variables` with every primitive named `id` given the bound
/// `[value, value]`.
pub open spec fn pinned_all(variables: Seq<VariableValue>, id: Seq<char>, value: i64) -> Seq<
    VariableValue,
>
    decreases variables,
{
    if variables.len() == 0 {
        Seq::empty()
    } else {
        pinned_all(variables.drop_last(), id, value).push(
            pinned_variable(variables.last(), id, value),
        )
    }
}

/// `composite` with every primitive named `id`, at any depth, given the
/// bound `[value, value]`.
pub open spec fn pinned(composite: CompositeValue, id: Seq<char>, value: i64) -> CompositeValue
    decreases composite,
{
    CompositeValue {
        direction: composite.direction,
        bias: composite.bias,
        variables: pinned_all(composite.variables, id, value),
    }
}

/// Shadowing for one child.
pub proof fn lemma_variable_shadowed(
    variable: VariableValue,
    a: Map<Seq<char>, i64>,
    id: Seq<char>,
    value: i64,
)
    ensures
        variable_bound(variable, a.insert(id, value)) == variable_bound(
            pinned_variable(variable, id, value),
            a.remove(id),
        ),
    decreases variable,
{
    if let VariableValue::Composite(composite) = variable {
        lemma_evaluation_shadowed(composite, a, id, value);
    }
}

/// Shadowing for the sums.
pub proof fn lemma_sums_shadowed(
    variables: Seq<VariableValue>,
    direction: Direction,
    a: Map<Seq<char>, i64>,
    id: Seq<char>,
    value: i64,
)
    ensures
        signed_sums(variables, direction, a.insert(id, value)) == signed_sums(
            pinned_all(variables, id, value),
            direction,
            a.remove(id),
        ),
    decreases variables,
{
    if variables.len() > 0 {
        let front = variables.drop_last();
        lemma_sums_shadowed(front, direction, a, id, value);
        lemma_variable_shadowed(variables.last(), a, id, value);
        let p = pinned_all(variables, id, value);
        assert(p.drop_last() =~= pinned_all(front, id, value));
        assert(p.last() == pinned_variable(variables.last(), id, value));
    }
}

/// The interpretation shadows the bounds of the primitives: evaluating
/// under an assignment that gives `id` the value `value` is evaluating,
/// without that entry, the composite in which every primitive named `id` has
/// the bound `[value, value]`.
pub proof fn lemma_evaluation_shadowed(
    composite: CompositeValue,
    a: Map<Seq<char>, i64>,
    id: Seq<char>,
    value: i64,
)
    ensures
        evaluation(composite, a.insert(id, value)) == evaluation(
            pinned(composite, id, value),
            a.remove(id),
        ),
    decreases composite,
{
    lemma_sums_shadowed(composite.variables, composite.direction, a, id, value);
}

/// `x` fits in a 64-bit register.
pub open spec fn fits(x: int) -> bool {
    i64::MIN <= x <= i64::MAX
}

/// No bound that the evaluation of `composite` takes from a primitive has
/// its ends out of order, and no sum plus bias, at any depth, leaves the
/// 64-bit range.
pub open spec fn tame(composite: CompositeValue, a: Map<Seq<char>, i64>) -> bool
    decreases composite,
{
    &&& tame_all(composite.variables, a)
    &&& match signed_sums(composite.variables, composite.direction, a) {
        Ok(sums) => fits(sums.0 + composite.bias) && fits(sums.1 + composite.bias),
        Err(_) => true,
    }
}

/// `tame`, of one child.
pub open spec fn tame_variable(variable: VariableValue, a: Map<Seq<char>, i64>) -> bool
    decreases variable,
{
    match variable {
        VariableValue::Composite(composite) => tame(composite, a),
        VariableValue::Primitive(primitive) => match contribution(primitive, a) {
            Ok(bound) => bound.ordered(),
            Err(_) => true,
        },
        VariableValue::Unset => true,
    }
}

/// `tame`, of every child.
pub open spec fn tame_all(variables: Seq<VariableValue>, a: Map<Seq<char>, i64>) -> bool
    decreases variables,
{
    variables.len() == 0 || (tame_all(variables.drop_last(), a) && tame_variable(
        variables.last(),
        a,
    ))
}

/// The bound of a tame child is in order.
pub proof fn lemma_variable_ordered(variable: VariableValue, a: Map<Seq<char>, i64>)
    requires
        tame_variable(variable, a),
    ensures
        variable_bound(variable, a) matches Ok(bound) ==> bound.ordered(),
    decreases variable,
{
    if let VariableValue::Composite(composite) = variable {
        lemma_evaluation_ordered(composite, a);
    }
}

/// The sums over tame children are in order.
pub proof fn lemma_sums_ordered(
    variables: Seq<VariableValue>,
    direction: Direction,
    a: Map<Seq<char>, i64>,
)
    requires
        tame_all(variables, a),
    ensures
        signed_sums(variables, direction, a) matches Ok(sums) ==> sums.0 <= sums.1,
    decreases variables,
{
    if variables.len() > 0 {
        lemma_sums_ordered(variables.drop_last(), direction, a);
        lemma_variable_ordered(variables.last(), a);
    }
}

/// On tame inputs the truth interval is in order, and is that of the exact
/// sums: the register holds them unreduced.
pub proof fn lemma_evaluation_ordered(composite: CompositeValue, a: Map<Seq<char>, i64>)
    requires
        tame(composite, a),
    ensures
        evaluation(composite, a) matches Ok(bound) ==> bound.ordered() && bound.truth_valued(),
        evaluation(composite, a) matches Ok(bound) ==> signed_sums(
            composite.variables,
            composite.direction,
            a,
        ) matches Ok(sums) && bound.lower == indicator(sums.0 + composite.bias) && bound.upper
            == indicator(sums.1 + composite.bias),
    decreases composite,
{
    lemma_sums_ordered(composite.variables, composite.direction, a);
    if let Ok(sums) = signed_sums(composite.variables, composite.direction, a) {
        lemma_truth_interval_ordered(sums.0 + composite.bias, sums.1 + composite.bias);
    }
}

} // verus!
