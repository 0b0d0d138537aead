//! The batch drivers: the evaluator applied to a list of pairs, position by
//! position, and to every combination of a list of propositions with a list
//! of interpretations.

use vstd::prelude::*;
use vstd::hash_map::StringHashMap;
use crate::evaluation::{evaluate, evaluate_under, evaluation, ShapeError};
use crate::puan_core::{Bound, Composite, CompositeValue};
use crate::puan_eval::{
    BoundCollection, BoundSet, Interpretation, PropositionInterpretationPair,
    PropositionInterpretationPairSet, PropositionInterpretationSet,
};

verus! {

/// What evaluating a pair gives: the evaluation of its proposition under its
/// interpretation, or what the pair lacks.
pub open spec fn pair_evaluation(pair: PropositionInterpretationPair) -> Result<Bound, ShapeError> {
    match pair.proposition {
        None => Err(ShapeError::MissingProposition),
        Some(proposition) => match pair.interpretation {
            None => Err(ShapeError::MissingInterpretation),
            Some(interpretation) => evaluation(proposition@, interpretation@),
        },
    }
}

/// What evaluating a list of pairs gives: the bounds of all pairs in order,
/// or the error of the first pair that has one.
pub open spec fn pairs_evaluation(pairs: Seq<PropositionInterpretationPair>) -> Result<
    Seq<Bound>,
    ShapeError,
>
    decreases pairs.len(),
{
    if pairs.len() == 0 {
        Ok(Seq::empty())
    } else {
        match pairs_evaluation(pairs.drop_last()) {
            Err(e) => Err(e),
            Ok(bounds) => match pair_evaluation(pairs.last()) {
                Err(e) => Err(e),
                Ok(bound) => Ok(bounds.push(bound)),
            },
        }
    }
}

/// What evaluating one proposition under a list of assignments gives: the
/// bounds in the order of the assignments, or the first error.
pub open spec fn row_evaluation(
    proposition: CompositeValue,
    assignments: Seq<Map<Seq<char>, i64>>,
) -> Result<Seq<Bound>, ShapeError>
    decreases assignments.len(),
{
    if assignments.len() == 0 {
        Ok(Seq::empty())
    } else {
        match row_evaluation(proposition, assignments.drop_last()) {
            Err(e) => Err(e),
            Ok(bounds) => match evaluation(proposition, assignments.last()) {
                Err(e) => Err(e),
                Ok(bound) => Ok(bounds.push(bound)),
            },
        }
    }
}

/// What evaluating each of a list of propositions under each of a list of
/// assignments gives: one row for each proposition, in order, or the first
/// error, rows taken in order.
pub open spec fn product_evaluation(
    propositions: Seq<CompositeValue>,
    assignments: Seq<Map<Seq<char>, i64>>,
) -> Result<Seq<Seq<Bound>>, ShapeError>
    decreases propositions.len(),
{
    if propositions.len() == 0 {
        Ok(Seq::empty())
    } else {
        match product_evaluation(propositions.drop_last(), assignments) {
            Err(e) => Err(e),
            Ok(rows) => match row_evaluation(propositions.last(), assignments) {
                Err(e) => Err(e),
                Ok(row) => Ok(rows.push(row)),
            },
        }
    }
}

/// An error among the first pairs is the error of the list.
pub proof fn lemma_pairs_error(pairs: Seq<PropositionInterpretationPair>, n: int)
    requires
        0 <= n <= pairs.len(),
        pairs_evaluation(pairs.take(n)) is Err,
    ensures
        pairs_evaluation(pairs) == pairs_evaluation(pairs.take(n)),
    decreases pairs.len() - n,
{
    if n < pairs.len() {
        assert(pairs.take(n + 1).drop_last() =~= pairs.take(n));
        lemma_pairs_error(pairs, n + 1);
    } else {
        assert(pairs.take(n) =~= pairs);
    }
}

/// An error under the first assignments is the error of the row.
pub proof fn lemma_row_error(
    proposition: CompositeValue,
    assignments: Seq<Map<Seq<char>, i64>>,
    n: int,
)
    requires
        0 <= n <= assignments.len(),
        row_evaluation(proposition, assignments.take(n)) is Err,
    ensures
        row_evaluation(proposition, assignments) == row_evaluation(proposition, assignments.take(n)),
    decreases assignments.len() - n,
{
    if n < assignments.len() {
        assert(assignments.take(n + 1).drop_last() =~= assignments.take(n));
        lemma_row_error(proposition, assignments, n + 1);
    } else {
        assert(assignments.take(n) =~= assignments);
    }
}

/// An error among the first rows is the error of the product.
pub proof fn lemma_product_error(
    propositions: Seq<CompositeValue>,
    assignments: Seq<Map<Seq<char>, i64>>,
    n: int,
)
    requires
        0 <= n <= propositions.len(),
        product_evaluation(propositions.take(n), assignments) is Err,
    ensures
        product_evaluation(propositions, assignments) == product_evaluation(
            propositions.take(n),
            assignments,
        ),
    decreases propositions.len() - n,
{
    if n < propositions.len() {
        assert(propositions.take(n + 1).drop_last() =~= propositions.take(n));
        lemma_product_error(propositions, assignments, n + 1);
    } else {
        assert(propositions.take(n) =~= propositions);
    }
}

/// The pair batch is aligned by position: when it succeeds there is one
/// bound for each pair, the evaluation of that pair; when it fails, the
/// error is that of a pair before which every pair evaluates.
pub proof fn lemma_pairs_aligned(pairs: Seq<PropositionInterpretationPair>)
    ensures
        match pairs_evaluation(pairs) {
            Ok(bounds) => bounds.len() == pairs.len() && forall|i: int|
                0 <= i < pairs.len() ==> pair_evaluation(#[trigger] pairs[i]) == Ok::<
                    Bound,
                    ShapeError,
                >(bounds[i]),
            Err(e) => exists|i: int|
                0 <= i < pairs.len() && pair_evaluation(#[trigger] pairs[i]) == Err::<
                    Bound,
                    ShapeError,
                >(e) && forall|j: int| 0 <= j < i ==> pair_evaluation(#[trigger] pairs[j]) is Ok,
        },
    decreases pairs.len(),
{
    if pairs.len() > 0 {
        let front = pairs.drop_last();
        let last = pairs.len() - 1;
        lemma_pairs_aligned(front);
        assert(forall|i: int| 0 <= i < front.len() ==> front[i] == pairs[i]);
        match pairs_evaluation(front) {
            Err(e) => {
                let i = choose|i: int|
                    0 <= i < front.len() && pair_evaluation(#[trigger] front[i]) == Err::<
                        Bound,
                        ShapeError,
                    >(e) && forall|j: int|
                        0 <= j < i ==> pair_evaluation(#[trigger] front[j]) is Ok;
                assert(pairs[i] == front[i]);
                assert forall|j: int| 0 <= j < i implies pair_evaluation(
                    #[trigger] pairs[j],
                ) is Ok by {
                    assert(pairs[j] == front[j]);
                }
            },
            Ok(bounds) => {
                assert forall|j: int| 0 <= j < last implies pair_evaluation(
                    #[trigger] pairs[j],
                ) is Ok by {
                    assert(pairs[j] == front[j]);
                }
                match pair_evaluation(pairs.last()) {
                    Err(e) => {
                        assert(pair_evaluation(pairs[last]) == Err::<Bound, ShapeError>(e));
                    },
                    Ok(bound) => {
                        assert forall|i: int| 0 <= i < pairs.len() implies pair_evaluation(
                            #[trigger] pairs[i],
                        ) == Ok::<Bound, ShapeError>(bounds.push(bound)[i]) by {
                            if i < last {
                                assert(pairs[i] == front[i]);
                            }
                        }
                    },
                }
            },
        }
    }
}

/// A row that succeeds holds, for each assignment, the evaluation under it.
pub proof fn lemma_row_aligned(proposition: CompositeValue, assignments: Seq<Map<Seq<char>, i64>>)
    ensures
        row_evaluation(proposition, assignments) matches Ok(bounds) ==> bounds.len()
            == assignments.len() && forall|j: int|
            0 <= j < assignments.len() ==> evaluation(proposition, #[trigger] assignments[j])
                == Ok::<Bound, ShapeError>(bounds[j]),
    decreases assignments.len(),
{
    if assignments.len() > 0 {
        let front = assignments.drop_last();
        lemma_row_aligned(proposition, front);
        assert(forall|j: int| 0 <= j < front.len() ==> front[j] == assignments[j]);
    }
}

/// The product batch keeps both orders: when it succeeds, row `i` holds at
/// place `j` the evaluation of proposition `i` under assignment `j`.
pub proof fn lemma_product_aligned(
    propositions: Seq<CompositeValue>,
    assignments: Seq<Map<Seq<char>, i64>>,
)
    ensures
        product_evaluation(propositions, assignments) matches Ok(rows) ==> rows.len()
            == propositions.len() && forall|i: int, j: int|
            0 <= i < propositions.len() && 0 <= j < assignments.len() ==> (#[trigger] rows[i]).len()
                == assignments.len() && evaluation(propositions[i], #[trigger] assignments[j])
                == Ok::<Bound, ShapeError>(rows[i][j]),
    decreases propositions.len(),
{
    if propositions.len() > 0 {
        let front = propositions.drop_last();
        lemma_product_aligned(front, assignments);
        lemma_row_aligned(propositions.last(), assignments);
        assert(forall|i: int| 0 <= i < front.len() ==> front[i] == propositions[i]);
    }
}

/// Evaluates one pair.
pub fn evaluate_pair(pair: &PropositionInterpretationPair) -> (r: Result<Bound, ShapeError>)
    ensures
        r == pair_evaluation(*pair),
        r matches Ok(bound) ==> bound.truth_valued(),
{
    match &pair.proposition {
        None => Err(ShapeError::MissingProposition),
        Some(proposition) => match &pair.interpretation {
            None => Err(ShapeError::MissingInterpretation),
            Some(interpretation) => evaluate(proposition, interpretation),
        },
    }
}

/// Evaluates a list of pairs: one bound for each pair, in the order of the
/// pairs, or the error of the first pair that has one.
pub fn evaluate_pairs(set: &PropositionInterpretationPairSet) -> (r: Result<BoundSet, ShapeError>)
    ensures
        match r {
            Ok(bounds) => pairs_evaluation(set.pairs@) == Ok::<Seq<Bound>, ShapeError>(bounds@),
            Err(e) => pairs_evaluation(set.pairs@) == Err::<Seq<Bound>, ShapeError>(e),
        },
{
    let mut bounds: Vec<Bound> = Vec::new();
    let mut i: usize = 0;
    while i < set.pairs.len()
        invariant
            i <= set.pairs.len(),
            pairs_evaluation(set.pairs@.take(i as int)) == Ok::<Seq<Bound>, ShapeError>(bounds@),
        decreases set.pairs.len() - i,
    {
        proof {
            let next = set.pairs@.take(i + 1);
            assert(next.drop_last() =~= set.pairs@.take(i as int));
            assert(next.last() == set.pairs@[i as int]);
        }
        match evaluate_pair(&set.pairs[i]) {
            Err(e) => {
                proof {
                    lemma_pairs_error(set.pairs@, i + 1);
                }
                return Err(e);
            },
            Ok(bound) => {
                bounds.push(bound);
            },
        }
        i += 1;
    }
    assert(set.pairs@.take(i as int) =~= set.pairs@);
    Ok(BoundSet { bounds })
}

/// The values of a list of propositions.
pub open spec fn proposition_values(propositions: Seq<Composite>) -> Seq<CompositeValue> {
    propositions.map_values(|c: Composite| c@)
}

/// The assignments that a list of interpretations stands for.
pub open spec fn assignments(interpretations: Seq<Interpretation>) -> Seq<Map<Seq<char>, i64>> {
    interpretations.map_values(|i: Interpretation| i@)
}

/// Evaluates one proposition under each of the assignments held in
/// `tables`.
pub fn evaluate_row(proposition: &Composite, tables: &Vec<StringHashMap<i64>>) -> (r: Result<
    BoundSet,
    ShapeError,
>)
    ensures
        match r {
            Ok(bounds) => row_evaluation(
                proposition@,
                tables@.map_values(|t: StringHashMap<i64>| t@),
            ) == Ok::<Seq<Bound>, ShapeError>(bounds@),
            Err(e) => row_evaluation(proposition@, tables@.map_values(|t: StringHashMap<i64>| t@))
                == Err::<Seq<Bound>, ShapeError>(e),
        },
{
    let ghost all = tables@.map_values(|t: StringHashMap<i64>| t@);
    let mut bounds: Vec<Bound> = Vec::new();
    let mut j: usize = 0;
    while j < tables.len()
        invariant
            j <= tables.len(),
            all == tables@.map_values(|t: StringHashMap<i64>| t@),
            row_evaluation(proposition@, all.take(j as int)) == Ok::<Seq<Bound>, ShapeError>(
                bounds@,
            ),
        decreases tables.len() - j,
    {
        proof {
            let next = all.take(j + 1);
            assert(next.drop_last() =~= all.take(j as int));
            assert(next.last() == tables@[j as int]@);
        }
        match evaluate_under(proposition, &tables[j]) {
            Err(e) => {
                proof {
                    lemma_row_error(proposition@, all, j + 1);
                }
                return Err(e);
            },
            Ok(bound) => {
                bounds.push(bound);
            },
        }
        j += 1;
    }
    assert(all.take(j as int) =~= all);
    Ok(BoundSet { bounds })
}

/// Evaluates each proposition under each interpretation: bound set `i` holds
/// at place `j` the evaluation of proposition `i` under interpretation `j`.
/// Fails with the first error met, propositions taken in order and, for each,
/// the interpretations in order.
pub fn evaluate_product(set: &PropositionInterpretationSet) -> (r: Result<
    BoundCollection,
    ShapeError,
>)
    ensures
        match r {
            Ok(collection) => product_evaluation(
                proposition_values(set.propositions@),
                assignments(set.interpretations@),
            ) == Ok::<Seq<Seq<Bound>>, ShapeError>(collection@),
            Err(e) => product_evaluation(
                proposition_values(set.propositions@),
                assignments(set.interpretations@),
            ) == Err::<Seq<Seq<Bound>>, ShapeError>(e),
        },
{
    let ghost all = assignments(set.interpretations@);
    let ghost values = proposition_values(set.propositions@);
    let mut tables: Vec<StringHashMap<i64>> = Vec::new();
    let mut j: usize = 0;
    while j < set.interpretations.len()
        invariant
            j <= set.interpretations.len(),
            tables.len() == j,
            forall|k: int| 0 <= k < j ==> (#[trigger] tables[k])@ == set.interpretations[k]@,
        decreases set.interpretations.len() - j,
    {
        tables.push(set.interpretations[j].to_map());
        j += 1;
    }
    assert(tables@.map_values(|t: StringHashMap<i64>| t@) =~= all);
    let mut bound_sets: Vec<BoundSet> = Vec::new();
    assert(bound_sets@.map_values(|set: BoundSet| set@) =~= Seq::<Seq<Bound>>::empty());
    let mut i: usize = 0;
    while i < set.propositions.len()
        invariant
            i <= set.propositions.len(),
            all == assignments(set.interpretations@),
            values == proposition_values(set.propositions@),
            tables@.map_values(|t: StringHashMap<i64>| t@) == all,
            product_evaluation(values.take(i as int), all) == Ok::<Seq<Seq<Bound>>, ShapeError>(
                bound_sets@.map_values(|set: BoundSet| set@),
            ),
        decreases set.propositions.len() - i,
    {
        proof {
            let next = values.take(i + 1);
            assert(next.drop_last() =~= values.take(i as int));
            assert(next.last() == set.propositions@[i as int]@);
        }
        match evaluate_row(&set.propositions[i], &tables) {
            Err(e) => {
                proof {
                    lemma_product_error(values, all, i + 1);
                }
                return Err(e);
            },
            Ok(row) => {
                let ghost rows = bound_sets@.map_values(|set: BoundSet| set@);
                bound_sets.push(row);
                assert(bound_sets@.map_values(|set: BoundSet| set@) =~= rows.push(row@));
            },
        }
        i += 1;
    }
    assert(values.take(i as int) =~= values);
    Ok(BoundCollection { bound_sets })
}

} // verus!
