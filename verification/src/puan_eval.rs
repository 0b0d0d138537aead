//! Interpretations, and the batches in which propositions are evaluated.

use vstd::prelude::*;
use vstd::hash_map::StringHashMap;
use crate::puan_core::{Bound, Composite};

verus! {

/// The statement that the primitive `id` has the value `value`.
#[derive(Debug, PartialEq, Eq)]
pub struct Fact {
    pub id: String,
    pub value: i64,
}

impl Clone for Fact {
    fn clone(&self) -> (r: Self)
        ensures
            r == *self,
    {
        Fact { id: self.id.clone(), value: self.value }
    }
}

/// A partial assignment of values to primitives, as a list of facts.
#[derive(Debug, PartialEq, Eq)]
pub struct Interpretation {
    pub facts: Vec<Fact>,
}

/// The assignment that a list of facts stands for: where an identifier
/// occurs more than once, the last fact about it holds.
pub open spec fn assignment(facts: Seq<Fact>) -> Map<Seq<char>, i64>
    decreases facts.len(),
{
    if facts.len() == 0 {
        Map::empty()
    } else {
        assignment(facts.drop_last()).insert(facts.last().id@, facts.last().value)
    }
}

impl View for Interpretation {
    type V = Map<Seq<char>, i64>;

    open spec fn view(&self) -> Map<Seq<char>, i64> {
        assignment(self.facts@)
    }
}

impl Clone for Interpretation {
    fn clone(&self) -> (r: Self)
        ensures
            r.facts@ == self.facts@,
            r@ == self@,
    {
        let mut facts: Vec<Fact> = Vec::new();
        let mut i: usize = 0;
        while i < self.facts.len()
            invariant
                i <= self.facts.len(),
                facts.len() == i,
                forall|j: int| 0 <= j < i ==> facts[j] == self.facts[j],
            decreases self.facts.len() - i,
        {
            facts.push(self.facts[i].clone());
            i += 1;
        }
        assert(facts@ =~= self.facts@);
        Interpretation { facts }
    }
}

impl Interpretation {
    /// The assignment as a table from identifier to value.
    pub fn to_map(&self) -> (r: StringHashMap<i64>)
        ensures
            r@ == self@,
    {
        let mut r: StringHashMap<i64> = StringHashMap::new();
        let mut i: usize = 0;
        while i < self.facts.len()
            invariant
                i <= self.facts.len(),
                r@ == assignment(self.facts@.take(i as int)),
            decreases self.facts.len() - i,
        {
            let fact = &self.facts[i];
            r.insert(fact.id.clone(), fact.value);
            proof {
                let next = self.facts@.take(i + 1);
                assert(next.drop_last() =~= self.facts@.take(i as int));
                assert(next.last() == self.facts@[i as int]);
            }
            i += 1;
        }
        assert(self.facts@.take(i as int) =~= self.facts@);
        r
    }
}

/// A proposition together with the interpretation to evaluate it under.
/// Both are set in every well-formed pair.
#[derive(Debug, PartialEq, Eq)]
pub struct PropositionInterpretationPair {
    pub proposition: Option<Composite>,
    pub interpretation: Option<Interpretation>,
}

/// An ordered list of pairs.
#[derive(Debug, PartialEq, Eq)]
pub struct PropositionInterpretationPairSet {
    pub pairs: Vec<PropositionInterpretationPair>,
}

/// Propositions and interpretations, each of the first to be evaluated under
/// each of the second.
#[derive(Debug, PartialEq, Eq)]
pub struct PropositionInterpretationSet {
    pub propositions: Vec<Composite>,
    pub interpretations: Vec<Interpretation>,
}

/// An ordered list of bounds.
#[derive(Debug, PartialEq, Eq)]
pub struct BoundSet {
    pub bounds: Vec<Bound>,
}

impl View for BoundSet {
    type V = Seq<Bound>;

    open spec fn view(&self) -> Seq<Bound> {
        self.bounds@
    }
}

impl Clone for BoundSet {
    fn clone(&self) -> (r: Self)
        ensures
            r@ == self@,
    {
        let mut bounds: Vec<Bound> = Vec::new();
        let mut i: usize = 0;
        while i < self.bounds.len()
            invariant
                i <= self.bounds.len(),
                bounds.len() == i,
                forall|j: int| 0 <= j < i ==> bounds[j] == self.bounds[j],
            decreases self.bounds.len() - i,
        {
            bounds.push(self.bounds[i]);
            i += 1;
        }
        assert(bounds@ =~= self.bounds@);
        BoundSet { bounds }
    }
}

/// An ordered list of bound sets.
#[derive(Debug, PartialEq, Eq)]
pub struct BoundCollection {
    pub bound_sets: Vec<BoundSet>,
}

impl View for BoundCollection {
    type V = Seq<Seq<Bound>>;

    open spec fn view(&self) -> Seq<Seq<Bound>> {
        self.bound_sets@.map_values(|set: BoundSet| set@)
    }
}

impl Clone for BoundCollection {
    fn clone(&self) -> (r: Self)
        ensures
            r@ == self@,
    {
        let mut bound_sets: Vec<BoundSet> = Vec::new();
        let mut i: usize = 0;
        while i < self.bound_sets.len()
            invariant
                i <= self.bound_sets.len(),
                bound_sets.len() == i,
                forall|j: int| 0 <= j < i ==> bound_sets[j]@ == self.bound_sets[j]@,
            decreases self.bound_sets.len() - i,
        {
            bound_sets.push(self.bound_sets[i].clone());
            i += 1;
        }
        let r = BoundCollection { bound_sets };
        assert(r@ =~= self@);
        r
    }
}

} // verus!
