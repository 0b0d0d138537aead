//! The data model: bounds, linear bounded trees and composite propositions,
//! each with the mathematical value that contracts speak of.

use vstd::prelude::*;
use vstd::hash_map::StringHashMap;
use crate::wrap::{indicator, lemma_wrap64_fits, wrap64};

verus! {

/// A closed integer interval `[lower, upper]`.
///
/// A bound is well formed when `lower <= upper`; this is not enforced.
#[derive(Clone, Copy, Debug, PartialEq, Eq, Structural)]
pub struct Bound {
    pub lower: i64,
    pub upper: i64,
}

impl Bound {
    /// `lower <= upper`.
    pub open spec fn ordered(self) -> bool {
        self.lower <= self.upper
    }

    /// Both ends coincide: the value is known.
    pub open spec fn definite(self) -> bool {
        self.lower == self.upper
    }

    /// One of `[0,0]`, `[0,1]`, `[1,0]`, `[1,1]`: each end is a truth value.
    pub open spec fn truth_valued(self) -> bool {
        (self.lower == 0 || self.lower == 1) && (self.upper == 0 || self.upper == 1)
    }

    /// Whether the ends are in order.
    pub fn is_ordered(&self) -> (r: bool)
        ensures
            r == self.ordered(),
    {
        self.lower <= self.upper
    }

    /// Whether the ends coincide.
    pub fn is_definite(&self) -> (r: bool)
        ensures
            r == self.definite(),
    {
        self.lower == self.upper
    }
}

/// The truth interval of the inequality `sum >= 0`, where the sum ranges over
/// `[lower_sum, upper_sum]` and is held in a 64-bit register.
pub open spec fn truth_interval(lower_sum: int, upper_sum: int) -> Bound {
    Bound {
        lower: indicator(wrap64(lower_sum) as int),
        upper: indicator(wrap64(upper_sum) as int),
    }
}

/// The truth interval of sums that are in order and fit in 64 bits is in
/// order.
pub proof fn lemma_truth_interval_ordered(lower_sum: int, upper_sum: int)
    requires
        lower_sum <= upper_sum,
        i64::MIN <= lower_sum,
        upper_sum <= i64::MAX,
    ensures
        truth_interval(lower_sum, upper_sum).ordered(),
        truth_interval(lower_sum, upper_sum) == (Bound {
            lower: indicator(lower_sum),
            upper: indicator(upper_sum),
        }),
{
    lemma_wrap64_fits(lower_sum);
    lemma_wrap64_fits(upper_sum);
}

/// One weighted reference of a constraint to another node, as a value.
pub struct Term {
    pub id: Seq<char>,
    pub coefficient: i64,
}

/// What a node of a linear bounded tree holds, as a value.
pub enum Node {
    /// The constraint `sum(coefficient_i * value(id_i)) >= 0`.
    Bic(Seq<Term>),
    Bound(Bound),
    /// Neither of the two: not a node of a well-formed tree.
    Unset,
}

/// A pair `(id, coefficient)`: the node `id` weighted by `coefficient`.
#[derive(Debug, PartialEq, Eq)]
pub struct CoefRelation {
    pub id: String,
    pub coefficient: i64,
}

impl View for CoefRelation {
    type V = Term;

    open spec fn view(&self) -> Term {
        Term { id: self.id@, coefficient: self.coefficient }
    }
}

impl CoefRelation {
    /// Whether two relations are the same value.
    pub fn same(&self, other: &CoefRelation) -> (r: bool)
        ensures
            r == (self@ == other@),
    {
        self.coefficient == other.coefficient && self.id == other.id
    }
}

impl Clone for CoefRelation {
    fn clone(&self) -> (r: Self)
        ensures
            r@ == self@,
    {
        CoefRelation { id: self.id.clone(), coefficient: self.coefficient }
    }
}

/// A binary (greater-or-equal) inequality constraint: the ordered relations
/// whose weighted sum is compared with zero.
#[derive(Debug, PartialEq, Eq)]
pub struct BinaryInequalityConstraint {
    pub relations: Vec<CoefRelation>,
}

impl View for BinaryInequalityConstraint {
    type V = Seq<Term>;

    open spec fn view(&self) -> Seq<Term> {
        self.relations@.map_values(|r: CoefRelation| r@)
    }
}

impl BinaryInequalityConstraint {
    /// Whether two constraints hold the same relations in the same order.
    pub fn same(&self, other: &BinaryInequalityConstraint) -> (r: bool)
        ensures
            r == (self@ == other@),
    {
        if self.relations.len() != other.relations.len() {
            assert(self@.len() != other@.len());
            return false;
        }
        let mut i: usize = 0;
        while i < self.relations.len()
            invariant
                i <= self.relations.len(),
                self.relations.len() == other.relations.len(),
                forall|j: int| 0 <= j < i ==> self.relations[j]@ == other.relations[j]@,
            decreases self.relations.len() - i,
        {
            if !self.relations[i].same(&other.relations[i]) {
                assert(self@[i as int] != other@[i as int]);
                return false;
            }
            i += 1;
        }
        assert(self@ =~= other@);
        true
    }
}

impl Clone for BinaryInequalityConstraint {
    fn clone(&self) -> (r: Self)
        ensures
            r@ == self@,
    {
        let mut relations: Vec<CoefRelation> = Vec::new();
        let mut i: usize = 0;
        while i < self.relations.len()
            invariant
                i <= self.relations.len(),
                relations.len() == i,
                forall|j: int| 0 <= j < i ==> relations[j]@ == self.relations[j]@,
            decreases self.relations.len() - i,
        {
            relations.push(self.relations[i].clone());
            i += 1;
        }
        let r = BinaryInequalityConstraint { relations };
        assert(r@ =~= self@);
        r
    }
}

/// The two things a node can be.
#[derive(Debug, PartialEq, Eq)]
pub enum Part {
    Bic(BinaryInequalityConstraint),
    Bound(Bound),
}

impl View for Part {
    type V = Node;

    open spec fn view(&self) -> Node {
        match self {
            Part::Bic(bic) => Node::Bic(bic@),
            Part::Bound(bound) => Node::Bound(*bound),
        }
    }
}

impl Clone for Part {
    fn clone(&self) -> (r: Self)
        ensures
            r@ == self@,
    {
        match self {
            Part::Bic(bic) => Part::Bic(bic.clone()),
            Part::Bound(bound) => Part::Bound(*bound),
        }
    }
}

/// A node of a linear bounded tree; `part` is set in every well-formed node.
#[derive(Debug, PartialEq, Eq)]
pub struct BicOrBound {
    pub part: Option<Part>,
}

impl View for BicOrBound {
    type V = Node;

    open spec fn view(&self) -> Node {
        match self.part {
            Some(part) => part@,
            None => Node::Unset,
        }
    }
}

impl Clone for BicOrBound {
    fn clone(&self) -> (r: Self)
        ensures
            r@ == self@,
    {
        match &self.part {
            Some(part) => BicOrBound { part: Some(part.clone()) },
            None => BicOrBound { part: None },
        }
    }
}

impl BicOrBound {
    /// Whether two nodes are the same value.
    pub fn same(&self, other: &BicOrBound) -> (r: bool)
        ensures
            r == (self@ == other@),
    {
        match (&self.part, &other.part) {
            (Some(Part::Bic(a)), Some(Part::Bic(b))) => a.same(b),
            (Some(Part::Bound(a)), Some(Part::Bound(b))) => a.lower == b.lower && a.upper
                == b.upper,
            (None, None) => true,
            _ => false,
        }
    }

    /// A node that holds the bound `bound`.
    pub fn from_bound(bound: Bound) -> (r: Self)
        ensures
            r@ == Node::Bound(bound),
    {
        BicOrBound { part: Some(Part::Bound(bound)) }
    }

    /// A node that holds the constraint `bic`.
    pub fn from_bic(bic: BinaryInequalityConstraint) -> (r: Self)
        ensures
            r@ == Node::Bic(bic@),
    {
        BicOrBound { part: Some(Part::Bic(bic)) }
    }
}

/// A linear bounded tree: a finite mapping from node identifier to node.
///
/// The relations of a constraint refer to other identifiers of the same
/// mapping.  Nothing asks that they exist there, nor that the references form
/// a tree: cycles and dangling references are legal.
pub struct LinearBoundedTree {
    /// The identifiers, each once, in the order of their first insertion.
    ids: Vec<String>,
    nodes: StringHashMap<BicOrBound>,
}

impl View for LinearBoundedTree {
    type V = Map<Seq<char>, Node>;

    closed spec fn view(&self) -> Map<Seq<char>, Node> {
        self.nodes@.map_values(|n: BicOrBound| n@)
    }
}

impl LinearBoundedTree {
    /// The representation invariant: the list of identifiers holds exactly
    /// the keys of the mapping, each once.
    pub closed spec fn wf(&self) -> bool {
        &&& forall|i: int, j: int|
            0 <= i < j < self.ids.len() ==> self.ids[i]@ != self.ids[j]@
        &&& forall|i: int|
            0 <= i < self.ids.len() ==> self.nodes@.contains_key(#[trigger] self.ids[i]@)
        &&& forall|k: Seq<char>|
            self.nodes@.contains_key(k) ==> exists|i: int|
                0 <= i < self.ids.len() && #[trigger] self.ids[i]@ == k
    }

    /// The identifiers in the order in which `ids` hands them out.
    pub closed spec fn id_seq(&self) -> Seq<Seq<char>> {
        self.ids@.map_values(|s: String| s@)
    }

    /// The identifier list enumerates the key set without repetition.
    pub proof fn lemma_id_seq(&self)
        requires
            self.wf(),
        ensures
            self.id_seq().no_duplicates(),
            forall|k: Seq<char>| self@.contains_key(k) <==> self.id_seq().contains(k),
            self@.dom().finite(),
            self@.dom().len() == self.id_seq().len(),
    {
        let ids = self.id_seq();
        assert forall|k: Seq<char>| self@.contains_key(k) <==> ids.contains(k) by {
            if self@.contains_key(k) {
                let i = choose|i: int| 0 <= i < self.ids.len() && #[trigger] self.ids[i]@ == k;
                assert(ids[i] == k);
            }
            if ids.contains(k) {
                let i = choose|i: int| 0 <= i < ids.len() && ids[i] == k;
                assert(self.nodes@.contains_key(self.ids[i]@));
            }
        }
        assert(self@.dom() =~= ids.to_set());
        ids.unique_seq_to_set();
        vstd::seq_lib::seq_to_set_is_finite(ids);
    }

    /// The empty tree.
    pub fn new() -> (r: Self)
        ensures
            r.wf(),
            r@ == Map::<Seq<char>, Node>::empty(),
            r.id_seq() == Seq::<Seq<char>>::empty(),
    {
        let r = LinearBoundedTree { ids: Vec::new(), nodes: StringHashMap::new() };
        assert(r@ =~= Map::<Seq<char>, Node>::empty());
        assert(r.id_seq() =~= Seq::<Seq<char>>::empty());
        r
    }

    /// Binds `id` to `node`, replacing what `id` was bound to before.  A new
    /// identifier goes to the end of the identifier list.
    pub fn insert(&mut self, id: String, node: BicOrBound)
        requires
            old(self).wf(),
        ensures
            final(self).wf(),
            final(self)@ == old(self)@.insert(id@, node@),
            final(self).id_seq() == if old(self)@.contains_key(id@) {
                old(self).id_seq()
            } else {
                old(self).id_seq().push(id@)
            },
    {
        if !self.nodes.contains_key(id.as_str()) {
            self.ids.push(id.clone());
        }
        self.nodes.insert(id, node);
        proof {
            assert(self@ =~= old(self)@.insert(id@, node@));
            if old(self)@.contains_key(id@) {
                assert(self.id_seq() =~= old(self).id_seq());
            } else {
                assert(self.id_seq() =~= old(self).id_seq().push(id@));
            }
            assert forall|k: Seq<char>| self.nodes@.contains_key(k) implies exists|i: int|
                0 <= i < self.ids.len() && #[trigger] self.ids[i]@ == k by {
                if old(self).nodes@.contains_key(k) {
                    let i = choose|i: int|
                        0 <= i < old(self).ids.len() && #[trigger] old(self).ids[i]@ == k;
                    assert(self.ids[i]@ == k);
                } else {
                    assert(self.ids[self.ids.len() - 1]@ == k);
                }
            }
        }
    }

    /// The node bound to `id`, if there is one.
    pub fn get(&self, id: &str) -> (r: Option<&BicOrBound>)
        ensures
            match r {
                Some(node) => self@.contains_key(id@) && node@ == self@[id@],
                None => !self@.contains_key(id@),
            },
    {
        self.nodes.get(id)
    }

    /// Whether `id` is bound to a node.
    pub fn contains_key(&self, id: &str) -> (r: bool)
        ensures
            r == self@.contains_key(id@),
    {
        self.nodes.contains_key(id)
    }

    /// The number of nodes.
    pub fn len(&self) -> (r: usize)
        requires
            self.wf(),
        ensures
            r == self@.dom().len(),
            r == self.id_seq().len(),
    {
        proof {
            self.lemma_id_seq();
        }
        self.ids.len()
    }

    /// Whether two trees bind the same identifiers to the same nodes.
    pub fn same(&self, other: &LinearBoundedTree) -> (r: bool)
        requires
            self.wf(),
            other.wf(),
        ensures
            r == (self@ == other@),
    {
        proof {
            self.lemma_id_seq();
            other.lemma_id_seq();
        }
        if self.ids.len() != other.ids.len() {
            return false;
        }
        let mut i: usize = 0;
        while i < self.ids.len()
            invariant
                i <= self.ids.len(),
                self.wf(),
                other.wf(),
                forall|j: int|
                    0 <= j < i ==> other@.contains_key(#[trigger] self.ids[j]@) && other@[self.ids[j]@]
                        == self@[self.ids[j]@],
            decreases self.ids.len() - i,
        {
            let id = &self.ids[i];
            assert(self.nodes@.contains_key(self.ids[i as int]@));
            match (self.nodes.get(id.as_str()), other.nodes.get(id.as_str())) {
                (Some(mine), Some(theirs)) => {
                    if !mine.same(theirs) {
                        assert(self@[id@] == mine@ && other@[id@] == theirs@);
                        return false;
                    }
                },
                _ => {
                    assert(!other@.contains_key(id@));
                    assert(self@.contains_key(id@));
                    return false;
                },
            }
            i += 1;
        }
        proof {
            assert forall|k: Seq<char>| self@.contains_key(k) implies other@.contains_key(k)
                && other@[k] == self@[k] by {
                let j = choose|j: int| 0 <= j < self.ids.len() && #[trigger] self.ids[j]@ == k;
                assert(other@.contains_key(self.ids[j]@));
            }
            assert(self@.dom().subset_of(other@.dom()));
            vstd::set_lib::lemma_subset_equality(self@.dom(), other@.dom());
            assert(self@ =~= other@);
        }
        true
    }

    /// The identifiers of all nodes, each once.
    pub fn ids(&self) -> (r: &Vec<String>)
        ensures
            r@.map_values(|s: String| s@) == self.id_seq(),
    {
        &self.ids
    }
}

impl Clone for LinearBoundedTree {
    /// A copy with the same nodes under the same identifiers, in the same
    /// order.
    fn clone(&self) -> (r: Self)
        ensures
            self.wf() ==> r.wf() && r@ == self@ && r.id_seq() == self.id_seq(),
    {
        let mut r = LinearBoundedTree::new();
        let mut i: usize = 0;
        while i < self.ids.len()
            invariant
                i <= self.ids.len(),
                r.wf(),
                self.wf() ==> r.id_seq() == self.id_seq().take(i as int),
                self.wf() ==> forall|k: Seq<char>|
                    r@.contains_key(k) <==> exists|j: int| 0 <= j < i && #[trigger] self.ids[j]@ == k,
                self.wf() ==> forall|k: Seq<char>| r@.contains_key(k) ==> r@[k] == self@[k],
            decreases self.ids.len() - i,
        {
            let ghost before = r;
            let id = &self.ids[i];
            match self.nodes.get(id.as_str()) {
                Some(node) => {
                    r.insert(id.clone(), node.clone());
                    proof {
                        if self.wf() {
                            assert(!before@.contains_key(id@)) by {
                                if before@.contains_key(id@) {
                                    let j = choose|j: int|
                                        0 <= j < i && #[trigger] self.ids[j]@ == id@;
                                    assert(self.ids[j]@ != self.ids[i as int]@);
                                }
                            }
                            assert(r.id_seq() =~= self.id_seq().take(i + 1));
                            assert forall|k: Seq<char>| r@.contains_key(k) implies exists|j: int|
                                0 <= j < i + 1 && #[trigger] self.ids[j]@ == k by {
                                if before@.contains_key(k) {
                                    let j = choose|j: int|
                                        0 <= j < i && #[trigger] self.ids[j]@ == k;
                                    assert(self.ids[j]@ == k);
                                } else {
                                    assert(self.ids[i as int]@ == k);
                                }
                            }
                        }
                    }
                },
                None => {
                    proof {
                        if self.wf() {
                            assert(self.nodes@.contains_key(self.ids[i as int]@));
                        }
                    }
                },
            }
            i += 1;
        }
        proof {
            if self.wf() {
                assert(self.id_seq().take(self.ids.len() as int) =~= self.id_seq());
                assert forall|k: Seq<char>| self@.contains_key(k) implies r@.contains_key(k) by {
                    let j = choose|j: int| 0 <= j < self.ids.len() && #[trigger] self.ids[j]@ == k;
                    assert(self.ids[j]@ == k);
                }
                assert forall|k: Seq<char>| r@.contains_key(k) implies self@.contains_key(k) by {
                    let j = choose|j: int| 0 <= j < self.ids.len() && #[trigger] self.ids[j]@ == k;
                    assert(self.nodes@.contains_key(self.ids[j]@));
                }
                assert(r@ =~= self@);
            }
        }
        r
    }
}

/// Whether the children of a composite count as they are or negated.
#[derive(Clone, Copy, Debug, PartialEq, Eq, Structural)]
pub enum Direction {
    Positive,
    Negative,
}

impl Direction {
    /// The other direction.
    pub open spec fn opposite(self) -> Direction {
        match self {
            Direction::Positive => Direction::Negative,
            Direction::Negative => Direction::Positive,
        }
    }

    /// The other direction.
    pub fn flipped(self) -> (r: Direction)
        ensures
            r == self.opposite(),
    {
        match self {
            Direction::Positive => Direction::Negative,
            Direction::Negative => Direction::Positive,
        }
    }
}

/// A primitive, as a value.
pub struct PrimitiveValue {
    pub id: Seq<char>,
    pub bound: Option<Bound>,
}

/// A composite, as a value: the proposition
/// `sum(signed children) + bias >= 0`.
pub struct CompositeValue {
    pub direction: Direction,
    pub bias: i64,
    pub variables: Seq<VariableValue>,
}

/// A variable, as a value.
pub enum VariableValue {
    Composite(CompositeValue),
    Primitive(PrimitiveValue),
    /// Neither of the two: a malformed variable.
    Unset,
}

/// A leaf variable, known by its `id`, with the bound it has when no
/// interpretation gives it a value.
#[derive(Debug, PartialEq, Eq)]
pub struct Primitive {
    pub bound: Option<Bound>,
    pub id: String,
}

impl View for Primitive {
    type V = PrimitiveValue;

    open spec fn view(&self) -> PrimitiveValue {
        PrimitiveValue { id: self.id@, bound: self.bound }
    }
}

/// A proposition over child variables.
#[derive(Debug, PartialEq, Eq)]
pub struct Composite {
    pub direction: Direction,
    pub bias: i64,
    pub variables: Vec<Variable>,
}

/// The two things a variable can be.
#[derive(Debug, PartialEq, Eq)]
pub enum VariableKind {
    Composite(Composite),
    Primitive(Primitive),
}

/// A child of a composite; `kind` is set in every well-formed variable.
#[derive(Debug, PartialEq, Eq)]
pub struct Variable {
    pub kind: Option<VariableKind>,
}

/// The value of a composite.
pub open spec fn composite_value(composite: Composite) -> CompositeValue
    decreases composite,
{
    CompositeValue {
        direction: composite.direction,
        bias: composite.bias,
        variables: variable_values(composite.variables@),
    }
}

/// The value of a variable.
pub open spec fn variable_value(variable: Variable) -> VariableValue
    decreases variable,
{
    match variable.kind {
        Some(VariableKind::Composite(composite)) => VariableValue::Composite(
            composite_value(composite),
        ),
        Some(VariableKind::Primitive(primitive)) => VariableValue::Primitive(primitive@),
        None => VariableValue::Unset,
    }
}

/// The values of a list of variables, in order.
pub open spec fn variable_values(variables: Seq<Variable>) -> Seq<VariableValue>
    decreases variables,
{
    if variables.len() == 0 {
        Seq::empty()
    } else {
        variable_values(variables.drop_last()).push(variable_value(variables.last()))
    }
}

impl View for Composite {
    type V = CompositeValue;

    open spec fn view(&self) -> CompositeValue {
        composite_value(*self)
    }
}

impl View for Variable {
    type V = VariableValue;

    open spec fn view(&self) -> VariableValue {
        variable_value(*self)
    }
}

/// The list of values has the value of each variable at its place.
pub proof fn lemma_variable_values(variables: Seq<Variable>)
    ensures
        variable_values(variables).len() == variables.len(),
        forall|i: int|
            0 <= i < variables.len() ==> #[trigger] variable_values(variables)[i] == variables[i]@,
    decreases variables.len(),
{
    if variables.len() > 0 {
        lemma_variable_values(variables.drop_last());
    }
}

impl Composite {
    /// The value of a composite, field by field.
    pub proof fn lemma_view(&self)
        ensures
            self@.direction == self.direction,
            self@.bias == self.bias,
            self@.variables.len() == self.variables@.len(),
            forall|i: int|
                0 <= i < self.variables@.len() ==> #[trigger] self@.variables[i]
                    == self.variables@[i]@,
    {
        lemma_variable_values(self.variables@);
    }
}

impl Clone for Primitive {
    fn clone(&self) -> (r: Self)
        ensures
            r@ == self@,
    {
        Primitive { bound: self.bound, id: self.id.clone() }
    }
}

impl Clone for Composite {
    fn clone(&self) -> (r: Self)
        ensures
            r@ == self@,
        decreases self,
    {
        let mut variables: Vec<Variable> = Vec::new();
        let mut i: usize = 0;
        while i < self.variables.len()
            invariant
                i <= self.variables.len(),
                variables.len() == i,
                forall|j: int| 0 <= j < i ==> variables[j]@ == self.variables[j]@,
            decreases self.variables.len() - i,
        {
            variables.push(self.variables[i].clone());
            i += 1;
        }
        let r = Composite { direction: self.direction, bias: self.bias, variables };
        proof {
            self.lemma_view();
            r.lemma_view();
            assert(r@.variables =~= self@.variables);
        }
        r
    }
}

impl Clone for Variable {
    fn clone(&self) -> (r: Self)
        ensures
            r@ == self@,
        decreases self,
    {
        match &self.kind {
            Some(VariableKind::Composite(composite)) => Variable {
                kind: Some(VariableKind::Composite(composite.clone())),
            },
            Some(VariableKind::Primitive(primitive)) => Variable {
                kind: Some(VariableKind::Primitive(primitive.clone())),
            },
            None => Variable { kind: None },
        }
    }
}

impl Variable {
    /// A variable that is the primitive `primitive`.
    pub fn from_primitive(primitive: Primitive) -> (r: Self)
        ensures
            r@ == VariableValue::Primitive(primitive@),
    {
        Variable { kind: Some(VariableKind::Primitive(primitive)) }
    }

    /// A variable that is the composite `composite`.
    pub fn from_composite(composite: Composite) -> (r: Self)
        ensures
            r@ == VariableValue::Composite(composite@),
    {
        Variable { kind: Some(VariableKind::Composite(composite)) }
    }
}

} // verus!
