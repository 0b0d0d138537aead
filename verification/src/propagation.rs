//! The propagator: a first-in first-out worklist that reduces the constraints
//! of a linear bounded tree to bounds, pass after pass, until a pass reduces
//! nothing.

use vstd::prelude::*;
use std::collections::VecDeque;
use crate::puan_core::{
    BicOrBound, BinaryInequalityConstraint, Bound, LinearBoundedTree, Node, Part, Term,
};
use crate::reduction::{
    lemma_reduction_step, lemma_settled_is_propagated, lemma_propagated_keys,
    lemma_propagated_well_formed, lemma_sums_exist, partly_propagated, propagated, reduced_bound,
    resolve, scaled_lower, scaled_upper, settled, weighted_sums, well_formed,
};
use crate::wrap::{add64, lemma_wrap64_add, mul64, wrap64};

verus! {

/// What one look at a constraint finds.
#[derive(Clone, Copy, Debug, PartialEq, Eq, Structural)]
pub enum Scan {
    /// Every relation refers to a bound: the constraint reduces to this one.
    Reduced(Bound),
    /// The first relation that refers to no bound refers to a constraint:
    /// the constraint may reduce later.
    Blocked,
    /// The first relation that refers to no bound refers to nothing that can
    /// become one: the constraint never reduces.
    Unreachable,
}

/// The index of the first relation from `from` on whose node holds no bound;
/// the number of relations when there is none.
pub open spec fn first_open(m: Map<Seq<char>, Node>, terms: Seq<Term>, from: int) -> int
    decreases terms.len() - from,
{
    if from < 0 || from >= terms.len() {
        terms.len() as int
    } else if resolve(m, terms[from].id, 0) is None {
        from
    } else {
        first_open(m, terms, from + 1)
    }
}

/// What a look at a constraint with relations `terms` finds in tree `m`.
pub open spec fn scan_result(m: Map<Seq<char>, Node>, terms: Seq<Term>) -> Scan {
    match reduced_bound(m, terms, 0) {
        Some(bound) => Scan::Reduced(bound),
        None => {
            let id = terms[first_open(m, terms, 0)].id;
            if m.contains_key(id) && m[id] is Bic {
                Scan::Blocked
            } else {
                Scan::Unreachable
            }
        },
    }
}

/// What a visit of node `id` finds: nothing when `id` holds no constraint,
/// else what a look at its constraint finds.
pub open spec fn visit_result(m: Map<Seq<char>, Node>, id: Seq<char>) -> Option<Scan> {
    if m.contains_key(id) {
        match m[id] {
            Node::Bic(terms) => Some(scan_result(m, terms)),
            _ => None,
        }
    } else {
        None
    }
}

/// The constraint refers to a node that is still a constraint.
pub open spec fn blocked(m: Map<Seq<char>, Node>, terms: Seq<Term>) -> bool {
    exists|i: int|
        0 <= i < terms.len() && m.contains_key(#[trigger] terms[i].id) && m[terms[i].id] is Bic
}

/// The constraint refers to an identifier that is no key of the tree, or to
/// a node that is neither constraint nor bound.
pub open spec fn dangling(m: Map<Seq<char>, Node>, terms: Seq<Term>) -> bool {
    exists|i: int|
        0 <= i < terms.len() && (!m.contains_key(#[trigger] terms[i].id) || m[terms[i].id] is Unset)
}

/// The first open relation is in range and open, unless all are closed.
pub proof fn lemma_first_open(m: Map<Seq<char>, Node>, terms: Seq<Term>, from: int)
    requires
        0 <= from <= terms.len(),
    ensures
        from <= first_open(m, terms, from) <= terms.len(),
        first_open(m, terms, from) < terms.len() ==> resolve(
            m,
            terms[first_open(m, terms, from)].id,
            0,
        ) is None,
        forall|i: int|
            from <= i < first_open(m, terms, from) ==> (#[trigger] resolve(m, terms[i].id, 0)) is Some,
    decreases terms.len() - from,
{
    if from < terms.len() && resolve(m, terms[from].id, 0) is Some {
        lemma_first_open(m, terms, from + 1);
    }
}

/// What each outcome of a look means for the constraint.
pub proof fn lemma_scan_result(m: Map<Seq<char>, Node>, terms: Seq<Term>)
    ensures
        match scan_result(m, terms) {
            Scan::Reduced(bound) => reduced_bound(m, terms, 0) == Some(bound),
            Scan::Blocked => blocked(m, terms) && reduced_bound(m, terms, 0) is None,
            Scan::Unreachable => dangling(m, terms) && reduced_bound(m, terms, 0) is None,
        },
{
    if reduced_bound(m, terms, 0) is None {
        lemma_sums_exist(m, terms, 0);
        lemma_first_open(m, terms, 0);
        let i = first_open(m, terms, 0);
        assert(i < terms.len());
        let id = terms[i].id;
        if m.contains_key(id) && m[id] is Bic {
            assert(m.contains_key(terms[i].id) && m[terms[i].id] is Bic);
        } else {
            assert(!m.contains_key(terms[i].id) || m[terms[i].id] is Unset);
        }
    }
}

/// The identifier of the first node, in the order of the identifier list,
/// that is neither constraint nor bound; `None` exactly when the tree is well
/// formed.
pub fn unset_node(tree: &LinearBoundedTree) -> (r: Option<String>)
    requires
        tree.wf(),
    ensures
        match r {
            Some(id) => exists|i: int|
                0 <= i < tree.id_seq().len() && #[trigger] tree.id_seq()[i] == id@ && tree@[id@] is Unset
                    && forall|j: int| 0 <= j < i ==> !(tree@[#[trigger] tree.id_seq()[j]] is Unset),
            None => well_formed(tree@),
        },
{
    let ids = tree.ids();
    let ghost names = tree.id_seq();
    proof {
        tree.lemma_id_seq();
    }
    let mut i: usize = 0;
    while i < ids.len()
        invariant
            i <= ids.len(),
            names == tree.id_seq(),
            names == ids@.map_values(|s: String| s@),
            forall|k: Seq<char>| tree@.contains_key(k) <==> names.contains(k),
            forall|j: int| 0 <= j < i ==> !(tree@[#[trigger] names[j]] is Unset),
        decreases ids.len() - i,
    {
        assert(names[i as int] == ids@[i as int]@);
        assert(names.contains(names[i as int]));
        let unset = match tree.get(ids[i].as_str()) {
            Some(node) => node.part.is_none(),
            None => false,
        };
        if unset {
            return Some(ids[i].clone());
        }
        i += 1;
    }
    proof {
        assert forall|id: Seq<char>| tree@.contains_key(id) implies !(#[trigger] tree@[id] is Unset) by {
            assert(names.contains(id));
            let j = choose|j: int| 0 <= j < names.len() && names[j] == id;
            assert(!(tree@[names[j]] is Unset));
        }
    }
    None
}

/// Looks at a constraint: walks its relations in order, summing the ends of
/// the bounds they refer to, each scaled by its coefficient, and stops at the
/// first relation that refers to no bound.
pub fn scan(tree: &LinearBoundedTree, bic: &BinaryInequalityConstraint) -> (r: Scan)
    ensures
        r == scan_result(tree@, bic@),
{
    let ghost m = tree@;
    let ghost terms = bic@;
    let mut lower: i64 = 0;
    let mut upper: i64 = 0;
    let ghost mut lower_sum: int = 0;
    let ghost mut upper_sum: int = 0;
    let mut taken: usize = 0;
    while taken < bic.relations.len()
        invariant
            m == tree@,
            terms == bic@,
            terms.len() == bic.relations.len(),
            taken <= bic.relations.len(),
            weighted_sums(m, terms.take(taken as int), 0) == Some((lower_sum, upper_sum)),
            lower == wrap64(lower_sum),
            upper == wrap64(upper_sum),
            first_open(m, terms, 0) == first_open(m, terms, taken as int),
        decreases bic.relations.len() - taken,
    {
        let relation = &bic.relations[taken];
        assert(terms[taken as int] == relation@);
        let found: Option<Bound> = match tree.get(relation.id.as_str()) {
            Some(node) => match &node.part {
                Some(Part::Bound(bound)) => Some(*bound),
                Some(Part::Bic(_)) => {
                    proof {
                        lemma_open_here(m, terms, taken as int);
                    }
                    return Scan::Blocked;
                },
                None => {
                    proof {
                        lemma_open_here(m, terms, taken as int);
                    }
                    return Scan::Unreachable;
                },
            },
            None => {
                proof {
                    lemma_open_here(m, terms, taken as int);
                }
                return Scan::Unreachable;
            },
        };
        let bound = found.unwrap();
        let coefficient: i64 = relation.coefficient;
        proof {
            let next = terms.take(taken + 1);
            assert(next.drop_last() =~= terms.take(taken as int));
            assert(next.last() == terms[taken as int]);
            assert(resolve(m, terms[taken as int].id, 0) == Some(bound));
            lemma_wrap64_add(lower_sum, scaled_lower(coefficient, bound));
            lemma_wrap64_add(upper_sum, scaled_upper(coefficient, bound));
            lower_sum = lower_sum + scaled_lower(coefficient, bound);
            upper_sum = upper_sum + scaled_upper(coefficient, bound);
        }
        if coefficient < 0 {
            lower = add64(lower, mul64(bound.upper, coefficient));
            upper = add64(upper, mul64(bound.lower, coefficient));
        } else {
            lower = add64(lower, mul64(bound.lower, coefficient));
            upper = add64(upper, mul64(bound.upper, coefficient));
        }
        taken += 1;
    }
    assert(terms.take(taken as int) =~= terms);
    Scan::Reduced(
        Bound { lower: if lower >= 0 {
            1
        } else {
            0
        }, upper: if upper >= 0 {
            1
        } else {
            0
        } },
    )
}

/// A relation found open while all before it were closed decides the look.
proof fn lemma_open_here(m: Map<Seq<char>, Node>, terms: Seq<Term>, at: int)
    requires
        0 <= at < terms.len(),
        first_open(m, terms, 0) == first_open(m, terms, at),
        resolve(m, terms[at].id, 0) is None,
    ensures
        reduced_bound(m, terms, 0) is None,
        first_open(m, terms, 0) == at,
{
    lemma_sums_exist(m, terms, 0);
}

/// Visits node `id`: a look at its constraint, if it holds one.
pub fn visit(tree: &LinearBoundedTree, id: &str) -> (r: Option<Scan>)
    ensures
        r == visit_result(tree@, id@),
{
    match tree.get(id) {
        Some(node) => match &node.part {
            Some(Part::Bic(bic)) => Some(scan(tree, bic)),
            _ => None,
        },
        None => None,
    }
}

/// Some entry of the worklist names `id`.
pub open spec fn queued(queue: Seq<String>, id: Seq<char>) -> bool {
    exists|j: int| 0 <= j < queue.len() && (#[trigger] queue[j])@ == id
}

/// Node `id` holds a constraint that does not dangle: it may still reduce.
pub open spec fn waiting(m: Map<Seq<char>, Node>, id: Seq<char>) -> bool {
    m.contains_key(id) && match m[id] {
        Node::Bic(terms) => !dangling(m, terms),
        _ => false,
    }
}

/// Node `id` holds a constraint that refers to a constraint.
pub open spec fn stuck(m: Map<Seq<char>, Node>, id: Seq<char>) -> bool {
    m.contains_key(id) && match m[id] {
        Node::Bic(terms) => blocked(m, terms),
        _ => false,
    }
}

/// Replacing a constraint by a bound makes no other constraint dangle, and
/// no constraint that dangled stops dangling.
proof fn lemma_waiting_after_reduction(
    m: Map<Seq<char>, Node>,
    id: Seq<char>,
    bound: Bound,
    other: Seq<char>,
)
    requires
        m.contains_key(id),
        m[id] is Bic,
        waiting(m.insert(id, Node::Bound(bound)), other),
    ensures
        other != id,
        waiting(m, other),
{
    let next = m.insert(id, Node::Bound(bound));
    assert(other != id);
    let terms = m[other]->Bic_0;
    if dangling(m, terms) {
        let i = choose|i: int|
            0 <= i < terms.len() && (!m.contains_key(#[trigger] terms[i].id) || m[terms[i].id] is Unset);
        assert(!next.contains_key(terms[i].id) || next[terms[i].id] is Unset);
    }
}

/// When every constraint either dangles or refers to a constraint, nothing
/// is left to reduce.
proof fn lemma_quiescent(m: Map<Seq<char>, Node>)
    requires
        forall|id: Seq<char>| waiting(m, id) ==> stuck(m, id),
    ensures
        settled(m),
{
    assert forall|id: Seq<char>| m.contains_key(id) implies match #[trigger] m[id] {
        Node::Bic(terms) => weighted_sums(m, terms, 0) is None,
        _ => true,
    } by {
        if let Node::Bic(terms) = m[id] {
            lemma_sums_exist(m, terms, 0);
            if dangling(m, terms) {
                let i = choose|i: int|
                    0 <= i < terms.len() && (!m.contains_key(#[trigger] terms[i].id)
                        || m[terms[i].id] is Unset);
                assert(resolve(m, terms[i].id, 0) is None);
            } else {
                assert(waiting(m, id));
                assert(stuck(m, id));
                let i = choose|i: int|
                    0 <= i < terms.len() && m.contains_key(#[trigger] terms[i].id)
                        && m[terms[i].id] is Bic;
                assert(resolve(m, terms[i].id, 0) is None);
            }
        }
    }
}

/// Propagates a linear bounded tree: every constraint that resolves to a
/// bound is replaced by that bound, every other node is left as it is.
///
/// The worklist starts with every identifier.  A pass pops each entry once:
/// a bound is dropped, a constraint whose relations all refer to bounds is
/// reduced and dropped, one that refers to a missing identifier is dropped
/// for good, and one that refers to a constraint goes to the tail, to be
/// looked at in the next pass.  Passes end when one reduces nothing, so the
/// call returns on every tree, cyclic ones included.
pub fn propagate(tree: &LinearBoundedTree) -> (out: LinearBoundedTree)
    requires
        tree.wf(),
        well_formed(tree@),
    ensures
        out.wf(),
        out@ == propagated(tree@),
        out@.dom() == tree@.dom(),
        well_formed(out@),
        out.id_seq() == tree.id_seq(),
{
    let mut out = tree.clone();
    let ids = tree.ids();
    let mut queue: VecDeque<String> = VecDeque::new();
    let mut filled: usize = 0;
    while filled < ids.len()
        invariant
            filled <= ids.len(),
            queue@.len() == filled,
            forall|j: int| 0 <= j < filled ==> (#[trigger] queue@[j])@ == ids@[j]@,
        decreases ids.len() - filled,
    {
        queue.push_back(ids[filled].clone());
        filled += 1;
    }
    proof {
        tree.lemma_id_seq();
        assert forall|id: Seq<char>| waiting(out@, id) implies queued(queue@, id) by {
            assert(tree.id_seq().contains(id));
            let j = choose|j: int| 0 <= j < tree.id_seq().len() && tree.id_seq()[j] == id;
            assert(queue@[j]@ == id);
        }
    }
    loop
        invariant
            out.wf(),
            out.id_seq() == tree.id_seq(),
            partly_propagated(tree@, out@),
            forall|id: Seq<char>| waiting(out@, id) ==> queued(queue@, id),
        ensures
            settled(out@),
        decreases queue@.len(),
    {
        let pass: usize = queue.len();
        let mut visited: usize = 0;
        let mut progress = false;
        let ghost before = out@;
        while visited < pass
            invariant
                out.wf(),
                out.id_seq() == tree.id_seq(),
                partly_propagated(tree@, out@),
                forall|id: Seq<char>| waiting(out@, id) ==> queued(queue@, id),
                visited <= pass,
                pass - visited <= queue@.len() <= pass,
                progress ==> queue@.len() < pass,
                !progress ==> out@ == before,
                !progress ==> forall|j: int|
                    pass - visited <= j < queue@.len() ==> stuck(out@, (#[trigger] queue@[j])@),
            decreases pass - visited,
        {
            let ghost queue_before = queue@;
            let ghost out_before = out@;
            let id = queue.pop_front().unwrap();
            assert(forall|j: int| 0 <= j < queue@.len() ==> queue@[j] == queue_before[j + 1]);
            let found = visit(&out, id.as_str());
            match found {
                Some(Scan::Reduced(bound)) => {
                    proof {
                        let terms = out@[id@]->Bic_0;
                        lemma_scan_result(out@, terms);
                        lemma_reduction_step(tree@, out@, id@, terms);
                    }
                    let ghost name = id@;
                    out.insert(id, BicOrBound::from_bound(bound));
                    progress = true;
                    proof {
                        assert forall|x: Seq<char>| waiting(out@, x) implies queued(queue@, x) by {
                            lemma_waiting_after_reduction(out_before, name, bound, x);
                            let j = choose|j: int|
                                0 <= j < queue_before.len() && (#[trigger] queue_before[j])@ == x;
                            assert(queue@[j - 1]@ == x);
                        }
                    }
                },
                Some(Scan::Blocked) => {
                    proof {
                        let terms = out@[id@]->Bic_0;
                        lemma_scan_result(out@, terms);
                        assert(stuck(out@, id@));
                    }
                    let ghost name = id@;
                    queue.push_back(id);
                    proof {
                        let last = queue@.len() - 1;
                        assert(queue@[last]@ == name);
                        assert forall|x: Seq<char>| waiting(out@, x) implies queued(queue@, x) by {
                            let j = choose|j: int|
                                0 <= j < queue_before.len() && (#[trigger] queue_before[j])@ == x;
                            if j == 0 {
                                assert(queue@[last]@ == x);
                            } else {
                                assert(queue@[j - 1]@ == x);
                            }
                        }
                        if !progress {
                            assert forall|j: int|
                                pass - (visited + 1) <= j < queue@.len() implies stuck(
                                out@,
                                (#[trigger] queue@[j])@,
                            ) by {
                                if j < last {
                                    assert(queue@[j] == queue_before[j + 1]);
                                }
                            }
                        }
                    }
                },
                _ => {
                    proof {
                        if out@.contains_key(id@) {
                            if let Node::Bic(terms) = out@[id@] {
                                lemma_scan_result(out@, terms);
                            }
                        }
                        assert(!waiting(out@, id@));
                        assert forall|x: Seq<char>| waiting(out@, x) implies queued(queue@, x) by {
                            let j = choose|j: int|
                                0 <= j < queue_before.len() && (#[trigger] queue_before[j])@ == x;
                            assert(queue@[j - 1]@ == x);
                        }
                    }
                },
            }
            visited += 1;
        }
        if !progress {
            proof {
                assert forall|id: Seq<char>| waiting(out@, id) implies stuck(out@, id) by {
                    let j = choose|j: int| 0 <= j < queue@.len() && (#[trigger] queue@[j])@ == id;
                    assert(stuck(out@, queue@[j]@));
                }
                lemma_quiescent(out@);
            }
            break;
        }
    }
    proof {
        lemma_settled_is_propagated(tree@, out@);
        lemma_propagated_keys(tree@);
        lemma_propagated_well_formed(tree@);
    }
    out
}

} // verus!
