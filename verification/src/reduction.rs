//! What propagation computes, as mathematics.
//!
//! A linear bounded tree is a finite map from identifier to node.  A node
//! resolves to a bound when it is a bound, or when it is a constraint all of
//! whose relations refer to nodes that resolve.  Propagation replaces every
//! node that resolves by the bound it resolves to and leaves the others alone.

use vstd::prelude::*;
use crate::puan_core::{truth_interval, Bound, Node, Term};

verus! {

/// Every node is a constraint or a bound.
pub open spec fn well_formed(m: Map<Seq<char>, Node>) -> bool {
    forall|id: Seq<char>| m.contains_key(id) ==> !(#[trigger] m[id] is Unset)
}

/// The least value of `coefficient * x` for `x` in `bound`.
pub open spec fn scaled_lower(coefficient: i64, bound: Bound) -> int {
    if coefficient >= 0 {
        bound.lower * coefficient
    } else {
        bound.upper * coefficient
    }
}

/// The greatest value of `coefficient * x` for `x` in `bound`.
pub open spec fn scaled_upper(coefficient: i64, bound: Bound) -> int {
    if coefficient >= 0 {
        bound.upper * coefficient
    } else {
        bound.lower * coefficient
    }
}

/// The bound that node `id` resolves to through at most `depth` levels of
/// constraints, if it does.
pub open spec fn resolve(m: Map<Seq<char>, Node>, id: Seq<char>, depth: nat) -> Option<Bound>
    decreases depth, 0nat,
{
    if !m.contains_key(id) {
        None
    } else {
        match m[id] {
            Node::Bound(bound) => Some(bound),
            Node::Unset => None,
            Node::Bic(terms) => if depth == 0 {
                None
            } else {
                reduced_bound(m, terms, (depth - 1) as nat)
            },
        }
    }
}

/// The bound that a constraint with relations `terms` reduces to, each
/// referred node taken by the bound it resolves to through at most `depth`
/// levels; `None` when one of them does not resolve.
pub open spec fn reduced_bound(m: Map<Seq<char>, Node>, terms: Seq<Term>, depth: nat) -> Option<
    Bound,
>
    decreases depth, terms.len() + 2,
{
    match weighted_sums(m, terms, depth) {
        Some(sums) => Some(truth_interval(sums.0, sums.1)),
        None => None,
    }
}

/// The exact lower and upper sums of `terms`, each referred node taken by the
/// bound it resolves to through at most `depth` levels; `None` when one of
/// them does not resolve.
pub open spec fn weighted_sums(m: Map<Seq<char>, Node>, terms: Seq<Term>, depth: nat) -> Option<
    (int, int),
>
    decreases depth, terms.len() + 1,
{
    if terms.len() == 0 {
        Some((0int, 0int))
    } else {
        let term = terms.last();
        match (weighted_sums(m, terms.drop_last(), depth), resolve(m, term.id, depth)) {
            (Some(sums), Some(bound)) => Some(
                (
                    sums.0 + scaled_lower(term.coefficient, bound),
                    sums.1 + scaled_upper(term.coefficient, bound),
                ),
            ),
            _ => None,
        }
    }
}

/// Node `id` resolves to a bound.
pub open spec fn reducible(m: Map<Seq<char>, Node>, id: Seq<char>) -> bool {
    exists|depth: nat| (#[trigger] resolve(m, id, depth)) is Some
}

/// The bound that a reducible node resolves to.
pub open spec fn resolved(m: Map<Seq<char>, Node>, id: Seq<char>) -> Bound {
    resolve(m, id, choose|depth: nat| (#[trigger] resolve(m, id, depth)) is Some)->0
}

/// The tree after propagation: the same identifiers, every reducible node
/// replaced by the bound it resolves to, every other node unchanged.
pub open spec fn propagated(m: Map<Seq<char>, Node>) -> Map<Seq<char>, Node> {
    Map::new(
        |id: Seq<char>| m.contains_key(id),
        |id: Seq<char>|
            if reducible(m, id) {
                Node::Bound(resolved(m, id))
            } else {
                m[id]
            },
    )
}

/// More levels resolve no less, and to the same bound.
pub proof fn lemma_resolve_deeper(m: Map<Seq<char>, Node>, id: Seq<char>, d: nat, e: nat)
    requires
        d <= e,
        resolve(m, id, d) is Some,
    ensures
        resolve(m, id, e) == resolve(m, id, d),
    decreases d, 0nat,
{
    if m.contains_key(id) {
        if let Node::Bic(terms) = m[id] {
            lemma_sums_deeper(m, terms, (d - 1) as nat, (e - 1) as nat);
        }
    }
}

/// More levels sum no fewer constraints, and to the same sums.
pub proof fn lemma_sums_deeper(m: Map<Seq<char>, Node>, terms: Seq<Term>, d: nat, e: nat)
    requires
        d <= e,
        weighted_sums(m, terms, d) is Some,
    ensures
        weighted_sums(m, terms, e) == weighted_sums(m, terms, d),
    decreases d, terms.len() + 1,
{
    if terms.len() > 0 {
        lemma_sums_deeper(m, terms.drop_last(), d, e);
        lemma_resolve_deeper(m, terms.last().id, d, e);
    }
}

/// Whatever depth a node resolves at, it resolves to `resolved`.
pub proof fn lemma_resolved_unique(m: Map<Seq<char>, Node>, id: Seq<char>, d: nat)
    requires
        resolve(m, id, d) is Some,
    ensures
        reducible(m, id),
        resolve(m, id, d) == Some(resolved(m, id)),
{
    let c = choose|depth: nat| (#[trigger] resolve(m, id, depth)) is Some;
    if c <= d {
        lemma_resolve_deeper(m, id, c, d);
    } else {
        lemma_resolve_deeper(m, id, d, c);
    }
}

/// The sums exist exactly when every referred node resolves.
pub proof fn lemma_sums_exist(m: Map<Seq<char>, Node>, terms: Seq<Term>, depth: nat)
    ensures
        weighted_sums(m, terms, depth) is Some <==> forall|i: int|
            0 <= i < terms.len() ==> (#[trigger] resolve(m, terms[i].id, depth)) is Some,
    decreases terms.len(),
{
    if terms.len() > 0 {
        let front = terms.drop_last();
        lemma_sums_exist(m, front, depth);
        if weighted_sums(m, terms, depth) is Some {
            assert forall|i: int| 0 <= i < terms.len() implies (#[trigger] resolve(
                m,
                terms[i].id,
                depth,
            )) is Some by {
                if i < front.len() {
                    assert(front[i] == terms[i]);
                }
            }
        } else if weighted_sums(m, front, depth) is Some {
            assert(resolve(m, terms[terms.len() - 1].id, depth) is None);
        } else {
            let i = choose|i: int|
                0 <= i < front.len() && !((#[trigger] resolve(m, front[i].id, depth)) is Some);
            assert(front[i] == terms[i]);
        }
    }
}

/// When every referred node is reducible, one depth serves them all.
pub proof fn lemma_common_depth(m: Map<Seq<char>, Node>, terms: Seq<Term>) -> (depth: nat)
    requires
        forall|i: int| 0 <= i < terms.len() ==> reducible(m, #[trigger] terms[i].id),
    ensures
        weighted_sums(m, terms, depth) is Some,
    decreases terms.len(),
{
    if terms.len() == 0 {
        0
    } else {
        let front = terms.drop_last();
        assert forall|i: int| 0 <= i < front.len() implies reducible(m, #[trigger] front[i].id) by {
            assert(front[i] == terms[i]);
        }
        let d1 = lemma_common_depth(m, front);
        assert(reducible(m, terms[terms.len() - 1].id));
        let d2 = choose|d: nat| (#[trigger] resolve(m, terms.last().id, d)) is Some;
        let depth = if d1 <= d2 {
            d2
        } else {
            d1
        };
        lemma_sums_deeper(m, front, d1, depth);
        lemma_resolve_deeper(m, terms.last().id, d2, depth);
        depth
    }
}

/// Reducibility unfolded once: a bound is reducible, and a constraint is
/// reducible exactly when every identifier it refers to is a key of the tree
/// and is itself reducible.
pub proof fn lemma_reducible_unfold(m: Map<Seq<char>, Node>, id: Seq<char>)
    ensures
        reducible(m, id) <==> m.contains_key(id) && match m[id] {
            Node::Bound(_) => true,
            Node::Unset => false,
            Node::Bic(terms) => forall|i: int|
                0 <= i < terms.len() ==> m.contains_key(#[trigger] terms[i].id) && reducible(
                    m,
                    terms[i].id,
                ),
        },
{
    if reducible(m, id) {
        let d = choose|depth: nat| (#[trigger] resolve(m, id, depth)) is Some;
        if let Node::Bic(terms) = m[id] {
            lemma_sums_exist(m, terms, (d - 1) as nat);
            assert forall|i: int| 0 <= i < terms.len() implies m.contains_key(
                #[trigger] terms[i].id,
            ) && reducible(m, terms[i].id) by {
                assert(resolve(m, terms[i].id, (d - 1) as nat) is Some);
            }
        }
    } else if m.contains_key(id) {
        match m[id] {
            Node::Bound(_) => {
                assert(resolve(m, id, 0) is Some);
            },
            Node::Unset => {},
            Node::Bic(terms) => {
                if forall|i: int|
                    0 <= i < terms.len() ==> m.contains_key(#[trigger] terms[i].id) && reducible(
                        m,
                        terms[i].id,
                    ) {
                    let d = lemma_common_depth(m, terms);
                    assert(resolve(m, id, d + 1) is Some);
                }
            },
        }
    }
}

/// The sums depend on the tree only through what the referred nodes resolve
/// to.
pub proof fn lemma_sums_agree(
    m1: Map<Seq<char>, Node>,
    d1: nat,
    m2: Map<Seq<char>, Node>,
    d2: nat,
    terms: Seq<Term>,
)
    requires
        forall|i: int|
            0 <= i < terms.len() ==> resolve(m1, #[trigger] terms[i].id, d1) == resolve(
                m2,
                terms[i].id,
                d2,
            ),
    ensures
        weighted_sums(m1, terms, d1) == weighted_sums(m2, terms, d2),
    decreases terms.len(),
{
    if terms.len() > 0 {
        let front = terms.drop_last();
        assert forall|i: int| 0 <= i < front.len() implies resolve(
            m1,
            #[trigger] front[i].id,
            d1,
        ) == resolve(m2, front[i].id, d2) by {
            assert(front[i] == terms[i]);
        }
        lemma_sums_agree(m1, d1, m2, d2, front);
        assert(terms.last() == terms[terms.len() - 1]);
    }
}

/// `cur` is `m` with some of its reducible nodes replaced by the bounds
/// they resolve to: a state that propagation passes through.
pub open spec fn partly_propagated(m: Map<Seq<char>, Node>, cur: Map<Seq<char>, Node>) -> bool {
    &&& cur.dom() == m.dom()
    &&& forall|id: Seq<char>|
        m.contains_key(id) ==> #[trigger] cur[id] == m[id] || (reducible(m, id) && cur[id]
            == Node::Bound(resolved(m, id)))
}

/// No constraint of `cur` has bounds at all the nodes it refers to: nothing
/// is left to reduce.
pub open spec fn settled(cur: Map<Seq<char>, Node>) -> bool {
    forall|id: Seq<char>|
        cur.contains_key(id) ==> match #[trigger] cur[id] {
            Node::Bic(terms) => weighted_sums(cur, terms, 0) is None,
            _ => true,
        }
}

/// In a state that propagation passes through, a node that holds a bound
/// resolves to that bound in the tree propagation started from.
pub proof fn lemma_bound_in_passing(
    m: Map<Seq<char>, Node>,
    cur: Map<Seq<char>, Node>,
    id: Seq<char>,
)
    requires
        partly_propagated(m, cur),
        resolve(cur, id, 0) is Some,
    ensures
        reducible(m, id),
        Some(resolved(m, id)) == resolve(cur, id, 0),
{
    assert(cur.dom().contains(id));
    assert(m.contains_key(id));
    if cur[id] == m[id] {
        lemma_resolved_unique(m, id, 0);
    }
}

/// One reduction: a constraint of a passing state whose referred nodes all
/// hold bounds is reducible in the tree propagation started from, and
/// resolves to the truth interval of the sums taken over those bounds.
pub proof fn lemma_reduction_step(
    m: Map<Seq<char>, Node>,
    cur: Map<Seq<char>, Node>,
    id: Seq<char>,
    terms: Seq<Term>,
)
    requires
        partly_propagated(m, cur),
        cur.contains_key(id),
        cur[id] == Node::Bic(terms),
        weighted_sums(cur, terms, 0) is Some,
    ensures
        reducible(m, id),
        Some(resolved(m, id)) == reduced_bound(cur, terms, 0),
        partly_propagated(m, cur.insert(id, Node::Bound(resolved(m, id)))),
{
    assert(cur.dom().contains(id));
    assert(m.contains_key(id));
    assert(m[id] == cur[id]);
    lemma_sums_exist(cur, terms, 0);
    assert forall|i: int| 0 <= i < terms.len() implies reducible(m, #[trigger] terms[i].id) by {
        assert(resolve(cur, terms[i].id, 0) is Some);
        lemma_bound_in_passing(m, cur, terms[i].id);
    }
    let d = lemma_common_depth(m, terms);
    lemma_sums_exist(m, terms, d);
    assert forall|i: int| 0 <= i < terms.len() implies resolve(m, #[trigger] terms[i].id, d)
        == resolve(cur, terms[i].id, 0) by {
        assert(resolve(cur, terms[i].id, 0) is Some);
        lemma_bound_in_passing(m, cur, terms[i].id);
        assert(resolve(m, terms[i].id, d) is Some);
        lemma_resolved_unique(m, terms[i].id, d);
    }
    lemma_sums_agree(m, d, cur, 0, terms);
    assert(resolve(m, id, d + 1) is Some);
    lemma_resolved_unique(m, id, d + 1);
    let next = cur.insert(id, Node::Bound(resolved(m, id)));
    assert(next.dom() =~= m.dom());
}

/// In a settled passing state every node that is reducible in the tree that
/// propagation started from holds a bound.
pub proof fn lemma_settled_complete(
    m: Map<Seq<char>, Node>,
    cur: Map<Seq<char>, Node>,
    id: Seq<char>,
    depth: nat,
)
    requires
        partly_propagated(m, cur),
        settled(cur),
        resolve(m, id, depth) is Some,
    ensures
        cur.contains_key(id),
        cur[id] is Bound,
    decreases depth,
{
    assert(m.dom().contains(id));
    assert(cur.contains_key(id));
    if let Node::Bic(terms) = m[id] {
        let below = (depth - 1) as nat;
        lemma_sums_exist(m, terms, below);
        assert forall|i: int| 0 <= i < terms.len() implies (#[trigger] resolve(
            cur,
            terms[i].id,
            0,
        )) is Some by {
            assert(resolve(m, terms[i].id, below) is Some);
            lemma_settled_complete(m, cur, terms[i].id, below);
        }
        lemma_sums_exist(cur, terms, 0);
    }
}

/// A settled passing state is the propagated tree.
pub proof fn lemma_settled_is_propagated(m: Map<Seq<char>, Node>, cur: Map<Seq<char>, Node>)
    requires
        partly_propagated(m, cur),
        settled(cur),
    ensures
        cur == propagated(m),
{
    assert forall|id: Seq<char>| m.contains_key(id) implies #[trigger] cur[id] == propagated(
        m,
    )[id] by {
        if reducible(m, id) {
            let d = choose|depth: nat| (#[trigger] resolve(m, id, depth)) is Some;
            lemma_settled_complete(m, cur, id, d);
            if cur[id] == m[id] {
                lemma_resolved_unique(m, id, 0);
            }
        }
    }
    assert(cur =~= propagated(m));
}

/// Propagation changes no identifier: the propagated tree has exactly the
/// keys of the tree it was made from.
pub proof fn lemma_propagated_keys(m: Map<Seq<char>, Node>)
    ensures
        propagated(m).dom() == m.dom(),
        forall|id: Seq<char>| propagated(m).contains_key(id) <==> m.contains_key(id),
{
    assert(propagated(m).dom() =~= m.dom());
}

/// Propagation is monotone: a node that holds a bound holds the same bound
/// after propagation.
pub proof fn lemma_propagated_keeps_bounds(m: Map<Seq<char>, Node>, id: Seq<char>)
    requires
        m.contains_key(id),
        m[id] is Bound,
    ensures
        propagated(m).contains_key(id),
        propagated(m)[id] == m[id],
{
    lemma_resolved_unique(m, id, 0);
}

/// What propagation does to each node: a reducible one becomes the bound it
/// resolves to, any other stays as it is; and nothing is left to reduce.
pub proof fn lemma_propagated_settled(m: Map<Seq<char>, Node>)
    ensures
        partly_propagated(m, propagated(m)),
        settled(propagated(m)),
{
    let p = propagated(m);
    lemma_propagated_keys(m);
    assert forall|id: Seq<char>| p.contains_key(id) implies match #[trigger] p[id] {
        Node::Bic(terms) => weighted_sums(p, terms, 0) is None,
        _ => true,
    } by {
        if let Node::Bic(terms) = p[id] {
            if weighted_sums(p, terms, 0) is Some {
                lemma_reduction_step(m, p, id, terms);
            }
        }
    }
}

/// Propagation is idempotent: propagating a propagated tree changes nothing.
pub proof fn lemma_propagated_idempotent(m: Map<Seq<char>, Node>)
    ensures
        propagated(propagated(m)) == propagated(m),
{
    let p = propagated(m);
    lemma_propagated_settled(m);
    assert(partly_propagated(p, p));
    lemma_settled_is_propagated(p, p);
}

/// Every bound that propagation puts in the place of a constraint is a truth
/// interval: each end is `0` or `1`.
pub proof fn lemma_propagated_truth_valued(m: Map<Seq<char>, Node>, id: Seq<char>)
    requires
        m.contains_key(id),
        m[id] is Bic,
        reducible(m, id),
    ensures
        propagated(m)[id] == Node::Bound(resolved(m, id)),
        resolved(m, id).truth_valued(),
{
    let d = choose|depth: nat| (#[trigger] resolve(m, id, depth)) is Some;
    lemma_resolved_unique(m, id, d);
}

/// Propagation keeps a well-formed tree well formed.
pub proof fn lemma_propagated_well_formed(m: Map<Seq<char>, Node>)
    requires
        well_formed(m),
    ensures
        well_formed(propagated(m)),
{
    assert forall|id: Seq<char>| propagated(m).contains_key(id) implies !(
    #[trigger] propagated(m)[id] is Unset) by {
        assert(!(m[id] is Unset));
    }
}

} // verus!
