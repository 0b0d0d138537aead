//! The streamed drivers, as the decisions of the task that feeds an outbound
//! stream: what to emit for what the inbound stream yields, and when to stop.
//! The task itself, its channel and its waiting are not here.

use vstd::prelude::*;
use crate::batch::{evaluate_pair, pair_evaluation};
use crate::evaluation::ShapeError;
use crate::propagation::propagate;
use crate::puan_core::{Bound, LinearBoundedTree};
use crate::puan_eval::PropositionInterpretationPair;
use crate::reduction::{propagated, well_formed};

verus! {

/// Whether the producing task goes on reading its inbound stream.
#[derive(Clone, Copy, Debug, PartialEq, Eq, Structural)]
pub enum Producer {
    Draining,
    Done,
}

/// What the inbound stream yielded: an element, a fault in its place, or its
/// end.
#[derive(Debug, PartialEq, Eq)]
pub enum Inbound<T, E> {
    Element(T),
    Fault(E),
    End,
}

/// What goes out in the place of one inbound element.
#[derive(Debug, PartialEq, Eq)]
pub enum Outbound<U, E> {
    /// The result for the element.
    Value(U),
    /// The fault that came in the element's place.
    Fault(E),
    /// The element was malformed.
    Rejected(ShapeError),
}

/// After an attempt to emit: the task goes on while the receiver takes what
/// it is sent, and stops at the first emit that fails.
pub fn after_emit(delivered: bool) -> (r: Producer)
    ensures
        r == if delivered {
            Producer::Draining
        } else {
            Producer::Done
        },
{
    if delivered {
        Producer::Draining
    } else {
        Producer::Done
    }
}

/// What the pair stream emits for what came in.
pub open spec fn pair_step<E>(inbound: Inbound<PropositionInterpretationPair, E>) -> (
    Producer,
    Option<Outbound<Bound, E>>,
) {
    match inbound {
        Inbound::Element(pair) => (
            Producer::Draining,
            Some(
                match pair_evaluation(pair) {
                    Ok(bound) => Outbound::Value(bound),
                    Err(e) => Outbound::Rejected(e),
                },
            ),
        ),
        Inbound::Fault(fault) => (Producer::Draining, Some(Outbound::Fault(fault))),
        Inbound::End => (Producer::Done, None),
    }
}

/// One step of the streamed pair driver: for an element its bound, or why it
/// was rejected; for a fault the fault itself, in the same place; in both
/// cases the task goes on.  At the end of the input nothing, and the task is
/// done.
pub fn on_pair<E>(inbound: Inbound<PropositionInterpretationPair, E>) -> (r: (
    Producer,
    Option<Outbound<Bound, E>>,
))
    ensures
        r == pair_step(inbound),
{
    match inbound {
        Inbound::Element(pair) => {
            let out = match evaluate_pair(&pair) {
                Ok(bound) => Outbound::Value(bound),
                Err(e) => Outbound::Rejected(e),
            };
            (Producer::Draining, Some(out))
        },
        Inbound::Fault(fault) => (Producer::Draining, Some(Outbound::Fault(fault))),
        Inbound::End => (Producer::Done, None),
    }
}

/// One step of the streamed tree driver: for a tree the propagated tree, for
/// a fault the fault itself, in the same place; in both cases the task goes
/// on.  At the end of the input nothing, and the task is done.
pub fn on_tree<E>(inbound: Inbound<LinearBoundedTree, E>) -> (r: (
    Producer,
    Option<Outbound<LinearBoundedTree, E>>,
))
    requires
        inbound matches Inbound::Element(tree) ==> tree.wf() && well_formed(tree@),
    ensures
        match inbound {
            Inbound::Element(tree) => {
                &&& r.0 == Producer::Draining
                &&& r.1 matches Some(Outbound::Value(out))
                &&& out.wf()
                &&& out@ == propagated(tree@)
                &&& out.id_seq() == tree.id_seq()
            },
            Inbound::Fault(fault) => r == (
                Producer::Draining,
                Some(Outbound::<LinearBoundedTree, E>::Fault(fault)),
            ),
            Inbound::End => r == (Producer::Done, None::<Outbound<LinearBoundedTree, E>>),
        },
{
    match inbound {
        Inbound::Element(tree) => (Producer::Draining, Some(Outbound::Value(propagate(&tree)))),
        Inbound::Fault(fault) => (Producer::Draining, Some(Outbound::Fault(fault))),
        Inbound::End => (Producer::Done, None),
    }
}

} // verus!
