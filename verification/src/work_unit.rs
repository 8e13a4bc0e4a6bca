//! Work units and the discovered-children buffer.
//!
//! A work unit is a bounded batch of node handles that one worker processes
//! sequentially; it is held in an `arrayvec::ArrayVec` so that handing it
//! across the scheduler boundary is a cheap, fixed-size copy. The buffer of
//! children discovered while a work unit runs is a `smallvec::SmallVec`,
//! which stays on the stack for the common case and spills to the heap for
//! abnormally wide levels. Both collections are outside code; the contracts
//! below name what each one holds and say how every operation the engine
//! uses changes those contents.

use vstd::prelude::*;
use crate::dispatch::WORK_UNIT_MAX;

verus! {

#[verifier::external_type_specification]
#[verifier::external_body]
#[verifier::reject_recursive_types(T)]
pub struct ExArrayVec<T, const CAP: usize>(arrayvec::ArrayVec<T, CAP>);

/// A set of nodes, sized to the work unit. This gets copied when handed to
/// other workers, so it is kept compact.
pub type WorkUnit = arrayvec::ArrayVec<usize, WORK_UNIT_MAX>;

/// The scratch buffer of child nodes discovered across one work unit. It
/// holds a `smallvec::SmallVec`, which keeps a typical level's children on
/// the stack and spills to the heap for abnormally wide levels; the
/// declaration of that generic type is refused here, so the collection
/// lives in a hidden field instead.
#[verifier::external_body]
pub struct NodeBuffer {
    vec: smallvec::SmallVec<[usize; 128]>,
}

/// The nodes a work unit holds, oldest first.
pub uninterp spec fn work_unit_nodes(v: WorkUnit) -> Seq<usize>;

/// The nodes the discovered-children buffer holds, oldest first.
pub uninterp spec fn node_buffer_nodes(v: NodeBuffer) -> Seq<usize>;

/// Relies on arrayvec::ArrayVec::new: a freshly created vector is empty.
#[verifier::external_body]
pub(crate) fn work_unit_new() -> (r: WorkUnit)
    ensures
        work_unit_nodes(r) == Seq::<usize>::empty(),
{
    arrayvec::ArrayVec::new()
}

/// Relies on arrayvec::ArrayVec::push: appends one element at the end. It
/// panics on a full vector, so a full work unit is excluded here.
#[verifier::external_body]
pub(crate) fn work_unit_push(v: &mut WorkUnit, node: usize)
    requires
        work_unit_nodes(*old(v)).len() < WORK_UNIT_MAX,
    ensures
        work_unit_nodes(*final(v)) == work_unit_nodes(*old(v)).push(node),
{
    v.push(node)
}

/// Relies on arrayvec::ArrayVec::as_slice: exposes exactly the stored
/// elements, in order.
#[verifier::external_body]
pub(crate) fn work_unit_as_slice(v: &WorkUnit) -> (r: &[usize])
    ensures
        r@ == work_unit_nodes(*v),
{
    v.as_slice()
}

/// Relies on smallvec::SmallVec::new: a freshly created vector is empty.
#[verifier::external_body]
pub(crate) fn node_buffer_new() -> (r: NodeBuffer)
    ensures
        node_buffer_nodes(r) == Seq::<usize>::empty(),
{
    NodeBuffer { vec: smallvec::SmallVec::new() }
}

/// Relies on smallvec::SmallVec::push: appends one element at the end,
/// growing onto the heap when the inline capacity is exceeded. A vector of
/// the maximum possible length is excluded, since growing it further could
/// not preserve the contents.
#[verifier::external_body]
pub(crate) fn node_buffer_push(v: &mut NodeBuffer, node: usize)
    requires
        node_buffer_nodes(*old(v)).len() < usize::MAX,
    ensures
        node_buffer_nodes(*final(v)) == node_buffer_nodes(*old(v)).push(node),
{
    v.vec.push(node)
}

/// Relies on smallvec::SmallVec::as_slice: exposes exactly the stored
/// elements, in order.
#[verifier::external_body]
pub(crate) fn node_buffer_as_slice(v: &NodeBuffer) -> (r: &[usize])
    ensures
        r@ == node_buffer_nodes(*v),
{
    v.vec.as_slice()
}

/// Relies on smallvec::SmallVec::clear: removes every element.
#[verifier::external_body]
pub(crate) fn node_buffer_clear(v: &mut NodeBuffer)
    ensures
        node_buffer_nodes(*final(v)) == Seq::<usize>::empty(),
{
    v.vec.clear()
}

} // verus!
