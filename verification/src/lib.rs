//! A parallel, breadth-first, top-down traversal engine over a tree of
//! nodes. Every node is processed only after its parent, exactly once;
//! nodes travel between workers in work units of bounded size; chained
//! tail dispatches on one call stack stop at a fixed ceiling and degrade
//! into spawning; and per-worker statistics merge into one aggregate by an
//! associative, commutative, order-independent operation.
//!
//! The modules, leaves first: [`dispatch`] holds the dispatch-mode tag and
//! the tail-call decision, [`tree`] the model of the tree under traversal,
//! [`events`] the observable record of the per-node steps, [`work_unit`]
//! the bounded batches and the discovered-children buffer, [`context`] the
//! per-worker slot table, [`stats`] the statistics accumulator and its
//! merge laws, [`pool`] the engine's view of the thread pool, and
//! [`traversal`] the driver, dispatcher and level processor with the
//! traversal's guarantees.
//!
//! Two modeling decisions run through the whole crate. The collaborator
//! callbacks that compute a node's derived value are outside the engine's
//! scope: their invocations are what the event log records, and the
//! large-traversal threshold that a collaborating strategy would supply
//! is a fixed constant here. And real task spawning is modeled by the
//! explicit queue of spawned-but-unstarted work units carried in the
//! traversal state: the guarantees are proved over every order in which
//! queued units may run, while the work-stealing pool itself is consulted
//! only for hints that no guarantee depends on.

pub mod context;
pub mod dispatch;
pub mod events;
pub mod pool;
pub mod stats;
pub mod traversal;
pub mod tree;
pub mod work_unit;
