//! The heart of a replicated document: an operation set that takes changes in
//! any order, applies them in causal order to an object store, and reports
//! what each change did to the document.

pub mod actor_states;
pub mod arrival_laws;
pub mod assoc;
pub mod causal_laws;
pub mod clock;
pub mod concurrent_operations;
pub mod convergence_laws;
pub mod delivery;
pub mod delivery_laws;
pub mod dependency_laws;
pub mod diff;
pub mod document_laws;
pub mod error;
pub mod fields;
pub mod ids;
pub mod list_laws;
pub mod list_order;
pub mod name_laws;
pub mod object_store;
pub mod objects;
pub mod op_set;
pub mod operation_laws;
pub mod protocol;
pub mod report_laws;
pub mod seqs;
pub mod store_laws;
pub mod sync_laws;
pub mod text;
pub mod told_laws;
pub mod undo_laws;
pub mod view_laws;
pub mod walk_laws;

pub use crate::actor_states::ActorStates;
pub use crate::clock::Clock;
pub use crate::concurrent_operations::ConcurrentOperations;
pub use crate::diff::{
    Conflict, Diff, DiffAction, ElementValue, MapType, SequenceType,
};
pub use crate::error::AutomergeError;
pub use crate::ids::{ActorID, ElementID, Key, ObjectID};
pub use crate::list_order::list_ops_in_order;
pub use crate::object_store::{ListState, MapState, ObjectState, ObjectStore};
pub use crate::op_set::OpSet;
pub use crate::protocol::{Change, DataType, Operation, OperationWithMetadata, PrimitiveValue};
