//! What can go wrong when a change is applied.

use vstd::prelude::*;

use crate::ids::{Ident, ObjectID, ObjectIDView};

verus! {

/// Why a change, an undo or a redo was refused.
#[derive(Debug)]
pub enum AutomergeError {
    /// An operation names an object that the store does not hold.
    MissingObjectError(ObjectID),
    /// The change makes no sense; the text says why.
    InvalidChange(String),
}

/// The view of an [`AutomergeError`].
pub enum ErrorView {
    MissingObjectError(ObjectIDView),
    InvalidChange(Seq<char>),
}

impl DeepView for AutomergeError {
    type V = ErrorView;

    open spec fn deep_view(&self) -> ErrorView {
        match self {
            AutomergeError::MissingObjectError(id) => ErrorView::MissingObjectError(id.deep_view()),
            AutomergeError::InvalidChange(s) => ErrorView::InvalidChange(s@),
        }
    }
}

impl PartialEq for AutomergeError {
    fn eq(&self, other: &Self) -> (r: bool) {
        match (self, other) {
            (
                AutomergeError::MissingObjectError(a),
                AutomergeError::MissingObjectError(b),
            ) => a.same(b),
            (AutomergeError::InvalidChange(a), AutomergeError::InvalidChange(b)) => *a == *b,
            _ => false,
        }
    }
}

impl vstd::std_specs::cmp::PartialEqSpecImpl for AutomergeError {
    open spec fn obeys_eq_spec() -> bool {
        true
    }

    open spec fn eq_spec(&self, other: &Self) -> bool {
        self.deep_view() == other.deep_view()
    }
}

} // verus!
