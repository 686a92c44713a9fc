//! Failures of the entity stores.
use vstd::prelude::*;

verus! {

/// Why a store operation was refused.
#[derive(Debug, Clone, Copy, PartialEq, Eq, Structural)]
pub enum StoreError {
    /// An entity with the new entity's identity already exists.
    DuplicateId,
    /// The owner that the entity refers to does not exist.
    OwnerNotFound,
    /// A card box that still holds cards cannot be deleted.
    BoxNotEmpty,
    /// The entity does not exist.
    NotFound,
    /// A page cannot move under itself or one of its descendants.
    CycleRejected,
    /// The filter name is not one of the supported filters.
    UnsupportedFilter,
    /// No identity is left to hand out.
    IdsExhausted,
}

impl StoreError {
    /// A readable description of the failure.
    pub fn message(&self) -> (r: String) {
        match self {
            StoreError::DuplicateId => "identity already in use".to_owned(),
            StoreError::OwnerNotFound => "owner not found".to_owned(),
            StoreError::BoxNotEmpty => "cannot delete non-empty box".to_owned(),
            StoreError::NotFound => "not found".to_owned(),
            StoreError::CycleRejected => "cannot move a page under its own descendant".to_owned(),
            StoreError::UnsupportedFilter => "unsupported filter".to_owned(),
            StoreError::IdsExhausted => "no identity left".to_owned(),
        }
    }
}

} // verus!
