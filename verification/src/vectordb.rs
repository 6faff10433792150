//! Decisions of the remote vector-database session: whether a collection
//! lookup means the collection is usable, must be created, or fails the
//! operation.  The network calls themselves are outside work; the caller
//! performs the chosen action and reports back.

use vstd::prelude::*;

verus! {

/// What a collection lookup came back with, as plain values: the reported
/// status, a lookup failure that means the collection is missing, or any
/// other failure.
pub enum CollectionCheck {
    Status { status: i64 },
    Missing,
    LookupFailed,
}

/// What the caller does next with the collection.
#[derive(PartialEq, Eq, Structural)]
pub enum CollectionAction {
    /// The collection is usable as it stands.
    Ready,
    /// The collection must be created, and its status checked again.
    Create,
    /// The operation fails.
    Fail,
}

/// A reported status that counts as healthy: settled or still balancing.
pub open spec fn spec_status_healthy(status: i64) -> bool {
    status == 0 || status == 1
}

/// The action a collection check calls for: a healthy status is ready, an
/// unhealthy one fails, a missing collection is created, and any other
/// lookup failure fails.
pub fn plan_collection_check(check: &CollectionCheck) -> (r: CollectionAction)
    ensures
        match check {
            CollectionCheck::Status { status } => r == (if spec_status_healthy(*status) {
                CollectionAction::Ready
            } else {
                CollectionAction::Fail
            }),
            CollectionCheck::Missing => r == CollectionAction::Create,
            CollectionCheck::LookupFailed => r == CollectionAction::Fail,
        },
{
    match check {
        CollectionCheck::Status { status } => {
            if *status == 0 || *status == 1 {
                CollectionAction::Ready
            } else {
                CollectionAction::Fail
            }
        },
        CollectionCheck::Missing => CollectionAction::Create,
        CollectionCheck::LookupFailed => CollectionAction::Fail,
    }
}

/// After creating a missing collection, only a healthy status makes the
/// session usable: creation is attempted once, never in a loop.
pub fn plan_after_create(check: &CollectionCheck) -> (r: CollectionAction)
    ensures
        match check {
            CollectionCheck::Status { status } => r == (if spec_status_healthy(*status) {
                CollectionAction::Ready
            } else {
                CollectionAction::Fail
            }),
            CollectionCheck::Missing => r == CollectionAction::Fail,
            CollectionCheck::LookupFailed => r == CollectionAction::Fail,
        },
{
    match check {
        CollectionCheck::Status { status } => {
            if *status == 0 || *status == 1 {
                CollectionAction::Ready
            } else {
                CollectionAction::Fail
            }
        },
        CollectionCheck::Missing => CollectionAction::Fail,
        CollectionCheck::LookupFailed => CollectionAction::Fail,
    }
}

/// The identifier a returned point carries, as plain values: a numeric
/// identifier, a textual one, or none at all.
pub enum PointIdValue {
    Numeric { id: u64 },
    Text { value: String },
    Absent,
}

/// Converts a returned point identifier to the numeric form the caller
/// stores: only a numeric identifier converts; a textual or missing one is
/// a conversion failure, named in the message.
pub fn point_id_to_u64(v: &PointIdValue) -> (r: Result<u64, String>)
    ensures
        match v {
            PointIdValue::Numeric { id } => r == Ok::<u64, String>(*id),
            PointIdValue::Text { .. } => r matches Err(m) && m@
                == "Expected numeric id but got text"@,
            PointIdValue::Absent => r matches Err(m) && m@ == "Missing point id"@,
        },
{
    match v {
        PointIdValue::Numeric { id } => Ok(*id),
        PointIdValue::Text { .. } => Err(String::from_str("Expected numeric id but got text")),
        PointIdValue::Absent => Err(String::from_str("Missing point id")),
    }
}

} // verus!
