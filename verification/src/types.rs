//! The plain values that cross the registry's boundary: caller identities,
//! notification events, and the error taxonomy.

use vstd::prelude::*;

verus! {

/// An account in the surrounding system: an opaque, equality-comparable
/// identifier.
pub type AccountId = u64;

/// The identity a call is made with, as established by the host's dispatch
/// layer before the registry is invoked.
#[derive(Clone, Copy, Debug)]
pub enum Origin {
    /// The single privileged identity permitted to mutate the registry.
    Root,
    /// An ordinary signed caller.
    Signed(AccountId),
}

/// One failure mode per precondition of the two operations.
#[derive(Clone, Copy, Debug, PartialEq, Eq, Structural)]
pub enum Error {
    /// The caller is not the root authority.
    Unauthorized,
    /// The referenced club key is absent from the registry.
    ClubDoesNotExist,
    /// An add was attempted for a member already present in the club.
    MemberAlreadyExistsInClub,
    /// A removal was attempted for a member not present in the club.
    MemberDoesNotExistInClub,
}

/// The notification returned to the host on every successful mutation.
#[derive(Debug, PartialEq, Eq)]
pub enum Event {
    /// A member has been appended to a club's list.
    MemberAdded(Vec<u8>, AccountId),
    /// A member has been removed from a club's list.
    MemberRemoved(Vec<u8>, AccountId),
}

/// The mathematical value of an [`Event`]: the same discriminant over the
/// club name's byte sequence.
pub ghost enum EventView {
    MemberAdded(Seq<u8>, AccountId),
    MemberRemoved(Seq<u8>, AccountId),
}

impl View for Event {
    type V = EventView;

    open spec fn view(&self) -> EventView {
        match self {
            Event::MemberAdded(club, member) => EventView::MemberAdded(club@, *member),
            Event::MemberRemoved(club, member) => EventView::MemberRemoved(club@, *member),
        }
    }
}

} // verus!
