//! The registry's laws: properties that relate several operations or hold
//! of every reachable state, proved of the transition functions that the
//! executable operations are bound to by their contracts.

use vstd::prelude::*;
use crate::model::{
    add_step, remove_step, first_index_of, state_ok, unique_members, lemma_first_occurrence,
    lemma_remove_first_push, lemma_remove_first_splice, lemma_unique_push,
    lemma_unique_remove_first, RegistryView,
};
use crate::types::{AccountId, Error, EventView, Origin};

verus! {

/// Adding the same member twice in a row: the first call succeeds, the
/// second is rejected with `MemberAlreadyExistsInClub`, and the state after
/// both calls is the state after the first alone.
pub proof fn lemma_add_idempotent_rejection(s: RegistryView, club: Seq<u8>, member: AccountId)
    requires
        s.contains_key(club),
        !s[club].contains(member),
    ensures
        ({
            let (s1, r1) = add_step(s, Origin::Root, club, member);
            let (s2, r2) = add_step(s1, Origin::Root, club, member);
            &&& r1 == Ok::<EventView, Error>(EventView::MemberAdded(club, member))
            &&& r2 == Err::<EventView, Error>(Error::MemberAlreadyExistsInClub)
            &&& s2 == s1
        }),
{
    let (s1, r1) = add_step(s, Origin::Root, club, member);
    assert(s1[club] == s[club].push(member));
    assert(s1[club][s[club].len() as int] == member);
    assert(s1[club].contains(member));
}

/// Adding a member not yet present and then removing it returns the
/// registry to its previous state exactly: the same clubs, and the same
/// order for all other members.
pub proof fn lemma_add_remove_symmetry(s: RegistryView, club: Seq<u8>, member: AccountId)
    requires
        s.contains_key(club),
        !s[club].contains(member),
    ensures
        ({
            let (s1, r1) = add_step(s, Origin::Root, club, member);
            let (s2, r2) = remove_step(s1, Origin::Root, club, member);
            &&& r1 == Ok::<EventView, Error>(EventView::MemberAdded(club, member))
            &&& r2 == Ok::<EventView, Error>(EventView::MemberRemoved(club, member))
            &&& s2 == s
        }),
{
    let (s1, r1) = add_step(s, Origin::Root, club, member);
    assert(s1[club] == s[club].push(member));
    assert(s1[club][s[club].len() as int] == member);
    assert(s1[club].contains(member));
    lemma_remove_first_push(s[club], member);
    let (s2, r2) = remove_step(s1, Origin::Root, club, member);
    assert(s2 =~= s);
}

/// An operation on a club key that was never inserted fails with
/// `ClubDoesNotExist`, leaves the mapping unchanged, and creates no key as
/// a side effect of the failed call.
pub proof fn lemma_missing_club_rejected(s: RegistryView, club: Seq<u8>, member: AccountId)
    requires
        !s.contains_key(club),
    ensures
        add_step(s, Origin::Root, club, member) == (
            s,
            Err::<EventView, Error>(Error::ClubDoesNotExist),
        ),
        remove_step(s, Origin::Root, club, member) == (
            s,
            Err::<EventView, Error>(Error::ClubDoesNotExist),
        ),
        !add_step(s, Origin::Root, club, member).0.contains_key(club),
        !remove_step(s, Origin::Root, club, member).0.contains_key(club),
{
}

/// A successful removal splices the club's sequence around the removed
/// member: everyone before it keeps their place, everyone after it moves
/// one place up, so the relative order of the remaining members is kept.
pub proof fn lemma_remove_preserves_order(s: RegistryView, club: Seq<u8>, member: AccountId)
    requires
        s.contains_key(club),
        s[club].contains(member),
    ensures
        ({
            let i = first_index_of(s[club], member);
            let (s2, r2) = remove_step(s, Origin::Root, club, member);
            &&& 0 <= i < s[club].len() && s[club][i] == member
            &&& r2 == Ok::<EventView, Error>(EventView::MemberRemoved(club, member))
            &&& s2[club] == s[club].subrange(0, i) + s[club].subrange(
                i + 1,
                s[club].len() as int,
            )
        }),
{
    lemma_first_occurrence(s[club], member);
    lemma_remove_first_splice(s[club], member);
}

/// Any call from a non-root caller fails with `Unauthorized`, regardless of
/// club or member validity, and leaves the state unchanged.
pub proof fn lemma_authorization_gate(
    s: RegistryView,
    origin: Origin,
    club: Seq<u8>,
    member: AccountId,
)
    requires
        !(origin is Root),
    ensures
        add_step(s, origin, club, member) == (s, Err::<EventView, Error>(Error::Unauthorized)),
        remove_step(s, origin, club, member) == (s, Err::<EventView, Error>(Error::Unauthorized)),
{
}

/// Both operations preserve the registry's data invariant: in every state
/// they can reach, every club's member sequence stays free of duplicates.
pub proof fn lemma_steps_preserve_state_ok(
    s: RegistryView,
    origin: Origin,
    club: Seq<u8>,
    member: AccountId,
)
    requires
        state_ok(s),
    ensures
        state_ok(add_step(s, origin, club, member).0),
        state_ok(remove_step(s, origin, club, member).0),
{
    if origin is Root && s.contains_key(club) {
        if !s[club].contains(member) {
            lemma_unique_push(s[club], member);
            let s1 = add_step(s, origin, club, member).0;
            assert forall|c: Seq<u8>| #[trigger] s1.contains_key(c) implies unique_members(
                s1[c],
            ) by {
                if c != club {
                    assert(s.contains_key(c));
                }
            }
        } else {
            lemma_unique_remove_first(s[club], member);
            let s2 = remove_step(s, origin, club, member).0;
            assert forall|c: Seq<u8>| #[trigger] s2.contains_key(c) implies unique_members(
                s2[c],
            ) by {
                if c != club {
                    assert(s.contains_key(c));
                }
            }
        }
    }
}

} // verus!
