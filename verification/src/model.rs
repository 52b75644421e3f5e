//! The mathematical model of the registry: its abstract state, its data
//! invariant, and the two state-transition functions that the executable
//! operations are proved to implement.

use vstd::prelude::*;
use crate::types::{AccountId, Error, Event, EventView, Origin};

verus! {

/// The abstract registry state: each club name maps to the ordered sequence
/// of its members. Absence of a key means the club does not exist.
pub type RegistryView = Map<Seq<u8>, Seq<AccountId>>;

/// All entries of a member sequence are pairwise distinct.
pub open spec fn unique_members(s: Seq<AccountId>) -> bool {
    forall|i: int, j: int| 0 <= i < j < s.len() ==> s[i] != s[j]
}

/// The registry's data invariant: no club's member sequence holds a
/// duplicate entry.
pub open spec fn state_ok(s: RegistryView) -> bool {
    forall|c: Seq<u8>| #[trigger] s.contains_key(c) ==> unique_members(s[c])
}

/// The index of the first occurrence of `x` in `s` (meaningful only when
/// `s.contains(x)`).
pub open spec fn first_index_of(s: Seq<AccountId>, x: AccountId) -> int
    recommends
        s.contains(x),
    decreases s.len(),
{
    if s.len() == 0 {
        0
    } else if s[0] == x {
        0
    } else {
        1 + first_index_of(s.drop_first(), x)
    }
}

/// `s` with its first occurrence of `x` removed and the gap closed up;
/// `s` itself when `x` is absent.
pub open spec fn remove_first(s: Seq<AccountId>, x: AccountId) -> Seq<AccountId>
    decreases s.len(),
{
    if s.len() == 0 {
        s
    } else if s[0] == x {
        s.drop_first()
    } else {
        seq![s[0]] + remove_first(s.drop_first(), x)
    }
}

/// The add-member transition: the next state together with the outcome of
/// the call. The preconditions are checked in order — authorization, club
/// existence, non-duplication — and a failed check leaves the state exactly
/// as it was. On success the member is appended to the end of the club's
/// sequence and an event reports the change.
pub open spec fn add_step(
    s: RegistryView,
    origin: Origin,
    club: Seq<u8>,
    member: AccountId,
) -> (RegistryView, Result<EventView, Error>) {
    if !(origin is Root) {
        (s, Err(Error::Unauthorized))
    } else if !s.contains_key(club) {
        (s, Err(Error::ClubDoesNotExist))
    } else if s[club].contains(member) {
        (s, Err(Error::MemberAlreadyExistsInClub))
    } else {
        (s.insert(club, s[club].push(member)), Ok(EventView::MemberAdded(club, member)))
    }
}

/// The remove-member transition: authorization, club existence and
/// membership are checked in order; on success the member's single
/// occurrence is removed, the remaining members keeping their relative
/// order, and an event reports the change.
pub open spec fn remove_step(
    s: RegistryView,
    origin: Origin,
    club: Seq<u8>,
    member: AccountId,
) -> (RegistryView, Result<EventView, Error>) {
    if !(origin is Root) {
        (s, Err(Error::Unauthorized))
    } else if !s.contains_key(club) {
        (s, Err(Error::ClubDoesNotExist))
    } else if !s[club].contains(member) {
        (s, Err(Error::MemberDoesNotExistInClub))
    } else {
        (s.insert(club, remove_first(s[club], member)), Ok(EventView::MemberRemoved(club, member)))
    }
}

/// The executable outcome `r` carries exactly the abstract outcome `o`: the
/// same event on success, the same error on failure.
pub open spec fn outcome_agrees(r: Result<Event, Error>, o: Result<EventView, Error>) -> bool {
    match (r, o) {
        (Ok(ev), Ok(ov)) => ev@ == ov,
        (Err(e), Err(oe)) => e == oe,
        _ => false,
    }
}

/// `first_index_of` names a real occurrence, and the first one: `x` stands
/// there and nowhere before it.
pub proof fn lemma_first_occurrence(s: Seq<AccountId>, x: AccountId)
    requires
        s.contains(x),
    ensures
        0 <= first_index_of(s, x) < s.len(),
        s[first_index_of(s, x)] == x,
        forall|k: int| 0 <= k < first_index_of(s, x) ==> s[k] != x,
    decreases s.len(),
{
    if s[0] == x {
    } else {
        assert(s.drop_first().contains(x)) by {
            let w = choose|w: int| 0 <= w < s.len() && s[w] == x;
            assert(s.drop_first()[w - 1] == x);
        }
        lemma_first_occurrence(s.drop_first(), x);
        let i = first_index_of(s, x);
        assert(s[i] == s.drop_first()[i - 1]);
        assert forall|k: int| 0 <= k < i implies s[k] != x by {
            if k > 0 {
                assert(s.drop_first()[k - 1] != x);
            }
        }
    }
}

/// Removing the first occurrence splices the sequence around it: the
/// entries before the occurrence and the entries after it keep their
/// relative order, shifted to close the gap.
pub proof fn lemma_remove_first_splice(s: Seq<AccountId>, x: AccountId)
    requires
        s.contains(x),
    ensures
        remove_first(s, x) == s.remove(first_index_of(s, x)),
    decreases s.len(),
{
    lemma_first_occurrence(s, x);
    if s[0] == x {
        assert(s.drop_first() =~= s.remove(0));
    } else {
        assert(s.drop_first().contains(x)) by {
            let w = choose|w: int| 0 <= w < s.len() && s[w] == x;
            assert(s.drop_first()[w - 1] == x);
        }
        lemma_remove_first_splice(s.drop_first(), x);
        lemma_first_occurrence(s.drop_first(), x);
        let i = first_index_of(s, x);
        assert(seq![s[0]] + s.drop_first().remove(i - 1) =~= s.remove(i));
    }
}

/// Appending a fresh member and then removing it restores the sequence
/// exactly.
pub proof fn lemma_remove_first_push(s: Seq<AccountId>, x: AccountId)
    requires
        !s.contains(x),
    ensures
        remove_first(s.push(x), x) == s,
    decreases s.len(),
{
    let p = s.push(x);
    if s.len() == 0 {
        assert(p[0] == x);
        assert(p.drop_first() =~= s);
    } else {
        assert(s[0] != x) by {
            if s[0] == x {
                assert(s.contains(x));
            }
        }
        assert(p[0] == s[0]);
        assert(!s.drop_first().contains(x)) by {
            if s.drop_first().contains(x) {
                let w = choose|w: int| 0 <= w < s.drop_first().len() && s.drop_first()[w] == x;
                assert(s[w + 1] == x);
            }
        }
        assert(p.drop_first() =~= s.drop_first().push(x));
        lemma_remove_first_push(s.drop_first(), x);
        assert(seq![s[0]] + s.drop_first() =~= s);
    }
}

/// Appending a member that is not yet present keeps the sequence free of
/// duplicates.
pub proof fn lemma_unique_push(s: Seq<AccountId>, x: AccountId)
    requires
        unique_members(s),
        !s.contains(x),
    ensures
        unique_members(s.push(x)),
{
    let p = s.push(x);
    assert forall|i: int, j: int| 0 <= i < j < p.len() implies p[i] != p[j] by {
        if j == s.len() {
            assert(p[i] == s[i]);
            assert(s[i] != x) by {
                if s[i] == x {
                    assert(s.contains(x));
                }
            }
        } else {
            assert(p[i] == s[i] && p[j] == s[j]);
        }
    }
}

/// Removing a member keeps the sequence free of duplicates.
pub proof fn lemma_unique_remove_first(s: Seq<AccountId>, x: AccountId)
    requires
        unique_members(s),
        s.contains(x),
    ensures
        unique_members(remove_first(s, x)),
{
    lemma_first_occurrence(s, x);
    lemma_remove_first_splice(s, x);
    let i = first_index_of(s, x);
    let r = remove_first(s, x);
    assert forall|a: int, b: int| 0 <= a < b < r.len() implies r[a] != r[b] by {
        let sa: int = if a < i { a } else { a + 1 };
        let sb: int = if b < i { b } else { b + 1 };
        assert(r[a] == s[sa]);
        assert(r[b] == s[sb]);
    }
}

} // verus!
