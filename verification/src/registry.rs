//! The executable registry: the owned state object, its bootstrap
//! configuration, and the two privileged mutation operations, each proved to
//! implement the corresponding transition of [`crate::model`].

use vstd::prelude::*;
use crate::model::{
    add_step, remove_step, first_index_of, outcome_agrees, unique_members,
    lemma_first_occurrence, lemma_remove_first_splice, lemma_unique_push,
    lemma_unique_remove_first, RegistryView,
};
use crate::types::{AccountId, Error, Event, Origin};

verus! {

/// One club: its name and the ordered list of its members.
struct Club {
    /// The club's identifier, an opaque byte string.
    name: Vec<u8>,
    /// The club's members, in insertion order.
    members: Vec<AccountId>,
}

/// The membership registry: an explicitly owned mapping from club names to
/// member lists, held as an association list keyed by distinct names.
pub struct Pallet {
    clubs: Vec<Club>,
}

/// The clubs of the association list `s`, read as a mapping from club name
/// to member sequence.
spec fn as_map(s: Seq<Club>) -> RegistryView
    decreases s.len(),
{
    if s.len() == 0 {
        Map::empty()
    } else {
        as_map(s.drop_last()).insert(s.last().name@, s.last().members@)
    }
}

/// The club names of `s` are pairwise distinct, so each name denotes one
/// entry of the association list.
spec fn distinct_names(s: Seq<Club>) -> bool {
    forall|i: int, j: int| 0 <= i < j < s.len() ==> s[i].name@ != s[j].name@
}

impl View for Pallet {
    type V = RegistryView;

    closed spec fn view(&self) -> RegistryView {
        as_map(self.clubs@)
    }
}

/// A name keys the mapping exactly when some entry of the association list
/// carries it.
proof fn lemma_as_map_contains(s: Seq<Club>, c: Seq<u8>)
    ensures
        as_map(s).contains_key(c) <==> exists|i: int| 0 <= i < s.len() && s[i].name@ == c,
    decreases s.len(),
{
    if s.len() > 0 {
        lemma_as_map_contains(s.drop_last(), c);
        if s.last().name@ == c {
            assert(s[s.len() - 1].name@ == c);
        } else if exists|i: int| 0 <= i < s.len() && s[i].name@ == c {
            let w = choose|i: int| 0 <= i < s.len() && s[i].name@ == c;
            assert(s.drop_last()[w].name@ == c);
        }
    }
}

/// Under distinct names, the mapping sends an entry's name to that entry's
/// member sequence.
proof fn lemma_as_map_at(s: Seq<Club>, i: int)
    requires
        distinct_names(s),
        0 <= i < s.len(),
    ensures
        as_map(s).contains_key(s[i].name@),
        as_map(s)[s[i].name@] == s[i].members@,
    decreases s.len(),
{
    lemma_as_map_contains(s, s[i].name@);
    if i < s.len() - 1 {
        assert(distinct_names(s.drop_last()));
        assert(s.drop_last()[i] == s[i]);
        lemma_as_map_at(s.drop_last(), i);
        assert(s[i].name@ != s.last().name@);
    }
}

/// Replacing one entry by another of the same name updates the mapping at
/// that name alone.
proof fn lemma_as_map_update(s: Seq<Club>, i: int, c: Club)
    requires
        distinct_names(s),
        0 <= i < s.len(),
        c.name@ == s[i].name@,
    ensures
        as_map(s.update(i, c)) == as_map(s).insert(c.name@, c.members@),
    decreases s.len(),
{
    let u = s.update(i, c);
    if i == s.len() - 1 {
        assert(u.drop_last() =~= s.drop_last());
        assert(u.last() == c);
        assert(as_map(s.drop_last()).insert(c.name@, c.members@) =~= as_map(s).insert(
            c.name@,
            c.members@,
        ));
    } else {
        assert(distinct_names(s.drop_last()));
        assert(s.drop_last()[i] == s[i]);
        lemma_as_map_update(s.drop_last(), i, c);
        assert(u.drop_last() =~= s.drop_last().update(i, c));
        assert(u.last() == s.last());
        assert(s[i].name@ != s.last().name@);
        assert(as_map(s.drop_last()).insert(c.name@, c.members@).insert(
            s.last().name@,
            s.last().members@,
        ) =~= as_map(s).insert(c.name@, c.members@));
    }
}

/// Two byte strings are equal exactly when their sequences are.
fn bytes_equal(a: &Vec<u8>, b: &Vec<u8>) -> (r: bool)
    ensures
        r <==> a@ == b@,
{
    if a.len() != b.len() {
        return false;
    }
    let mut k: usize = 0;
    while k < a.len()
        invariant
            k <= a.len(),
            a.len() == b.len(),
            forall|j: int| 0 <= j < k ==> a@[j] == b@[j],
        decreases a.len() - k,
    {
        if a[k] != b[k] {
            return false;
        }
        k += 1;
    }
    proof {
        assert(a@ =~= b@);
    }
    true
}

/// Whether `x` occurs among the accounts of `v`.
fn contains_account(v: &Vec<AccountId>, x: AccountId) -> (r: bool)
    ensures
        r <==> v@.contains(x),
{
    let mut k: usize = 0;
    while k < v.len()
        invariant
            k <= v.len(),
            forall|j: int| 0 <= j < k ==> v@[j] != x,
        decreases v.len() - k,
    {
        if v[k] == x {
            return true;
        }
        k += 1;
    }
    false
}

/// The index of the first occurrence of `x` in `v`, if any.
fn position_of(v: &Vec<AccountId>, x: AccountId) -> (r: Option<usize>)
    ensures
        match r {
            Some(i) => i == first_index_of(v@, x) && v@.contains(x),
            None => !v@.contains(x),
        },
{
    let mut k: usize = 0;
    while k < v.len()
        invariant
            k <= v.len(),
            forall|j: int| 0 <= j < k ==> v@[j] != x,
        decreases v.len() - k,
    {
        if v[k] == x {
            proof {
                assert(v@.contains(x));
                lemma_first_occurrence(v@, x);
                let i = first_index_of(v@, x);
                assert(i == k as int) by {
                    if i < k {
                        assert(v@[i] != x);
                    }
                }
            }
            return Some(k);
        }
        k += 1;
    }
    None
}

impl Pallet {
    /// The representation invariant: club names are pairwise distinct, and
    /// no club's member list holds a duplicate entry.
    pub closed spec fn wf(self) -> bool {
        &&& distinct_names(self.clubs@)
        &&& forall|i: int| 0 <= i < self.clubs@.len() ==> unique_members(#[trigger] self.clubs@[i].members@)
    }

    /// An empty registry: no club exists.
    pub fn new() -> (p: Pallet)
        ensures
            p.wf(),
            p@ == Map::<Seq<u8>, Seq<AccountId>>::empty(),
    {
        Pallet { clubs: Vec::new() }
    }

    /// Appends `member` to the club's list, provided the caller is root,
    /// the club exists, and the member is not already in it. The checks run
    /// in that order, each failure leaves the registry untouched, and a
    /// success returns the `MemberAdded` notification.
    pub fn add_member(&mut self, origin: Origin, club: Vec<u8>, member: AccountId) -> (r: Result<
        Event,
        Error,
    >)
        requires
            old(self).wf(),
        ensures
            final(self).wf(),
            final(self)@ == add_step(old(self)@, origin, club@, member).0,
            outcome_agrees(r, add_step(old(self)@, origin, club@, member).1),
            r is Ok <==> origin is Root && old(self)@.contains_key(club@) && !old(self)@[club@]
                .contains(member),
    {
        let ghost pre = *self;
        match origin {
            Origin::Root => {},
            _ => {
                return Err(Error::Unauthorized);
            },
        }
        let idx_opt = find_club(&self.clubs, &club);
        match idx_opt {
            None => {
                proof {
                    lemma_as_map_contains(pre.clubs@, club@);
                }
                Err(Error::ClubDoesNotExist)
            },
            Some(i) => {
                proof {
                    lemma_as_map_contains(pre.clubs@, club@);
                    lemma_as_map_at(pre.clubs@, i as int);
                }
                let mut entry = self.clubs.remove(i);
                if contains_account(&entry.members, member) {
                    self.clubs.insert(i, entry);
                    proof {
                        assert(self.clubs@ =~= pre.clubs@);
                    }
                    return Err(Error::MemberAlreadyExistsInClub);
                }
                proof {
                    lemma_unique_push(entry.members@, member);
                }
                entry.members.push(member);
                let ghost e = entry;
                self.clubs.insert(i, entry);
                proof {
                    assert(self.clubs@ =~= pre.clubs@.update(i as int, e));
                    lemma_as_map_update(pre.clubs@, i as int, e);
                    assert(distinct_names(self.clubs@));
                    assert(forall|j: int|
                        0 <= j < self.clubs@.len() ==> unique_members(
                            #[trigger] self.clubs@[j].members@,
                        ));
                }
                Ok(Event::MemberAdded(club, member))
            },
        }
    }

    /// Removes the single occurrence of `member` from the club's list,
    /// provided the caller is root, the club exists, and the member is in
    /// it. The checks run in that order, each failure leaves the registry
    /// untouched, the remaining members keep their relative order, and a
    /// success returns the `MemberRemoved` notification.
    pub fn remove_member(&mut self, origin: Origin, club: Vec<u8>, member: AccountId) -> (r: Result<
        Event,
        Error,
    >)
        requires
            old(self).wf(),
        ensures
            final(self).wf(),
            final(self)@ == remove_step(old(self)@, origin, club@, member).0,
            outcome_agrees(r, remove_step(old(self)@, origin, club@, member).1),
            r is Ok <==> origin is Root && old(self)@.contains_key(club@) && old(self)@[club@]
                .contains(member),
    {
        let ghost pre = *self;
        match origin {
            Origin::Root => {},
            _ => {
                return Err(Error::Unauthorized);
            },
        }
        let idx_opt = find_club(&self.clubs, &club);
        match idx_opt {
            None => {
                proof {
                    lemma_as_map_contains(pre.clubs@, club@);
                }
                Err(Error::ClubDoesNotExist)
            },
            Some(i) => {
                proof {
                    lemma_as_map_contains(pre.clubs@, club@);
                    lemma_as_map_at(pre.clubs@, i as int);
                }
                let mut entry = self.clubs.remove(i);
                let pos_opt = position_of(&entry.members, member);
                match pos_opt {
                    None => {
                        self.clubs.insert(i, entry);
                        proof {
                            assert(self.clubs@ =~= pre.clubs@);
                        }
                        Err(Error::MemberDoesNotExistInClub)
                    },
                    Some(pos) => {
                        proof {
                            lemma_first_occurrence(entry.members@, member);
                            lemma_remove_first_splice(entry.members@, member);
                            lemma_unique_remove_first(entry.members@, member);
                        }
                        entry.members.remove(pos);
                        let ghost e = entry;
                        self.clubs.insert(i, entry);
                        proof {
                            assert(self.clubs@ =~= pre.clubs@.update(i as int, e));
                            lemma_as_map_update(pre.clubs@, i as int, e);
                            assert(distinct_names(self.clubs@));
                            assert(forall|j: int|
                                0 <= j < self.clubs@.len() ==> unique_members(
                                    #[trigger] self.clubs@[j].members@,
                                ));
                        }
                        Ok(Event::MemberRemoved(club, member))
                    },
                }
            },
        }
    }

    /// The member list of `club`, in insertion order, or `None` when no such
    /// club exists. Read-only and open to any caller.
    pub fn clubs(&self, club: &Vec<u8>) -> (r: Option<&Vec<AccountId>>)
        requires
            self.wf(),
        ensures
            match r {
                Some(v) => self@.contains_key(club@) && v@ == self@[club@],
                None => !self@.contains_key(club@),
            },
    {
        let idx_opt = find_club(&self.clubs, club);
        match idx_opt {
            None => {
                proof {
                    lemma_as_map_contains(self.clubs@, club@);
                }
                None
            },
            Some(i) => {
                proof {
                    lemma_as_map_at(self.clubs@, i as int);
                }
                Some(&self.clubs[i].members)
            },
        }
    }
}

/// The bootstrap pairs `s`, read as a mapping from club name to member
/// sequence.
pub open spec fn pairs_to_map(s: Seq<(Vec<u8>, Vec<AccountId>)>) -> RegistryView
    decreases s.len(),
{
    if s.len() == 0 {
        Map::empty()
    } else {
        pairs_to_map(s.drop_last()).insert(s.last().0@, s.last().1@)
    }
}

/// An association list that mirrors the bootstrap pairs entry by entry
/// describes the same mapping.
proof fn lemma_as_map_mirror(clubs: Seq<Club>, pairs: Seq<(Vec<u8>, Vec<AccountId>)>)
    requires
        clubs.len() == pairs.len(),
        forall|i: int|
            0 <= i < clubs.len() ==> (#[trigger] clubs[i]).name@ == pairs[i].0@ && clubs[i].members@
                == pairs[i].1@,
    ensures
        as_map(clubs) == pairs_to_map(pairs),
    decreases clubs.len(),
{
    if clubs.len() > 0 {
        assert(forall|i: int|
            0 <= i < clubs.len() - 1 ==> (#[trigger] clubs.drop_last()[i]).name@
                == pairs.drop_last()[i].0@ && clubs.drop_last()[i].members@
                == pairs.drop_last()[i].1@);
        lemma_as_map_mirror(clubs.drop_last(), pairs.drop_last());
        assert(clubs[clubs.len() - 1].name@ == pairs[pairs.len() - 1].0@);
        assert(clubs[clubs.len() - 1].members@ == pairs[pairs.len() - 1].1@);
    }
}

/// The bootstrap data handed in by the host once, before any other call: an
/// optional list of clubs with their initial members.
pub struct GenesisConfig {
    /// The initial clubs; `None` starts the registry empty.
    pub clubs: Option<Vec<(Vec<u8>, Vec<AccountId>)>>,
}

impl Default for GenesisConfig {
    /// The default bootstrap data supplies no clubs.
    fn default() -> (g: GenesisConfig)
        ensures
            g.clubs is None,
    {
        GenesisConfig { clubs: None }
    }
}

impl GenesisConfig {
    /// The bootstrap data describes a well-formed mapping: pairwise distinct
    /// club names, and no duplicate members within one club.
    pub open spec fn wf(self) -> bool {
        match self.clubs {
            None => true,
            Some(v) => {
                &&& forall|i: int, j: int| 0 <= i < j < v@.len() ==> v@[i].0@ != v@[j].0@
                &&& forall|i: int| 0 <= i < v@.len() ==> unique_members(#[trigger] v@[i].1@)
            },
        }
    }

    /// The mapping the bootstrap data describes.
    pub open spec fn bootstrap_map(self) -> RegistryView {
        match self.clubs {
            None => Map::empty(),
            Some(v) => pairs_to_map(v@),
        }
    }

    /// Populates a fresh registry with the bootstrap data. Clubs are created
    /// here and nowhere else: no later operation adds or deletes a club key.
    pub fn build(self) -> (p: Pallet)
        requires
            self.wf(),
        ensures
            p.wf(),
            p@ == self.bootstrap_map(),
    {
        match self.clubs {
            None => Pallet::new(),
            Some(pairs) => {
                let ghost orig = pairs@;
                let mut rest = pairs;
                let mut clubs: Vec<Club> = Vec::new();
                while rest.len() > 0
                    invariant
                        clubs@.len() + rest@.len() == orig.len(),
                        rest@ == orig.skip(clubs@.len() as int),
                        forall|i: int|
                            0 <= i < clubs@.len() ==> (#[trigger] clubs@[i]).name@ == orig[i].0@
                                && clubs@[i].members@ == orig[i].1@,
                    decreases rest@.len(),
                {
                    let (name, members) = rest.remove(0);
                    let entry = Club { name, members };
                    clubs.push(entry);
                    proof {
                        assert(orig.skip(clubs@.len() - 1)[0] == orig[clubs@.len() - 1]);
                        assert(rest@ =~= orig.skip(clubs@.len() as int));
                    }
                }
                proof {
                    lemma_as_map_mirror(clubs@, orig);
                    assert(distinct_names(clubs@));
                }
                Pallet { clubs }
            },
        }
    }
}

/// The index of the club named `name` in the association list, if any.
fn find_club(clubs: &Vec<Club>, name: &Vec<u8>) -> (r: Option<usize>)
    ensures
        match r {
            Some(i) => i < clubs@.len() && clubs@[i as int].name@ == name@,
            None => forall|j: int| 0 <= j < clubs@.len() ==> clubs@[j].name@ != name@,
        },
{
    let mut k: usize = 0;
    while k < clubs.len()
        invariant
            k <= clubs.len(),
            forall|j: int| 0 <= j < k ==> clubs@[j].name@ != name@,
        decreases clubs.len() - k,
    {
        if bytes_equal(&clubs[k].name, name) {
            return Some(k);
        }
        k += 1;
    }
    None
}

} // verus!
