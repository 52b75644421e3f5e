use pallet_clubs::registry::{GenesisConfig, Pallet};
use pallet_clubs::types::{Error, Event, Origin};

/// The bootstrap used throughout: two clubs, both initially empty.
fn new_test_registry() -> Pallet {
    let clubs = vec![
        (b"rotary".to_vec(), Vec::new()),
        (b"tennis".to_vec(), Vec::new()),
    ];
    GenesisConfig { clubs: Some(clubs) }.build()
}

#[test]
fn adds_a_new_member_to_a_club() {
    let mut registry = new_test_registry();
    let club = b"rotary".to_vec();
    let member: u64 = 1;

    let result = registry.add_member(Origin::Root, club.clone(), member);

    assert_eq!(result, Ok(Event::MemberAdded(club, member)));
}

#[test]
fn remove_a_member_from_a_club() {
    let mut registry = new_test_registry();
    let club = b"tennis".to_vec();
    let member: u64 = 1;

    let added = registry.add_member(Origin::Root, club.clone(), member);
    assert_eq!(added, Ok(Event::MemberAdded(club.clone(), member)));

    let removed = registry.remove_member(Origin::Root, club.clone(), member);
    assert_eq!(removed, Ok(Event::MemberRemoved(club, member)));
}

#[test]
fn attempts_to_add_adds_an_already_existing_member_to_a_club() {
    let mut registry = new_test_registry();
    let club = b"rotary".to_vec();
    let member: u64 = 1;
    let member_2: u64 = 1;

    let first = registry.add_member(Origin::Root, club.clone(), member);
    assert_eq!(first, Ok(Event::MemberAdded(club.clone(), member)));

    let second = registry.add_member(Origin::Root, club.clone(), member_2);
    assert_eq!(second, Err(Error::MemberAlreadyExistsInClub));
}

#[test]
fn attempts_to_add_a_member_to_a_non_existent_club() {
    let mut registry = new_test_registry();
    let club = b"rory".to_vec();
    let member: u64 = 1;

    let result = registry.add_member(Origin::Root, club, member);

    assert_eq!(result, Err(Error::ClubDoesNotExist));
}

#[test]
fn attempts_to_remove_a_non_existent_member_from_a_club() {
    let mut registry = new_test_registry();
    let club = b"rotary".to_vec();
    let member: u64 = 1;

    let result = registry.remove_member(Origin::Root, club, member);

    assert_eq!(result, Err(Error::MemberDoesNotExistInClub));
}

#[test]
fn bootstrap_then_add_updates_only_that_club() {
    let mut registry = new_test_registry();
    let member: u64 = 1;

    let result = registry.add_member(Origin::Root, b"rotary".to_vec(), member);

    assert_eq!(result, Ok(Event::MemberAdded(b"rotary".to_vec(), member)));
    assert_eq!(registry.clubs(&b"rotary".to_vec()), Some(&vec![1u64]));
    assert_eq!(registry.clubs(&b"tennis".to_vec()), Some(&Vec::new()));
}

#[test]
fn remove_after_add_empties_the_club() {
    let mut registry = new_test_registry();
    let member: u64 = 1;
    let added = registry.add_member(Origin::Root, b"rotary".to_vec(), member);
    assert_eq!(added, Ok(Event::MemberAdded(b"rotary".to_vec(), member)));

    let removed = registry.remove_member(Origin::Root, b"rotary".to_vec(), member);

    assert_eq!(removed, Ok(Event::MemberRemoved(b"rotary".to_vec(), member)));
    assert_eq!(registry.clubs(&b"rotary".to_vec()), Some(&Vec::new()));
    assert_eq!(registry.clubs(&b"tennis".to_vec()), Some(&Vec::new()));
}

#[test]
fn duplicate_add_leaves_state_unchanged() {
    let mut registry = new_test_registry();
    let member: u64 = 1;
    let first = registry.add_member(Origin::Root, b"rotary".to_vec(), member);
    assert_eq!(first, Ok(Event::MemberAdded(b"rotary".to_vec(), member)));

    let second = registry.add_member(Origin::Root, b"rotary".to_vec(), member);

    assert_eq!(second, Err(Error::MemberAlreadyExistsInClub));
    assert_eq!(registry.clubs(&b"rotary".to_vec()), Some(&vec![1u64]));
    assert_eq!(registry.clubs(&b"tennis".to_vec()), Some(&Vec::new()));
}

#[test]
fn add_to_unknown_club_creates_no_key() {
    let mut registry = new_test_registry();
    let member: u64 = 1;

    let result = registry.add_member(Origin::Root, b"golf".to_vec(), member);

    assert_eq!(result, Err(Error::ClubDoesNotExist));
    assert_eq!(registry.clubs(&b"golf".to_vec()), None);
    assert_eq!(registry.clubs(&b"rotary".to_vec()), Some(&Vec::new()));
    assert_eq!(registry.clubs(&b"tennis".to_vec()), Some(&Vec::new()));
}

#[test]
fn remove_of_absent_member_leaves_state_unchanged() {
    let mut registry = new_test_registry();
    let member_2: u64 = 2;

    let result = registry.remove_member(Origin::Root, b"tennis".to_vec(), member_2);

    assert_eq!(result, Err(Error::MemberDoesNotExistInClub));
    assert_eq!(registry.clubs(&b"rotary".to_vec()), Some(&Vec::new()));
    assert_eq!(registry.clubs(&b"tennis".to_vec()), Some(&Vec::new()));
}

#[test]
fn add_then_remove_restores_previous_members() {
    let clubs = vec![(b"chess".to_vec(), vec![10u64, 20u64])];
    let mut registry = GenesisConfig { clubs: Some(clubs) }.build();

    let added = registry.add_member(Origin::Root, b"chess".to_vec(), 30);
    assert_eq!(added, Ok(Event::MemberAdded(b"chess".to_vec(), 30)));
    assert_eq!(registry.clubs(&b"chess".to_vec()), Some(&vec![10u64, 20u64, 30u64]));

    let removed = registry.remove_member(Origin::Root, b"chess".to_vec(), 30);
    assert_eq!(removed, Ok(Event::MemberRemoved(b"chess".to_vec(), 30)));
    assert_eq!(registry.clubs(&b"chess".to_vec()), Some(&vec![10u64, 20u64]));
}

#[test]
fn removal_preserves_order_of_remaining_members() {
    let clubs = vec![(b"chess".to_vec(), vec![1u64, 2u64, 3u64])];
    let mut registry = GenesisConfig { clubs: Some(clubs) }.build();

    let removed = registry.remove_member(Origin::Root, b"chess".to_vec(), 2);

    assert_eq!(removed, Ok(Event::MemberRemoved(b"chess".to_vec(), 2)));
    assert_eq!(registry.clubs(&b"chess".to_vec()), Some(&vec![1u64, 3u64]));
}

#[test]
fn non_root_caller_is_rejected() {
    let mut registry = new_test_registry();

    let add = registry.add_member(Origin::Signed(5), b"rotary".to_vec(), 1);
    let remove = registry.remove_member(Origin::Signed(5), b"rotary".to_vec(), 1);

    assert_eq!(add, Err(Error::Unauthorized));
    assert_eq!(remove, Err(Error::Unauthorized));
    assert_eq!(registry.clubs(&b"rotary".to_vec()), Some(&Vec::new()));
    assert_eq!(registry.clubs(&b"tennis".to_vec()), Some(&Vec::new()));
}

#[test]
fn default_bootstrap_starts_empty() {
    let registry = GenesisConfig::default().build();

    assert_eq!(registry.clubs(&b"rotary".to_vec()), None);
    assert_eq!(registry.clubs(&Vec::new()), None);
}

#[test]
fn empty_registry_has_no_clubs() {
    let mut registry = Pallet::new();

    let result = registry.add_member(Origin::Root, b"rotary".to_vec(), 1);

    assert_eq!(result, Err(Error::ClubDoesNotExist));
    assert_eq!(registry.clubs(&b"rotary".to_vec()), None);
}

#[test]
fn bootstrap_members_are_kept_in_order() {
    let clubs = vec![
        (b"chess".to_vec(), vec![3u64, 1u64, 2u64]),
        (b"darts".to_vec(), vec![9u64]),
    ];
    let registry = GenesisConfig { clubs: Some(clubs) }.build();

    assert_eq!(registry.clubs(&b"chess".to_vec()), Some(&vec![3u64, 1u64, 2u64]));
    assert_eq!(registry.clubs(&b"darts".to_vec()), Some(&vec![9u64]));
}
