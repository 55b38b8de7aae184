use pallets::kitties::{Config, Error, Event, Pallet};

fn small_pallet(max_owned: u32, max_count: u32) -> Pallet {
    let mut p = Pallet::new(Config {
        kitty_price: 50,
        max_kitties_owned: max_owned,
        max_kitties_count: max_count,
    });
    p.set_balance(1, 1000);
    p.set_balance(2, 1000);
    p
}

#[test]
fn mint_scenario_unit_price_50() {
    let mut p = small_pallet(5, 10);
    assert!(p.create_kitty(1).is_ok());
    let owned = p.kitties_owned(1);
    assert_eq!(owned.len(), 1);
    let kitty = p.kitties(&owned[0]).unwrap();
    assert_eq!(kitty.owner, 1);
    assert_eq!(kitty.price, 50);
    assert_eq!(p.reserved_balance(1), 50);
    assert_eq!(p.free_balance(1), 950);
    assert_eq!(p.kitties_count(), 1);
}

#[test]
fn mint_beyond_capacity_keeps_counter() {
    let mut p = small_pallet(5, 1);
    assert!(p.create_kitty(1).is_ok());
    assert_eq!(p.kitties_count(), 1);
    p.set_extrinsic_index(1);
    assert_eq!(p.create_kitty(1), Err(Error::TotalCapacityExceeded));
    assert_eq!(p.kitties_count(), 1);
}

#[test]
fn failed_transfer_leaves_sender_owning() {
    let mut p = small_pallet(1, 10);
    assert!(p.create_kitty(1).is_ok());
    assert!(p.create_kitty(2).is_ok());
    let dna = p.kitties_owned(1)[0];

    // The recipient's entry is full: nothing may change hands.
    assert_eq!(p.transfer_kitty(1, 2, dna), Err(Error::OwnerCapacityExceeded));
    assert_eq!(p.kitties(&dna).unwrap().owner, 1);
    assert_eq!(p.kitties_owned(1).len(), 1);
    assert_eq!(p.kitties_owned(2).len(), 1);
    assert_eq!(p.reserved_balance(1), 50);
    assert_eq!(p.reserved_balance(2), 50);
}

#[test]
fn set_price_works() {
    let mut p = small_pallet(5, 10);
    assert!(p.create_kitty(1).is_ok());
    let dna = p.kitties_owned(1)[0];
    assert_eq!(p.set_price(1, dna, 60), Ok(Event::PriceSet(dna, 60)));
    assert_eq!(p.kitties(&dna).unwrap().price, 60);
    // Repricing never adjusts the reservation made at acquisition time.
    assert_eq!(p.reserved_balance(1), 50);
}

#[test]
fn set_price_rejects_non_owner_and_missing() {
    let mut p = small_pallet(5, 10);
    assert!(p.create_kitty(1).is_ok());
    let dna = p.kitties_owned(1)[0];
    assert_eq!(p.set_price(2, dna, 60), Err(Error::NotOwner));
    assert_eq!(p.set_price(1, [7u8; 16], 60), Err(Error::AssetNotFound));
    assert_eq!(p.kitties(&dna).unwrap().price, 50);
}

#[test]
fn buy_kitty_should_work() {
    let mut p = small_pallet(5, 10);
    assert!(p.create_kitty(1).is_ok());
    let dna = p.kitties_owned(1)[0];
    assert!(p.set_price(1, dna, 60).is_ok());

    assert_eq!(p.buy_kitty(2, dna, 60), Ok(Event::Sold(1, 2, dna, 60)));

    let kitty = p.kitties(&dna).unwrap();
    assert_eq!(kitty.owner, 2);
    assert_eq!(kitty.price, 60);
    assert_eq!(p.kitties_owned(1).len(), 0);
    assert_eq!(p.kitties_owned(2).len(), 1);
    // The buyer paid 60 and reserved 60 more against the asset.
    assert_eq!(p.free_balance(2), 1000 - 60 - 60);
    assert_eq!(p.reserved_balance(2), 60);
    // The seller got the payment plus the released reservation of 50.
    assert_eq!(p.free_balance(1), 950 + 50 + 60);
    assert_eq!(p.reserved_balance(1), 0);
}

#[test]
fn buy_kitty_rejects_low_bid() {
    let mut p = small_pallet(5, 10);
    assert!(p.create_kitty(1).is_ok());
    let dna = p.kitties_owned(1)[0];
    assert_eq!(p.buy_kitty(2, dna, 49), Err(Error::BidTooLow));
    assert_eq!(p.kitties(&dna).unwrap().owner, 1);
}

#[test]
fn buy_kitty_rejects_self_and_missing() {
    let mut p = small_pallet(5, 10);
    assert!(p.create_kitty(1).is_ok());
    let dna = p.kitties_owned(1)[0];
    assert_eq!(p.buy_kitty(1, dna, 50), Err(Error::TransferToSelf));
    assert_eq!(p.buy_kitty(2, [7u8; 16], 50), Err(Error::AssetNotFound));
}

#[test]
fn buy_kitty_rejects_poor_buyer_and_full_buyer() {
    let mut p = small_pallet(1, 10);
    assert!(p.create_kitty(1).is_ok());
    let dna = p.kitties_owned(1)[0];
    // Account 4 holds nothing: it can neither pay nor reserve.
    assert_eq!(p.buy_kitty(4, dna, 50), Err(Error::InsufficientBalance));
    // Account 3 can pay but not also reserve the price.
    p.set_balance(3, 99);
    assert_eq!(p.buy_kitty(3, dna, 50), Err(Error::InsufficientBalance));
    // Account 2 already owns the configured maximum.
    assert!(p.create_kitty(2).is_ok());
    assert_eq!(p.buy_kitty(2, dna, 50), Err(Error::OwnerCapacityExceeded));
    assert_eq!(p.kitties(&dna).unwrap().owner, 1);
}

#[test]
fn reservations_match_owned_prices_across_operations() {
    let mut p = small_pallet(5, 10);
    assert!(p.create_kitty(1).is_ok());
    p.set_extrinsic_index(1);
    assert!(p.create_kitty(1).is_ok());
    let owned = p.kitties_owned(1);
    p.set_extrinsic_index(2);
    assert!(p.breed_kitty(1, owned[0], owned[1]).is_ok());
    assert!(p.transfer_kitty(1, 2, owned[0]).is_ok());
    assert!(p.buy_kitty(2, owned[1], 50).is_ok());

    // Every account's reserved balance equals the summed prices of what it
    // owns, after any sequence of successful operations.
    for account in 1..=2u64 {
        let total: u128 = p
            .kitties_owned(account)
            .iter()
            .map(|dna| p.kitties(dna).unwrap().price)
            .sum();
        assert_eq!(p.reserved_balance(account), total);
    }
}

#[test]
fn mint_without_funds_changes_nothing() {
    let mut p = small_pallet(5, 10);
    assert_eq!(p.create_kitty(4), Err(Error::InsufficientBalance));
    assert_eq!(p.kitties_count(), 0);
    assert_eq!(p.kitties_owned(4).len(), 0);
    assert_eq!(p.reserved_balance(4), 0);
}
