use pallets::kitties::{Config, Error, Pallet};

const KITTY_PRICE: u128 = 50;
const MAX_KITTIES_OWNED: u32 = 5;
const MAX_KITTIES_COUNT: u32 = 11;

/// The test harness: accounts 1, 2 and 3 are endowed, account 4 is empty and
/// account 5 can afford exactly two assets.
fn new_test_pallet() -> Pallet {
    let mut pallet = Pallet::new(Config {
        kitty_price: KITTY_PRICE,
        max_kitties_owned: MAX_KITTIES_OWNED,
        max_kitties_count: MAX_KITTIES_COUNT,
    });
    pallet.set_balance(1, 1000);
    pallet.set_balance(2, 1000);
    pallet.set_balance(3, 1000);
    pallet.set_balance(5, 100);
    pallet
}

#[test]
fn create_kitty_should_work() {
    let mut p = new_test_pallet();
    let owner = 1;
    assert!(p.create_kitty(owner).is_ok());

    let kitties_owned = p.kitties_owned(owner);
    assert_eq!(kitties_owned.len(), 1);
    let dna = kitties_owned[0];

    let price: u128 = KITTY_PRICE;
    assert_eq!(p.reserved_balance(owner), price);

    let kitty = p.kitties(&dna).unwrap();
    assert_eq!(dna, kitty.dna);
    assert_eq!(price, kitty.price);
    assert_eq!(owner, kitty.owner);

    assert_eq!(p.kitties_count(), 1);

    // Check that multiple create_kitty calls work in the same block.
    // Increment extrinsic index to add entropy for DNA
    p.set_extrinsic_index(1);
    assert!(p.create_kitty(owner).is_ok());
}

#[test]
fn breed_kitty_should_work() {
    let mut p = new_test_pallet();
    let owner = 1;
    assert!(p.create_kitty(owner).is_ok());

    p.set_extrinsic_index(1);
    assert!(p.create_kitty(owner).is_ok());

    let kitties_owned = p.kitties_owned(owner);
    let dna_1 = kitties_owned[0];
    let dna_2 = kitties_owned[1];

    assert!(p.breed_kitty(owner, dna_1, dna_2).is_ok());

    let new_kitties_owned = p.kitties_owned(owner);
    let cnt = new_kitties_owned.len();
    assert_eq!(cnt, 3);

    let price: u128 = KITTY_PRICE;
    assert_eq!(p.reserved_balance(owner), price * 3);

    let dna = kitties_owned[1];
    let kitty = p.kitties(&dna).unwrap();
    assert_eq!(dna, kitty.dna);
    assert_eq!(price, kitty.price);
    assert_eq!(owner, kitty.owner);

    for (i, &v) in dna.iter().enumerate() {
        assert!(v == dna_1[i] || v == dna_2[i]);
    }

    assert_eq!(p.kitties_count(), 3);
}

#[test]
fn transfer_kitty_should_work() {
    let mut p = new_test_pallet();
    let owner_1 = 1;
    let owner_2 = 2;
    assert!(p.create_kitty(owner_1).is_ok());
    let kitties_owned = p.kitties_owned(owner_1);
    let dna = kitties_owned[0];

    assert!(p.transfer_kitty(owner_1, owner_2, dna).is_ok());

    assert_eq!(p.kitties_owned(owner_1).len(), 0);
    assert_eq!(p.kitties_owned(owner_2).len(), 1);

    let price: u128 = KITTY_PRICE;
    assert_eq!(p.reserved_balance(owner_1), 0);
    assert_eq!(p.reserved_balance(owner_2), price);

    let kitty = p.kitties(&dna).unwrap();
    assert_eq!(dna, kitty.dna);
    assert_eq!(price, kitty.price);
    assert_eq!(owner_2, kitty.owner);
}

#[test]
fn create_kitty_should_fail() {
    let mut p = new_test_pallet();
    let mut extrinsic_index = 1;

    let owner_4 = 4;
    assert_eq!(p.create_kitty(owner_4), Err(Error::InsufficientBalance));

    let owner_1 = 1;
    assert!(p.create_kitty(owner_1).is_ok());
    assert_eq!(p.create_kitty(owner_1), Err(Error::DuplicateAsset));

    let max_kitties_owned: u32 = MAX_KITTIES_OWNED;
    for _ in 0..max_kitties_owned - 1 {
        p.set_extrinsic_index(extrinsic_index);
        extrinsic_index += 1;
        assert!(p.create_kitty(owner_1).is_ok());
    }

    let owner_2 = 2;
    for _ in 0..MAX_KITTIES_OWNED {
        p.set_extrinsic_index(extrinsic_index);
        extrinsic_index += 1;
        assert!(p.create_kitty(owner_2).is_ok());
    }

    p.set_extrinsic_index(extrinsic_index);
    extrinsic_index += 1;
    assert_eq!(p.create_kitty(owner_2), Err(Error::OwnerCapacityExceeded));

    let owner_3 = 3;
    p.set_extrinsic_index(extrinsic_index);
    extrinsic_index += 1;
    assert!(p.create_kitty(owner_3).is_ok());
    p.set_extrinsic_index(extrinsic_index);
    assert_eq!(p.create_kitty(owner_3), Err(Error::TotalCapacityExceeded));
}

#[test]
fn breed_kitty_should_fail() {
    let mut p = new_test_pallet();
    let mut extrinsic_index = 1;

    let owner_1 = 1;
    for _ in 0..2 {
        p.set_extrinsic_index(extrinsic_index);
        extrinsic_index += 1;
        assert!(p.create_kitty(owner_1).is_ok());
    }
    let kitties_owned = p.kitties_owned(owner_1);
    let dna_1 = kitties_owned[0];
    let dna_2 = kitties_owned[1];

    let dna_3 = [0u8; 16];
    assert_eq!(p.breed_kitty(owner_1, dna_1, dna_3), Err(Error::AssetNotFound));

    let owner_2 = 2;
    assert!(p.create_kitty(owner_2).is_ok());
    let dna_4 = p.kitties_owned(owner_2)[0];
    assert_eq!(p.breed_kitty(owner_1, dna_1, dna_4), Err(Error::NotOwner));

    assert_eq!(p.breed_kitty(owner_1, dna_1, dna_1), Err(Error::IdenticalParents));

    let owner_3 = 5;
    for _ in 0..2 {
        p.set_extrinsic_index(extrinsic_index);
        extrinsic_index += 1;
        assert!(p.create_kitty(owner_3).is_ok());
    }
    let kitties_owned_3 = p.kitties_owned(owner_3);
    let dna_5 = kitties_owned_3[0];
    let dna_6 = kitties_owned_3[1];
    assert_eq!(p.breed_kitty(owner_3, dna_5, dna_6), Err(Error::InsufficientBalance));

    assert!(p.breed_kitty(owner_1, dna_1, dna_2).is_ok());
    assert_eq!(p.breed_kitty(owner_1, dna_1, dna_2), Err(Error::DuplicateAsset));

    for _ in 0..2 {
        p.set_extrinsic_index(extrinsic_index);
        extrinsic_index += 1;
        assert!(p.create_kitty(owner_1).is_ok());
    }
    assert_eq!(p.breed_kitty(owner_1, dna_1, dna_2), Err(Error::OwnerCapacityExceeded));
}

#[test]
fn transfer_kitty_should_fail() {
    let mut p = new_test_pallet();
    let owner_1 = 1;
    let owner_2 = 2;
    let owner_4 = 4;
    assert!(p.create_kitty(owner_1).is_ok());
    let kitties_owned = p.kitties_owned(owner_1);
    let dna = kitties_owned[0];

    assert_eq!(p.transfer_kitty(owner_1, owner_1, dna), Err(Error::TransferToSelf));

    let fake_dna = [0u8; 16];
    assert_eq!(p.transfer_kitty(owner_1, owner_2, fake_dna), Err(Error::AssetNotFound));

    let mut extrinsic_index = 1;
    for _ in 0..MAX_KITTIES_OWNED {
        p.set_extrinsic_index(extrinsic_index);
        extrinsic_index += 1;
        assert!(p.create_kitty(owner_2).is_ok());
    }
    assert_eq!(p.transfer_kitty(owner_1, owner_2, dna), Err(Error::OwnerCapacityExceeded));

    assert_eq!(p.transfer_kitty(owner_1, owner_4, dna), Err(Error::InsufficientBalance));
}
