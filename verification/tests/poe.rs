use pallets::poe::{Config, Error, Pallet};

const MAX_CLAIM_LENGTH: u32 = 32;

fn new_test_pallet() -> Pallet {
    Pallet::new(Config { max_claim_length: MAX_CLAIM_LENGTH })
}

#[test]
fn creat_claim_works() {
    let mut p = new_test_pallet();
    let account_id = 1;
    let claim = vec![0u8; 32];

    assert!(p.create_claim(account_id, claim.clone()).is_ok());

    assert_eq!(p.claims(&claim), Some((account_id, p.block_number)));
}

#[test]
fn revoke_claim_works() {
    let mut p = new_test_pallet();
    let account_id = 1;
    let claim = vec![0u8; 32];

    let _ = p.create_claim(account_id, claim.clone());

    assert!(p.revoke_claim(account_id, claim.clone()).is_ok());

    assert!(p.claims(&claim).is_none());
}

#[test]
fn transfer_claim_works() {
    let mut p = new_test_pallet();
    let account_id_1 = 1;
    let account_id_2 = 2;
    let claim = vec![0u8; 32];

    let _ = p.create_claim(account_id_1, claim.clone());

    assert!(p.transfer_claim(account_id_1, claim.clone(), account_id_2).is_ok());

    assert_eq!(p.claims(&claim), Some((account_id_2, p.block_number)));
}

#[test]
fn correct_error_for_already_claimed() {
    let mut p = new_test_pallet();
    let account_id = 1;
    let claim = vec![0u8; 32];

    let _ = p.create_claim(account_id, claim.clone());

    assert_eq!(p.create_claim(account_id, claim), Err(Error::ClaimAlreadyExist));
}

#[test]
fn correct_error_for_no_such_claimed() {
    let mut p = new_test_pallet();
    let account_id_1 = 1;
    let account_id_2 = 2;
    let claim = vec![0u8; 32];

    assert_eq!(p.revoke_claim(account_id_1, claim.clone()), Err(Error::ClaimNotExist));
    assert_eq!(
        p.transfer_claim(account_id_1, claim, account_id_2),
        Err(Error::ClaimNotExist)
    );
}

#[test]
fn correct_error_for_not_claim_owner() {
    let mut p = new_test_pallet();
    let account_id_1 = 1;
    let account_id_2 = 2;
    let claim = vec![0u8; 32];

    let _ = p.create_claim(account_id_1, claim.clone());

    assert_eq!(p.revoke_claim(account_id_2, claim.clone()), Err(Error::NotClaimOwner));
    assert_eq!(
        p.transfer_claim(account_id_2, claim, account_id_1),
        Err(Error::NotClaimOwner)
    );
}
