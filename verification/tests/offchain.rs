use pallets::ocw::{Event, Pallet};
use pallets::poe;

#[test]
fn derived_key_is_prefix_plus_block_number() {
    let key = Pallet::derived_key(1);
    let mut expected = b"ocw::storage::".to_vec();
    expected.extend_from_slice(&1u64.to_le_bytes());
    assert_eq!(key, expected);
}

#[test]
fn store_by_offchain_index_encodes_content() {
    let mut p = Pallet::new();
    p.set_block_number(7);
    let (key, value, event) = p.store_by_offchain_index(3, 0x01020304);

    let mut expected_key = b"ocw::storage::".to_vec();
    expected_key.extend_from_slice(&7u64.to_le_bytes());
    assert_eq!(key, expected_key);

    // The payload is the text prefix with its compact length, then the
    // content in little-endian form.
    let text = b"off-chain content: ";
    let mut expected_value = vec![(text.len() as u8) << 2];
    expected_value.extend_from_slice(text);
    expected_value.extend_from_slice(&0x01020304u32.to_le_bytes());
    assert_eq!(value, expected_value);

    assert_eq!(event, Event::OffchainStored(3, 0x01020304));
}

#[test]
fn claim_longer_than_bound_is_refused() {
    let mut p = poe::Pallet::new(poe::Config { max_claim_length: 32 });
    let long_claim = vec![1u8; 33];
    assert_eq!(p.create_claim(1, long_claim.clone()), Err(poe::Error::ClaimTooLong));
    assert_eq!(p.revoke_claim(1, long_claim.clone()), Err(poe::Error::ClaimTooLong));
    assert_eq!(p.transfer_claim(1, long_claim, 2), Err(poe::Error::ClaimTooLong));
}

#[test]
fn claim_events_carry_the_claim() {
    let mut p = poe::Pallet::new(poe::Config { max_claim_length: 32 });
    p.set_block_number(5);
    let claim = vec![9u8; 4];
    assert_eq!(
        p.create_claim(1, claim.clone()),
        Ok(poe::Event::ClaimCreated(1, claim.clone()))
    );
    assert_eq!(p.claims(&claim), Some((1, 5)));
    assert_eq!(
        p.transfer_claim(1, claim.clone(), 2),
        Ok(poe::Event::ClaimTransfered(1, 2, claim.clone()))
    );
    assert_eq!(p.claims(&claim), Some((2, 5)));
    assert_eq!(
        p.revoke_claim(2, claim.clone()),
        Ok(poe::Event::ClaimRevoked(2, claim.clone()))
    );
    assert_eq!(p.claims(&claim), None);
}
