use pallets::dna::combine;
use pallets::kitties::{Config, Pallet};

#[test]
fn crossover_selector_all_ones_returns_first_parent() {
    let a = [0xabu8; 16];
    let b = [0x5cu8; 16];
    assert_eq!(combine(&a, &b, &[0xffu8; 16]), a);
}

#[test]
fn crossover_selector_all_zeros_returns_second_parent() {
    let a = [0xabu8; 16];
    let b = [0x5cu8; 16];
    assert_eq!(combine(&a, &b, &[0u8; 16]), b);
}

#[test]
fn crossover_formula_exact() {
    let a = [0x0fu8; 16];
    let b = [0xf0u8; 16];
    let s = [0x55u8; 16];
    // (0x0f & 0x55) | (0xf0 & !0x55) == 0x05 | 0xa0 == 0xa5 for every byte.
    assert_eq!(combine(&a, &b, &s), [0xa5u8; 16]);
}

#[test]
fn crossover_commutes_under_complement() {
    let mut a = [0u8; 16];
    let mut b = [0u8; 16];
    let mut s = [0u8; 16];
    for i in 0..16 {
        a[i] = (i as u8).wrapping_mul(37).wrapping_add(11);
        b[i] = (i as u8).wrapping_mul(101).wrapping_add(3);
        s[i] = (i as u8).wrapping_mul(29).wrapping_add(70);
    }
    let mut not_s = [0u8; 16];
    for i in 0..16 {
        not_s[i] = !s[i];
    }
    assert_eq!(combine(&a, &b, &s), combine(&b, &a, &not_s));
}

#[test]
fn generated_dna_is_blake2_of_payload() {
    let mut p = Pallet::new(Config {
        kitty_price: 50,
        max_kitties_owned: 5,
        max_kitties_count: 10,
    });
    p.set_balance(1, 1000);
    p.set_block_number(9);
    p.set_extrinsic_index(4);
    assert!(p.create_kitty(1).is_ok());
    let dna = p.kitties_owned(1)[0];

    // The identifier is the Blake2b-128 digest of entropy, caller and
    // sequencing context, in that order.
    let mut payload = Vec::new();
    payload.extend_from_slice(&[0u8; 32]);
    payload.extend_from_slice(&1u64.to_le_bytes());
    payload.extend_from_slice(&4u32.to_le_bytes());
    payload.extend_from_slice(&9u64.to_le_bytes());
    assert_eq!(dna, sp_io::hashing::blake2_128(&payload));
}

#[test]
fn bred_child_follows_crossover_of_parents() {
    let mut p = Pallet::new(Config {
        kitty_price: 50,
        max_kitties_owned: 5,
        max_kitties_count: 10,
    });
    p.set_balance(1, 1000);
    assert!(p.create_kitty(1).is_ok());
    p.set_extrinsic_index(1);
    assert!(p.create_kitty(1).is_ok());
    let owned = p.kitties_owned(1);
    let dna_1 = owned[0];
    let dna_2 = owned[1];

    p.set_extrinsic_index(2);
    assert!(p.breed_kitty(1, dna_1, dna_2).is_ok());
    let child = p.kitties_owned(1)[2];

    // The selector is the identifier the generator would derive in the same
    // context, and the child is the byte-wise crossover under it.
    let mut payload = Vec::new();
    payload.extend_from_slice(&[0u8; 32]);
    payload.extend_from_slice(&1u64.to_le_bytes());
    payload.extend_from_slice(&2u32.to_le_bytes());
    payload.extend_from_slice(&0u64.to_le_bytes());
    let selector = sp_io::hashing::blake2_128(&payload);
    assert_eq!(child, combine(&dna_1, &dna_2, &selector));
}
