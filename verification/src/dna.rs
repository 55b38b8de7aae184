//! Genetic codes and the crossover engine: a child code takes each bit from
//! one of its two parents, chosen by a selector mask.

use vstd::prelude::*;

verus! {

/// A 16-byte genetic code, doubling as an asset's unique identifier.
pub type KittyDna = [u8; 16];

/// One byte of a crossover: bits set in `sel` come from `a`, the rest from `b`.
pub open spec fn combine_byte(a: u8, b: u8, sel: u8) -> u8 {
    (a & sel) | (b & !sel)
}

/// Byte-wise crossover of two codes under a selector mask.
pub open spec fn combine_code(a: Seq<u8>, b: Seq<u8>, sel: Seq<u8>) -> Seq<u8> {
    Seq::new(a.len(), |i: int| combine_byte(a[i], b[i], sel[i]))
}

/// Combines two parent codes into a child code: for each byte position,
/// `child = (a & sel) | (b & !sel)`, so each bit comes from exactly one
/// parent, selected independently by the corresponding selector bit.
pub fn combine(a: &KittyDna, b: &KittyDna, sel: &KittyDna) -> (r: KittyDna)
    ensures
        r@ == combine_code(a@, b@, sel@),
{
    let mut r: KittyDna = [0u8; 16];
    for i in 0..16usize
        invariant
            forall|j: int| 0 <= j < i ==> r@[j] == combine_byte(a@[j], b@[j], sel@[j]),
    {
        r[i] = (a[i] & sel[i]) | (b[i] & !sel[i]);
    }
    proof {
        assert(r@ =~= combine_code(a@, b@, sel@));
    }
    r
}

/// Tests two codes for equality.
pub fn dna_eq(a: &KittyDna, b: &KittyDna) -> (r: bool)
    ensures
        r == (a@ == b@),
{
    let mut i: usize = 0;
    while i < 16
        invariant
            i <= 16,
            forall|j: int| 0 <= j < i ==> a@[j] == b@[j],
        decreases 16 - i,
    {
        if a[i] != b[i] {
            return false;
        }
        i += 1;
    }
    proof {
        assert(a@ =~= b@);
    }
    true
}

/// The byte-wise complement of a selector mask.
pub open spec fn not_code(sel: Seq<u8>) -> Seq<u8> {
    Seq::new(sel.len(), |i: int| !sel[i])
}

/// Crossover is commutative in parent order up to selector complement: taking
/// each bit from `a` where `sel` is set is the same as taking each bit from
/// `b` where the complement of `sel` is set.
pub proof fn lemma_combine_commutes(a: Seq<u8>, b: Seq<u8>, sel: Seq<u8>)
    requires
        a.len() == b.len(),
        b.len() == sel.len(),
    ensures
        combine_code(a, b, sel) == combine_code(b, a, not_code(sel)),
{
    assert forall|i: int| 0 <= i < a.len() implies combine_byte(a[i], b[i], sel[i])
        == combine_byte(b[i], a[i], !sel[i]) by {
        let x = a[i];
        let y = b[i];
        let m = sel[i];
        assert(((x & m) | (y & !m)) == ((y & !m) | (x & !(!m)))) by (bit_vector);
    }
    assert(combine_code(a, b, sel) =~= combine_code(b, a, not_code(sel)));
}

/// Under a selector whose bytes are all-zero or all-one, every child byte is a
/// whole byte of one parent. (With a mixed selector byte, single bits still
/// come from one parent each, but the byte as a whole need not equal either
/// parent's byte.)
pub proof fn lemma_combine_bytes_from_parents(a: Seq<u8>, b: Seq<u8>, sel: Seq<u8>)
    requires
        a.len() == b.len(),
        b.len() == sel.len(),
        forall|i: int| 0 <= i < sel.len() ==> sel[i] == 0u8 || sel[i] == 0xffu8,
    ensures
        forall|i: int| 0 <= i < a.len() ==> #[trigger] combine_code(a, b, sel)[i] == a[i]
            || combine_code(a, b, sel)[i] == b[i],
{
    assert forall|i: int| 0 <= i < a.len() implies #[trigger] combine_code(a, b, sel)[i] == a[i]
        || combine_code(a, b, sel)[i] == b[i] by {
        let x = a[i];
        let y = b[i];
        let m = sel[i];
        assert(m == 0u8 || m == 0xffu8);
        assert(m == 0u8 ==> ((x & m) | (y & !m)) == y) by (bit_vector);
        assert(m == 0xffu8 ==> ((x & m) | (y & !m)) == x) by (bit_vector);
    }
}

} // verus!
