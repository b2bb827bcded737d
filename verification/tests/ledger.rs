use ledger_export::types::{Slot, Address, Amount};
use ledger_export::credits::DeferredCredits;

fn slot(period: u64, thread: u8) -> Slot {
    Slot { period, thread }
}

fn one_credit(period: u64, thread: u8, addr: u64, amount: u64) -> DeferredCredits {
    let mut d = DeferredCredits::default();
    d.insert(Address { val: addr }, slot(period, thread), Amount { raw: amount });
    d
}

#[test]
fn empty_ledger_hash_is_zero() {
    let d = DeferredCredits::default();
    assert_eq!(d.hash.to_vec(), vec![0u8; 32]);
}

#[test]
fn insert_does_not_touch_hash() {
    let mut d = DeferredCredits::default();
    d.insert(Address { val: 7 }, slot(3, 1), Amount { raw: 10 });
    assert_eq!(d.hash.to_vec(), vec![0u8; 32]);
    assert_eq!(
        d.get_address_deferred_credit_for_slot(&Address { val: 7 }, &slot(3, 1)),
        Some(Amount { raw: 10 })
    );
}

#[test]
fn get_missing_credit() {
    let d = one_credit(3, 1, 7, 10);
    assert_eq!(d.get_address_deferred_credit_for_slot(&Address { val: 8 }, &slot(3, 1)), None);
    assert_eq!(d.get_address_deferred_credit_for_slot(&Address { val: 7 }, &slot(4, 1)), None);
}

#[test]
fn nested_replace_overwrites_and_keeps_hash() {
    let mut d = DeferredCredits::default();
    d.insert(Address { val: 1 }, slot(1, 0), Amount { raw: 5 });
    let mut other = DeferredCredits::default();
    other.insert(Address { val: 1 }, slot(1, 0), Amount { raw: 9 });
    other.insert(Address { val: 2 }, slot(2, 0), Amount { raw: 4 });
    d.nested_replace(other);
    assert_eq!(
        d.get_address_deferred_credit_for_slot(&Address { val: 1 }, &slot(1, 0)),
        Some(Amount { raw: 9 })
    );
    assert_eq!(
        d.get_address_deferred_credit_for_slot(&Address { val: 2 }, &slot(2, 0)),
        Some(Amount { raw: 4 })
    );
    assert_eq!(d.hash.to_vec(), vec![0u8; 32]);
}

#[test]
fn hash_order_independence_two_permutations() {
    let mut a = DeferredCredits::default();
    a.final_nested_replace(one_credit(1, 0, 10, 100));
    a.final_nested_replace(one_credit(2, 1, 20, 200));
    let mut b = DeferredCredits::default();
    b.final_nested_replace(one_credit(2, 1, 20, 200));
    b.final_nested_replace(one_credit(1, 0, 10, 100));
    assert_eq!(a.hash.to_vec(), b.hash.to_vec());
    assert_ne!(a.hash.to_vec(), vec![0u8; 32]);
}

#[test]
fn hash_reversibility() {
    let mut d = DeferredCredits::default();
    d.final_nested_replace(one_credit(1, 0, 10, 100));
    let original = d.hash.to_vec();
    d.final_nested_replace(one_credit(1, 0, 10, 777));
    assert_ne!(d.hash.to_vec(), original);
    d.final_nested_replace(one_credit(1, 0, 10, 100));
    assert_eq!(d.hash.to_vec(), original);
}

#[test]
fn final_merge_hash_matches_rebuilt_ledger() {
    let mut d = DeferredCredits::default();
    d.final_nested_replace(one_credit(1, 0, 10, 100));
    d.final_nested_replace(one_credit(1, 0, 11, 50));
    d.final_nested_replace(one_credit(1, 0, 10, 60));
    let mut fresh = DeferredCredits::default();
    let mut batch = DeferredCredits::default();
    batch.insert(Address { val: 10 }, slot(1, 0), Amount { raw: 60 });
    batch.insert(Address { val: 11 }, slot(1, 0), Amount { raw: 50 });
    fresh.final_nested_replace(batch);
    assert_eq!(d.hash.to_vec(), fresh.hash.to_vec());
}

#[test]
fn expected_hash_of_single_credit() {
    // The ledger hash of one credit is the XOR of the slot marker digest
    // and the credit digest, each a blake3 hash of the canonical bytes.
    let mut d = DeferredCredits::default();
    d.final_nested_replace(one_credit(1, 0, 2, 300));
    let slot_bytes = vec![1u8, 0u8]; // period varint, thread byte
    let credit_bytes = vec![2u8, 0xACu8, 0x02u8]; // addr varint, amount varint
    let sd = blake3::hash(&slot_bytes);
    let cd = blake3::hash(&credit_bytes);
    let expected: Vec<u8> =
        sd.as_bytes().iter().zip(cd.as_bytes().iter()).map(|(a, b)| a ^ b).collect();
    assert_eq!(d.hash.to_vec(), expected);
}

#[test]
fn remove_zeros_prunes_and_restores_hash() {
    let mut d = DeferredCredits::default();
    d.final_nested_replace(one_credit(1, 0, 10, 100));
    let with_one = d.hash.to_vec();
    d.final_nested_replace(one_credit(2, 0, 20, 0));
    let mut extra = DeferredCredits::default();
    extra.insert(Address { val: 21 }, slot(2, 0), Amount { raw: 0 });
    d.final_nested_replace(extra);
    d.remove_zeros();
    assert_eq!(d.get_address_deferred_credit_for_slot(&Address { val: 20 }, &slot(2, 0)), None);
    assert_eq!(d.get_address_deferred_credit_for_slot(&Address { val: 21 }, &slot(2, 0)), None);
    assert_eq!(
        d.get_address_deferred_credit_for_slot(&Address { val: 10 }, &slot(1, 0)),
        Some(Amount { raw: 100 })
    );
    assert_eq!(d.hash.to_vec(), with_one);
}

#[test]
fn remove_zeros_keeps_mixed_slot() {
    let mut d = DeferredCredits::default();
    let mut batch = DeferredCredits::default();
    batch.insert(Address { val: 1 }, slot(5, 2), Amount { raw: 0 });
    batch.insert(Address { val: 2 }, slot(5, 2), Amount { raw: 8 });
    d.final_nested_replace(batch);
    d.remove_zeros();
    assert_eq!(d.get_address_deferred_credit_for_slot(&Address { val: 1 }, &slot(5, 2)), None);
    assert_eq!(
        d.get_address_deferred_credit_for_slot(&Address { val: 2 }, &slot(5, 2)),
        Some(Amount { raw: 8 })
    );
}
