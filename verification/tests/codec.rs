use ledger_export::types::{Slot, Address, Amount};
use ledger_export::credits::DeferredCredits;
use ledger_export::codec::{DeferredCreditsSerializer, DeferredCreditsDeserializer, DeserializeError};

fn sample_ledger() -> DeferredCredits {
    let mut d = DeferredCredits::default();
    d.insert(Address { val: 2 }, Slot { period: 1, thread: 0 }, Amount { raw: 300 });
    d.insert(Address { val: 9 }, Slot { period: 1, thread: 0 }, Amount { raw: 1 });
    d.insert(Address { val: 5 }, Slot { period: 4, thread: 3 }, Amount { raw: 0 });
    d
}

#[test]
fn serialize_exact_bytes() {
    let mut d = DeferredCredits::default();
    d.insert(Address { val: 2 }, Slot { period: 1, thread: 0 }, Amount { raw: 300 });
    let ser = DeferredCreditsSerializer::new();
    let mut buf = Vec::new();
    ser.serialize(&d, &mut buf);
    // one slot; period 1, thread 0; one credit; addr 2; amount 300
    assert_eq!(buf, vec![1u8, 1, 0, 1, 2, 0xAC, 0x02]);
}

#[test]
fn round_trip_restores_credits() {
    let d = sample_ledger();
    let ser = DeferredCreditsSerializer::new();
    let mut buf = Vec::new();
    ser.serialize(&d, &mut buf);
    let de = DeferredCreditsDeserializer::new(32, 1000);
    let (d2, used) = de.deserialize(&buf).expect("round trip must succeed");
    assert_eq!(used, buf.len());
    // the decoded ledger's hash is reset to the empty baseline
    assert_eq!(d2.hash.to_vec(), vec![0u8; 32]);
    // re-serializing yields the identical canonical bytes
    let mut buf2 = Vec::new();
    ser.serialize(&d2, &mut buf2);
    assert_eq!(buf, buf2);
    assert_eq!(
        d2.get_address_deferred_credit_for_slot(&Address { val: 2 }, &Slot { period: 1, thread: 0 }),
        Some(Amount { raw: 300 })
    );
    assert_eq!(
        d2.get_address_deferred_credit_for_slot(&Address { val: 5 }, &Slot { period: 4, thread: 3 }),
        Some(Amount { raw: 0 })
    );
}

#[test]
fn empty_ledger_round_trip() {
    let d = DeferredCredits::default();
    let ser = DeferredCreditsSerializer::new();
    let mut buf = Vec::new();
    ser.serialize(&d, &mut buf);
    assert_eq!(buf, vec![0u8]);
    let de = DeferredCreditsDeserializer::new(32, 1000);
    let (d2, used) = de.deserialize(&buf).expect("empty ledger decodes");
    assert_eq!(used, 1);
    assert_eq!(d2.hash.to_vec(), vec![0u8; 32]);
}

#[test]
fn slot_count_bound_is_enforced() {
    let d = sample_ledger(); // two slots
    let ser = DeferredCreditsSerializer::new();
    let mut buf = Vec::new();
    ser.serialize(&d, &mut buf);
    let de = DeferredCreditsDeserializer::new(32, 1);
    assert_eq!(de.deserialize(&buf).err(), Some(DeserializeError::BoundExceeded));
}

#[test]
fn credit_count_bound_is_enforced() {
    let mut d = DeferredCredits::default();
    for a in 0..3u64 {
        d.insert(Address { val: a }, Slot { period: 1, thread: 0 }, Amount { raw: 1 });
    }
    let ser = DeferredCreditsSerializer::new();
    let mut buf = Vec::new();
    ser.serialize(&d, &mut buf);
    let de = DeferredCreditsDeserializer::new(32, 2);
    // one slot is within the slot bound, but its three credits are not
    assert_eq!(de.deserialize(&buf).err(), Some(DeserializeError::BoundExceeded));
}

#[test]
fn thread_bound_is_enforced() {
    let mut d = DeferredCredits::default();
    d.insert(Address { val: 1 }, Slot { period: 1, thread: 5 }, Amount { raw: 1 });
    let ser = DeferredCreditsSerializer::new();
    let mut buf = Vec::new();
    ser.serialize(&d, &mut buf);
    let de = DeferredCreditsDeserializer::new(5, 100);
    assert_eq!(de.deserialize(&buf).err(), Some(DeserializeError::InvalidThread));
}

#[test]
fn truncated_input_is_malformed() {
    let d = sample_ledger();
    let ser = DeferredCreditsSerializer::new();
    let mut buf = Vec::new();
    ser.serialize(&d, &mut buf);
    buf.pop();
    assert_eq!(
        DeferredCreditsDeserializer::new(32, 1000).deserialize(&buf).err(),
        Some(DeserializeError::Malformed)
    );
    assert_eq!(
        DeferredCreditsDeserializer::new(32, 1000).deserialize(&Vec::new()).err(),
        Some(DeserializeError::Malformed)
    );
}

#[test]
fn unordered_slots_are_accepted() {
    // two slots written in descending order still decode to their content
    let buf = vec![2u8, 4, 0, 1, 1, 1, 1, 0, 1, 1, 1];
    let (d, used) = DeferredCreditsDeserializer::new(32, 1000).deserialize(&buf).unwrap();
    assert_eq!(used, buf.len());
    assert_eq!(
        d.get_address_deferred_credit_for_slot(&Address { val: 1 }, &Slot { period: 4, thread: 0 }),
        Some(Amount { raw: 1 })
    );
    assert_eq!(
        d.get_address_deferred_credit_for_slot(&Address { val: 1 }, &Slot { period: 1, thread: 0 }),
        Some(Amount { raw: 1 })
    );
}

#[test]
fn duplicate_slot_replaces_whole_group() {
    // the same slot twice: the later credit map replaces the earlier one
    let buf = vec![2u8, 1, 0, 2, 1, 1, 2, 5, 1, 0, 1, 7, 9];
    let (d, _) = DeferredCreditsDeserializer::new(32, 1000).deserialize(&buf).unwrap();
    assert_eq!(
        d.get_address_deferred_credit_for_slot(&Address { val: 1 }, &Slot { period: 1, thread: 0 }),
        None
    );
    assert_eq!(
        d.get_address_deferred_credit_for_slot(&Address { val: 7 }, &Slot { period: 1, thread: 0 }),
        Some(Amount { raw: 9 })
    );
}

#[test]
fn duplicate_address_last_wins() {
    let buf = vec![1u8, 1, 0, 2, 3, 10, 3, 20];
    let (d, _) = DeferredCreditsDeserializer::new(32, 1000).deserialize(&buf).unwrap();
    assert_eq!(
        d.get_address_deferred_credit_for_slot(&Address { val: 3 }, &Slot { period: 1, thread: 0 }),
        Some(Amount { raw: 20 })
    );
}

#[test]
fn empty_credit_list_leaves_slot_without_credits() {
    let buf = vec![1u8, 1, 0, 0];
    let (d, used) = DeferredCreditsDeserializer::new(32, 1000).deserialize(&buf).unwrap();
    assert_eq!(used, buf.len());
    assert_eq!(
        d.get_address_deferred_credit_for_slot(&Address { val: 1 }, &Slot { period: 1, thread: 0 }),
        None
    );
    // re-serializing yields the canonical empty ledger
    let mut buf2 = Vec::new();
    DeferredCreditsSerializer::new().serialize(&d, &mut buf2);
    assert_eq!(buf2, vec![0u8]);
}
