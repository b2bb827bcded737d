//! The slot-indexed ledger of deferred credits and its incrementally
//! maintained, order-independent digest.
use vstd::prelude::*;
use vstd::map::*;
use crate::types::{Slot, Address, Amount, slot_lt};
use crate::encoding::{slot_enc, credit_enc, encode_slot, encode_credit};
use crate::hashing::{Digest, blake_digest, zero32, xor32};
use crate::hashing::{lemma_xor32_comm, lemma_xor32_assoc, lemma_xor32_zero, lemma_xor32_cancel};

verus! {

/// One credit: an address and the amount it will be paid.
#[derive(Clone, Copy, PartialEq, Eq, Structural, Debug)]
pub struct CreditEntry {
    pub addr: Address,
    pub amount: Amount,
}

/// All credits payable at one slot, ascending by address.
#[derive(Debug)]
pub struct SlotCredits {
    pub slot: Slot,
    pub entries: Vec<CreditEntry>,
}

/// The deferred-credit ledger: slot groups ascending by slot, and the
/// running digest of the whole content.
#[derive(Debug)]
pub struct DeferredCredits {
    pub credits: Vec<SlotCredits>,
    pub hash: Digest,
}

/// Entries strictly ascending by address.
pub open spec fn entries_wf(es: Seq<CreditEntry>) -> bool {
    forall|i: int, j: int| 0 <= i < j < es.len() ==> es[i].addr.val < es[j].addr.val
}

/// Slot groups strictly ascending by slot, each group non-empty and
/// itself well formed.
pub open spec fn credits_wf(cs: Seq<SlotCredits>) -> bool {
    &&& forall|i: int, j: int| 0 <= i < j < cs.len() ==> slot_lt(cs[i].slot, cs[j].slot)
    &&& forall|i: int| 0 <= i < cs.len() ==> entries_wf(#[trigger] cs[i].entries@) && cs[i].entries@.len() > 0
}

/// The mathematical content of one slot group.
pub open spec fn entries_map(es: Seq<CreditEntry>) -> Map<Address, Amount>
    decreases es.len(),
{
    if es.len() == 0 {
        Map::empty()
    } else {
        entries_map(es.drop_last()).insert(es.last().addr, es.last().amount)
    }
}

/// The mathematical content of the whole ledger.
pub open spec fn credits_map(cs: Seq<SlotCredits>) -> Map<Slot, Map<Address, Amount>>
    decreases cs.len(),
{
    if cs.len() == 0 {
        Map::empty()
    } else {
        credits_map(cs.drop_last()).insert(cs.last().slot, entries_map(cs.last().entries@))
    }
}

/// Digest of one credit.
pub open spec fn credit_digest(e: CreditEntry) -> Seq<u8> {
    blake_digest(credit_enc(e.addr, e.amount))
}

/// Digest of a slot's marker.
pub open spec fn slot_digest(s: Slot) -> Seq<u8> {
    blake_digest(slot_enc(s))
}

/// Combined digest of a sequence of credits.
pub open spec fn entries_digest(es: Seq<CreditEntry>) -> Seq<u8>
    decreases es.len(),
{
    if es.len() == 0 {
        zero32()
    } else {
        xor32(entries_digest(es.drop_last()), credit_digest(es.last()))
    }
}

/// Combined digest of one slot group: the slot marker and every credit.
pub open spec fn group_digest(g: SlotCredits) -> Seq<u8> {
    xor32(slot_digest(g.slot), entries_digest(g.entries@))
}

/// Combined digest of the whole ledger.
pub open spec fn ledger_digest(cs: Seq<SlotCredits>) -> Seq<u8>
    decreases cs.len(),
{
    if cs.len() == 0 {
        zero32()
    } else {
        xor32(ledger_digest(cs.drop_last()), group_digest(cs.last()))
    }
}

impl View for DeferredCredits {
    type V = Map<Slot, Map<Address, Amount>>;

    open spec fn view(&self) -> Map<Slot, Map<Address, Amount>> {
        credits_map(self.credits@)
    }
}

impl DeferredCredits {
    /// Structural well-formedness: canonical ordering, no empty group.
    pub open spec fn wf(&self) -> bool {
        credits_wf(self.credits@)
    }

    /// The running digest agrees with the digest of the live content;
    /// holds along the final path only.
    pub open spec fn hash_ok(&self) -> bool {
        self.hash@ == ledger_digest(self.credits@)
    }
}

/// Every entries digest is 32 bytes long.
pub proof fn lemma_entries_digest_len(es: Seq<CreditEntry>)
    ensures
        entries_digest(es).len() == 32,
{
    if es.len() == 0 {
    } else {
    }
}

/// Every ledger digest is 32 bytes long.
pub proof fn lemma_ledger_digest_len(cs: Seq<SlotCredits>)
    ensures
        ledger_digest(cs).len() == 32,
{
    if cs.len() == 0 {
    } else {
    }
}

/// The credits digest distributes over concatenation.
pub proof fn lemma_entries_digest_append(a: Seq<CreditEntry>, b: Seq<CreditEntry>)
    ensures
        entries_digest(a + b) == xor32(entries_digest(a), entries_digest(b)),
    decreases b.len(),
{
    lemma_entries_digest_len(a);
    if b.len() == 0 {
        assert(a + b =~= a);
        lemma_xor32_zero(entries_digest(a));
    } else {
        lemma_entries_digest_append(a, b.drop_last());
        assert((a + b).drop_last() =~= a + b.drop_last());
        assert((a + b).last() == b.last());
        lemma_xor32_assoc(entries_digest(a), entries_digest(b.drop_last()), credit_digest(b.last()));
    }
}

/// The ledger digest distributes over concatenation.
pub proof fn lemma_ledger_digest_append(a: Seq<SlotCredits>, b: Seq<SlotCredits>)
    ensures
        ledger_digest(a + b) == xor32(ledger_digest(a), ledger_digest(b)),
    decreases b.len(),
{
    lemma_ledger_digest_len(a);
    if b.len() == 0 {
        assert(a + b =~= a);
        lemma_xor32_zero(ledger_digest(a));
    } else {
        lemma_ledger_digest_append(a, b.drop_last());
        assert((a + b).drop_last() =~= a + b.drop_last());
        assert((a + b).last() == b.last());
        lemma_xor32_assoc(ledger_digest(a), ledger_digest(b.drop_last()), group_digest(b.last()));
    }
}

/// Characterizes the content map of an address-unique entry sequence:
/// its keys are exactly the addresses present, each bound to its amount.
pub proof fn lemma_entries_map_chr(es: Seq<CreditEntry>)
    requires
        forall|i: int, j: int| 0 <= i < j < es.len() ==> es[i].addr != es[j].addr,
    ensures
        forall|a: Address|
            entries_map(es).contains_key(a) <==> exists|i: int| 0 <= i < es.len() && es[i].addr == a,
        forall|i: int|
            0 <= i < es.len() ==> entries_map(es).contains_key(#[trigger] es[i].addr)
                && entries_map(es)[es[i].addr] == es[i].amount,
    decreases es.len(),
{
    if es.len() == 0 {
    } else {
        lemma_entries_map_chr(es.drop_last());
        assert forall|i: int| 0 <= i < es.len() implies entries_map(es).contains_key(
            #[trigger] es[i].addr,
        ) && entries_map(es)[es[i].addr] == es[i].amount by {
            if i < es.len() - 1 {
                assert(es.drop_last()[i] == es[i]);
                assert(es[i].addr != es.last().addr);
            }
        }
        assert forall|a: Address| entries_map(es).contains_key(a) implies exists|i: int|
            0 <= i < es.len() && es[i].addr == a by {
            if a == es.last().addr {
                assert(es[es.len() - 1].addr == a);
            } else {
                assert(entries_map(es.drop_last()).contains_key(a));
                let i = choose|i: int| 0 <= i < es.drop_last().len() && es.drop_last()[i].addr == a;
                assert(es.drop_last()[i] == es[i]);
                assert(es[i].addr == a);
            }
        }
    }
}

/// Characterizes the content map of a slot-unique group sequence.
pub proof fn lemma_credits_map_chr(cs: Seq<SlotCredits>)
    requires
        forall|i: int, j: int| 0 <= i < j < cs.len() ==> cs[i].slot != cs[j].slot,
    ensures
        forall|s: Slot|
            credits_map(cs).contains_key(s) <==> exists|i: int| 0 <= i < cs.len() && cs[i].slot == s,
        forall|i: int|
            0 <= i < cs.len() ==> credits_map(cs).contains_key(#[trigger] cs[i].slot)
                && credits_map(cs)[cs[i].slot] == entries_map(cs[i].entries@),
    decreases cs.len(),
{
    if cs.len() == 0 {
    } else {
        lemma_credits_map_chr(cs.drop_last());
        assert forall|i: int| 0 <= i < cs.len() implies credits_map(cs).contains_key(
            #[trigger] cs[i].slot,
        ) && credits_map(cs)[cs[i].slot] == entries_map(cs[i].entries@) by {
            if i < cs.len() - 1 {
                assert(cs.drop_last()[i] == cs[i]);
                assert(cs[i].slot != cs.last().slot);
            }
        }
        assert forall|s: Slot| credits_map(cs).contains_key(s) implies exists|i: int|
            0 <= i < cs.len() && cs[i].slot == s by {
            if s == cs.last().slot {
                assert(cs[cs.len() - 1].slot == s);
            } else {
                assert(credits_map(cs.drop_last()).contains_key(s));
                let i = choose|i: int| 0 <= i < cs.drop_last().len() && cs.drop_last()[i].slot == s;
                assert(cs.drop_last()[i] == cs[i]);
                assert(cs[i].slot == s);
            }
        }
    }
}

/// Strictly ascending slots are pairwise distinct.
pub proof fn lemma_credits_wf_unique(cs: Seq<SlotCredits>)
    requires
        credits_wf(cs),
    ensures
        forall|i: int, j: int| 0 <= i < j < cs.len() ==> cs[i].slot != cs[j].slot,
{
    assert forall|i: int, j: int| 0 <= i < j < cs.len() implies cs[i].slot != cs[j].slot by {
        assert(slot_lt(cs[i].slot, cs[j].slot));
    }
}

/// Strictly ascending addresses are pairwise distinct.
pub proof fn lemma_entries_wf_unique(es: Seq<CreditEntry>)
    requires
        entries_wf(es),
    ensures
        forall|i: int, j: int| 0 <= i < j < es.len() ==> es[i].addr != es[j].addr,
{
    assert forall|i: int, j: int| 0 <= i < j < es.len() implies es[i].addr != es[j].addr by {
        assert(es[i].addr.val < es[j].addr.val);
    }
}

/// Index of the first group whose slot is not below `s`: the insertion
/// point of `s` in the ascending group sequence.
fn find_slot(credits: &Vec<SlotCredits>, s: &Slot) -> (r: usize)
    requires
        credits_wf(credits@),
    ensures
        r <= credits@.len(),
        forall|k: int| 0 <= k < r ==> slot_lt(#[trigger] credits@[k].slot, *s),
        r < credits@.len() ==> !slot_lt(credits@[r as int].slot, *s),
{
    let mut i: usize = 0;
    while i < credits.len()
        invariant
            i <= credits@.len(),
            credits_wf(credits@),
            forall|k: int| 0 <= k < i ==> slot_lt(#[trigger] credits@[k].slot, *s),
        decreases credits@.len() - i,
    {
        if !credits[i].slot.lt(s) {
            return i;
        }
        i = i + 1;
    }
    i
}

/// Index of the first entry whose address is not below `a`.
fn find_addr(entries: &Vec<CreditEntry>, a: &Address) -> (r: usize)
    requires
        entries_wf(entries@),
    ensures
        r <= entries@.len(),
        forall|k: int| 0 <= k < r ==> #[trigger] entries@[k].addr.val < a.val,
        r < entries@.len() ==> entries@[r as int].addr.val >= a.val,
{
    let mut i: usize = 0;
    while i < entries.len()
        invariant
            i <= entries@.len(),
            entries_wf(entries@),
            forall|k: int| 0 <= k < i ==> #[trigger] entries@[k].addr.val < a.val,
        decreases entries@.len() - i,
    {
        if entries[i].addr.val >= a.val {
            return i;
        }
        i = i + 1;
    }
    i
}


/// Overwriting the credit at an occupied address updates the group map
/// at that address alone.
pub proof fn lemma_entries_map_update(es: Seq<CreditEntry>, i: int, e: CreditEntry)
    requires
        forall|p: int, q: int| 0 <= p < q < es.len() ==> es[p].addr != es[q].addr,
        0 <= i < es.len(),
        es[i].addr == e.addr,
    ensures
        entries_map(es.update(i, e)) == entries_map(es).insert(e.addr, e.amount),
{
    let es2 = es.update(i, e);
    assert(forall|k: int| 0 <= k < es.len() ==> es2[k].addr == es[k].addr);
    lemma_entries_map_chr(es);
    lemma_entries_map_chr(es2);
    assert(entries_map(es2) =~= entries_map(es).insert(e.addr, e.amount)) by {
        assert forall|a: Address|
            entries_map(es2).contains_key(a) == entries_map(es).insert(
                e.addr,
                e.amount,
            ).contains_key(a) && (entries_map(es2).contains_key(a)
            ==> entries_map(es2)[a] == entries_map(es).insert(e.addr, e.amount)[a]) by {
            if entries_map(es2).contains_key(a) {
                let k = choose|k: int| 0 <= k < es2.len() && es2[k].addr == a;
                if a == e.addr {
                    assert(k == i);
                    assert(entries_map(es2)[a] == e.amount);
                } else {
                    assert(es[k].addr == a);
                    assert(entries_map(es2)[a] == es2[k].amount);
                    assert(es2[k] == es[k]);
                }
            }
            if a == e.addr {
                assert(es2[i].addr == a);
            } else if entries_map(es).contains_key(a) {
                let k = choose|k: int| 0 <= k < es.len() && es[k].addr == a;
                assert(es2[k].addr == a);
            }
        }
    }
}

/// Adding a credit at a fresh address extends the group map by exactly
/// that binding.
pub proof fn lemma_entries_map_insert(es: Seq<CreditEntry>, i: int, e: CreditEntry)
    requires
        forall|p: int, q: int| 0 <= p < q < es.len() ==> es[p].addr != es[q].addr,
        forall|k: int| 0 <= k < es.len() ==> es[k].addr != e.addr,
        0 <= i <= es.len(),
    ensures
        entries_map(es.insert(i, e)) == entries_map(es).insert(e.addr, e.amount),
{
    let es2 = es.insert(i, e);
    assert(forall|k: int| 0 <= k < i ==> es2[k] == es[k]);
    assert(es2[i] == e);
    assert(forall|k: int| i < k < es2.len() ==> es2[k] == es[k - 1]);
    assert forall|p: int, q: int| 0 <= p < q < es2.len() implies es2[p].addr != es2[q].addr by {
        if p != i && q != i {
            let p0 = if p < i { p } else { p - 1 };
            let q0 = if q < i { q } else { q - 1 };
            assert(es2[p].addr == es[p0].addr && es2[q].addr == es[q0].addr);
        }
    }
    lemma_entries_map_chr(es);
    lemma_entries_map_chr(es2);
    let lhs = entries_map(es2);
    let rhs = entries_map(es).insert(e.addr, e.amount);
    assert forall|a: Address| #[trigger] lhs.contains_key(a) implies rhs.contains_key(a) && lhs[a]
        == rhs[a] by {
        let k = choose|k: int| 0 <= k < es2.len() && es2[k].addr == a;
        if a == e.addr {
            assert(lhs[a] == e.amount);
        } else {
            let k0 = if k < i { k } else { k - 1 };
            assert(es[k0].addr == a && es2[k].amount == es[k0].amount);
            assert(lhs[a] == es2[k].amount);
            assert(entries_map(es)[a] == es[k0].amount);
        }
    }
    assert forall|a: Address| #[trigger] rhs.contains_key(a) implies lhs.contains_key(a) by {
        if a == e.addr {
            assert(es2[i].addr == a);
        } else {
            let k = choose|k: int| 0 <= k < es.len() && es[k].addr == a;
            let k2 = if k < i { k } else { k + 1 };
            assert(es2[k2].addr == a);
        }
    }
    assert(lhs =~= rhs);
}

/// Replacing the group of an occupied slot updates the ledger map at
/// that slot alone.
pub proof fn lemma_credits_map_update(cs: Seq<SlotCredits>, i: int, g: SlotCredits)
    requires
        forall|p: int, q: int| 0 <= p < q < cs.len() ==> cs[p].slot != cs[q].slot,
        0 <= i < cs.len(),
        cs[i].slot == g.slot,
    ensures
        credits_map(cs.update(i, g)) == credits_map(cs).insert(g.slot, entries_map(g.entries@)),
{
    let cs2 = cs.update(i, g);
    assert(forall|k: int| 0 <= k < cs.len() ==> cs2[k].slot == cs[k].slot);
    lemma_credits_map_chr(cs);
    lemma_credits_map_chr(cs2);
    assert(credits_map(cs2) =~= credits_map(cs).insert(g.slot, entries_map(g.entries@))) by {
        assert forall|s: Slot|
            credits_map(cs2).contains_key(s) == credits_map(cs).insert(
                g.slot,
                entries_map(g.entries@),
            ).contains_key(s) && (credits_map(cs2).contains_key(s) ==> credits_map(cs2)[s]
            == credits_map(cs).insert(g.slot, entries_map(g.entries@))[s]) by {
            if credits_map(cs2).contains_key(s) {
                let k = choose|k: int| 0 <= k < cs2.len() && cs2[k].slot == s;
                if s == g.slot {
                    assert(k == i);
                    assert(credits_map(cs2)[s] == entries_map(g.entries@));
                } else {
                    assert(cs[k].slot == s);
                    assert(cs2[k] == cs[k]);
                    assert(credits_map(cs2)[s] == entries_map(cs2[k].entries@));
                }
            }
            if s == g.slot {
                assert(cs2[i].slot == s);
            } else if credits_map(cs).contains_key(s) {
                let k = choose|k: int| 0 <= k < cs.len() && cs[k].slot == s;
                assert(cs2[k].slot == s);
            }
        }
    }
}

/// Adding a group at a fresh slot extends the ledger map by exactly
/// that binding.
pub proof fn lemma_credits_map_insert(cs: Seq<SlotCredits>, i: int, g: SlotCredits)
    requires
        forall|p: int, q: int| 0 <= p < q < cs.len() ==> cs[p].slot != cs[q].slot,
        forall|k: int| 0 <= k < cs.len() ==> cs[k].slot != g.slot,
        0 <= i <= cs.len(),
    ensures
        credits_map(cs.insert(i, g)) == credits_map(cs).insert(g.slot, entries_map(g.entries@)),
{
    let cs2 = cs.insert(i, g);
    assert(forall|k: int| 0 <= k < i ==> cs2[k] == cs[k]);
    assert(cs2[i] == g);
    assert(forall|k: int| i < k < cs2.len() ==> cs2[k] == cs[k - 1]);
    assert forall|p: int, q: int| 0 <= p < q < cs2.len() implies cs2[p].slot != cs2[q].slot by {
        if p != i && q != i {
            let p0 = if p < i { p } else { p - 1 };
            let q0 = if q < i { q } else { q - 1 };
            assert(cs2[p].slot == cs[p0].slot && cs2[q].slot == cs[q0].slot);
        }
    }
    lemma_credits_map_chr(cs);
    lemma_credits_map_chr(cs2);
    let lhs = credits_map(cs2);
    let rhs = credits_map(cs).insert(g.slot, entries_map(g.entries@));
    assert forall|s: Slot| #[trigger] lhs.contains_key(s) implies rhs.contains_key(s) && lhs[s]
        == rhs[s] by {
        let k = choose|k: int| 0 <= k < cs2.len() && cs2[k].slot == s;
        if s == g.slot {
            assert(lhs[s] == entries_map(g.entries@));
        } else {
            let k0 = if k < i { k } else { k - 1 };
            assert(cs[k0].slot == s && cs2[k].entries == cs[k0].entries);
            assert(lhs[s] == entries_map(cs2[k].entries@));
            assert(credits_map(cs)[s] == entries_map(cs[k0].entries@));
        }
    }
    assert forall|s: Slot| #[trigger] rhs.contains_key(s) implies lhs.contains_key(s) by {
        if s == g.slot {
            assert(cs2[i].slot == s);
        } else {
            let k = choose|k: int| 0 <= k < cs.len() && cs[k].slot == s;
            let k2 = if k < i { k } else { k + 1 };
            assert(cs2[k2].slot == s);
        }
    }
    assert(lhs =~= rhs);
}

/// Dropping a whole group removes the ledger map's binding at its
/// slot.
pub proof fn lemma_credits_map_remove(cs: Seq<SlotCredits>, i: int)
    requires
        forall|p: int, q: int| 0 <= p < q < cs.len() ==> cs[p].slot != cs[q].slot,
        0 <= i < cs.len(),
    ensures
        credits_map(cs.remove(i)) == credits_map(cs).remove(cs[i].slot),
{
    let cs2 = cs.remove(i);
    assert(forall|k: int| 0 <= k < i ==> cs2[k] == cs[k]);
    assert(forall|k: int| i <= k < cs2.len() ==> cs2[k] == cs[k + 1]);
    assert forall|p: int, q: int| 0 <= p < q < cs2.len() implies cs2[p].slot != cs2[q].slot by {
        let p0 = if p < i { p } else { p + 1 };
        let q0 = if q < i { q } else { q + 1 };
        assert(cs2[p].slot == cs[p0].slot && cs2[q].slot == cs[q0].slot);
    }
    lemma_credits_map_chr(cs);
    lemma_credits_map_chr(cs2);
    let lhs = credits_map(cs2);
    let rhs = credits_map(cs).remove(cs[i].slot);
    assert forall|s: Slot| #[trigger] lhs.contains_key(s) implies rhs.contains_key(s) && lhs[s]
        == rhs[s] by {
        let k = choose|k: int| 0 <= k < cs2.len() && cs2[k].slot == s;
        let k0 = if k < i { k } else { k + 1 };
        assert(cs[k0].slot == s && cs2[k].entries == cs[k0].entries);
        assert(s != cs[i].slot);
        assert(lhs[s] == entries_map(cs2[k].entries@));
        assert(credits_map(cs)[s] == entries_map(cs[k0].entries@));
    }
    assert forall|s: Slot| #[trigger] rhs.contains_key(s) implies lhs.contains_key(s) by {
        let k = choose|k: int| 0 <= k < cs.len() && cs[k].slot == s;
        assert(k != i);
        let k2 = if k < i { k } else { k - 1 };
        assert(cs2[k2].slot == s);
    }
    assert(lhs =~= rhs);
}

/// Digest change when one credit of a group is overwritten: the old
/// credit's digest leaves, the new one enters.
pub proof fn lemma_entries_digest_update(es: Seq<CreditEntry>, i: int, e: CreditEntry)
    requires
        0 <= i < es.len(),
    ensures
        entries_digest(es.update(i, e)) == xor32(
            xor32(entries_digest(es), credit_digest(es[i])),
            credit_digest(e),
        ),
{
    let es2 = es.update(i, e);
    assert(es =~= es.take(i) + seq![es[i]] + es.skip(i + 1));
    assert(es2 =~= es.take(i) + seq![e] + es.skip(i + 1));
    lemma_entries_digest_split3(es.take(i), es[i], es.skip(i + 1));
    lemma_entries_digest_split3(es.take(i), e, es.skip(i + 1));
    let dt = entries_digest(es.take(i));
    let ds = entries_digest(es.skip(i + 1));
    let c0 = credit_digest(es[i]);
    let c1 = credit_digest(e);
    assert forall|k: int| 0 <= k < 32 implies xor32(xor32(dt, c1), ds)[k] == xor32(
        xor32(xor32(xor32(dt, c0), ds), c0),
        c1,
    )[k] by {
        let a = dt[k];
        let b = c0[k];
        let c = ds[k];
        let d = c1[k];
        assert((a ^ d) ^ c == (((a ^ b) ^ c) ^ b) ^ d) by (bit_vector);
    }
    assert(xor32(xor32(dt, c1), ds) =~= xor32(xor32(xor32(xor32(dt, c0), ds), c0), c1));
}

/// Digest of a sequence split around one element.
proof fn lemma_entries_digest_split3(a: Seq<CreditEntry>, e: CreditEntry, b: Seq<CreditEntry>)
    ensures
        entries_digest(a + seq![e] + b) == xor32(
            xor32(entries_digest(a), credit_digest(e)),
            entries_digest(b),
        ),
{
    lemma_entries_digest_append(a + seq![e], b);
    lemma_entries_digest_append(a, seq![e]);
    assert(entries_digest(seq![e]) == xor32(zero32(), credit_digest(e))) by {
        let one = seq![e];
        assert(one.len() == 1);
        assert(one.last() == e);
        assert(one.drop_last() =~= Seq::<CreditEntry>::empty());
        assert(entries_digest(one.drop_last()) == zero32());
        assert(entries_digest(one) == xor32(entries_digest(one.drop_last()), credit_digest(one.last())));
    }
    lemma_entries_digest_len(a);
    assert forall|k: int| 0 <= k < 32 implies xor32(entries_digest(a), xor32(zero32(), credit_digest(e)))[k]
        == xor32(entries_digest(a), credit_digest(e))[k] by {
        let x = entries_digest(a)[k];
        let y = credit_digest(e)[k];
        assert(x ^ (0u8 ^ y) == x ^ y) by (bit_vector);
    }
    assert(xor32(entries_digest(a), xor32(zero32(), credit_digest(e))) =~= xor32(
        entries_digest(a),
        credit_digest(e),
    ));
}

/// Digest change when a credit enters a group: its digest is combined in.
pub proof fn lemma_entries_digest_insert(es: Seq<CreditEntry>, i: int, e: CreditEntry)
    requires
        0 <= i <= es.len(),
    ensures
        entries_digest(es.insert(i, e)) == xor32(entries_digest(es), credit_digest(e)),
{
    let es2 = es.insert(i, e);
    assert(es =~= es.take(i) + es.skip(i));
    assert(es2 =~= es.take(i) + seq![e] + es.skip(i));
    lemma_entries_digest_split3(es.take(i), e, es.skip(i));
    lemma_entries_digest_append(es.take(i), es.skip(i));
    let dt = entries_digest(es.take(i));
    let ds = entries_digest(es.skip(i));
    let c = credit_digest(e);
    assert forall|k: int| 0 <= k < 32 implies xor32(xor32(dt, c), ds)[k] == xor32(
        xor32(dt, ds),
        c,
    )[k] by {
        let a = dt[k];
        let b = ds[k];
        let d = c[k];
        assert((a ^ d) ^ b == (a ^ b) ^ d) by (bit_vector);
    }
    assert(xor32(xor32(dt, c), ds) =~= xor32(xor32(dt, ds), c));
}

/// Digest of a group sequence split around one group.
proof fn lemma_ledger_digest_split3(a: Seq<SlotCredits>, g: SlotCredits, b: Seq<SlotCredits>)
    ensures
        ledger_digest(a + seq![g] + b) == xor32(
            xor32(ledger_digest(a), group_digest(g)),
            ledger_digest(b),
        ),
{
    lemma_ledger_digest_append(a + seq![g], b);
    lemma_ledger_digest_append(a, seq![g]);
    assert(ledger_digest(seq![g]) == xor32(zero32(), group_digest(g))) by {
        let one = seq![g];
        assert(one.len() == 1);
        assert(one.last() == g);
        assert(one.drop_last() =~= Seq::<SlotCredits>::empty());
        assert(ledger_digest(one.drop_last()) == zero32());
        assert(ledger_digest(one) == xor32(ledger_digest(one.drop_last()), group_digest(one.last())));
    }
    lemma_ledger_digest_len(a);
    assert forall|k: int| 0 <= k < 32 implies xor32(ledger_digest(a), xor32(zero32(), group_digest(g)))[k]
        == xor32(ledger_digest(a), group_digest(g))[k] by {
        let x = ledger_digest(a)[k];
        let y = group_digest(g)[k];
        assert(x ^ (0u8 ^ y) == x ^ y) by (bit_vector);
    }
    assert(xor32(ledger_digest(a), xor32(zero32(), group_digest(g))) =~= xor32(
        ledger_digest(a),
        group_digest(g),
    ));
}

/// Digest change when one slot group is replaced: the old group's digest
/// leaves, the new one enters.
pub proof fn lemma_ledger_digest_update(cs: Seq<SlotCredits>, i: int, g: SlotCredits)
    requires
        0 <= i < cs.len(),
    ensures
        ledger_digest(cs.update(i, g)) == xor32(
            xor32(ledger_digest(cs), group_digest(cs[i])),
            group_digest(g),
        ),
{
    let cs2 = cs.update(i, g);
    assert(cs =~= cs.take(i) + seq![cs[i]] + cs.skip(i + 1));
    assert(cs2 =~= cs.take(i) + seq![g] + cs.skip(i + 1));
    lemma_ledger_digest_split3(cs.take(i), cs[i], cs.skip(i + 1));
    lemma_ledger_digest_split3(cs.take(i), g, cs.skip(i + 1));
    let dt = ledger_digest(cs.take(i));
    let ds = ledger_digest(cs.skip(i + 1));
    let c0 = group_digest(cs[i]);
    let c1 = group_digest(g);
    assert forall|k: int| 0 <= k < 32 implies xor32(xor32(dt, c1), ds)[k] == xor32(
        xor32(xor32(xor32(dt, c0), ds), c0),
        c1,
    )[k] by {
        let a = dt[k];
        let b = c0[k];
        let c = ds[k];
        let d = c1[k];
        assert((a ^ d) ^ c == (((a ^ b) ^ c) ^ b) ^ d) by (bit_vector);
    }
    assert(xor32(xor32(dt, c1), ds) =~= xor32(xor32(xor32(xor32(dt, c0), ds), c0), c1));
}

/// Digest change when a group enters the ledger: its digest is combined
/// in.
pub proof fn lemma_ledger_digest_insert(cs: Seq<SlotCredits>, i: int, g: SlotCredits)
    requires
        0 <= i <= cs.len(),
    ensures
        ledger_digest(cs.insert(i, g)) == xor32(ledger_digest(cs), group_digest(g)),
{
    let cs2 = cs.insert(i, g);
    assert(cs =~= cs.take(i) + cs.skip(i));
    assert(cs2 =~= cs.take(i) + seq![g] + cs.skip(i));
    lemma_ledger_digest_split3(cs.take(i), g, cs.skip(i));
    lemma_ledger_digest_append(cs.take(i), cs.skip(i));
    let dt = ledger_digest(cs.take(i));
    let ds = ledger_digest(cs.skip(i));
    let c = group_digest(g);
    assert forall|k: int| 0 <= k < 32 implies xor32(xor32(dt, c), ds)[k] == xor32(
        xor32(dt, ds),
        c,
    )[k] by {
        let a = dt[k];
        let b = ds[k];
        let d = c[k];
        assert((a ^ d) ^ b == (a ^ b) ^ d) by (bit_vector);
    }
    assert(xor32(xor32(dt, c), ds) =~= xor32(xor32(dt, ds), c));
}

/// The per-slot map that results from overwriting one credit.
pub open spec fn slot_map_after(
    m: Map<Slot, Map<Address, Amount>>,
    s: Slot,
    a: Address,
    v: Amount,
) -> Map<Address, Amount> {
    (if m.contains_key(s) {
        m[s]
    } else {
        Map::empty()
    }).insert(a, v)
}

impl Default for DeferredCredits {
    /// The empty ledger: no credits, digest at the all-zero baseline.
    fn default() -> (r: Self)
        ensures
            r.wf(),
            r.hash_ok(),
            r@ == Map::<Slot, Map<Address, Amount>>::empty(),
            r.credits@.len() == 0,
    {
        DeferredCredits { credits: Vec::new(), hash: Digest::zero() }
    }
}

impl DeferredCredits {
    /// Point lookup of the credit for `addr` at `slot`.
    pub fn get_address_deferred_credit_for_slot(&self, addr: &Address, slot: &Slot) -> (r: Option<
        Amount,
    >)
        requires
            self.wf(),
        ensures
            r == (if self@.contains_key(*slot) && self@[*slot].contains_key(*addr) {
                Some(self@[*slot][*addr])
            } else {
                None
            }),
    {
        proof {
            lemma_credits_wf_unique(self.credits@);
            lemma_credits_map_chr(self.credits@);
        }
        let i = find_slot(&self.credits, slot);
        if i < self.credits.len() && self.credits[i].slot.period == slot.period
            && self.credits[i].slot.thread == slot.thread {
            proof {
                lemma_entries_wf_unique(self.credits@[i as int].entries@);
                lemma_entries_map_chr(self.credits@[i as int].entries@);
            }
            let group = &self.credits[i];
            let j = find_addr(&group.entries, addr);
            if j < group.entries.len() && group.entries[j].addr.val == addr.val {
                Some(group.entries[j].amount)
            } else {
                proof {
                    assert forall|k: int| 0 <= k < group.entries@.len() implies group.entries@[k].addr
                        != *addr by {
                        if k >= j {
                            if group.entries@[k].addr.val == addr.val {
                                assert(k > j ==> group.entries@[j as int].addr.val
                                    < group.entries@[k].addr.val);
                            }
                        }
                    }
                }
                None
            }
        } else {
            proof {
                assert forall|k: int| 0 <= k < self.credits@.len() implies self.credits@[k].slot
                    != *slot by {
                    if k > i {
                        assert(slot_lt(self.credits@[i as int].slot, self.credits@[k].slot));
                    }
                }
            }
            None
        }
    }
}


impl DeferredCredits {
    /// Overwrites the credit for `(slot, addr)` with `amount`, combining
    /// the replaced credit's digest out of the running hash and the new
    /// credit's digest in; a brand-new slot contributes its marker digest
    /// as well.
    #[verifier::rlimit(100)]
    fn final_set(&mut self, slot: Slot, addr: Address, amount: Amount)
        requires
            old(self).wf(),
        ensures
            final(self).wf(),
            final(self)@ == old(self)@.insert(
                slot,
                slot_map_after(old(self)@, slot, addr, amount),
            ),
            old(self).hash_ok() ==> final(self).hash_ok(),
    {
        proof {
            lemma_credits_wf_unique(self.credits@);
            lemma_credits_map_chr(self.credits@);
        }
        let ghost cs0 = self.credits@;
        let ghost h0 = self.hash@;
        let entry = CreditEntry { addr, amount };
        let cd = crate::hashing::hash_bytes(&encode_credit(&addr, &amount));
        let i = find_slot(&self.credits, &slot);
        if i < self.credits.len() && self.credits[i].slot == slot {
            let mut group = self.credits.remove(i);
            proof {
                assert(group == cs0[i as int]);
                lemma_entries_wf_unique(group.entries@);
                lemma_entries_map_chr(group.entries@);
            }
            let ghost es0 = group.entries@;
            let j = find_addr(&group.entries, &addr);
            if j < group.entries.len() && group.entries[j].addr == addr {
                let old_cd = crate::hashing::hash_bytes(
                    &encode_credit(&group.entries[j].addr, &group.entries[j].amount),
                );
                self.hash.xor_with(&old_cd);
                self.hash.xor_with(&cd);
                group.entries.set(j, entry);
                proof {
                    lemma_entries_map_update(es0, j as int, entry);
                    lemma_entries_digest_update(es0, j as int, entry);
                    assert(entries_wf(group.entries@)) by {
                        assert(forall|k: int|
                            0 <= k < es0.len() ==> group.entries@[k].addr == es0[k].addr);
                    }
                }
            } else {
                self.hash.xor_with(&cd);
                group.entries.insert(j, entry);
                proof {
                    assert forall|k: int| 0 <= k < es0.len() implies es0[k].addr != addr by {
                        if k > j {
                            assert(es0[j as int].addr.val < es0[k].addr.val);
                        }
                    }
                    lemma_entries_map_insert(es0, j as int, entry);
                    lemma_entries_digest_insert(es0, j as int, entry);
                    assert(entries_wf(group.entries@)) by {
                        assert(forall|k: int| 0 <= k < j ==> group.entries@[k] == es0[k]);
                        assert(group.entries@[j as int] == entry);
                        assert(forall|k: int|
                            j < k < group.entries@.len() ==> group.entries@[k] == es0[k - 1]);
                        assert forall|p: int, q: int|
                            0 <= p < q < group.entries@.len() implies group.entries@[p].addr.val
                            < group.entries@[q].addr.val by {
                            if p == j && q > j {
                                assert(es0[q - 1].addr.val >= addr.val);
                                assert(es0[q - 1].addr != addr);
                            }
                        }
                    }
                }
            }
            let ghost g1 = group;
            self.credits.insert(i, group);
            proof {
                assert(self.credits@ =~= cs0.update(i as int, g1));
                lemma_credits_map_update(cs0, i as int, g1);
                lemma_ledger_digest_update(cs0, i as int, g1);
                assert(credits_wf(self.credits@)) by {
                    assert(forall|k: int|
                        0 <= k < cs0.len() ==> self.credits@[k].slot == cs0[k].slot);
                }
                assert(self@ == old(self)@.insert(
                    slot,
                    slot_map_after(old(self)@, slot, addr, amount),
                )) by {
                    assert(credits_map(cs0)[slot] == entries_map(es0));
                }
                if old(self).hash_ok() {
                    assert(self.hash_ok()) by {
                        let sd = slot_digest(slot);
                        let ed0 = entries_digest(es0);
                        let ed1 = entries_digest(g1.entries@);
                        lemma_ledger_digest_len(cs0);
                        lemma_entries_digest_len(es0);
                        if j < es0.len() && es0[j as int].addr == addr {
                            let c0 = credit_digest(es0[j as int]);
                            let c1 = credit_digest(entry);
                            assert(ed1 == xor32(xor32(ed0, c0), c1));
                            assert(self.hash@ == xor32(xor32(ledger_digest(cs0), c0), c1));
                            assert forall|k: int| 0 <= k < 32 implies ledger_digest(
                                self.credits@,
                            )[k] == self.hash@[k] by {
                                let l = ledger_digest(cs0)[k];
                                let s0 = sd[k];
                                let e0 = ed0[k];
                                let b0 = c0[k];
                                let b1 = c1[k];
                                assert(((l ^ (s0 ^ e0)) ^ (s0 ^ ((e0 ^ b0) ^ b1))) == ((l ^ b0)
                                    ^ b1)) by (bit_vector);
                            }
                            assert(ledger_digest(self.credits@) =~= self.hash@);
                        } else {
                            let c1 = credit_digest(entry);
                            assert(ed1 == xor32(ed0, c1));
                            assert(self.hash@ == xor32(ledger_digest(cs0), c1));
                            assert forall|k: int| 0 <= k < 32 implies ledger_digest(
                                self.credits@,
                            )[k] == self.hash@[k] by {
                                let l = ledger_digest(cs0)[k];
                                let s0 = sd[k];
                                let e0 = ed0[k];
                                let b1 = c1[k];
                                assert(((l ^ (s0 ^ e0)) ^ (s0 ^ (e0 ^ b1))) == (l ^ b1))
                                    by (bit_vector);
                            }
                            assert(ledger_digest(self.credits@) =~= self.hash@);
                        }
                    }
                }
            }
        } else {
            let sd = crate::hashing::hash_bytes(&encode_slot(&slot));
            self.hash.xor_with(&sd);
            self.hash.xor_with(&cd);
            let mut entries: Vec<CreditEntry> = Vec::new();
            entries.push(entry);
            let group = SlotCredits { slot, entries };
            let ghost g1 = group;
            self.credits.insert(i, group);
            proof {
                assert forall|k: int| 0 <= k < cs0.len() implies cs0[k].slot != slot by {
                    if k >= i {
                        assert(!slot_lt(cs0[i as int].slot, slot));
                        if k > i {
                            assert(slot_lt(cs0[i as int].slot, cs0[k].slot));
                        }
                    }
                }
                assert(g1.entries@ =~= seq![entry]);
                assert(entries_map(g1.entries@) == Map::<Address, Amount>::empty().insert(
                    addr,
                    amount,
                )) by {
                    let one = g1.entries@;
                    assert(one.len() == 1);
                    assert(one.last() == entry);
                    assert(one.drop_last() =~= Seq::<CreditEntry>::empty());
                    assert(entries_map(one.drop_last()) =~= Map::<Address, Amount>::empty());
                }
                lemma_credits_map_insert(cs0, i as int, g1);
                lemma_ledger_digest_insert(cs0, i as int, g1);
                assert(credits_wf(self.credits@)) by {
                    assert(forall|k: int| 0 <= k < i ==> self.credits@[k] == cs0[k]);
                    assert(self.credits@[i as int] == g1);
                    assert(forall|k: int|
                        i < k < self.credits@.len() ==> self.credits@[k] == cs0[k - 1]);
                    assert(entries_wf(g1.entries@));
                    assert forall|p: int, q: int|
                        0 <= p < q < self.credits@.len() implies slot_lt(
                        self.credits@[p].slot,
                        self.credits@[q].slot,
                    ) by {
                        if p == i && q > i {
                            assert(!slot_lt(cs0[i as int].slot, slot));
                            assert(cs0[q - 1].slot != slot);
                            if q - 1 > i {
                                assert(slot_lt(cs0[i as int].slot, cs0[q - 1].slot));
                            }
                        }
                    }
                }
                assert(self@ == old(self)@.insert(
                    slot,
                    slot_map_after(old(self)@, slot, addr, amount),
                )) by {
                    assert(!credits_map(cs0).contains_key(slot));
                    assert(slot_map_after(old(self)@, slot, addr, amount)
                        =~= Map::<Address, Amount>::empty().insert(addr, amount));
                }
                if old(self).hash_ok() {
                    assert(self.hash_ok()) by {
                        let ed1 = entries_digest(g1.entries@);
                        let c1 = credit_digest(entry);
                        lemma_ledger_digest_len(cs0);
                        assert(ed1 == xor32(zero32(), c1)) by {
                            let one = g1.entries@;
                            assert(one.len() == 1);
                            assert(one.last() == entry);
                            assert(one.drop_last() =~= Seq::<CreditEntry>::empty());
                            assert(entries_digest(one.drop_last()) == zero32());
                        }
                        assert(self.hash@ == xor32(xor32(ledger_digest(cs0), slot_digest(slot)), c1));
                        assert forall|k: int| 0 <= k < 32 implies ledger_digest(
                            self.credits@,
                        )[k] == self.hash@[k] by {
                            let l = ledger_digest(cs0)[k];
                            let s0 = slot_digest(slot)[k];
                            let b1 = c1[k];
                            assert((l ^ (s0 ^ (0u8 ^ b1))) == ((l ^ s0) ^ b1)) by (bit_vector);
                        }
                        assert(ledger_digest(self.credits@) =~= self.hash@);
                    }
                }
            }
        }
    }

    /// Insert or overwrite a single deferred credit; the running hash is
    /// left untouched, so this is for speculative state only.
    pub fn insert(&mut self, addr: Address, slot: Slot, amount: Amount)
        requires
            old(self).wf(),
        ensures
            final(self).wf(),
            final(self)@ == old(self)@.insert(
                slot,
                slot_map_after(old(self)@, slot, addr, amount),
            ),
            final(self).hash@ == old(self).hash@,
    {
        let saved = self.hash.dup();
        self.final_set(slot, addr, amount);
        self.hash = saved;
    }
}


impl DeferredCredits {
    /// Drops every credit at `slot`; the running hash is left
    /// untouched.
    pub(crate) fn remove_slot(&mut self, slot: Slot)
        requires
            old(self).wf(),
        ensures
            final(self).wf(),
            final(self)@ == old(self)@.remove(slot),
            final(self).hash@ == old(self).hash@,
    {
        proof {
            lemma_credits_wf_unique(self.credits@);
            lemma_credits_map_chr(self.credits@);
        }
        let ghost cs0 = self.credits@;
        let i = find_slot(&self.credits, &slot);
        if i < self.credits.len() && self.credits[i].slot == slot {
            self.credits.remove(i);
            proof {
                lemma_credits_map_remove(cs0, i as int);
                assert(credits_wf(self.credits@)) by {
                    assert(forall|k: int| 0 <= k < i ==> self.credits@[k] == cs0[k]);
                    assert(forall|k: int|
                        i <= k < self.credits@.len() ==> self.credits@[k] == cs0[k + 1]);
                    assert forall|p: int, q: int|
                        0 <= p < q < self.credits@.len() implies slot_lt(
                        self.credits@[p].slot,
                        self.credits@[q].slot,
                    ) by {
                        let p0 = if p < i { p as int } else { p + 1 };
                        let q0 = if q < i { q as int } else { q + 1 };
                        assert(self.credits@[p] == cs0[p0] && self.credits@[q] == cs0[q0]);
                    }
                }
            }
        } else {
            proof {
                assert forall|k: int| 0 <= k < cs0.len() implies cs0[k].slot != slot by {
                    if k >= i {
                        assert(!slot_lt(cs0[i as int].slot, slot));
                        if k > i {
                            assert(slot_lt(cs0[i as int].slot, cs0[k].slot));
                        }
                    }
                }
                assert(!old(self)@.contains_key(slot));
                assert(old(self)@.remove(slot) =~= old(self)@);
            }
        }
    }
}

/// The ledger content after merging `b` into `a`: slots of both, and
/// within a shared slot the credits of `b` override those of `a`.
pub open spec fn merged(
    a: Map<Slot, Map<Address, Amount>>,
    b: Map<Slot, Map<Address, Amount>>,
) -> Map<Slot, Map<Address, Amount>> {
    Map::new(
        |s: Slot| a.contains_key(s) || b.contains_key(s),
        |s: Slot|
            if b.contains_key(s) {
                if a.contains_key(s) {
                    a[s].union_prefer_right(b[s])
                } else {
                    b[s]
                }
            } else {
                a[s]
            },
    )
}

impl DeferredCredits {
    /// Merges every credit of `other` into `self`, slot group by slot
    /// group, through the single-credit overwrite.
    fn merge_from(&mut self, other: &DeferredCredits)
        requires
            old(self).wf(),
            other.wf(),
        ensures
            final(self).wf(),
            final(self)@ == merged(old(self)@, other@),
            old(self).hash_ok() ==> final(self).hash_ok(),
    {
        let ghost m0 = self@;
        let ghost h0ok = self.hash_ok();
        let ghost ocs = other.credits@;
        proof {
            lemma_credits_wf_unique(ocs);
            assert(ocs.take(0) =~= Seq::<SlotCredits>::empty());
            assert(credits_map(ocs.take(0)) =~= Map::<Slot, Map<Address, Amount>>::empty());
            assert(merged(m0, credits_map(ocs.take(0))) =~= m0);
        }
        let mut i: usize = 0;
        while i < other.credits.len()
            invariant
                self.wf(),
                other.wf(),
                other.credits@ == ocs,
                i <= ocs.len(),
                self@ == merged(m0, credits_map(ocs.take(i as int))),
                h0ok ==> self.hash_ok(),
            decreases ocs.len() - i,
        {
            let ghost mid = self@;
            let ghost cm_i = credits_map(ocs.take(i as int));
            let slot = other.credits[i].slot;
            let ghost es = ocs[i as int].entries@;
            let ghost base = if mid.contains_key(slot) {
                mid[slot]
            } else {
                Map::<Address, Amount>::empty()
            };
            proof {
                lemma_entries_wf_unique(es);
            }
            let n = other.credits[i].entries.len();
            let mut j: usize = 0;
            while j < n
                invariant
                    self.wf(),
                    other.wf(),
                    other.credits@ == ocs,
                    i < ocs.len(),
                    slot == ocs[i as int].slot,
                    es == ocs[i as int].entries@,
                    n == es.len(),
                    j <= n,
                    base == (if mid.contains_key(slot) {
                        mid[slot]
                    } else {
                        Map::<Address, Amount>::empty()
                    }),
                    j == 0 ==> self@ == mid,
                    j > 0 ==> self@ == mid.insert(
                        slot,
                        base.union_prefer_right(entries_map(es.take(j as int))),
                    ),
                    h0ok ==> self.hash_ok(),
                decreases n - j,
            {
                let e = other.credits[i].entries[j];
                let ghost prev = self@;
                self.final_set(slot, e.addr, e.amount);
                proof {
                    let emj1 = entries_map(es.take(j as int + 1));
                    assert(es.take(j as int + 1).drop_last() =~= es.take(j as int));
                    assert(es.take(j as int + 1).last() == es[j as int]);
                    assert(emj1 == entries_map(es.take(j as int)).insert(e.addr, e.amount));
                    if j == 0 {
                        assert(entries_map(es.take(0)) =~= Map::<Address, Amount>::empty());
                        assert(slot_map_after(prev, slot, e.addr, e.amount) =~= base.union_prefer_right(
                            emj1,
                        ));
                        assert(self@ == mid.insert(slot, base.union_prefer_right(emj1)));
                    } else {
                        let bj = base.union_prefer_right(entries_map(es.take(j as int)));
                        assert(prev == mid.insert(slot, bj));
                        assert(prev.contains_key(slot) && prev[slot] == bj);
                        assert(slot_map_after(prev, slot, e.addr, e.amount) == bj.insert(
                            e.addr,
                            e.amount,
                        ));
                        assert(bj.insert(e.addr, e.amount) =~= base.union_prefer_right(emj1));
                        assert(self@ == prev.insert(slot, bj.insert(e.addr, e.amount)));
                        assert(self@ =~= mid.insert(slot, base.union_prefer_right(emj1)));
                    }
                }
                j += 1;
            }
            proof {
                assert(es.take(n as int) =~= es);
                let cm_i1 = credits_map(ocs.take(i as int + 1));
                assert(ocs.take(i as int + 1).drop_last() =~= ocs.take(i as int));
                assert(ocs.take(i as int + 1).last() == ocs[i as int]);
                assert(cm_i1 == cm_i.insert(slot, entries_map(es)));
                assert(!cm_i.contains_key(slot)) by {
                    lemma_credits_wf_unique(ocs);
                    let tk = ocs.take(i as int);
                    assert(forall|p: int| 0 <= p < tk.len() ==> tk[p] == ocs[p]);
                    assert forall|p: int, q: int| 0 <= p < q < tk.len() implies tk[p].slot
                        != tk[q].slot by {
                        assert(ocs[p].slot != ocs[q].slot);
                    }
                    lemma_credits_map_chr(tk);
                    if cm_i.contains_key(slot) {
                        let k = choose|k: int| 0 <= k < tk.len() && tk[k].slot == slot;
                        assert(ocs[k].slot == ocs[i as int].slot);
                        assert(ocs[k].slot != ocs[i as int].slot);
                    }
                }
                assert(Map::<Address, Amount>::empty().union_prefer_right(entries_map(es))
                    =~= entries_map(es));
                assert(self@ =~= merged(m0, cm_i1));
            }
            i += 1;
        }
        proof {
            assert(ocs.take(ocs.len() as int) =~= ocs);
        }
    }

    /// Merge for speculative branches: every credit of `other` overwrites
    /// or extends `self`, and the running hash is left untouched.
    pub fn nested_replace(&mut self, other: Self)
        requires
            old(self).wf(),
            other.wf(),
        ensures
            final(self).wf(),
            final(self)@ == merged(old(self)@, other@),
            final(self).hash@ == old(self).hash@,
    {
        let saved = self.hash.dup();
        self.merge_from(&other);
        self.hash = saved;
    }

    /// Merge for state that has become final: same content change as
    /// `nested_replace`, and the running hash is kept in step with the
    /// content, so that it stays the order-independent digest of the
    /// whole ledger.
    pub fn final_nested_replace(&mut self, other: Self)
        requires
            old(self).wf(),
            old(self).hash_ok(),
            other.wf(),
        ensures
            final(self).wf(),
            final(self).hash_ok(),
            final(self)@ == merged(old(self)@, other@),
    {
        self.merge_from(&other);
    }
}


/// The per-slot map with its zero credits dropped.
pub open spec fn nonzero_filter(m: Map<Address, Amount>) -> Map<Address, Amount> {
    Map::new(|a: Address| m.contains_key(a) && m[a].raw != 0, |a: Address| m[a])
}

/// The ledger content with zero credits dropped and emptied slots
/// removed entirely.
pub open spec fn pruned(m: Map<Slot, Map<Address, Amount>>) -> Map<Slot, Map<Address, Amount>> {
    Map::new(
        |s: Slot|
            m.contains_key(s) && (exists|a: Address| nonzero_filter(m[s]).contains_key(a)),
        |s: Slot| nonzero_filter(m[s]),
    )
}

impl DeferredCredits {
    /// Drops every credit whose amount is zero, combining its digest out
    /// of the running hash; a slot left without credits is dropped
    /// entirely together with its marker digest.
    #[verifier::rlimit(100)]
    pub fn remove_zeros(&mut self)
        requires
            old(self).wf(),
        ensures
            final(self).wf(),
            final(self)@ == pruned(old(self)@),
            old(self).hash_ok() ==> final(self).hash_ok(),
    {
        let ghost cs0 = self.credits@;
        let ghost h0 = self.hash@;
        let ghost mut removed: Seq<u8> = zero32();
        let mut out: Vec<SlotCredits> = Vec::new();
        proof {
            use_type_invariant(&self.hash);
            assert(cs0.skip(0) =~= cs0);
            assert(cs0.take(0) =~= Seq::<SlotCredits>::empty());
            lemma_ledger_digest_len(cs0);
            lemma_xor32_zero(h0);
            lemma_xor32_zero(ledger_digest(cs0));
            lemma_xor32_zero(zero32());
            assert(credits_map(Seq::<SlotCredits>::empty()) =~= Map::<Slot, Map<Address, Amount>>::empty());
            assert(credits_map(out@) =~= pruned(credits_map(cs0.take(0))));
        }
        let mut i: usize = 0;
        while i < self.credits.len()
            invariant
                credits_wf(cs0),
                self.credits@ == cs0,
                i <= cs0.len(),
                self.hash@ == xor32(h0, removed),
                ledger_digest(cs0) == xor32(
                    xor32(ledger_digest(out@), removed),
                    ledger_digest(cs0.skip(i as int)),
                ),
                credits_map(out@) == pruned(credits_map(cs0.take(i as int))),
                forall|p: int, q: int|
                    0 <= p < q < out@.len() ==> slot_lt(out@[p].slot, out@[q].slot),
                forall|k: int|
                    0 <= k < out@.len() ==> entries_wf(#[trigger] out@[k].entries@)
                        && out@[k].entries@.len() > 0,
                forall|k: int, l: int|
                    0 <= k < out@.len() && i <= l < cs0.len() ==> slot_lt(
                        #[trigger] out@[k].slot,
                        #[trigger] cs0[l].slot,
                    ),
            decreases cs0.len() - i,
        {
            let ghost out0 = out@;
            let ghost removed0 = removed;
            let ghost es = cs0[i as int].entries@;
            let slot = self.credits[i].slot;
            let ghost sd = slot_digest(slot);
            let ghost ldskip1 = ledger_digest(cs0.skip(i as int + 1));
            proof {
                lemma_entries_wf_unique(es);
                assert(cs0.skip(i as int) =~= seq![cs0[i as int]] + cs0.skip(i as int + 1));
                lemma_ledger_digest_append(seq![cs0[i as int]], cs0.skip(i as int + 1));
                assert(ledger_digest(seq![cs0[i as int]]) == xor32(
                    zero32(),
                    group_digest(cs0[i as int]),
                )) by {
                    let one = seq![cs0[i as int]];
                    assert(one.len() == 1);
                    assert(one.last() == cs0[i as int]);
                    assert(one.drop_last() =~= Seq::<SlotCredits>::empty());
                    assert(ledger_digest(one.drop_last()) == zero32());
                }
                assert(es.take(0) =~= Seq::<CreditEntry>::empty());
                assert(entries_map(Seq::<CreditEntry>::empty()) =~= Map::<Address, Amount>::empty());
            }
            let mut kept: Vec<CreditEntry> = Vec::new();
            let n = self.credits[i].entries.len();
            let mut j: usize = 0;
            while j < n
                invariant
                    credits_wf(cs0),
                    self.credits@ == cs0,
                    i < cs0.len(),
                    es == cs0[i as int].entries@,
                    n == es.len(),
                    j <= n,
                    self.hash@ == xor32(h0, removed),
                    xor32(entries_digest(kept@), removed) == xor32(
                        entries_digest(es.take(j as int)),
                        removed0,
                    ),
                    entries_map(kept@) == nonzero_filter(entries_map(es.take(j as int))),
                    forall|p: int, q: int|
                        0 <= p < q < kept@.len() ==> #[trigger] kept@[p].addr.val
                            < #[trigger] kept@[q].addr.val,
                    forall|k: int, l: int|
                        0 <= k < kept@.len() && j <= l < es.len() ==> #[trigger] kept@[k].addr.val
                            < #[trigger] es[l].addr.val,
                    forall|k: int|
                        0 <= k < kept@.len() ==> #[trigger] kept@[k].amount.raw != 0,
                decreases n - j,
            {
                let e = self.credits[i].entries[j];
                let ghost kept0 = kept@;
                proof {
                    lemma_entries_wf_unique(es);
                    assert(es.take(j as int + 1).drop_last() =~= es.take(j as int));
                    assert(es.take(j as int + 1).last() == es[j as int]);
                    assert(entries_map(es.take(j as int + 1)) == entries_map(
                        es.take(j as int),
                    ).insert(e.addr, e.amount));
                    assert(entries_digest(es.take(j as int + 1)) == xor32(
                        entries_digest(es.take(j as int)),
                        credit_digest(e),
                    ));
                    let tk = es.take(j as int);
                    assert(forall|p: int| 0 <= p < tk.len() ==> tk[p] == es[p]);
                    assert forall|p: int, q: int| 0 <= p < q < tk.len() implies tk[p].addr
                        != tk[q].addr by {
                        assert(es[p].addr.val < es[q].addr.val);
                    }
                    lemma_entries_map_chr(tk);
                    assert(!entries_map(tk).contains_key(e.addr)) by {
                        if entries_map(tk).contains_key(e.addr) {
                            let k = choose|k: int| 0 <= k < tk.len() && tk[k].addr == e.addr;
                            assert(es[k].addr.val < es[j as int].addr.val);
                        }
                    }
                }
                if e.amount.is_zero() {
                    let cd = crate::hashing::hash_bytes(&encode_credit(&e.addr, &e.amount));
                    self.hash.xor_with(&cd);
                    proof {
                        let r1 = xor32(removed, credit_digest(e));
                        assert forall|k: int| 0 <= k < 32 implies xor32(h0, r1)[k] == xor32(
                            xor32(h0, removed),
                            credit_digest(e),
                        )[k] by {
                            let a = h0[k];
                            let r = removed[k];
                            let c = credit_digest(e)[k];
                            assert(a ^ (r ^ c) == (a ^ r) ^ c) by (bit_vector);
                        }
                        assert(xor32(h0, r1) =~= xor32(xor32(h0, removed), credit_digest(e)));
                        assert forall|k: int| 0 <= k < 32 implies xor32(entries_digest(kept@), r1)[k]
                            == xor32(entries_digest(es.take(j as int + 1)), removed0)[k] by {
                            let kk = entries_digest(kept@)[k];
                            let r = removed[k];
                            let c = credit_digest(e)[k];
                            let t = entries_digest(es.take(j as int))[k];
                            let r0 = removed0[k];
                            assert(xor32(entries_digest(kept@), removed)[k] == kk ^ r);
                            assert(xor32(entries_digest(es.take(j as int)), removed0)[k] == t ^ r0);
                            assert(kk ^ (r ^ c) == (t ^ c) ^ r0) by (bit_vector)
                                requires
                                    kk ^ r == t ^ r0,
                            ;
                        }
                        assert(xor32(entries_digest(kept@), r1) =~= xor32(
                            entries_digest(es.take(j as int + 1)),
                            removed0,
                        ));
                        removed = r1;
                        assert(entries_map(kept@) =~= nonzero_filter(
                            entries_map(es.take(j as int + 1)),
                        ));
                    }
                } else {
                    kept.push(e);
                    proof {
                        assert(kept@ == kept0.push(e));
                        assert(kept@.drop_last() =~= kept0);
                        assert(kept@.last() == e);
                        assert(entries_digest(kept@) == xor32(
                            entries_digest(kept0),
                            credit_digest(e),
                        ));
                        assert forall|k: int| 0 <= k < 32 implies xor32(entries_digest(kept@), removed)[k]
                            == xor32(entries_digest(es.take(j as int + 1)), removed0)[k] by {
                            let kk = entries_digest(kept0)[k];
                            let r = removed[k];
                            let c = credit_digest(e)[k];
                            let t = entries_digest(es.take(j as int))[k];
                            let r0 = removed0[k];
                            assert(xor32(entries_digest(kept0), removed)[k] == kk ^ r);
                            assert(xor32(entries_digest(es.take(j as int)), removed0)[k] == t ^ r0);
                            assert(xor32(entries_digest(kept@), removed)[k] == (kk ^ c) ^ r);
                            assert((kk ^ c) ^ r == (t ^ c) ^ r0) by (bit_vector)
                                requires
                                    kk ^ r == t ^ r0,
                            ;
                        }
                        assert(xor32(entries_digest(kept@), removed) =~= xor32(
                            entries_digest(es.take(j as int + 1)),
                            removed0,
                        ));
                        assert(entries_map(kept@) == entries_map(kept0).insert(e.addr, e.amount));
                        assert(entries_map(kept@) =~= nonzero_filter(
                            entries_map(es.take(j as int + 1)),
                        ));
                    }
                }
                j += 1;
            }
            proof {
                assert(es.take(n as int) =~= es);
                assert(cs0.take(i as int + 1).drop_last() =~= cs0.take(i as int));
                assert(cs0.take(i as int + 1).last() == cs0[i as int]);
                assert(credits_map(cs0.take(i as int + 1)) == credits_map(
                    cs0.take(i as int),
                ).insert(slot, entries_map(es)));
                lemma_credits_wf_unique(cs0);
                let tk = cs0.take(i as int);
                assert(forall|p: int| 0 <= p < tk.len() ==> tk[p] == cs0[p]);
                assert forall|p: int, q: int| 0 <= p < q < tk.len() implies tk[p].slot
                    != tk[q].slot by {
                    assert(slot_lt(cs0[p].slot, cs0[q].slot));
                }
                lemma_credits_map_chr(tk);
                assert(!credits_map(tk).contains_key(slot)) by {
                    if credits_map(tk).contains_key(slot) {
                        let k = choose|k: int| 0 <= k < tk.len() && tk[k].slot == slot;
                        assert(cs0[k].slot != cs0[i as int].slot);
                    }
                }
            }
            if kept.len() > 0 {
                let group = SlotCredits { slot, entries: kept };
                let ghost g1 = group;
                out.push(group);
                proof {
                    assert(out@.drop_last() =~= out0);
                    assert(out@.last() == g1);
                    assert(ledger_digest(out@) == xor32(ledger_digest(out0), group_digest(g1)));
                    assert(credits_map(out@) == credits_map(out0).insert(
                        slot,
                        entries_map(g1.entries@),
                    ));
                    assert forall|k: int| 0 <= k < 32 implies ledger_digest(cs0)[k] == xor32(
                        xor32(ledger_digest(out@), removed),
                        ldskip1,
                    )[k] by {
                        let o = ledger_digest(out0)[k];
                        let r0 = removed0[k];
                        let s0 = sd[k];
                        let e0 = entries_digest(es)[k];
                        let l1 = ldskip1[k];
                        let kk = entries_digest(g1.entries@)[k];
                        let r = removed[k];
                        assert(xor32(entries_digest(g1.entries@), removed)[k] == kk ^ r);
                        assert(xor32(entries_digest(es), removed0)[k] == e0 ^ r0);
                        assert(xor32(xor32(ledger_digest(out0), removed0), ledger_digest(
                            cs0.skip(i as int),
                        ))[k] == (o ^ r0) ^ ledger_digest(cs0.skip(i as int))[k]);
                        assert(ledger_digest(cs0.skip(i as int))[k] == xor32(
                            xor32(zero32(), group_digest(cs0[i as int])),
                            ldskip1,
                        )[k]);
                        assert(xor32(xor32(zero32(), group_digest(cs0[i as int])), ldskip1)[k]
                            == (0u8 ^ (s0 ^ e0)) ^ l1);
                        assert(xor32(xor32(ledger_digest(out@), removed), ldskip1)[k] == ((o ^ (s0
                            ^ kk)) ^ r) ^ l1);
                        assert((o ^ r0) ^ ((0u8 ^ (s0 ^ e0)) ^ l1) == ((o ^ (s0 ^ kk)) ^ r) ^ l1)
                            by (bit_vector)
                            requires
                                kk ^ r == e0 ^ r0,
                        ;
                    }
                    assert(ledger_digest(cs0) =~= xor32(
                        xor32(ledger_digest(out@), removed),
                        ldskip1,
                    ));
                    assert(exists|a: Address|
                        nonzero_filter(entries_map(es)).contains_key(a)) by {
                        lemma_entries_wf_unique(g1.entries@);
                        lemma_entries_map_chr(g1.entries@);
                        assert(entries_map(g1.entries@).contains_key(g1.entries@[0].addr));
                    }
                    let lhs = credits_map(out@);
                    let cmi = credits_map(cs0.take(i as int));
                    let cmi1 = credits_map(cs0.take(i as int + 1));
                    let rhs = pruned(cmi1);
                    assert forall|s2: Slot| #[trigger] lhs.contains_key(s2) implies rhs.contains_key(
                        s2,
                    ) && lhs[s2] == rhs[s2] by {
                        if s2 == slot {
                            assert(cmi1[s2] == entries_map(es));
                            assert(lhs[s2] == entries_map(g1.entries@));
                        } else {
                            assert(pruned(cmi).contains_key(s2));
                            assert(cmi1[s2] == cmi[s2]);
                        }
                    }
                    assert forall|s2: Slot| #[trigger] rhs.contains_key(s2) implies lhs.contains_key(
                        s2,
                    ) by {
                        if s2 != slot {
                            assert(cmi1[s2] == cmi[s2]);
                            assert(pruned(cmi).contains_key(s2));
                        }
                    }
                    assert(lhs =~= rhs);
                }
            } else {
                let sdx = crate::hashing::hash_bytes(&encode_slot(&slot));
                self.hash.xor_with(&sdx);
                proof {
                    let r1 = xor32(removed, sd);
                    assert forall|k: int| 0 <= k < 32 implies xor32(h0, r1)[k] == xor32(
                        xor32(h0, removed),
                        sd,
                    )[k] by {
                        let a = h0[k];
                        let r = removed[k];
                        let c = sd[k];
                        assert(a ^ (r ^ c) == (a ^ r) ^ c) by (bit_vector);
                    }
                    assert(xor32(h0, r1) =~= xor32(xor32(h0, removed), sd));
                    assert(entries_digest(kept@) == zero32());
                    assert(entries_map(kept@) =~= Map::<Address, Amount>::empty());
                    assert forall|k: int| 0 <= k < 32 implies ledger_digest(cs0)[k] == xor32(
                        xor32(ledger_digest(out@), r1),
                        ldskip1,
                    )[k] by {
                        let o = ledger_digest(out@)[k];
                        let r0 = removed0[k];
                        let s0 = sd[k];
                        let e0 = entries_digest(es)[k];
                        let l1 = ldskip1[k];
                        let r = removed[k];
                        assert(xor32(entries_digest(kept@), removed)[k] == zero32()[k] ^ r);
                        assert(zero32()[k] == 0u8);
                        assert(xor32(entries_digest(es), removed0)[k] == e0 ^ r0);
                        assert(xor32(xor32(ledger_digest(out@), removed0), ledger_digest(
                            cs0.skip(i as int),
                        ))[k] == (o ^ r0) ^ ledger_digest(cs0.skip(i as int))[k]);
                        assert(ledger_digest(cs0.skip(i as int))[k] == xor32(
                            xor32(zero32(), group_digest(cs0[i as int])),
                            ldskip1,
                        )[k]);
                        assert(xor32(xor32(zero32(), group_digest(cs0[i as int])), ldskip1)[k]
                            == (0u8 ^ (s0 ^ e0)) ^ l1);
                        assert(xor32(xor32(ledger_digest(out@), r1), ldskip1)[k] == (o ^ (r ^ s0))
                            ^ l1);
                        assert((o ^ r0) ^ ((0u8 ^ (s0 ^ e0)) ^ l1) == (o ^ (r ^ s0)) ^ l1)
                            by (bit_vector)
                            requires
                                0u8 ^ r == e0 ^ r0,
                        ;
                    }
                    removed = r1;
                    assert(ledger_digest(cs0) =~= xor32(
                        xor32(ledger_digest(out@), removed),
                        ldskip1,
                    ));
                    assert forall|a: Address| !nonzero_filter(entries_map(es)).contains_key(
                        a,
                    ) by {
                        assert(!entries_map(kept@).contains_key(a));
                    }
                    let lhs = credits_map(out@);
                    let cmi = credits_map(cs0.take(i as int));
                    let cmi1 = credits_map(cs0.take(i as int + 1));
                    let rhs = pruned(cmi1);
                    assert forall|s2: Slot| #[trigger] lhs.contains_key(s2) implies rhs.contains_key(
                        s2,
                    ) && lhs[s2] == rhs[s2] by {
                        assert(pruned(cmi).contains_key(s2));
                        assert(s2 != slot);
                        assert(cmi1[s2] == cmi[s2]);
                    }
                    assert forall|s2: Slot| #[trigger] rhs.contains_key(s2) implies lhs.contains_key(
                        s2,
                    ) by {
                        if s2 == slot {
                            assert(cmi1[s2] == entries_map(es));
                            assert(false);
                        } else {
                            assert(cmi1[s2] == cmi[s2]);
                            assert(pruned(cmi).contains_key(s2));
                        }
                    }
                    assert(lhs =~= rhs);
                }
            }
            i += 1;
        }
        self.credits = out;
        proof {
            assert(cs0.take(cs0.len() as int) =~= cs0);
            assert(cs0.skip(cs0.len() as int) =~= Seq::<SlotCredits>::empty());
            if old(self).hash_ok() {
                lemma_ledger_digest_len(self.credits@);
                assert forall|k: int| 0 <= k < 32 implies self.hash@[k] == ledger_digest(
                    self.credits@,
                )[k] by {
                    let o = ledger_digest(self.credits@)[k];
                    let r = removed[k];
                    let h = h0[k];
                    assert(h == (o ^ r) ^ 0u8 ==> h ^ r == o) by (bit_vector);
                }
                assert(self.hash@ =~= ledger_digest(self.credits@));
            }
        }
    }
}


/// Two well-formed entry sequences with the same content are the same
/// sequence: the canonical ordering leaves no representation choice.
pub proof fn lemma_entries_canonical(e1: Seq<CreditEntry>, e2: Seq<CreditEntry>)
    requires
        entries_wf(e1),
        entries_wf(e2),
        entries_map(e1) == entries_map(e2),
    ensures
        e1 =~= e2,
    decreases e1.len(),
{
    lemma_entries_wf_unique(e1);
    lemma_entries_wf_unique(e2);
    lemma_entries_map_chr(e1);
    lemma_entries_map_chr(e2);
    if e1.len() == 0 {
        if e2.len() > 0 {
            assert(entries_map(e2).contains_key(e2[0].addr));
        }
        assert(e1 =~= e2);
    } else {
        assert(e2.len() > 0) by {
            if e2.len() == 0 {
                assert(entries_map(e1).contains_key(e1[0].addr));
            }
        }
        let a1 = e1.last().addr;
        let a2 = e2.last().addr;
        assert(a1 == a2) by {
            let k = choose|k: int| 0 <= k < e2.len() && e2[k].addr == a1;
            let m = choose|m: int| 0 <= m < e1.len() && e1[m].addr == a2;
            if a1 != a2 {
                assert(k < e2.len() - 1);
                assert(e2[k].addr.val < a2.val);
                assert(m < e1.len() - 1);
                assert(e1[m].addr.val < a1.val);
            }
        }
        assert(e1.last().amount == e2.last().amount) by {
            assert(entries_map(e1)[a1] == e1.last().amount);
            assert(entries_map(e2)[a1] == e2.last().amount);
        }
        assert(entries_map(e1.drop_last()) =~= entries_map(e1).remove(a1)) by {
            assert(!entries_map(e1.drop_last()).contains_key(a1)) by {
                lemma_entries_map_chr(e1.drop_last());
                if entries_map(e1.drop_last()).contains_key(a1) {
                    let k = choose|k: int|
                        0 <= k < e1.drop_last().len() && e1.drop_last()[k].addr == a1;
                    assert(e1[k].addr.val < a1.val);
                }
            }
        }
        assert(entries_map(e2.drop_last()) =~= entries_map(e2).remove(a1)) by {
            assert(!entries_map(e2.drop_last()).contains_key(a1)) by {
                lemma_entries_map_chr(e2.drop_last());
                if entries_map(e2.drop_last()).contains_key(a1) {
                    let k = choose|k: int|
                        0 <= k < e2.drop_last().len() && e2.drop_last()[k].addr == a1;
                    assert(e2[k].addr.val < a1.val);
                }
            }
        }
        lemma_entries_canonical(e1.drop_last(), e2.drop_last());
        assert forall|k: int| 0 <= k < e1.len() implies e1[k] == e2[k] by {
            if k < e1.len() - 1 {
                assert(e1.drop_last()[k] == e2.drop_last()[k]);
            }
        }
        assert(e1 =~= e2);
    }
}

/// Two well-formed group sequences with the same content carry the same
/// digest: the running hash is a function of the ledger's content alone.
pub proof fn lemma_digest_content_determined(cs1: Seq<SlotCredits>, cs2: Seq<SlotCredits>)
    requires
        credits_wf(cs1),
        credits_wf(cs2),
        credits_map(cs1) == credits_map(cs2),
    ensures
        ledger_digest(cs1) == ledger_digest(cs2),
    decreases cs1.len(),
{
    lemma_credits_wf_unique(cs1);
    lemma_credits_wf_unique(cs2);
    lemma_credits_map_chr(cs1);
    lemma_credits_map_chr(cs2);
    if cs1.len() == 0 {
        if cs2.len() > 0 {
            assert(credits_map(cs2).contains_key(cs2[0].slot));
        }
    } else {
        assert(cs2.len() > 0) by {
            if cs2.len() == 0 {
                assert(credits_map(cs1).contains_key(cs1[0].slot));
            }
        }
        let s1 = cs1.last().slot;
        let s2 = cs2.last().slot;
        assert(s1 == s2) by {
            let k = choose|k: int| 0 <= k < cs2.len() && cs2[k].slot == s1;
            let m = choose|m: int| 0 <= m < cs1.len() && cs1[m].slot == s2;
            if s1 != s2 {
                assert(k < cs2.len() - 1);
                assert(slot_lt(s1, s2));
                assert(m < cs1.len() - 1);
                assert(slot_lt(s2, s1));
            }
        }
        assert(entries_map(cs1.last().entries@) == entries_map(cs2.last().entries@)) by {
            assert(credits_map(cs1)[s1] == entries_map(cs1.last().entries@));
            assert(credits_map(cs2)[s1] == entries_map(cs2.last().entries@));
        }
        lemma_entries_canonical(cs1.last().entries@, cs2.last().entries@);
        assert(group_digest(cs1.last()) == group_digest(cs2.last()));
        assert(credits_map(cs1.drop_last()) =~= credits_map(cs1).remove(s1)) by {
            assert(!credits_map(cs1.drop_last()).contains_key(s1)) by {
                lemma_credits_map_chr(cs1.drop_last());
                if credits_map(cs1.drop_last()).contains_key(s1) {
                    let k = choose|k: int|
                        0 <= k < cs1.drop_last().len() && cs1.drop_last()[k].slot == s1;
                    assert(slot_lt(cs1[k].slot, s1));
                }
            }
        }
        assert(credits_map(cs2.drop_last()) =~= credits_map(cs2).remove(s1)) by {
            assert(!credits_map(cs2.drop_last()).contains_key(s1)) by {
                lemma_credits_map_chr(cs2.drop_last());
                if credits_map(cs2.drop_last()).contains_key(s1) {
                    let k = choose|k: int|
                        0 <= k < cs2.drop_last().len() && cs2.drop_last()[k].slot == s1;
                    assert(slot_lt(cs2[k].slot, s1));
                }
            }
        }
        lemma_digest_content_determined(cs1.drop_last(), cs2.drop_last());
    }
}

/// Hash order-independence: two ledgers on the final path that hold the
/// same content carry the same hash, whatever order the final-path
/// mutations that built them were applied in.
pub proof fn lemma_hash_order_independence(d1: DeferredCredits, d2: DeferredCredits)
    requires
        d1.wf(),
        d2.wf(),
        d1.hash_ok(),
        d2.hash_ok(),
        d1@ == d2@,
    ensures
        d1.hash@ == d2.hash@,
{
    lemma_digest_content_determined(d1.credits@, d2.credits@);
}

/// The ledger content after one final-path overwrite of a single credit.
pub open spec fn final_step(
    m: Map<Slot, Map<Address, Amount>>,
    s: Slot,
    a: Address,
    v: Amount,
) -> Map<Slot, Map<Address, Amount>> {
    m.insert(s, slot_map_after(m, s, a, v))
}

/// Merging a one-credit ledger is the same content change as a single
/// final-path overwrite.
pub proof fn lemma_merged_single(m: Map<Slot, Map<Address, Amount>>, s: Slot, a: Address, v: Amount)
    ensures
        merged(
            m,
            Map::<Slot, Map<Address, Amount>>::empty().insert(
                s,
                Map::<Address, Amount>::empty().insert(a, v),
            ),
        ) == final_step(m, s, a, v),
{
    let single = Map::<Slot, Map<Address, Amount>>::empty().insert(
        s,
        Map::<Address, Amount>::empty().insert(a, v),
    );
    if m.contains_key(s) {
        assert(m[s].union_prefer_right(Map::<Address, Amount>::empty().insert(a, v))
            =~= slot_map_after(m, s, a, v));
    } else {
        assert(Map::<Address, Amount>::empty().insert(a, v) =~= slot_map_after(m, s, a, v));
    }
    assert(merged(m, single) =~= final_step(m, s, a, v));
}

/// Two single-credit final-path updates at distinct positions commute:
/// applying them in either order yields the same content, and so, by
/// order independence, the same hash.
pub proof fn lemma_final_updates_commute(
    m: Map<Slot, Map<Address, Amount>>,
    s1: Slot,
    a1: Address,
    v1: Amount,
    s2: Slot,
    a2: Address,
    v2: Amount,
)
    requires
        s1 != s2 || a1 != a2,
    ensures
        final_step(final_step(m, s1, a1, v1), s2, a2, v2) == final_step(
            final_step(m, s2, a2, v2),
            s1,
            a1,
            v1,
        ),
{
    let l = final_step(final_step(m, s1, a1, v1), s2, a2, v2);
    let r = final_step(final_step(m, s2, a2, v2), s1, a1, v1);
    if s1 == s2 {
        assert(l[s1] =~= r[s1]);
        assert(l =~= r);
    } else {
        assert(l[s1] =~= r[s1]);
        assert(l[s2] =~= r[s2]);
        assert(l =~= r);
    }
}

/// Hash reversibility: overwriting a credit and then restoring its
/// original amount returns the ledger to its original content, and so,
/// by order independence, to its original hash.
pub proof fn lemma_hash_reversibility(
    m: Map<Slot, Map<Address, Amount>>,
    s: Slot,
    a: Address,
    v0: Amount,
    v1: Amount,
)
    requires
        m.contains_key(s),
        m[s].contains_key(a),
        m[s][a] == v0,
    ensures
        final_step(final_step(m, s, a, v1), s, a, v0) == m,
{
    let m1 = final_step(m, s, a, v1);
    assert(slot_map_after(m1, s, a, v0) =~= m[s]);
    assert(final_step(m1, s, a, v0) =~= m);
}

/// The ledger content after a whole batch of single-credit final-path
/// updates, applied left to right.
pub open spec fn apply_all(
    m: Map<Slot, Map<Address, Amount>>,
    us: Seq<(Slot, Address, Amount)>,
) -> Map<Slot, Map<Address, Amount>>
    decreases us.len(),
{
    if us.len() == 0 {
        m
    } else {
        final_step(apply_all(m, us.drop_last()), us.last().0, us.last().1, us.last().2)
    }
}

/// The batch touches pairwise distinct (slot, address) positions.
pub open spec fn distinct_updates(us: Seq<(Slot, Address, Amount)>) -> bool {
    forall|i: int, j: int|
        0 <= i < j < us.len() ==> ((#[trigger] us[i]).0 != (#[trigger] us[j]).0 || us[i].1
            != us[j].1)
}

/// An update whose position differs from every later one can be moved
/// to the end of the batch without changing the outcome.
proof fn lemma_apply_all_move_to_end(
    m: Map<Slot, Map<Address, Amount>>,
    us: Seq<(Slot, Address, Amount)>,
    k: int,
)
    requires
        0 <= k < us.len(),
        forall|j: int|
            k < j < us.len() ==> ((#[trigger] us[j]).0 != us[k].0 || us[j].1 != us[k].1),
    ensures
        apply_all(m, us) == apply_all(m, us.remove(k).push(us[k])),
    decreases us.len(),
{
    if k == us.len() - 1 {
        assert(us.remove(k).push(us[k]) =~= us);
    } else {
        let u = us[k];
        let last = us.last();
        let dl = us.drop_last();
        assert(dl[k] == u);
        lemma_apply_all_move_to_end(m, dl, k);
        let x = dl.remove(k);
        assert(dl.remove(k).push(u).drop_last() =~= x);
        assert(dl.remove(k).push(u).last() == u);
        assert(apply_all(m, dl) == final_step(apply_all(m, x), u.0, u.1, u.2));
        lemma_final_updates_commute(apply_all(m, x), u.0, u.1, u.2, last.0, last.1, last.2);
        assert(us.remove(k).drop_last() =~= x);
        assert(us.remove(k).last() == last);
        assert(apply_all(m, us.remove(k)) == final_step(apply_all(m, x), last.0, last.1, last.2));
        assert(us.remove(k).push(u).drop_last() =~= us.remove(k));
        assert(us.remove(k).push(u).last() == u);
    }
}

/// Hash order-independence, permutation form: a batch of final-path
/// updates at pairwise distinct positions yields the same ledger
/// content in whatever order it is applied — and so, the hash being a
/// function of the content alone, the same hash.
pub proof fn lemma_apply_all_permutation(
    m: Map<Slot, Map<Address, Amount>>,
    us1: Seq<(Slot, Address, Amount)>,
    us2: Seq<(Slot, Address, Amount)>,
)
    requires
        distinct_updates(us1),
        distinct_updates(us2),
        us1.to_multiset() == us2.to_multiset(),
    ensures
        apply_all(m, us1) == apply_all(m, us2),
    decreases us1.len(),
{
    broadcast use vstd::seq_lib::group_to_multiset_ensures;

    if us1.len() == 0 {
        assert(us1.to_multiset().len() == us1.len());
        assert(us2.to_multiset().len() == us2.len());
        assert(us2.len() == 0);
        assert(us1 =~= us2);
    } else {
        let u = us1.last();
        assert(us1[us1.len() - 1] == u);
        assert(us1.contains(u));
        assert(us2.to_multiset().count(u) > 0);
        assert(us2.contains(u));
        let k = choose|k: int| 0 <= k < us2.len() && us2[k] == u;
        assert forall|j: int|
            k < j < us2.len() implies ((#[trigger] us2[j]).0 != us2[k].0 || us2[j].1
            != us2[k].1) by {
            assert(us2[k].0 != us2[j].0 || us2[k].1 != us2[j].1);
        }
        lemma_apply_all_move_to_end(m, us2, k);
        let us2r = us2.remove(k);
        assert(us2r.push(u).drop_last() =~= us2r);
        assert(us2r.push(u).last() == u);
        assert(apply_all(m, us2.remove(k).push(u)) == final_step(
            apply_all(m, us2r),
            u.0,
            u.1,
            u.2,
        ));
        assert(us1.drop_last().to_multiset() =~= us2r.to_multiset()) by {
            assert(us1.drop_last().push(u) =~= us1);
            assert(us1.drop_last().push(u).to_multiset() =~= us1.drop_last().to_multiset().insert(
                u,
            ));
            assert(us2r.to_multiset() =~= us2.to_multiset().remove(u));
            assert(us1.drop_last().to_multiset().insert(u).remove(u) =~= us1.drop_last().to_multiset());
        }
        assert(distinct_updates(us1.drop_last())) by {
            assert(forall|i: int|
                0 <= i < us1.drop_last().len() ==> us1.drop_last()[i] == us1[i]);
        }
        assert(distinct_updates(us2r)) by {
            assert forall|i: int, j: int|
                0 <= i < j < us2r.len() implies ((#[trigger] us2r[i]).0 != (#[trigger] us2r[j]).0
                || us2r[i].1 != us2r[j].1) by {
                let i0 = if i < k { i } else { i + 1 };
                let j0 = if j < k { j } else { j + 1 };
                assert(us2r[i] == us2[i0] && us2r[j] == us2[j0]);
                assert(us2[i0].0 != us2[j0].0 || us2[i0].1 != us2[j0].1);
            }
        }
        lemma_apply_all_permutation(m, us1.drop_last(), us2r);
    }
}

/// Zero pruning leaves no empty slot and no zero amount behind.
pub proof fn lemma_zero_pruning(m: Map<Slot, Map<Address, Amount>>)
    ensures
        forall|s: Slot|
            #[trigger] pruned(m).contains_key(s) ==> exists|a: Address|
                pruned(m)[s].contains_key(a),
        forall|s: Slot, a: Address|
            pruned(m).contains_key(s) && #[trigger] pruned(m)[s].contains_key(a) ==> pruned(
                m,
            )[s][a].raw != 0,
{
    assert forall|s: Slot| #[trigger] pruned(m).contains_key(s) implies exists|a: Address|
        pruned(m)[s].contains_key(a) by {
        let a = choose|a: Address| nonzero_filter(m[s]).contains_key(a);
        assert(pruned(m)[s].contains_key(a));
    }
}

} // verus!
