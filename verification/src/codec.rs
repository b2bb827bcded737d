//! Canonical binary codec for the deferred-credit ledger: the on-the-wire
//! and on-disk representation. The encoding is a slot count followed, in
//! ascending slot order, by each slot and its credit list; the decoder
//! enforces the caller's bounds and the canonical ordering.
use vstd::prelude::*;
use crate::types::{Slot, Address, Amount, slot_lt};
use crate::encoding::{
    varint_enc, varint_dec, slot_enc, credit_enc, write_varint, read_varint,
    lemma_varint_round_trip,
};
use crate::credits::{
    CreditEntry, SlotCredits, DeferredCredits, credits_wf, entries_map, credits_map,
    slot_map_after,
};
use crate::hashing::{Digest, zero32};

verus! {

/// Encoding of a credit list, front to back.
pub open spec fn entries_enc(es: Seq<CreditEntry>) -> Seq<u8>
    decreases es.len(),
{
    if es.len() == 0 {
        Seq::empty()
    } else {
        entries_enc(es.drop_last()) + credit_enc(es.last().addr, es.last().amount)
    }
}

/// Encoding of one slot group: the slot, the credit count, the credits.
pub open spec fn group_enc(g: SlotCredits) -> Seq<u8> {
    slot_enc(g.slot) + varint_enc(g.entries@.len() as u64) + entries_enc(g.entries@)
}

/// Encoding of the group list, front to back.
pub open spec fn groups_enc(cs: Seq<SlotCredits>) -> Seq<u8>
    decreases cs.len(),
{
    if cs.len() == 0 {
        Seq::empty()
    } else {
        groups_enc(cs.drop_last()) + group_enc(cs.last())
    }
}

/// Encoding of the whole ledger: the slot count, then the groups.
pub open spec fn ledger_enc(cs: Seq<SlotCredits>) -> Seq<u8> {
    varint_enc(cs.len() as u64) + groups_enc(cs)
}

/// Serializer for one slot's credit list.
pub struct CreditsSerializer {}

impl Default for CreditsSerializer {
    /// Same as `new`.
    fn default() -> (r: Self)
        ensures
            r == (CreditsSerializer {  }),
    {
        CreditsSerializer {  }
    }
}

impl CreditsSerializer {
    /// Creates a credit-list serializer.
    pub fn new() -> (r: Self)
        ensures
            r == (CreditsSerializer {  }),
    {
        CreditsSerializer {  }
    }

    /// Appends the count and the credits of one slot to `buffer`.
    pub fn serialize(&self, entries: &Vec<CreditEntry>, buffer: &mut Vec<u8>)
        ensures
            final(buffer)@ == old(buffer)@ + varint_enc(entries@.len() as u64) + entries_enc(
                entries@,
            ),
    {
        write_varint(entries.len() as u64, buffer);
        let ghost base = buffer@;
        let mut j: usize = 0;
        while j < entries.len()
            invariant
                j <= entries@.len(),
                buffer@ == base + entries_enc(entries@.take(j as int)),
            decreases entries@.len() - j,
        {
            proof {
                assert(entries_enc(entries@.take(0)) =~= Seq::<u8>::empty());
            }
            let e = entries[j];
            let enc = crate::encoding::encode_credit(&e.addr, &e.amount);
            let mut k: usize = 0;
            while k < enc.len()
                invariant
                    k <= enc@.len(),
                    buffer@ == base + entries_enc(entries@.take(j as int)) + enc@.take(k as int),
                decreases enc@.len() - k,
            {
                let b = enc[k];
                buffer.push(b);
                proof {
                    assert(enc@.take(k as int) + seq![b] =~= enc@.take(k + 1));
                    assert((base + entries_enc(entries@.take(j as int)) + enc@.take(k as int)).push(
                        b,
                    ) =~= base + entries_enc(entries@.take(j as int)) + enc@.take(k + 1));
                }
                k += 1;
            }
            proof {
                assert(enc@.take(enc@.len() as int) =~= enc@);
                assert(entries@.take(j as int + 1).drop_last() =~= entries@.take(j as int));
                assert(entries@.take(j as int + 1).last() == entries@[j as int]);
                assert(entries_enc(entries@.take(j as int + 1)) == entries_enc(
                    entries@.take(j as int),
                ) + credit_enc(e.addr, e.amount));
                assert(base + entries_enc(entries@.take(j as int)) + enc@ =~= base + entries_enc(
                    entries@.take(j as int + 1),
                ));
            }
            j += 1;
        }
        proof {
            if entries@.len() == 0 {
                assert(entries_enc(entries@.take(0)) =~= Seq::<u8>::empty());
                assert(buffer@ =~= base + entries_enc(entries@));
            }
            assert(entries@.take(entries@.len() as int) =~= entries@);
            assert(base =~= old(buffer)@ + varint_enc(entries@.len() as u64));
            assert(buffer@ =~= old(buffer)@ + varint_enc(entries@.len() as u64) + entries_enc(
                entries@,
            ));
        }
    }
}

/// Serializer for the whole ledger.
pub struct DeferredCreditsSerializer {
    pub credits_ser: CreditsSerializer,
}

impl Default for DeferredCreditsSerializer {
    /// Same as `new`.
    fn default() -> (r: Self)
        ensures
            r == (DeferredCreditsSerializer { credits_ser: CreditsSerializer {  } }),
    {
        Self::new()
    }
}

impl DeferredCreditsSerializer {
    /// Creates a ledger serializer.
    pub fn new() -> (r: Self)
        ensures
            r == (DeferredCreditsSerializer { credits_ser: CreditsSerializer {  } }),
    {
        DeferredCreditsSerializer { credits_ser: CreditsSerializer::new() }
    }

    /// Appends the canonical encoding of `value` to `buffer`.
    pub fn serialize(&self, value: &DeferredCredits, buffer: &mut Vec<u8>)
        ensures
            final(buffer)@ == old(buffer)@ + ledger_enc(value.credits@),
    {
        write_varint(value.credits.len() as u64, buffer);
        let ghost base = buffer@;
        let mut i: usize = 0;
        while i < value.credits.len()
            invariant
                i <= value.credits@.len(),
                buffer@ == base + groups_enc(value.credits@.take(i as int)),
            decreases value.credits@.len() - i,
        {
            proof {
                assert(groups_enc(value.credits@.take(0)) =~= Seq::<u8>::empty());
            }
            let ghost before = buffer@;
            let slot_bytes = crate::encoding::encode_slot(&value.credits[i].slot);
            let mut k: usize = 0;
            while k < slot_bytes.len()
                invariant
                    k <= slot_bytes@.len(),
                    buffer@ == before + slot_bytes@.take(k as int),
                decreases slot_bytes@.len() - k,
            {
                let b = slot_bytes[k];
                buffer.push(b);
                proof {
                    assert(slot_bytes@.take(k as int) + seq![b] =~= slot_bytes@.take(k + 1));
                    assert((before + slot_bytes@.take(k as int)).push(b) =~= before
                        + slot_bytes@.take(k + 1));
                }
                k += 1;
            }
            proof {
                assert(slot_bytes@.take(slot_bytes@.len() as int) =~= slot_bytes@);
            }
            self.credits_ser.serialize(&value.credits[i].entries, buffer);
            proof {
                let g = value.credits@[i as int];
                assert(value.credits@.take(i as int + 1).drop_last() =~= value.credits@.take(
                    i as int,
                ));
                assert(value.credits@.take(i as int + 1).last() == g);
                assert(groups_enc(value.credits@.take(i as int + 1)) == groups_enc(
                    value.credits@.take(i as int),
                ) + group_enc(g));
                assert(buffer@ =~= base + groups_enc(value.credits@.take(i as int + 1)));
            }
            i += 1;
        }
        proof {
            if value.credits@.len() == 0 {
                assert(groups_enc(value.credits@.take(0)) =~= Seq::<u8>::empty());
                assert(buffer@ =~= base + groups_enc(value.credits@));
            }
            assert(value.credits@.take(value.credits@.len() as int) =~= value.credits@);
            assert(buffer@ =~= old(buffer)@ + ledger_enc(value.credits@));
        }
    }
}


/// Decoding failure causes.
#[derive(Clone, Copy, PartialEq, Eq, Structural, Debug)]
pub enum DeserializeError {
    /// Truncated input or malformed varint.
    Malformed,
    /// A count above the configured maximum.
    BoundExceeded,
    /// A slot whose thread is out of range.
    InvalidThread,
}

/// Parse of one credit: address varint, then amount varint.
pub open spec fn credit_dec(s: Seq<u8>) -> Option<(CreditEntry, int)> {
    match varint_dec(s) {
        Option::None => Option::None,
        Option::Some((av, p1)) => match varint_dec(s.skip(p1)) {
            Option::None => Option::None,
            Option::Some((mv, p2)) => Option::Some(
                (CreditEntry { addr: Address { val: av }, amount: Amount { raw: mv } }, p1 + p2),
            ),
        },
    }
}

/// Parse of `n` credits, in whatever order the peer wrote them.
pub open spec fn entries_dec(s: Seq<u8>, n: nat) -> Option<(Seq<CreditEntry>, int)>
    decreases n,
{
    if n == 0 {
        Option::Some((Seq::empty(), 0))
    } else {
        match credit_dec(s) {
            Option::None => Option::None,
            Option::Some((e, p)) => match entries_dec(s.skip(p), (n - 1) as nat) {
                Option::None => Option::None,
                Option::Some((es, q)) => Option::Some((seq![e] + es, p + q)),
            },
        }
    }
}

/// Parse of one slot's credit segment: a count within the bound, then
/// that many credits.
pub open spec fn seg_dec(s: Seq<u8>, maxc: u64) -> Option<(Seq<CreditEntry>, int)> {
    match varint_dec(s) {
        Option::None => Option::None,
        Option::Some((cnt, p)) => if cnt > maxc {
            Option::None
        } else {
            match entries_dec(s.skip(p), cnt as nat) {
                Option::None => Option::None,
                Option::Some((es, q)) => Option::Some((es, p + q)),
            }
        },
    }
}

/// Parse of a slot: period varint, then the thread byte, which must be
/// below the thread count.
pub open spec fn slot_dec(s: Seq<u8>, tc: u8) -> Option<(Slot, int)> {
    match varint_dec(s) {
        Option::None => Option::None,
        Option::Some((period, p)) => if p < s.len() && s[p] < tc {
            Option::Some((Slot { period, thread: s[p] }, p + 1))
        } else {
            Option::None
        },
    }
}

/// Parse of one slot group: the slot, then its credit segment.
pub open spec fn group_dec(s: Seq<u8>, tc: u8, maxc: u64) -> Option<((Slot, Seq<CreditEntry>), int)> {
    match slot_dec(s, tc) {
        Option::None => Option::None,
        Option::Some((sl, p1)) => match seg_dec(s.skip(p1), maxc) {
            Option::None => Option::None,
            Option::Some((es, p2)) => Option::Some(((sl, es), p1 + p2)),
        },
    }
}

/// Parse of `n` slot groups, in wire order.
pub open spec fn groups_dec(s: Seq<u8>, n: nat, tc: u8, maxc: u64) -> Option<
    (Seq<(Slot, Seq<CreditEntry>)>, int),
>
    decreases n,
{
    if n == 0 {
        Option::Some((Seq::empty(), 0))
    } else {
        match group_dec(s, tc, maxc) {
            Option::None => Option::None,
            Option::Some((g, p)) => match groups_dec(s.skip(p), (n - 1) as nat, tc, maxc) {
                Option::None => Option::None,
                Option::Some((gs, q)) => Option::Some((seq![g] + gs, p + q)),
            },
        }
    }
}

/// Parse of a whole ledger: the slot count within the bound, then the
/// groups.
pub open spec fn ledger_dec(s: Seq<u8>, tc: u8, maxc: u64) -> Option<
    (Seq<(Slot, Seq<CreditEntry>)>, int),
> {
    match varint_dec(s) {
        Option::None => Option::None,
        Option::Some((n, p)) => if n > maxc {
            Option::None
        } else {
            match groups_dec(s.skip(p), n as nat, tc, maxc) {
                Option::None => Option::None,
                Option::Some((gs, q)) => Option::Some((gs, p + q)),
            }
        },
    }
}

/// The ledger content a parsed pair list stands for: later pairs
/// override earlier ones whole, within a pair the last credit for an
/// address wins, and a pair with no credits leaves its slot without
/// any.
pub open spec fn pairs_view(ps: Seq<(Slot, Seq<CreditEntry>)>) -> Map<Slot, Map<Address, Amount>>
    decreases ps.len(),
{
    if ps.len() == 0 {
        Map::empty()
    } else if ps.last().1.len() == 0 {
        pairs_view(ps.drop_last()).remove(ps.last().0)
    } else {
        pairs_view(ps.drop_last()).insert(ps.last().0, entries_map(ps.last().1))
    }
}

/// Reads one credit segment (count, then credits) from `buffer` at
/// `pos`, enforcing the count bound.
fn parse_credits_segment(buffer: &Vec<u8>, pos: usize, maxc: u64) -> (r: Result<
    (Vec<CreditEntry>, usize),
    DeserializeError,
>)
    requires
        pos <= buffer@.len(),
    ensures
        match r {
            Ok(p) => match seg_dec(buffer@.skip(pos as int), maxc) {
                Option::Some(d) => {
                    &&& p.0@ == d.0
                    &&& p.1 == pos + d.1
                    &&& pos < p.1 <= buffer@.len()
                    &&& p.0@.len() <= maxc
                },
                Option::None => false,
            },
            Err(_) => seg_dec(buffer@.skip(pos as int), maxc) is None,
        },
{
    let cnt_r = read_varint(buffer, pos);
    match cnt_r {
        None => Err(DeserializeError::Malformed),
        Some((cnt, pos1)) => {
            if cnt > maxc {
                return Err(DeserializeError::BoundExceeded);
            }
            let mut entries: Vec<CreditEntry> = Vec::new();
            let mut p: usize = pos1;
            let mut i: u64 = 0;
            while i < cnt
                invariant
                    i <= cnt,
                    cnt <= maxc,
                    pos < pos1,
                    pos1 <= p <= buffer@.len(),
                    entries@.len() == i,
                    varint_dec(buffer@.skip(pos as int)) == Option::Some((cnt, pos1 - pos)),
                    match entries_dec(buffer@.skip(p as int), (cnt - i) as nat) {
                        Option::None => entries_dec(
                            buffer@.skip(pos1 as int),
                            cnt as nat,
                        ) is None,
                        Option::Some(d) => entries_dec(buffer@.skip(pos1 as int), cnt as nat)
                            == Option::Some((entries@ + d.0, (p - pos1) + d.1)),
                    },
                decreases cnt - i,
            {
                let ghost e0 = entries@;
                let ghost p0 = p;
                let av_r = read_varint(buffer, p);
                match av_r {
                    None => {
                        proof {
                            assert(credit_dec(buffer@.skip(p as int)) is None);
                            assert(entries_dec(buffer@.skip(p as int), (cnt - i) as nat) is None);
                            assert(buffer@.skip(pos as int).skip(pos1 - pos) =~= buffer@.skip(
                                pos1 as int,
                            ));
                        }
                        return Err(DeserializeError::Malformed);
                    },
                    Some((av, pa)) => {
                        let mv_r = read_varint(buffer, pa);
                        match mv_r {
                            None => {
                                proof {
                                    assert(buffer@.skip(p as int).skip(pa - p) =~= buffer@.skip(
                                        pa as int,
                                    ));
                                    assert(credit_dec(buffer@.skip(p as int)) is None);
                                    assert(entries_dec(
                                        buffer@.skip(p as int),
                                        (cnt - i) as nat,
                                    ) is None);
                                    assert(buffer@.skip(pos as int).skip(pos1 - pos)
                                        =~= buffer@.skip(pos1 as int));
                                }
                                return Err(DeserializeError::Malformed);
                            },
                            Some((mv, pb)) => {
                                let e = CreditEntry {
                                    addr: Address { val: av },
                                    amount: Amount { raw: mv },
                                };
                                proof {
                                    assert(buffer@.skip(p as int).skip(pa - p) =~= buffer@.skip(
                                        pa as int,
                                    ));
                                    assert(credit_dec(buffer@.skip(p as int)) == Option::Some(
                                        (e, pb - p),
                                    ));
                                }
                                entries.push(e);
                                proof {
                                    assert(buffer@.skip(p0 as int).skip(pb - p0) =~= buffer@.skip(
                                        pb as int,
                                    ));
                                    match entries_dec(buffer@.skip(pb as int), (cnt - i - 1) as nat) {
                                        Option::None => {
                                            assert(entries_dec(
                                                buffer@.skip(p0 as int),
                                                (cnt - i) as nat,
                                            ) is None);
                                        },
                                        Option::Some(d) => {
                                            assert(entries_dec(
                                                buffer@.skip(p0 as int),
                                                (cnt - i) as nat,
                                            ) == Option::Some((seq![e] + d.0, (pb - p0) + d.1)));
                                            assert(e0 + (seq![e] + d.0) =~= entries@ + d.0);
                                        },
                                    }
                                }
                                p = pb;
                                i = i + 1;
                            },
                        }
                    },
                }
            }
            proof {
                assert(entries_dec(buffer@.skip(p as int), 0) == Option::Some(
                    (Seq::<CreditEntry>::empty(), 0int),
                ));
                assert(entries@ + Seq::<CreditEntry>::empty() =~= entries@);
                assert(buffer@.skip(pos as int).skip(pos1 - pos) =~= buffer@.skip(pos1 as int));
            }
            Ok((entries, p))
        },
    }
}

/// Reads one slot group from `buffer` at `pos`, enforcing the thread
/// bound and the credit-segment rules.
fn parse_group(buffer: &Vec<u8>, pos: usize, tc: u8, maxc: u64) -> (r: Result<
    (Slot, Vec<CreditEntry>, usize),
    DeserializeError,
>)
    requires
        pos <= buffer@.len(),
    ensures
        match r {
            Ok(p) => match group_dec(buffer@.skip(pos as int), tc, maxc) {
                Option::Some(d) => {
                    &&& d.0.0 == p.0
                    &&& d.0.1 == p.1@
                    &&& p.2 == pos + d.1
                    &&& pos < p.2 <= buffer@.len()
                    &&& p.1@.len() <= maxc
                },
                Option::None => false,
            },
            Err(_) => group_dec(buffer@.skip(pos as int), tc, maxc) is None,
        },
{
    let pd_r = read_varint(buffer, pos);
    match pd_r {
        None => Err(DeserializeError::Malformed),
        Some((period, pa)) => {
            if pa == buffer.len() {
                proof {
                    assert(slot_dec(buffer@.skip(pos as int), tc) is None);
                }
                return Err(DeserializeError::Malformed);
            }
            let thread = buffer[pa];
            proof {
                assert(buffer@.skip(pos as int)[pa - pos] == buffer@[pa as int]);
            }
            if thread >= tc {
                proof {
                    assert(slot_dec(buffer@.skip(pos as int), tc) is None);
                }
                return Err(DeserializeError::InvalidThread);
            }
            let sl = Slot { period, thread };
            proof {
                assert(slot_dec(buffer@.skip(pos as int), tc) == Option::Some((sl, pa + 1 - pos)));
                assert(buffer@.skip(pos as int).skip(pa + 1 - pos) =~= buffer@.skip(pa + 1 as int));
            }
            match parse_credits_segment(buffer, pa + 1, maxc) {
                Err(e) => Err(e),
                Ok((entries, pb)) => Ok((sl, entries, pb)),
            }
        },
    }
}

/// Deserializer for the whole ledger, configured with the caller's
/// thread count and maximum slot / per-slot credit count.
pub struct DeferredCreditsDeserializer {
    pub thread_count: u8,
    pub max_credits_length: u64,
}

impl DeferredCreditsDeserializer {
    /// Creates a ledger deserializer with the given bounds.
    pub fn new(thread_count: u8, max_credits_length: u64) -> (r: DeferredCreditsDeserializer)
        ensures
            r.thread_count == thread_count,
            r.max_credits_length == max_credits_length,
    {
        DeferredCreditsDeserializer { thread_count, max_credits_length }
    }

    /// Decodes a ledger from the front of `buffer`, returning it with
    /// the number of bytes consumed. Slots and addresses may arrive in
    /// any order and duplicated: a later slot group replaces the
    /// earlier one whole, a later credit for an address overrides the
    /// earlier one. The decoded ledger's hash is reset to the empty
    /// baseline: restoring the true hash is the caller's
    /// responsibility. Fails exactly where the bytes are malformed or a
    /// count or thread bound is broken.
    #[verifier::rlimit(100)]
    pub fn deserialize(&self, buffer: &Vec<u8>) -> (r: Result<
        (DeferredCredits, usize),
        DeserializeError,
    >)
        ensures
            match r {
                Ok(p) => match ledger_dec(buffer@, self.thread_count, self.max_credits_length) {
                    Option::Some(d) => {
                        &&& p.0@ == pairs_view(d.0)
                        &&& p.1 == d.1
                        &&& p.1 <= buffer@.len()
                        &&& p.0.wf()
                        &&& p.0.hash@ == zero32()
                    },
                    Option::None => false,
                },
                Err(_) => ledger_dec(buffer@, self.thread_count, self.max_credits_length) is None,
            },
    {
        let tc = self.thread_count;
        let maxc = self.max_credits_length;
        let n_r = read_varint(buffer, 0);
        match n_r {
            None => {
                proof {
                    assert(buffer@.skip(0) =~= buffer@);
                }
                Err(DeserializeError::Malformed)
            },
            Some((n, pos1)) => {
                proof {
                    assert(buffer@.skip(0) =~= buffer@);
                }
                if n > maxc {
                    return Err(DeserializeError::BoundExceeded);
                }
                let mut d = DeferredCredits::default();
                let ghost mut done: Seq<(Slot, Seq<CreditEntry>)> = Seq::empty();
                let mut pos: usize = pos1;
                let mut i: u64 = 0;
                proof {
                    assert(pairs_view(done) =~= Map::<Slot, Map<Address, Amount>>::empty());
                }
                while i < n
                    invariant
                        tc == self.thread_count,
                        maxc == self.max_credits_length,
                        i <= n,
                        n <= maxc,
                        0 < pos1 <= pos <= buffer@.len(),
                        varint_dec(buffer@) == Option::Some((n, pos1 as int)),
                        d.wf(),
                        d.hash@ == zero32(),
                        d@ == pairs_view(done),
                        match groups_dec(buffer@.skip(pos as int), (n - i) as nat, tc, maxc) {
                            Option::None => groups_dec(
                                buffer@.skip(pos1 as int),
                                n as nat,
                                tc,
                                maxc,
                            ) is None,
                            Option::Some(dd) => groups_dec(
                                buffer@.skip(pos1 as int),
                                n as nat,
                                tc,
                                maxc,
                            ) == Option::Some((done + dd.0, (pos - pos1) + dd.1)),
                        },
                    decreases n - i,
                {
                    let ghost p0 = pos;
                    let ghost done0 = done;
                    match parse_group(buffer, pos, tc, maxc) {
                        Err(e) => {
                            proof {
                                assert(groups_dec(
                                    buffer@.skip(pos as int),
                                    (n - i) as nat,
                                    tc,
                                    maxc,
                                ) is None);
                                assert(ledger_dec(buffer@, tc, maxc) is None);
                            }
                            return Err(e);
                        },
                        Ok((sl, raw, pb)) => {
                            let ghost prev = d@;
                            d.remove_slot(sl);
                            let ghost mid = d@;
                            let mut j: usize = 0;
                            while j < raw.len()
                                invariant
                                    j <= raw@.len(),
                                    d.wf(),
                                    d.hash@ == zero32(),
                                    mid == prev.remove(sl),
                                    !mid.contains_key(sl),
                                    j == 0 ==> d@ == mid,
                                    j > 0 ==> d@ == mid.insert(
                                        sl,
                                        entries_map(raw@.take(j as int)),
                                    ),
                                decreases raw@.len() - j,
                            {
                                let e = raw[j];
                                let ghost dprev = d@;
                                d.insert(e.addr, sl, e.amount);
                                proof {
                                    assert(raw@.take(j as int + 1).drop_last() =~= raw@.take(
                                        j as int,
                                    ));
                                    assert(raw@.take(j as int + 1).last() == raw@[j as int]);
                                    if j == 0 {
                                        assert(raw@.take(0) =~= Seq::<CreditEntry>::empty());
                                        assert(entries_map(raw@.take(0)) =~= Map::<
                                            Address,
                                            Amount,
                                        >::empty());
                                        assert(entries_map(raw@.take(1)) == entries_map(
                                            raw@.take(0),
                                        ).insert(e.addr, e.amount));
                                        assert(slot_map_after(dprev, sl, e.addr, e.amount)
                                            =~= entries_map(raw@.take(1)));
                                    } else {
                                        assert(dprev[sl] == entries_map(raw@.take(j as int)));
                                        assert(slot_map_after(dprev, sl, e.addr, e.amount)
                                            == entries_map(raw@.take(j as int)).insert(
                                            e.addr,
                                            e.amount,
                                        ));
                                        assert(d@ =~= mid.insert(
                                            sl,
                                            entries_map(raw@.take(j as int + 1)),
                                        ));
                                    }
                                }
                                j += 1;
                            }
                            proof {
                                assert(raw@.take(raw@.len() as int) =~= raw@);
                                let newdone = done0.push((sl, raw@));
                                assert(newdone.drop_last() =~= done0);
                                assert(newdone.last() == (sl, raw@));
                                if raw@.len() == 0 {
                                    assert(pairs_view(newdone) == pairs_view(done0).remove(sl));
                                    assert(d@ == pairs_view(newdone));
                                } else {
                                    assert(pairs_view(newdone) == pairs_view(done0).insert(
                                        sl,
                                        entries_map(raw@),
                                    ));
                                    assert(prev.remove(sl).insert(sl, entries_map(raw@))
                                        =~= prev.insert(sl, entries_map(raw@)));
                                    assert(d@ == pairs_view(newdone));
                                }
                                done = newdone;
                                assert(buffer@.skip(p0 as int).skip(pb - p0) =~= buffer@.skip(
                                    pb as int,
                                ));
                                match groups_dec(buffer@.skip(pb as int), (n - i - 1) as nat, tc, maxc) {
                                    Option::None => {
                                        assert(groups_dec(
                                            buffer@.skip(p0 as int),
                                            (n - i) as nat,
                                            tc,
                                            maxc,
                                        ) is None);
                                    },
                                    Option::Some(dd) => {
                                        assert(groups_dec(
                                            buffer@.skip(p0 as int),
                                            (n - i) as nat,
                                            tc,
                                            maxc,
                                        ) == Option::Some(
                                            (seq![(sl, raw@)] + dd.0, (pb - p0) + dd.1),
                                        ));
                                        assert(done0 + (seq![(sl, raw@)] + dd.0) =~= done + dd.0);
                                    },
                                }
                            }
                            pos = pb;
                            i = i + 1;
                        },
                    }
                }
                proof {
                    assert(groups_dec(buffer@.skip(pos as int), 0, tc, maxc) == Option::Some(
                        (Seq::<(Slot, Seq<CreditEntry>)>::empty(), 0int),
                    ));
                    assert(done + Seq::<(Slot, Seq<CreditEntry>)>::empty() =~= done);
                }
                Ok((d, pos))
            },
        }
    }
}

/// The parsed-pair list a group sequence stands for.
pub open spec fn pairs_of(cs: Seq<SlotCredits>) -> Seq<(Slot, Seq<CreditEntry>)> {
    Seq::new(cs.len(), |k: int| (cs[k].slot, cs[k].entries@))
}

/// The ledger fits the decoder's configured bounds.
pub open spec fn within_bounds(cs: Seq<SlotCredits>, tc: u8, maxc: u64) -> bool {
    &&& cs.len() <= maxc
    &&& forall|k: int|
        0 <= k < cs.len() ==> (#[trigger] cs[k]).entries@.len() <= maxc && cs[k].slot.thread < tc
}

/// The pair list of a well-formed group sequence stands for exactly
/// that sequence's content.
pub proof fn lemma_pairs_view_canonical(cs: Seq<SlotCredits>)
    requires
        credits_wf(cs),
    ensures
        pairs_view(pairs_of(cs)) == credits_map(cs),
    decreases cs.len(),
{
    if cs.len() == 0 {
        assert(pairs_of(cs) =~= Seq::<(Slot, Seq<CreditEntry>)>::empty());
        assert(pairs_view(pairs_of(cs)) =~= credits_map(cs));
    } else {
        assert(pairs_of(cs).drop_last() =~= pairs_of(cs.drop_last()));
        assert(pairs_of(cs).last() == (cs.last().slot, cs.last().entries@));
        assert(cs.last().entries@.len() > 0);
        lemma_pairs_view_canonical(cs.drop_last());
        assert(pairs_view(pairs_of(cs)) == pairs_view(pairs_of(cs.drop_last())).insert(
            cs.last().slot,
            entries_map(cs.last().entries@),
        ));
    }
}

/// The credit-list encoding peels off its first credit.
proof fn lemma_entries_enc_front(es: Seq<CreditEntry>)
    requires
        es.len() > 0,
    ensures
        entries_enc(es) == credit_enc(es[0].addr, es[0].amount) + entries_enc(es.skip(1)),
    decreases es.len(),
{
    if es.len() == 1 {
        assert(es.drop_last() =~= Seq::<CreditEntry>::empty());
        assert(entries_enc(es.drop_last()) == Seq::<u8>::empty());
        assert(es.skip(1) =~= Seq::<CreditEntry>::empty());
        assert(Seq::<u8>::empty() + credit_enc(es.last().addr, es.last().amount) =~= credit_enc(
            es[0].addr,
            es[0].amount,
        ) + Seq::<u8>::empty());
    } else {
        lemma_entries_enc_front(es.drop_last());
        assert(es.drop_last()[0] == es[0]);
        assert(es.skip(1).drop_last() =~= es.drop_last().skip(1));
        assert(es.skip(1).last() == es.last());
        assert(entries_enc(es.skip(1)) == entries_enc(es.drop_last().skip(1)) + credit_enc(
            es.last().addr,
            es.last().amount,
        ));
        assert((credit_enc(es[0].addr, es[0].amount) + entries_enc(es.drop_last().skip(1)))
            + credit_enc(es.last().addr, es.last().amount) =~= credit_enc(es[0].addr, es[0].amount)
            + (entries_enc(es.drop_last().skip(1)) + credit_enc(es.last().addr, es.last().amount)));
    }
}

/// The group-list encoding peels off its first group.
proof fn lemma_groups_enc_front(cs: Seq<SlotCredits>)
    requires
        cs.len() > 0,
    ensures
        groups_enc(cs) == group_enc(cs[0]) + groups_enc(cs.skip(1)),
    decreases cs.len(),
{
    if cs.len() == 1 {
        assert(cs.drop_last() =~= Seq::<SlotCredits>::empty());
        assert(groups_enc(cs.drop_last()) == Seq::<u8>::empty());
        assert(cs.skip(1) =~= Seq::<SlotCredits>::empty());
        assert(Seq::<u8>::empty() + group_enc(cs.last()) =~= group_enc(cs[0])
            + Seq::<u8>::empty());
    } else {
        lemma_groups_enc_front(cs.drop_last());
        assert(cs.drop_last()[0] == cs[0]);
        assert(cs.skip(1).drop_last() =~= cs.drop_last().skip(1));
        assert(cs.skip(1).last() == cs.last());
        assert(groups_enc(cs.skip(1)) == groups_enc(cs.drop_last().skip(1)) + group_enc(
            cs.last(),
        ));
        assert((group_enc(cs[0]) + groups_enc(cs.drop_last().skip(1))) + group_enc(cs.last())
            =~= group_enc(cs[0]) + (groups_enc(cs.drop_last().skip(1)) + group_enc(cs.last())));
    }
}

/// Decoding an encoded credit, whatever follows, yields it back.
proof fn lemma_credit_enc_dec(e: CreditEntry, rest: Seq<u8>)
    ensures
        credit_dec(credit_enc(e.addr, e.amount) + rest) == Option::Some(
            (e, credit_enc(e.addr, e.amount).len() as int),
        ),
{
    let s = credit_enc(e.addr, e.amount) + rest;
    assert(s =~= varint_enc(e.addr.val) + (varint_enc(e.amount.raw) + rest));
    lemma_varint_round_trip(e.addr.val, varint_enc(e.amount.raw) + rest);
    let p1 = varint_enc(e.addr.val).len() as int;
    assert(s.skip(p1) =~= varint_enc(e.amount.raw) + rest);
    lemma_varint_round_trip(e.amount.raw, rest);
    assert(CreditEntry { addr: Address { val: e.addr.val }, amount: Amount { raw: e.amount.raw } }
        == e);
}

/// Decoding an encoded credit list yields it back.
proof fn lemma_entries_dec_rt(es: Seq<CreditEntry>, rest: Seq<u8>)
    ensures
        entries_dec(entries_enc(es) + rest, es.len()) == Option::Some(
            (es, entries_enc(es).len() as int),
        ),
    decreases es.len(),
{
    if es.len() == 0 {
        assert(es =~= Seq::<CreditEntry>::empty());
    } else {
        lemma_entries_enc_front(es);
        let s = entries_enc(es) + rest;
        let ce = credit_enc(es[0].addr, es[0].amount);
        assert(s =~= ce + (entries_enc(es.skip(1)) + rest));
        lemma_credit_enc_dec(es[0], entries_enc(es.skip(1)) + rest);
        assert(s.skip(ce.len() as int) =~= entries_enc(es.skip(1)) + rest);
        lemma_entries_dec_rt(es.skip(1), rest);
        assert(seq![es[0]] + es.skip(1) =~= es);
    }
}

/// Decoding an encoded slot with a thread in range yields it back.
proof fn lemma_slot_enc_dec(sl: Slot, rest: Seq<u8>, tc: u8)
    requires
        sl.thread < tc,
    ensures
        slot_dec(slot_enc(sl) + rest, tc) == Option::Some((sl, slot_enc(sl).len() as int)),
{
    let s = slot_enc(sl) + rest;
    assert(s =~= varint_enc(sl.period) + (seq![sl.thread] + rest));
    lemma_varint_round_trip(sl.period, seq![sl.thread] + rest);
    let p = varint_enc(sl.period).len() as int;
    assert(s[p] == sl.thread);
    assert(Slot { period: sl.period, thread: sl.thread } == sl);
}

/// Decoding an encoded credit segment within the bound yields it back.
proof fn lemma_seg_rt(es: Seq<CreditEntry>, rest: Seq<u8>, maxc: u64)
    requires
        es.len() <= maxc,
    ensures
        seg_dec(varint_enc(es.len() as u64) + entries_enc(es) + rest, maxc) == Option::Some(
            (es, (varint_enc(es.len() as u64) + entries_enc(es)).len() as int),
        ),
{
    let s = varint_enc(es.len() as u64) + entries_enc(es) + rest;
    assert(s =~= varint_enc(es.len() as u64) + (entries_enc(es) + rest));
    lemma_varint_round_trip(es.len() as u64, entries_enc(es) + rest);
    let p = varint_enc(es.len() as u64).len() as int;
    assert(s.skip(p) =~= entries_enc(es) + rest);
    lemma_entries_dec_rt(es, rest);
}

/// Decoding an encoded group within bounds yields it back.
proof fn lemma_group_rt(g: SlotCredits, rest: Seq<u8>, tc: u8, maxc: u64)
    requires
        g.entries@.len() <= maxc,
        g.slot.thread < tc,
    ensures
        group_dec(group_enc(g) + rest, tc, maxc) == Option::Some(
            ((g.slot, g.entries@), group_enc(g).len() as int),
        ),
{
    let s = group_enc(g) + rest;
    let seg = varint_enc(g.entries@.len() as u64) + entries_enc(g.entries@);
    assert(s =~= slot_enc(g.slot) + (seg + rest));
    lemma_slot_enc_dec(g.slot, seg + rest, tc);
    let p1 = slot_enc(g.slot).len() as int;
    assert(s.skip(p1) =~= seg + rest);
    assert(seg + rest =~= varint_enc(g.entries@.len() as u64) + entries_enc(g.entries@) + rest);
    lemma_seg_rt(g.entries@, rest, maxc);
}

/// Decoding an encoded group list within bounds yields it back.
proof fn lemma_groups_dec_rt(cs: Seq<SlotCredits>, rest: Seq<u8>, tc: u8, maxc: u64)
    requires
        forall|k: int|
            0 <= k < cs.len() ==> (#[trigger] cs[k]).entries@.len() <= maxc && cs[k].slot.thread
                < tc,
    ensures
        groups_dec(groups_enc(cs) + rest, cs.len(), tc, maxc) == Option::Some(
            (pairs_of(cs), groups_enc(cs).len() as int),
        ),
    decreases cs.len(),
{
    if cs.len() == 0 {
        assert(pairs_of(cs) =~= Seq::<(Slot, Seq<CreditEntry>)>::empty());
    } else {
        lemma_groups_enc_front(cs);
        let s = groups_enc(cs) + rest;
        let ge = group_enc(cs[0]);
        assert(s =~= ge + (groups_enc(cs.skip(1)) + rest));
        lemma_group_rt(cs[0], groups_enc(cs.skip(1)) + rest, tc, maxc);
        assert(s.skip(ge.len() as int) =~= groups_enc(cs.skip(1)) + rest);
        assert(forall|k: int|
            0 <= k < cs.skip(1).len() ==> (#[trigger] cs.skip(1)[k]).entries@.len() <= maxc
                && cs.skip(1)[k].slot.thread < tc);
        lemma_groups_dec_rt(cs.skip(1), rest, tc, maxc);
        assert(seq![(cs[0].slot, cs[0].entries@)] + pairs_of(cs.skip(1)) =~= pairs_of(cs));
    }
}

/// Codec round trip: decoding the canonical encoding of any well-formed
/// ledger within the configured bounds succeeds, consumes the whole
/// encoding and yields exactly the ledger's content back.
pub proof fn lemma_codec_round_trip(cs: Seq<SlotCredits>, tc: u8, maxc: u64)
    requires
        credits_wf(cs),
        within_bounds(cs, tc, maxc),
    ensures
        ledger_dec(ledger_enc(cs), tc, maxc) == Option::Some(
            (pairs_of(cs), ledger_enc(cs).len() as int),
        ),
        pairs_view(pairs_of(cs)) == credits_map(cs),
{
    let s = ledger_enc(cs);
    assert(s =~= varint_enc(cs.len() as u64) + (groups_enc(cs) + Seq::<u8>::empty()));
    lemma_varint_round_trip(cs.len() as u64, groups_enc(cs) + Seq::<u8>::empty());
    let p = varint_enc(cs.len() as u64).len() as int;
    assert(s.skip(p) =~= groups_enc(cs) + Seq::<u8>::empty());
    lemma_groups_dec_rt(cs, Seq::<u8>::empty(), tc, maxc);
    lemma_pairs_view_canonical(cs);
}

/// Bound enforcement, slot count: the encoding of a ledger with more
/// slots than the decoder's maximum is rejected.
pub proof fn lemma_codec_slot_bound(cs: Seq<SlotCredits>, tc: u8, maxc: u64)
    requires
        maxc < cs.len() <= u64::MAX,
    ensures
        ledger_dec(ledger_enc(cs), tc, maxc) is None,
{
    let s = ledger_enc(cs);
    assert(s =~= varint_enc(cs.len() as u64) + groups_enc(cs));
    lemma_varint_round_trip(cs.len() as u64, groups_enc(cs));
    assert((cs.len() as u64) > maxc);
}

/// Bound enforcement, per-slot count: the encoding of a ledger that
/// holds a slot with more credits than the decoder's maximum is
/// rejected, whatever else the ledger holds.
pub proof fn lemma_codec_credit_bound(cs: Seq<SlotCredits>, tc: u8, maxc: u64)
    requires
        cs.len() <= u64::MAX,
        forall|k: int| 0 <= k < cs.len() ==> (#[trigger] cs[k]).entries@.len() <= u64::MAX,
        exists|k: int| 0 <= k < cs.len() && (#[trigger] cs[k]).entries@.len() > maxc,
    ensures
        ledger_dec(ledger_enc(cs), tc, maxc) is None,
{
    let s = ledger_enc(cs);
    assert(s =~= varint_enc(cs.len() as u64) + (groups_enc(cs) + Seq::<u8>::empty()));
    lemma_varint_round_trip(cs.len() as u64, groups_enc(cs) + Seq::<u8>::empty());
    if (cs.len() as u64) <= maxc {
        let p = varint_enc(cs.len() as u64).len() as int;
        assert(s.skip(p) =~= groups_enc(cs) + Seq::<u8>::empty());
        lemma_groups_dec_overlong(cs, Seq::<u8>::empty(), tc, maxc);
    }
}

/// A group list holding an overlong credit list is rejected, whatever
/// groups stand before the overlong one: every earlier group either
/// parses exactly or itself fails the decode.
#[verifier::rlimit(100)]
proof fn lemma_groups_dec_overlong(cs: Seq<SlotCredits>, rest: Seq<u8>, tc: u8, maxc: u64)
    requires
        forall|k: int| 0 <= k < cs.len() ==> (#[trigger] cs[k]).entries@.len() <= u64::MAX,
        exists|k: int| 0 <= k < cs.len() && (#[trigger] cs[k]).entries@.len() > maxc,
    ensures
        groups_dec(groups_enc(cs) + rest, cs.len(), tc, maxc) is None,
    decreases cs.len(),
{
    lemma_groups_enc_front(cs);
    let s = groups_enc(cs) + rest;
    let ge = group_enc(cs[0]);
    assert(s =~= ge + (groups_enc(cs.skip(1)) + rest));
    if cs[0].slot.thread >= tc {
        assert(s =~= varint_enc(cs[0].slot.period) + (seq![cs[0].slot.thread] + (varint_enc(
            cs[0].entries@.len() as u64,
        ) + entries_enc(cs[0].entries@) + (groups_enc(cs.skip(1)) + rest))));
        lemma_varint_round_trip(
            cs[0].slot.period,
            seq![cs[0].slot.thread] + (varint_enc(cs[0].entries@.len() as u64) + entries_enc(
                cs[0].entries@,
            ) + (groups_enc(cs.skip(1)) + rest)),
        );
        let p = varint_enc(cs[0].slot.period).len() as int;
        assert(s[p] == cs[0].slot.thread);
        assert(slot_dec(s, tc) is None);
    } else if cs[0].entries@.len() > maxc {
        let seg = varint_enc(cs[0].entries@.len() as u64) + entries_enc(cs[0].entries@);
        assert(s =~= slot_enc(cs[0].slot) + (seg + (groups_enc(cs.skip(1)) + rest)));
        lemma_slot_enc_dec(cs[0].slot, seg + (groups_enc(cs.skip(1)) + rest), tc);
        let p1 = slot_enc(cs[0].slot).len() as int;
        assert(s.skip(p1) =~= seg + (groups_enc(cs.skip(1)) + rest));
        assert(s.skip(p1) =~= varint_enc(cs[0].entries@.len() as u64) + (entries_enc(
            cs[0].entries@,
        ) + (groups_enc(cs.skip(1)) + rest)));
        lemma_varint_round_trip(
            cs[0].entries@.len() as u64,
            entries_enc(cs[0].entries@) + (groups_enc(cs.skip(1)) + rest),
        );
        assert((cs[0].entries@.len() as u64) > maxc);
        assert(seg_dec(s.skip(p1), maxc) is None);
    } else {
        lemma_group_rt(cs[0], groups_enc(cs.skip(1)) + rest, tc, maxc);
        assert(s.skip(ge.len() as int) =~= groups_enc(cs.skip(1)) + rest);
        let kb = choose|k: int| 0 <= k < cs.len() && (#[trigger] cs[k]).entries@.len() > maxc;
        assert(kb > 0);
        assert(cs.skip(1)[kb - 1].entries@.len() > maxc);
        assert(forall|k: int|
            0 <= k < cs.skip(1).len() ==> (#[trigger] cs.skip(1)[k]).entries@.len() <= u64::MAX);
        lemma_groups_dec_overlong(cs.skip(1), rest, tc, maxc);
    }
}

} // verus!
