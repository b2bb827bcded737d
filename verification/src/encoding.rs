//! Canonical byte encodings: variable-width unsigned integers, slots and
//! single credits. These encodings feed both the codec and the digest.
use vstd::prelude::*;
use crate::types::{Slot, Address, Amount};

verus! {

/// Canonical variable-width encoding of an unsigned integer: seven value
/// bits per byte, least significant group first, high bit set on every
/// byte but the last.
pub open spec fn varint_enc(v: u64) -> Seq<u8>
    decreases v,
{
    if v < 128 {
        seq![v as u8]
    } else {
        seq![(v % 128 + 128) as u8] + varint_enc(v / 128)
    }
}

/// Canonical encoding of a slot: period as a varint, then the thread byte.
pub open spec fn slot_enc(s: Slot) -> Seq<u8> {
    varint_enc(s.period) + seq![s.thread]
}

/// Canonical encoding of one credit: address, then amount, as varints.
pub open spec fn credit_enc(a: Address, m: Amount) -> Seq<u8> {
    varint_enc(a.val) + varint_enc(m.raw)
}

/// Appends the varint encoding of `v` to `buf`.
pub fn write_varint(v: u64, buf: &mut Vec<u8>)
    ensures
        final(buf)@ == old(buf)@ + varint_enc(v),
{
    let mut x: u64 = v;
    while x >= 128
        invariant
            old(buf)@ + varint_enc(v) == buf@ + varint_enc(x),
        decreases x,
    {
        let b: u8 = (x % 128 + 128) as u8;
        proof {
            assert(varint_enc(x) == seq![b] + varint_enc(x / 128));
            assert(buf@ + varint_enc(x) == (buf@ + seq![b]) + varint_enc(x / 128));
        }
        buf.push(b);
        x = x / 128;
    }
    buf.push(x as u8);
    proof {
        assert(varint_enc(x) == seq![x as u8]);
        assert(buf@ == old(buf)@ + varint_enc(v));
    }
}

/// Parse of a varint from the front of `s`: the value and the number of
/// bytes consumed, or nothing when `s` does not start with a valid,
/// `u64`-sized varint.
pub open spec fn varint_dec(s: Seq<u8>) -> Option<(u64, int)>
    decreases s.len(),
{
    if s.len() == 0 {
        None
    } else if s[0] < 128 {
        Some((s[0] as u64, 1))
    } else {
        match varint_dec(s.skip(1)) {
            None => None,
            Some((v, n)) => if v * 128 + (s[0] - 128) <= u64::MAX {
                Some(((v * 128 + (s[0] - 128)) as u64, n + 1))
            } else {
                None
            },
        }
    }
}

/// Reads a varint from `buf` at `pos`; returns the value and the position
/// just past it. Fails exactly where the byte sequence from `pos` on is
/// not a valid `u64`-sized varint.
pub fn read_varint(buf: &Vec<u8>, pos: usize) -> (r: Option<(u64, usize)>)
    requires
        pos <= buf@.len(),
    ensures
        match r {
            Some((v, next)) => {
                &&& varint_dec(buf@.skip(pos as int)) == Some((v, next - pos))
                &&& pos < next <= buf@.len()
            },
            None => varint_dec(buf@.skip(pos as int)) is None,
        },
    decreases buf@.len() - pos,
{
    if pos == buf.len() {
        return None;
    }
    let b: u8 = buf[pos];
    if b < 128 {
        proof {
            assert(buf@.skip(pos as int)[0] == b);
        }
        Some((b as u64, pos + 1))
    } else {
        proof {
            assert(buf@.skip(pos as int).skip(1) =~= buf@.skip(pos as int + 1));
        }
        match read_varint(buf, pos + 1) {
            None => None,
            Some((v, next)) => {
                let rest: u64 = (b - 128) as u64;
                if v <= (u64::MAX - rest) / 128 {
                    proof {
                        assert(v * 128 + rest <= u64::MAX) by (nonlinear_arith)
                            requires
                                v <= (u64::MAX - rest) / 128,
                                rest < 128,
                        ;
                    }
                    Some((v * 128 + rest, next))
                } else {
                    proof {
                        assert(v * 128 + rest > u64::MAX) by (nonlinear_arith)
                            requires
                                v > (u64::MAX - rest) / 128,
                                rest < 128,
                        ;
                    }
                    None
                }
            },
        }
    }
}

/// Round trip: decoding an encoded value, with anything after it, yields
/// the value back and consumes exactly the encoding.
pub proof fn lemma_varint_round_trip(v: u64, rest: Seq<u8>)
    ensures
        varint_dec(varint_enc(v) + rest) == Some((v, varint_enc(v).len() as int)),
    decreases v,
{
    let s = varint_enc(v) + rest;
    if v < 128 {
        assert(s[0] == v as u8);
    } else {
        assert(s[0] == (v % 128 + 128) as u8);
        lemma_varint_round_trip(v / 128, rest);
        assert(s.skip(1) =~= varint_enc(v / 128) + rest);
        assert((v / 128) * 128 + (v % 128) == v) by (nonlinear_arith);
    }
}

/// Builds the encoding of one credit as a fresh byte vector.
pub fn encode_credit(a: &Address, m: &Amount) -> (r: Vec<u8>)
    ensures
        r@ == credit_enc(*a, *m),
{
    let mut buf: Vec<u8> = Vec::new();
    write_varint(a.val, &mut buf);
    write_varint(m.raw, &mut buf);
    proof {
        assert(buf@ =~= credit_enc(*a, *m));
    }
    buf
}

/// Builds the encoding of a slot as a fresh byte vector.
pub fn encode_slot(s: &Slot) -> (r: Vec<u8>)
    ensures
        r@ == slot_enc(*s),
{
    let mut buf: Vec<u8> = Vec::new();
    write_varint(s.period, &mut buf);
    buf.push(s.thread);
    proof {
        assert(buf@ =~= slot_enc(*s));
    }
    buf
}

} // verus!
