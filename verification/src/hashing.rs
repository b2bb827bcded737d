//! The 32-byte digest type and its self-inverse XOR combinator, plus the
//! trusted tie to the cryptographic hash primitive.
use vstd::prelude::*;

verus! {

/// Number of bytes in a digest.
pub const DIGEST_LEN: usize = 32;

/// What the cryptographic hash primitive returns on given bytes; a
/// function of the input alone, never stated further.
pub uninterp spec fn blake_digest(data: Seq<u8>) -> Seq<u8>;

/// The all-zero digest, the empty ledger's baseline.
pub open spec fn zero32() -> Seq<u8> {
    Seq::new(32, |i: int| 0u8)
}

/// Pointwise XOR of two digests; always 32 bytes long.
pub open spec fn xor32(a: Seq<u8>, b: Seq<u8>) -> Seq<u8> {
    Seq::new(32, |i: int| a[i] ^ b[i])
}

pub proof fn lemma_xor32_len(a: Seq<u8>, b: Seq<u8>)
    ensures
        xor32(a, b).len() == 32,
{
}

/// The combinator is commutative.
pub proof fn lemma_xor32_comm(a: Seq<u8>, b: Seq<u8>)
    ensures
        xor32(a, b) == xor32(b, a),
{
    assert forall|i: int| 0 <= i < 32 implies xor32(a, b)[i] == xor32(b, a)[i] by {
        let x = a[i];
        let y = b[i];
        assert(x ^ y == y ^ x) by (bit_vector);
    }
    assert(xor32(a, b) =~= xor32(b, a));
}

/// The combinator is associative.
pub proof fn lemma_xor32_assoc(a: Seq<u8>, b: Seq<u8>, c: Seq<u8>)
    ensures
        xor32(xor32(a, b), c) == xor32(a, xor32(b, c)),
{
    assert forall|i: int| 0 <= i < 32 implies xor32(xor32(a, b), c)[i] == xor32(
        a,
        xor32(b, c),
    )[i] by {
        let x = a[i];
        let y = b[i];
        let z = c[i];
        assert((x ^ y) ^ z == x ^ (y ^ z)) by (bit_vector);
    }
    assert(xor32(xor32(a, b), c) =~= xor32(a, xor32(b, c)));
}

/// The zero digest is the neutral element, on 32-byte operands.
pub proof fn lemma_xor32_zero(a: Seq<u8>)
    requires
        a.len() == 32,
    ensures
        xor32(a, zero32()) == a,
        xor32(zero32(), a) == a,
{
    assert forall|i: int| 0 <= i < 32 implies xor32(a, zero32())[i] == a[i] && xor32(
        zero32(),
        a,
    )[i] == a[i] by {
        let x = a[i];
        assert(x ^ 0u8 == x && 0u8 ^ x == x) by (bit_vector);
    }
    assert(xor32(a, zero32()) =~= a);
    assert(xor32(zero32(), a) =~= a);
}

/// The combinator is self-inverse: combining the same operand twice
/// cancels it.
pub proof fn lemma_xor32_cancel(a: Seq<u8>, b: Seq<u8>)
    requires
        a.len() == 32,
    ensures
        xor32(xor32(a, b), b) == a,
{
    assert forall|i: int| 0 <= i < 32 implies xor32(xor32(a, b), b)[i] == a[i] by {
        let x = a[i];
        let y = b[i];
        assert((x ^ y) ^ y == x) by (bit_vector);
    }
    assert(xor32(xor32(a, b), b) =~= a);
}

/// A 32-byte digest value.
#[derive(Debug)]
pub struct Digest {
    bytes: Vec<u8>,
}

impl View for Digest {
    type V = Seq<u8>;

    closed spec fn view(&self) -> Seq<u8> {
        self.bytes@
    }
}

impl Digest {
    /// Every digest holds exactly 32 bytes.
    #[verifier::type_invariant]
    pub open spec fn len_ok(&self) -> bool {
        self@.len() == 32
    }

    /// The all-zero digest.
    pub fn zero() -> (r: Digest)
        ensures
            r@ == zero32(),
    {
        let mut bytes: Vec<u8> = Vec::new();
        let mut i: usize = 0;
        while i < 32
            invariant
                i <= 32,
                bytes@ =~= Seq::new(i as nat, |j: int| 0u8),
            decreases 32 - i,
        {
            bytes.push(0u8);
            i = i + 1;
        }
        proof {
            assert(bytes@ =~= zero32());
        }
        Digest { bytes }
    }

    /// Combines `other` into `self` with the self-inverse combinator.
    pub fn xor_with(&mut self, other: &Digest)
        ensures
            final(self)@ == xor32(old(self)@, other@),
    {
        proof {
            use_type_invariant(&*self);
            use_type_invariant(other);
        }
        let ghost orig = self.bytes@;
        let mut out: Vec<u8> = Vec::new();
        let mut i: usize = 0;
        while i < 32
            invariant
                i <= 32,
                self.bytes@ == orig,
                orig.len() == 32,
                other@.len() == 32,
                out@ =~= xor32(orig, other@).take(i as int),
            decreases 32 - i,
        {
            let b: u8 = self.bytes[i] ^ other.bytes[i];
            out.push(b);
            i = i + 1;
        }
        self.bytes = out;
        proof {
            assert(self.bytes@ =~= xor32(orig, other@));
        }
    }

    /// An equal copy of the digest.
    pub fn dup(&self) -> (r: Digest)
        ensures
            r@ == self@,
    {
        proof {
            use_type_invariant(self);
        }
        Digest { bytes: self.to_vec() }
    }

    /// Hands the digest out as a plain byte vector.
    pub fn to_vec(&self) -> (r: Vec<u8>)
        ensures
            r@ == self@,
    {
        proof {
            use_type_invariant(self);
        }
        let mut out: Vec<u8> = Vec::new();
        let mut i: usize = 0;
        while i < 32
            invariant
                i <= 32,
                self@.len() == 32,
                out@ =~= self@.take(i as int),
            decreases 32 - i,
        {
            out.push(self.bytes[i]);
            i = i + 1;
        }
        proof {
            assert(out@ =~= self@);
        }
        out
    }
}

/// Relies on `blake3::hash`: a 32-byte digest determined by the input
/// bytes alone.
#[verifier::external_body]
pub(crate) fn hash_bytes(data: &Vec<u8>) -> (r: Digest)
    ensures
        r@ == blake_digest(data@),
        r@.len() == 32,
{
    Digest { bytes: blake3::hash(data.as_slice()).as_bytes().to_vec() }
}

} // verus!
