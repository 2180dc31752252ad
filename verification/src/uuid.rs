//! Globally unique identifiers.
use vstd::prelude::*;

verus! {

/// The value of `bytes` read as a little-endian integer.
pub open spec fn le_value(bytes: Seq<u8>) -> nat
    decreases bytes.len(),
{
    if bytes.len() == 0 {
        0
    } else {
        bytes[0] as nat + 256 * le_value(bytes.drop_first())
    }
}

/// The value of `bytes` read as a big-endian integer.
pub open spec fn be_value(bytes: Seq<u8>) -> nat
    decreases bytes.len(),
{
    if bytes.len() == 0 {
        0
    } else {
        be_value(bytes.drop_last()) * 256 + bytes.last() as nat
    }
}

/// `256` raised to the power `n`.
pub open spec fn pow256(n: nat) -> nat
    decreases n,
{
    if n == 0 {
        1
    } else {
        256 * pow256((n - 1) as nat)
    }
}

/// A little-endian reading of `n` bytes is smaller than `256^n`.
pub proof fn lemma_le_value_bound(bytes: Seq<u8>)
    ensures
        le_value(bytes) < pow256(bytes.len()),
    decreases bytes.len(),
{
    if bytes.len() > 0 {
        lemma_le_value_bound(bytes.drop_first());
        let rest = le_value(bytes.drop_first());
        let p = pow256(bytes.drop_first().len());
        assert((bytes[0] as nat) + 256 * rest < 256 * p) by (nonlinear_arith)
            requires
                rest < p,
                bytes[0] < 256,
        ;
    }
}

/// A big-endian reading of `n` bytes is smaller than `256^n`.
pub proof fn lemma_be_value_bound(bytes: Seq<u8>)
    ensures
        be_value(bytes) < pow256(bytes.len()),
    decreases bytes.len(),
{
    if bytes.len() > 0 {
        lemma_be_value_bound(bytes.drop_last());
        let rest = be_value(bytes.drop_last());
        let p = pow256(bytes.drop_last().len());
        assert(rest * 256 + (bytes.last() as nat) < 256 * p) by (nonlinear_arith)
            requires
                rest < p,
                bytes.last() < 256,
        ;
    }
}

/// Reading bytes as a big-endian integer is reading them reversed as a little-endian one.
pub proof fn lemma_be_is_reversed_le(bytes: Seq<u8>)
    ensures
        be_value(bytes) == le_value(bytes.reverse()),
    decreases bytes.len(),
{
    if bytes.len() > 0 {
        let rest = bytes.drop_last();
        lemma_be_is_reversed_le(rest);
        let rev = bytes.reverse();
        assert(rev[0] == bytes.last());
        assert(rev.drop_first() =~= rest.reverse());
    }
}

/// `256^16` is `2^128`.
proof fn lemma_pow256_16()
    ensures
        pow256(16) == 0x1_0000_0000_0000_0000_0000_0000_0000_0000,
{
    reveal_with_fuel(pow256, 17);
}

/// A globally unique identifier, such as the one of a component or of a global resource.
#[derive(Clone, Copy, PartialEq, Eq, Structural, PartialOrd, Ord, Hash, Debug)]
pub struct Uuid {
    value: u128,
}

impl Uuid {
    /// The 128-bit integer that this identifier stands for.
    pub closed spec fn spec_value(self) -> u128 {
        self.value
    }

    /// The identifier that stands for a 128-bit integer.
    pub closed spec fn spec_from_value(value: u128) -> Uuid {
        Uuid { value }
    }

    /// The identifier that stands for a 128-bit integer stands for it.
    pub proof fn lemma_from_value(value: u128)
        ensures
            Uuid::spec_from_value(value).spec_value() == value,
    {
    }

    /// Two identifiers are equal exactly when their 128-bit values are.
    pub proof fn lemma_eq_iff_value(a: Uuid, b: Uuid)
        ensures
            (a == b) <==> (a.spec_value() == b.spec_value()),
    {
    }

    /// Creates a new [`Uuid`] instance from the provided bytes encoded as a little-endian
    /// 128-bit integer.
    pub fn from_le_bytes(bytes: [u8; 16]) -> (r: Uuid)
        ensures
            r.spec_value() == le_value(bytes@),
    {
        let mut value: u128 = 0;
        let mut i: usize = 16;
        proof {
            assert(bytes@.subrange(16, 16) =~= Seq::<u8>::empty());
        }
        while i > 0
            invariant
                i <= 16,
                bytes@.len() == 16,
                value == le_value(bytes@.subrange(i as int, 16)),
            decreases i,
        {
            let ghost tail = bytes@.subrange(i as int, 16);
            let ghost ext = bytes@.subrange(i - 1, 16);
            proof {
                assert(ext.drop_first() =~= tail);
                lemma_le_value_bound(tail);
                lemma_pow256_monotonic(tail.len(), 15);
                lemma_pow256_16();
                assert(pow256(16) == 256 * pow256(15));
                assert(value * 256 + 255 < pow256(16)) by (nonlinear_arith)
                    requires
                        value < pow256(tail.len()),
                        pow256(tail.len()) <= pow256(15),
                        pow256(16) == 256 * pow256(15),
                ;
            }
            let b = bytes[i - 1];
            value = value * 256 + b as u128;
            i = i - 1;
        }
        proof {
            assert(bytes@.subrange(0, 16) =~= bytes@);
        }
        Uuid { value }
    }

    /// Creates a new [`Uuid`] instance from the provided bytes encoded as a big-endian
    /// 128-bit integer.
    pub fn from_be_bytes(bytes: [u8; 16]) -> (r: Uuid)
        ensures
            r.spec_value() == be_value(bytes@),
    {
        let mut value: u128 = 0;
        let mut i: usize = 0;
        proof {
            assert(bytes@.subrange(0, 0) =~= Seq::<u8>::empty());
        }
        while i < 16
            invariant
                i <= 16,
                bytes@.len() == 16,
                value == be_value(bytes@.subrange(0, i as int)),
            decreases 16 - i,
        {
            let ghost head = bytes@.subrange(0, i as int);
            let ghost ext = bytes@.subrange(0, i + 1);
            proof {
                assert(ext.drop_last() =~= head);
                lemma_be_value_bound(head);
                lemma_pow256_monotonic(head.len(), 15);
                lemma_pow256_16();
                assert(pow256(16) == 256 * pow256(15));
                assert(value * 256 + 255 < pow256(16)) by (nonlinear_arith)
                    requires
                        value < pow256(head.len()),
                        pow256(head.len()) <= pow256(15),
                        pow256(16) == 256 * pow256(15),
                ;
            }
            let b = bytes[i];
            value = value * 256 + b as u128;
            i = i + 1;
        }
        proof {
            assert(bytes@.subrange(0, 16) =~= bytes@);
        }
        Uuid { value }
    }

    /// Creates a new [`Uuid`] instance from the provided bytes encoded as a native-endian
    /// 128-bit integer.
    pub fn from_ne_bytes(bytes: [u8; 16]) -> (r: Uuid)
        ensures
            r.spec_value() == le_value(bytes@) || r.spec_value() == be_value(bytes@),
    {
        Uuid { value: u128_from_ne_bytes(bytes) }
    }

    /// Creates a new [`Uuid`] instance from the provided 128-bit integer.
    pub fn from_u128(val: u128) -> (r: Uuid)
        ensures
            r.spec_value() == val,
            r == Uuid::spec_from_value(val),
    {
        Uuid { value: val }
    }

    /// Returns the UUID as a 128-bit integer.
    pub fn as_u128(self) -> (r: u128)
        ensures
            r == self.spec_value(),
    {
        self.value
    }
}

/// `256^n` grows with `n`.
pub proof fn lemma_pow256_monotonic(a: nat, b: nat)
    requires
        a <= b,
    ensures
        pow256(a) <= pow256(b),
    decreases b,
{
    if a < b {
        lemma_pow256_monotonic(a, (b - 1) as nat);
    }
}

/// Reads `bytes` as a native-endian 128-bit integer with `u128::from_ne_bytes`, which reads
/// them either as little-endian or as big-endian, as the target machine does.
#[verifier::external_body]
fn u128_from_ne_bytes(bytes: [u8; 16]) -> (r: u128)
    ensures
        r == le_value(bytes@) || r == be_value(bytes@),
{
    u128::from_ne_bytes(bytes)
}

/// A trait that can be implemented by types that have an associated globally unique identifier.
///
/// The implementor must ensure that the identifier is actually globally unique.
pub trait TypeUuid {
    /// The globally unique identifier for the type.
    spec fn spec_uuid() -> Uuid;

    /// Returns the globally unique identifier for the type.
    fn uuid() -> (r: Uuid)
        ensures
            r == Self::spec_uuid(),
    ;
}

} // verus!
