//! Conversions between bytes and little-endian bit sequences.
//!
//! Throughout the crate a bit string is a `Seq<bool>` read least-significant
//! bit first: bit 0 of a byte is the low-order bit of that byte.

use vstd::prelude::*;

verus! {

use vstd::arithmetic::power2::{pow2, lemma_pow2_unfold, lemma_pow2_adds, lemma2_to64};
use vstd::arithmetic::mul::{lemma_mul_is_distributive_add, lemma_mul_is_associative};

/// The unsigned value of a bit string, least-significant bit first.
pub open spec fn nat_of_bits(s: Seq<bool>) -> nat
    decreases s.len(),
{
    if s.len() == 0 {
        0
    } else {
        (if s[0] {
            1nat
        } else {
            0nat
        }) + 2 * nat_of_bits(s.skip(1))
    }
}

/// The unsigned value of a byte string, least-significant byte first.
pub open spec fn nat_of_bytes(s: Seq<u8>) -> nat
    decreases s.len(),
{
    if s.len() == 0 {
        0
    } else {
        s[0] as nat + 256 * nat_of_bytes(s.skip(1))
    }
}

/// A bit string's value is below two to its length.
pub proof fn lemma_nat_of_bits_bound(s: Seq<bool>)
    ensures
        nat_of_bits(s) < pow2(s.len()),
    decreases s.len(),
{
    lemma2_to64();
    if s.len() > 0 {
        lemma_nat_of_bits_bound(s.skip(1));
        lemma_pow2_unfold(s.len());
    }
}

/// Appending one bit adds its value at the top position.
pub proof fn lemma_nat_of_bits_push(s: Seq<bool>, b: bool)
    ensures
        nat_of_bits(s.push(b)) == nat_of_bits(s) + (if b {
            pow2(s.len())
        } else {
            0
        }),
    decreases s.len(),
{
    lemma2_to64();
    let t = s.push(b);
    assert(t.len() == s.len() + 1);
    if s.len() == 0 {
        assert(t[0] == b);
        assert(t.skip(1) =~= Seq::<bool>::empty());
        assert(nat_of_bits(t) == (if b {
            1nat
        } else {
            0nat
        }) + 2 * nat_of_bits(t.skip(1)));
        assert(nat_of_bits(s) == 0);
    } else {
        assert(t[0] == s[0]);
        assert(t.skip(1) =~= s.skip(1).push(b));
        assert(nat_of_bits(t) == (if t[0] {
            1nat
        } else {
            0nat
        }) + 2 * nat_of_bits(t.skip(1)));
        assert(nat_of_bits(s) == (if s[0] {
            1nat
        } else {
            0nat
        }) + 2 * nat_of_bits(s.skip(1)));
        lemma_nat_of_bits_push(s.skip(1), b);
        lemma_pow2_unfold(s.len());
    }
}

/// The value of a concatenation splits at the boundary.
pub proof fn lemma_nat_of_bits_concat(a: Seq<bool>, b: Seq<bool>)
    ensures
        nat_of_bits(a + b) == nat_of_bits(a) + pow2(a.len()) * nat_of_bits(b),
    decreases a.len(),
{
    lemma2_to64();
    if a.len() == 0 {
        assert(a + b =~= b);
    } else {
        assert((a + b).skip(1) =~= a.skip(1) + b);
        lemma_nat_of_bits_concat(a.skip(1), b);
        lemma_pow2_unfold(a.len());
        assert(2 * (pow2((a.len() - 1) as nat) * nat_of_bits(b)) == (2 * pow2(
            (a.len() - 1) as nat,
        )) * nat_of_bits(b)) by {
            lemma_mul_is_associative(2, pow2((a.len() - 1) as nat) as int, nat_of_bits(b) as int);
        }
    }
}

/// Equal-length bit strings with the same value are equal.
pub proof fn lemma_nat_of_bits_injective(a: Seq<bool>, b: Seq<bool>)
    requires
        a.len() == b.len(),
        nat_of_bits(a) == nat_of_bits(b),
    ensures
        a =~= b,
    decreases a.len(),
{
    if a.len() > 0 {
        assert(a[0] == b[0]);
        lemma_nat_of_bits_injective(a.skip(1), b.skip(1));
        assert(a =~= seq![a[0]] + a.skip(1));
        assert(b =~= seq![b[0]] + b.skip(1));
    }
}

/// The eight bits of one byte, least-significant first.
pub fn byte_to_bits(byte: u8) -> (r: Vec<bool>)
    ensures
        r@.len() == 8,
        nat_of_bits(r@) == byte as nat,
{
    let mut ret: Vec<bool> = Vec::with_capacity(8);
    let mut cur: u8 = byte;
    let mut i: usize = 0;
    proof {
        lemma2_to64();
    }
    while i < 8
        invariant
            i <= 8,
            ret@.len() == i,
            nat_of_bits(ret@) + (cur as nat) * pow2(i as nat) == byte as nat,
        decreases 8 - i,
    {
        let bit = (cur & 1) == 1;
        let next = cur >> 1;
        proof {
            lemma_nat_of_bits_push(ret@, bit);
            lemma_pow2_unfold((i + 1) as nat);
            assert(cur == 2 * (cur >> 1u8) + (cur & 1u8) && (cur & 1u8) < 2) by (bit_vector);
            let p = pow2(i as nat) as int;
            assert((2 * (next as int) + (if bit {
                1int
            } else {
                0int
            })) * p == (next as int) * (2 * p) + (if bit {
                1int
            } else {
                0int
            }) * p) by (nonlinear_arith);
        }
        ret.push(bit);
        cur = next;
        i = i + 1;
    }
    proof {
        assert(cur as nat * pow2(8) >= cur as nat) by (nonlinear_arith)
            requires
                pow2(8) >= 1,
        ;
        lemma2_to64();
    }
    ret
}

/// The byte whose bits, least-significant first, are the given eight.
pub fn byte_from_bits(bits: &[bool]) -> (r: u8)
    requires
        bits@.len() == 8,
    ensures
        r as nat == nat_of_bits(bits@),
{
    let mut ret: u8 = 0;
    let mut i: usize = 0;
    proof {
        lemma2_to64();
        assert(bits@.skip(8) =~= Seq::<bool>::empty());
    }
    while i < 8
        invariant
            i <= 8,
            bits@.len() == 8,
            ret as nat == nat_of_bits(bits@.skip(8 - i as int)),
            ret < pow2(i as nat),
        decreases 8 - i,
    {
        let b = bits[8 - i - 1];
        proof {
            lemma2_to64();
            let tail = bits@.skip(8 - (i + 1) as int);
            assert(tail.skip(1) =~= bits@.skip(8 - i as int));
            assert(tail[0] == bits@[8 - i - 1]);
            lemma_pow2_unfold((i + 1) as nat);
            if i < 7 {
                vstd::arithmetic::power2::lemma_pow2_strictly_increases(i as nat, 7);
            }
        }
        ret = ret * 2 + (if b {
            1
        } else {
            0
        });
        i = i + 1;
    }
    proof {
        assert(bits@.skip(0) =~= bits@);
    }
    ret
}

/// All bits of a byte string, least-significant bit of the first byte first.
pub fn to_bits(bytes: &[u8]) -> (r: Vec<bool>)
    ensures
        r@.len() == 8 * bytes@.len(),
        nat_of_bits(r@) == nat_of_bytes(bytes@),
{
    let mut ret: Vec<bool> = Vec::new();
    let mut i: usize = 0;
    proof {
        lemma2_to64();
        assert(bytes@.skip(0) =~= bytes@);
        assert(nat_of_bits(ret@) == 0);
        assert(pow2(0) * nat_of_bytes(bytes@) == nat_of_bytes(bytes@));
    }
    while i < bytes.len()
        invariant
            i <= bytes@.len(),
            ret@.len() == 8 * i,
            nat_of_bits(ret@) + pow2((8 * i) as nat) * nat_of_bytes(bytes@.skip(i as int))
                == nat_of_bytes(bytes@),
        decreases bytes@.len() - i,
    {
        let mut bits = byte_to_bits(bytes[i]);
        proof {
            let rest = bytes@.skip(i as int);
            let p = pow2((8 * i) as nat) as int;
            let c = bytes@[i as int] as int;
            let r2 = nat_of_bytes(bytes@.skip(i + 1)) as int;
            assert(rest[0] == bytes@[i as int]);
            assert(rest.skip(1) =~= bytes@.skip(i + 1));
            assert(nat_of_bytes(rest) == rest[0] as nat + 256 * nat_of_bytes(rest.skip(1)));
            lemma_nat_of_bits_concat(ret@, bits@);
            lemma_pow2_adds((8 * i) as nat, 8);
            lemma2_to64();
            assert(p * (c + 256 * r2) == p * c + (p * 256) * r2) by (nonlinear_arith);
        }
        ret.append(&mut bits);
        i = i + 1;
    }
    proof {
        assert(i == bytes@.len());
        assert(bytes@.skip(i as int) =~= Seq::<u8>::empty());
        assert(nat_of_bytes(Seq::<u8>::empty()) == 0);
        assert(nat_of_bits(ret@) + pow2((8 * i) as nat) * 0 == nat_of_bytes(bytes@));
    }
    ret
}

/// The byte string whose bits are the given ones; the length must be a
/// multiple of eight.
pub fn from_bits(bits: &[bool]) -> (r: Vec<u8>)
    requires
        bits@.len() % 8 == 0,
    ensures
        r@.len() == bits@.len() / 8,
        nat_of_bytes(r@) == nat_of_bits(bits@),
{
    let mut ret: Vec<u8> = Vec::new();
    let mut i: usize = 0;
    let n = bits.len() / 8;
    proof {
        lemma2_to64();
        assert(bits@.skip(0) =~= bits@);
        assert(nat_of_bytes(ret@) == 0);
        assert(pow2(0) * nat_of_bits(bits@) == nat_of_bits(bits@));
        vstd::arithmetic::div_mod::lemma_fundamental_div_mod(bits@.len() as int, 8);
    }
    while i < n
        invariant
            bits@.len() % 8 == 0,
            n == bits@.len() / 8,
            bits@.len() <= usize::MAX,
            i <= n,
            ret@.len() == i,
            nat_of_bytes(ret@) + pow2((8 * i) as nat) * nat_of_bits(bits@.skip(8 * i as int))
                == nat_of_bits(bits@),
        decreases n - i,
    {
        proof {
            vstd::arithmetic::div_mod::lemma_fundamental_div_mod(bits@.len() as int, 8);
            assert(8 * i + 8 <= bits@.len());
        }
        let chunk = vstd::slice::slice_subrange(bits, 8 * i, 8 * i + 8);
        let byte = byte_from_bits(chunk);
        proof {
            let rest = bits@.skip(8 * i as int);
            let p = pow2((8 * i) as nat) as int;
            let lo = nat_of_bits(rest.take(8)) as int;
            let hi = nat_of_bits(rest.skip(8)) as int;
            assert(chunk@ =~= rest.take(8));
            assert(rest =~= rest.take(8) + rest.skip(8));
            assert(rest.skip(8) =~= bits@.skip(8 * (i + 1) as int));
            lemma_nat_of_bits_concat(rest.take(8), rest.skip(8));
            lemma_pow2_adds((8 * i) as nat, 8);
            lemma2_to64();
            assert(p * (lo + 256 * hi) == p * lo + (p * 256) * hi) by (nonlinear_arith);
            lemma_nat_of_bytes_push(ret@, byte);
        }
        ret.push(byte);
        i = i + 1;
    }
    proof {
        assert(i == n);
        assert(bits@.skip(8 * i as int) =~= Seq::<bool>::empty());
        assert(nat_of_bits(Seq::<bool>::empty()) == 0);
        assert(nat_of_bytes(ret@) + pow2((8 * i) as nat) * 0 == nat_of_bits(bits@));
    }
    ret
}

/// Appending one byte adds its value at the top position.
pub proof fn lemma_nat_of_bytes_push(s: Seq<u8>, b: u8)
    ensures
        nat_of_bytes(s.push(b)) == nat_of_bytes(s) + pow2((8 * s.len()) as nat) * b,
    decreases s.len(),
{
    lemma2_to64();
    let t = s.push(b);
    assert(t.len() == s.len() + 1);
    if s.len() == 0 {
        assert(t[0] == b);
        assert(t.skip(1) =~= Seq::<u8>::empty());
        assert(nat_of_bytes(t) == t[0] as nat + 256 * nat_of_bytes(t.skip(1)));
        assert(nat_of_bytes(s) == 0);
        assert(nat_of_bytes(t) == b as nat);
        assert(pow2((8 * s.len()) as nat) == 1);
        assert(nat_of_bytes(s) + pow2((8 * s.len()) as nat) * b == b as nat);
    } else {
        assert(t[0] == s[0]);
        assert(t.skip(1) =~= s.skip(1).push(b));
        assert(nat_of_bytes(t) == t[0] as nat + 256 * nat_of_bytes(t.skip(1)));
        assert(nat_of_bytes(s) == s[0] as nat + 256 * nat_of_bytes(s.skip(1)));
        lemma_nat_of_bytes_push(s.skip(1), b);
        lemma_pow2_adds((8 * (s.len() - 1)) as nat, 8);
        let p = pow2((8 * (s.len() - 1)) as nat) as int;
        assert(pow2((8 * s.len()) as nat) == p * 256);
        assert(nat_of_bytes(t.skip(1)) == nat_of_bytes(s.skip(1)) + p * (b as int));
        assert(256 * (p * (b as int)) == (p * 256) * (b as int)) by (nonlinear_arith);
        assert(nat_of_bytes(t) == nat_of_bytes(s) + 256 * (p * (b as int)));
    }
}

} // verus!
