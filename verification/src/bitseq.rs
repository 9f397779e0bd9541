//! Variable-length bit sequences with the length-prefixed wire format:
//! an 8-byte little-endian bit count followed by the packed bits,
//! bit 0 stored as the least-significant bit of the first payload byte.

use vstd::prelude::*;

verus! {

use crate::bits::{
    nat_of_bits,
    nat_of_bytes,
    to_bits,
    from_bits,
    lemma_nat_of_bits_bound,
    lemma_nat_of_bits_concat,
    lemma_nat_of_bits_injective,
};
use crate::Error;
use crate::prg::Prg;
use vstd::arithmetic::power2::{pow2, lemma_pow2_adds, lemma2_to64};

/// The pointwise XOR of two equal-length bit strings.
pub open spec fn xor_bits(a: Seq<bool>, b: Seq<bool>) -> Seq<bool> {
    Seq::new(a.len(), |i: int| a[i] != b[i])
}

/// A run of `n` cleared bits.
pub open spec fn zero_bits(n: nat) -> Seq<bool> {
    Seq::new(n, |i: int| false)
}

/// The `k` little-endian bytes of `n`; high bytes are truncated away.
pub open spec fn le_bytes(n: nat, k: nat) -> Seq<u8>
    decreases k,
{
    if k == 0 {
        Seq::empty()
    } else {
        seq![(n % 256) as u8] + le_bytes(n / 256, (k - 1) as nat)
    }
}

/// How many bytes hold `n` bits.
pub open spec fn ceil_div8(n: nat) -> nat {
    n / 8 + if n % 8 == 0 {
        0nat
    } else {
        1nat
    }
}

/// The wire format of a bit string: 8-byte little-endian bit count, then
/// the packed bits.
pub open spec fn serial(s: Seq<bool>) -> Seq<u8> {
    le_bytes(s.len(), 8) + le_bytes(nat_of_bits(s), ceil_div8(s.len()))
}

/// Bit `i` of a byte, bit 0 least significant.
pub open spec fn bit_of_byte(b: u8, i: int) -> bool {
    (b >> (i as u8)) & 1 == 1
}

/// The eight bits of a byte, least significant first.
pub open spec fn bits_of_byte(b: u8) -> Seq<bool> {
    Seq::new(8, |i: int| bit_of_byte(b, i))
}

/// All bits of a byte string, in wire order.
pub open spec fn bits_of_bytes(s: Seq<u8>) -> Seq<bool>
    decreases s.len(),
{
    if s.len() == 0 {
        Seq::empty()
    } else {
        bits_of_byte(s[0]) + bits_of_bytes(s.skip(1))
    }
}

/// What a prefix of `data` decodes to: the bit string and the number of
/// bytes consumed, or nothing when the prefix is malformed or truncated.
pub open spec fn parse(data: Seq<u8>) -> Option<(Seq<bool>, int)> {
    if data.len() < 8 {
        None
    } else {
        let n = nat_of_bytes(data.take(8));
        let m = ceil_div8(n);
        if n > usize::MAX || data.len() < 8 + m {
            None
        } else {
            Some((bits_of_bytes(data.subrange(8, 8 + m as int)).take(n as int), 8 + m as int))
        }
    }
}

pub proof fn lemma_le_bytes_len(n: nat, k: nat)
    ensures
        le_bytes(n, k).len() == k,
    decreases k,
{
    if k > 0 {
        lemma_le_bytes_len(n / 256, (k - 1) as nat);
    }
}

pub proof fn lemma_le_bytes_value(n: nat, k: nat)
    requires
        n < pow2(8 * k),
    ensures
        nat_of_bytes(le_bytes(n, k)) == n,
    decreases k,
{
    lemma2_to64();
    if k == 0 {
        assert(le_bytes(n, k) =~= Seq::<u8>::empty());
        assert(nat_of_bytes(Seq::<u8>::empty()) == 0);
    } else {
        let t = le_bytes(n, k);
        let rest = le_bytes(n / 256, (k - 1) as nat);
        assert(t =~= seq![(n % 256) as u8] + rest);
        assert(t[0] == (n % 256) as u8);
        assert(t.skip(1) =~= rest);
        lemma_pow2_adds(8, (8 * (k - 1)) as nat);
        assert(n / 256 < pow2((8 * (k - 1)) as nat)) by (nonlinear_arith)
            requires
                n < 256 * pow2((8 * (k - 1)) as nat),
        ;
        lemma_le_bytes_value(n / 256, (k - 1) as nat);
        assert(t.len() > 0);
        assert(nat_of_bytes(t) == t[0] as nat + 256 * nat_of_bytes(t.skip(1)));
        vstd::arithmetic::div_mod::lemma_fundamental_div_mod(n as int, 256);
    }
}

/// A string of cleared bits has value zero.
pub proof fn lemma_zero_bits_value(n: nat)
    ensures
        zero_bits(n).len() == n,
        nat_of_bits(zero_bits(n)) == 0,
    decreases n,
{
    if n > 0 {
        assert(zero_bits(n).skip(1) =~= zero_bits((n - 1) as nat));
        lemma_zero_bits_value((n - 1) as nat);
        assert(nat_of_bits(zero_bits(n)) == (if zero_bits(n)[0] {
            1nat
        } else {
            0nat
        }) + 2 * nat_of_bits(zero_bits(n).skip(1)));
    }
}

/// Byte strings of one length with one value are equal.
pub proof fn lemma_nat_of_bytes_injective(a: Seq<u8>, b: Seq<u8>)
    requires
        a.len() == b.len(),
        nat_of_bytes(a) == nat_of_bytes(b),
    ensures
        a =~= b,
    decreases a.len(),
{
    if a.len() > 0 {
        assert(nat_of_bytes(a) == a[0] as nat + 256 * nat_of_bytes(a.skip(1)));
        assert(nat_of_bytes(b) == b[0] as nat + 256 * nat_of_bytes(b.skip(1)));
        assert(a[0] == b[0]);
        lemma_nat_of_bytes_injective(a.skip(1), b.skip(1));
        assert(a =~= seq![a[0]] + a.skip(1));
        assert(b =~= seq![b[0]] + b.skip(1));
    }
}

/// The bits of a byte, taken from position `i` up, have the value of the
/// byte shifted right by `i`.
proof fn lemma_bits_of_byte_from(b: u8, i: nat)
    requires
        i <= 8,
    ensures
        nat_of_bits(bits_of_byte(b).skip(i as int)) == (b >> (i as u8)) as nat,
    decreases 8 - i,
{
    let s = bits_of_byte(b).skip(i as int);
    if i == 8 {
        assert(s =~= Seq::<bool>::empty());
        assert((b >> 8u8) == 0) by (bit_vector);
    } else {
        let iu = i as u8;
        assert(s[0] == bit_of_byte(b, i as int));
        assert(s.skip(1) =~= bits_of_byte(b).skip(i as int + 1));
        lemma_bits_of_byte_from(b, i + 1);
        assert(nat_of_bits(s) == (if s[0] {
            1nat
        } else {
            0nat
        }) + 2 * nat_of_bits(s.skip(1)));
        assert(iu < 8 ==> (b >> iu) == 2 * (b >> ((iu + 1) as u8)) + ((b >> iu) & 1))
            by (bit_vector);
        assert((b >> iu) & 1 == 1 || (b >> iu) & 1 == 0) by (bit_vector);
    }
}

/// The eight bits of a byte carry its value.
pub proof fn lemma_bits_of_byte_value(b: u8)
    ensures
        nat_of_bits(bits_of_byte(b)) == b as nat,
{
    lemma_bits_of_byte_from(b, 0);
    assert(bits_of_byte(b).skip(0) =~= bits_of_byte(b));
    assert((b >> 0u8) == b) by (bit_vector);
}

/// The bits of a byte string carry its value.
pub proof fn lemma_bits_of_bytes_value(s: Seq<u8>)
    ensures
        bits_of_bytes(s).len() == 8 * s.len(),
        nat_of_bits(bits_of_bytes(s)) == nat_of_bytes(s),
    decreases s.len(),
{
    if s.len() == 0 {
        assert(bits_of_bytes(s) =~= Seq::<bool>::empty());
    } else {
        lemma_bits_of_byte_value(s[0]);
        lemma_bits_of_bytes_value(s.skip(1));
        lemma_nat_of_bits_concat(bits_of_byte(s[0]), bits_of_bytes(s.skip(1)));
        lemma2_to64();
        assert(nat_of_bytes(s) == s[0] as nat + 256 * nat_of_bytes(s.skip(1)));
    }
}

/// Decoding inverts encoding: any wire image of a bit string, however
/// followed, parses back to that bit string, consuming exactly the image.
pub proof fn lemma_round_trip(s: Seq<bool>, rest: Seq<u8>)
    requires
        s.len() <= usize::MAX,
    ensures
        parse(serial(s) + rest) == Some((s, serial(s).len() as int)),
{
    lemma2_to64();
    let hdr = le_bytes(s.len(), 8);
    let m = ceil_div8(s.len());
    let pad = (m * 8 - s.len()) as nat;
    let payload = le_bytes(nat_of_bits(s), m);
    let data = serial(s) + rest;
    lemma_le_bytes_len(s.len(), 8);
    lemma_le_bytes_len(nat_of_bits(s), m);
    assert(data.take(8) =~= hdr);
    assert(s.len() < pow2(64)) by {
        assert(usize::MAX <= 0xffff_ffff_ffff_ffffu64);
    }
    lemma_le_bytes_value(s.len(), 8);
    // the declared bit count is the real one, so the payload length fits
    assert(nat_of_bytes(data.take(8)) == s.len());
    assert(data.len() == 8 + m + rest.len());
    assert(data.subrange(8, 8 + m as int) =~= payload);
    // the payload bytes decode to the padded bits
    let padded = s + zero_bits(pad);
    lemma_zero_bits_value(pad);
    lemma_nat_of_bits_concat(s, zero_bits(pad));
    assert(padded.len() == 8 * m);
    assert(nat_of_bits(padded) == nat_of_bits(s));
    lemma_nat_of_bits_bound(padded);
    lemma_le_bytes_value(nat_of_bits(s), m);
    lemma_bits_of_bytes_value(payload);
    lemma_nat_of_bits_injective(bits_of_bytes(payload), padded);
    assert(bits_of_bytes(payload).take(s.len() as int) =~= s);
}

/// Four little-endian bytes assemble one 32-bit word.
proof fn lemma_four_bytes_value(x: u32, b0: u8, b1: u8, b2: u8, b3: u8, s: Seq<u8>)
    requires
        x == (b0 as u32) + 256 * (b1 as u32) + 65536 * (b2 as u32) + 16777216 * (b3 as u32),
        s =~= seq![b0, b1, b2, b3],
    ensures
        nat_of_bytes(s) == x,
{
    assert(s.skip(1) =~= seq![b1, b2, b3]);
    assert(s.skip(1).skip(1) =~= seq![b2, b3]);
    assert(s.skip(1).skip(1).skip(1) =~= seq![b3]);
    assert(s.skip(1).skip(1).skip(1).skip(1) =~= Seq::<u8>::empty());
    assert(nat_of_bytes(Seq::<u8>::empty()) == 0);
    assert(nat_of_bytes(seq![b3]) == b3 as nat + 256 * nat_of_bytes(
        s.skip(1).skip(1).skip(1).skip(1),
    ));
    assert(nat_of_bytes(seq![b2, b3]) == b2 as nat + 256 * nat_of_bytes(
        s.skip(1).skip(1).skip(1),
    ));
    assert(nat_of_bytes(seq![b1, b2, b3]) == b1 as nat + 256 * nat_of_bytes(s.skip(1).skip(1)));
    assert(nat_of_bytes(s) == b0 as nat + 256 * nat_of_bytes(s.skip(1)));
}

/// Decode the 8-byte little-endian bit count, refusing one that cannot
/// index memory on this machine.
fn decode_len(hdr: &[u8]) -> (r: Option<usize>)
    requires
        hdr@.len() == 8,
    ensures
        match r {
            Some(n) => n as nat == nat_of_bytes(hdr@),
            None => nat_of_bytes(hdr@) > usize::MAX,
        },
{
    let mut n: u64 = 0;
    let mut j: usize = 0;
    proof {
        lemma2_to64();
        assert(hdr@.skip(8) =~= Seq::<u8>::empty());
    }
    while j < 8
        invariant
            j <= 8,
            hdr@.len() == 8,
            n as nat == nat_of_bytes(hdr@.skip((8 - j) as int)),
            n < pow2((8 * j) as nat),
        decreases 8 - j,
    {
        let b = hdr[8 - j - 1];
        proof {
            lemma2_to64();
            let tail = hdr@.skip((8 - (j + 1)) as int);
            assert(tail.skip(1) =~= hdr@.skip((8 - j) as int));
            assert(tail[0] == hdr@[8 - j - 1]);
            assert(nat_of_bytes(tail) == tail[0] as nat + 256 * nat_of_bytes(tail.skip(1)));
            lemma_pow2_adds((8 * j) as nat, 8);
            assert((n as nat) * 256 + (b as nat) < pow2((8 * (j + 1)) as nat)) by (nonlinear_arith)
                requires
                    (n as nat) < pow2((8 * j) as nat),
                    (b as nat) < 256,
                    pow2((8 * (j + 1)) as nat) == pow2((8 * j) as nat) * 256,
            ;
            if j + 1 < 8 {
                vstd::arithmetic::power2::lemma_pow2_strictly_increases((8 * (j + 1)) as nat, 64);
            }
        }
        n = n * 256 + (b as u64);
        j = j + 1;
    }
    proof {
        assert(hdr@.skip(0) =~= hdr@);
    }
    if n <= usize::MAX as u64 {
        Some(n as usize)
    } else {
        None
    }
}

/// An ordered sequence of bits with a length-prefixed wire format, XOR,
/// and random fill.
#[derive(Clone, Debug, PartialEq, Eq)]
pub struct BitVec {
    bits: Vec<bool>,
}

impl View for BitVec {
    type V = Seq<bool>;

    closed spec fn view(&self) -> Seq<bool> {
        self.bits@
    }
}

impl BitVec {
    /// The empty bit sequence.
    pub fn new() -> (r: BitVec)
        ensures
            r@ =~= Seq::<bool>::empty(),
    {
        BitVec { bits: Vec::new() }
    }

    pub fn len(&self) -> (r: usize)
        ensures
            r == self@.len(),
    {
        self.bits.len()
    }

    pub fn get(&self, i: usize) -> (r: bool)
        requires
            i < self@.len(),
        ensures
            r == self@[i as int],
    {
        self.bits[i]
    }

    pub fn push(&mut self, b: bool)
        ensures
            final(self)@ == old(self)@.push(b),
    {
        self.bits.push(b);
    }

    /// Move every bit of `other` onto the end of this sequence, leaving
    /// `other` empty.
    pub fn append(&mut self, other: &mut BitVec)
        ensures
            final(self)@ == old(self)@ + old(other)@,
            final(other)@ =~= Seq::<bool>::empty(),
    {
        self.bits.append(&mut other.bits);
    }

    /// `len` copies of one bit.
    pub fn repeat(bit: bool, len: usize) -> (r: BitVec)
        ensures
            r@ =~= Seq::new(len as nat, |i: int| bit),
    {
        let mut bits: Vec<bool> = Vec::new();
        let mut i: usize = 0;
        while i < len
            invariant
                i <= len,
                bits@ =~= Seq::new(i as nat, |j: int| bit),
            decreases len - i,
        {
            bits.push(bit);
            i = i + 1;
        }
        BitVec { bits }
    }

    /// `len` cleared bits.
    pub fn zero(len: usize) -> (r: BitVec)
        ensures
            r@ =~= zero_bits(len as nat),
    {
        Self::repeat(false, len)
    }

    /// `len` set bits.
    pub fn one(len: usize) -> (r: BitVec)
        ensures
            r@ =~= Seq::new(len as nat, |i: int| true),
    {
        Self::repeat(true, len)
    }

    /// Overwrite every bit with `value`, keeping the length.
    pub fn fill(&mut self, value: bool)
        ensures
            final(self)@ =~= Seq::new(old(self)@.len(), |i: int| value),
    {
        let n = self.bits.len();
        let mut i: usize = 0;
        while i < n
            invariant
                i <= n,
                self@.len() == n,
                forall|j: int| 0 <= j < i ==> self@[j] == value,
            decreases n - i,
        {
            self.bits.set(i, value);
            i = i + 1;
        }
    }

    /// XOR `rhs` into this sequence, bit by bit; only defined between
    /// equal-length sequences.
    pub fn xor_assign(&mut self, rhs: &BitVec)
        requires
            old(self)@.len() == rhs@.len(),
        ensures
            final(self)@ =~= xor_bits(old(self)@, rhs@),
    {
        let ghost orig = self@;
        let n = self.bits.len();
        let mut i: usize = 0;
        while i < n
            invariant
                i <= n,
                self@.len() == n,
                rhs@.len() == n,
                orig.len() == n,
                forall|j: int| 0 <= j < i ==> self@[j] == (orig[j] != rhs@[j]),
                forall|j: int| i <= j < n ==> self@[j] == orig[j],
            decreases n - i,
        {
            let b = self.bits[i] != rhs.bits[i];
            self.bits.set(i, b);
            i = i + 1;
        }
    }

    /// Overwrite every bit with a fresh draw from the generator, keeping
    /// the length; nothing is known of the bits drawn.
    pub fn randomize(&mut self, prg: &mut Prg)
        ensures
            final(self)@.len() == old(self)@.len(),
    {
        let n = self.bits.len();
        let mut i: usize = 0;
        while i < n
            invariant
                i <= n,
                self@.len() == n,
            decreases n - i,
        {
            let b = prg.rand_bool();
            self.bits.set(i, b);
            i = i + 1;
        }
    }

    /// A fresh sequence of `len` random bits.
    pub fn random(prg: &mut Prg, len: usize) -> (r: BitVec)
        ensures
            r@.len() == len,
    {
        let mut ret = Self::zero(len);
        ret.randomize(prg);
        ret
    }

    /// Append this sequence's wire image: the 8-byte little-endian bit
    /// count, then the packed bits, zero-padded to whole bytes.
    pub fn write(&self, out: &mut Vec<u8>)
        ensures
            final(out)@ =~= old(out)@ + serial(self@),
    {
        let ghost orig = out@;
        let ghost s = self@;
        // the length prefix
        let mut hdr: Vec<u8> = Vec::new();
        let mut n: usize = self.bits.len();
        let mut j: usize = 0;
        while j < 8
            invariant
                j <= 8,
                hdr@.len() == j,
                hdr@ + le_bytes(n as nat, (8 - j) as nat) =~= le_bytes(s.len(), 8),
            decreases 8 - j,
        {
            proof {
                let k = (8 - j) as nat;
                assert(le_bytes(n as nat, k) =~= seq![(n as nat % 256) as u8] + le_bytes(
                    n as nat / 256,
                    (k - 1) as nat,
                ));
                assert(hdr@ + le_bytes(n as nat, k) =~= hdr@.push((n % 256) as u8) + le_bytes(
                    (n / 256) as nat,
                    (k - 1) as nat,
                ));
            }
            hdr.push((n % 256) as u8);
            n = n / 256;
            j = j + 1;
        }
        proof {
            assert(le_bytes(n as nat, 0) =~= Seq::<u8>::empty());
            assert(hdr@ =~= le_bytes(s.len(), 8));
        }
        out.append(&mut hdr);
        // the packed payload
        let mut padded: Vec<bool> = Vec::new();
        let mut i: usize = 0;
        while i < self.bits.len()
            invariant
                i <= self.bits@.len(),
                padded@ =~= self.bits@.take(i as int),
            decreases self.bits@.len() - i,
        {
            let b = self.bits[i];
            padded.push(b);
            i = i + 1;
        }
        proof {
            assert(padded@ =~= s);
        }
        let pad = (8 - (self.bits.len() % 8)) % 8;
        let mut k: usize = 0;
        while k < pad
            invariant
                k <= pad,
                padded@ =~= s + zero_bits(k as nat),
            decreases pad - k,
        {
            proof {
                assert((s + zero_bits(k as nat)).push(false) =~= s + zero_bits((k + 1) as nat));
            }
            padded.push(false);
            k = k + 1;
        }
        proof {
            assert(padded@.len() == s.len() + pad);
            assert(padded@.len() % 8 == 0);
            assert(padded@.len() / 8 == ceil_div8(s.len()));
        }
        let mut bytes = from_bits(padded.as_slice());
        proof {
            let m = ceil_div8(s.len());
            lemma_zero_bits_value(pad as nat);
            lemma_nat_of_bits_concat(s, zero_bits(pad as nat));
            lemma_nat_of_bits_bound(padded@);
            lemma_le_bytes_len(nat_of_bits(s), m);
            lemma_le_bytes_value(nat_of_bits(s), m);
            lemma_nat_of_bytes_injective(bytes@, le_bytes(nat_of_bits(s), m));
            assert(bytes@ =~= le_bytes(nat_of_bits(s), m));
        }
        out.append(&mut bytes);
        proof {
            assert(out@ =~= orig + serial(s));
        }
    }

    /// Decode one sequence from the front of `data`, returning it with the
    /// number of bytes consumed; a short or oversized image is refused.
    pub fn read(data: &[u8]) -> (r: Result<(BitVec, usize), Error>)
        ensures
            match r {
                Ok(p) => parse(data@) == Some((p.0@, p.1 as int)),
                Err(e) => parse(data@) is None && e == Error::FormatError,
            },
    {
        if data.len() < 8 {
            return Err(Error::FormatError);
        }
        let hdr = vstd::slice::slice_subrange(data, 0, 8);
        proof {
            assert(hdr@ =~= data@.take(8));
        }
        let n_us: usize = match decode_len(hdr) {
            Some(n) => n,
            None => {
                return Err(Error::FormatError);
            },
        };
        // the packed payload
        let m: usize = n_us / 8 + (if n_us % 8 == 0 {
            0
        } else {
            1
        });
        if data.len() - 8 < m {
            return Err(Error::FormatError);
        }
        let payload = vstd::slice::slice_subrange(data, 8, 8 + m);
        let mut bits = to_bits(payload);
        proof {
            assert(payload@ =~= data@.subrange(8, 8 + m as int));
            lemma_bits_of_bytes_value(payload@);
            crate::bits::lemma_nat_of_bits_injective(bits@, bits_of_bytes(payload@));
            assert(bits@ =~= bits_of_bytes(payload@));
        }
        bits.truncate(n_us);
        proof {
            assert(bits@ =~= bits_of_bytes(data@.subrange(8, 8 + m as int)).take(n_us as int));
        }
        Ok((BitVec { bits }, 8 + m))
    }

    /// The bit of a one-bit sequence.
    pub fn to_bool(&self) -> (r: bool)
        requires
            self@.len() == 1,
        ensures
            r == self@[0],
    {
        self.bits[0]
    }

    /// A one-bit sequence holding the given bit.
    pub fn from_bool(b: bool) -> (r: BitVec)
        ensures
            r@ =~= seq![b],
    {
        let mut bits: Vec<bool> = Vec::new();
        bits.push(b);
        BitVec { bits }
    }

    /// The 32 bits of a word, least significant first.
    pub fn from_u32(x: u32) -> (r: BitVec)
        ensures
            r@.len() == 32,
            nat_of_bits(r@) == x,
    {
        let b0 = x as u8;
        let b1 = (x >> 8u32) as u8;
        let b2 = (x >> 16u32) as u8;
        let b3 = (x >> 24u32) as u8;
        let mut bytes: Vec<u8> = Vec::new();
        bytes.push(b0);
        bytes.push(b1);
        bytes.push(b2);
        bytes.push(b3);
        proof {
            assert(x == (x as u8 as u32) + 256 * ((x >> 8u32) as u8 as u32) + 65536 * ((x
                >> 16u32) as u8 as u32) + 16777216 * ((x >> 24u32) as u8 as u32)) by (bit_vector);
            assert(bytes@ =~= seq![b0, b1, b2, b3]);
            lemma_four_bytes_value(x, b0, b1, b2, b3, bytes@);
        }
        let bits = to_bits(bytes.as_slice());
        BitVec { bits }
    }

    /// The word whose 32 bits, least significant first, are these.
    pub fn to_u32(&self) -> (r: u32)
        requires
            self@.len() == 32,
        ensures
            r as nat == nat_of_bits(self@),
    {
        let bytes = from_bits(self.bits.as_slice());
        let b0 = bytes[0];
        let b1 = bytes[1];
        let b2 = bytes[2];
        let b3 = bytes[3];
        let r = (b0 as u32) + 256 * (b1 as u32) + 65536 * (b2 as u32) + 16777216 * (b3 as u32);
        proof {
            assert(bytes@ =~= seq![b0, b1, b2, b3]);
            lemma_four_bytes_value(r, b0, b1, b2, b3, bytes@);
        }
        r
    }

    /// Receive one length-prefixed sequence from a channel. A short
    /// channel fails the round as channel trouble; a declared bit count
    /// beyond this machine fails it as a format fault.
    pub fn recv(ch: &mut crate::channel::LocalChannel) -> (r: Result<BitVec, Error>)
        ensures
            match r {
                Ok(bv) => {
                    &&& parse(old(ch)@) is Some
                    &&& bv@ == parse(old(ch)@).unwrap().0
                    &&& final(ch)@ =~= old(ch)@.skip(parse(old(ch)@).unwrap().1)
                },
                Err(e) => {
                    &&& parse(old(ch)@) is None
                    &&& (e == Error::FormatError <==> (old(ch)@.len() >= 8 && nat_of_bytes(
                        old(ch)@.take(8),
                    ) > usize::MAX))
                    &&& (e == Error::FormatError || e == Error::ChannelError)
                    &&& (old(ch)@.len() < 8 ==> final(ch)@ =~= old(ch)@)
                    &&& (old(ch)@.len() >= 8 ==> final(ch)@ =~= old(ch)@.skip(8))
                },
            },
    {
        let ghost orig = ch@;
        let hdr = match ch.read_exact(8) {
            Ok(v) => v,
            Err(e) => {
                return Err(e);
            },
        };
        let n_us: usize = match decode_len(hdr.as_slice()) {
            Some(n) => n,
            None => {
                return Err(Error::FormatError);
            },
        };
        let m: usize = n_us / 8 + (if n_us % 8 == 0 {
            0
        } else {
            1
        });
        let payload = match ch.read_exact(m) {
            Ok(v) => v,
            Err(e) => {
                proof {
                    assert(orig.skip(8).len() < m);
                }
                return Err(e);
            },
        };
        let mut bits = to_bits(payload.as_slice());
        proof {
            assert(payload@ =~= orig.skip(8).take(m as int));
            assert(payload@ =~= orig.subrange(8, 8 + m as int));
            lemma_bits_of_bytes_value(payload@);
            crate::bits::lemma_nat_of_bits_injective(bits@, bits_of_bytes(payload@));
            assert(bits@ =~= bits_of_bytes(payload@));
        }
        bits.truncate(n_us);
        proof {
            assert(bits@ =~= bits_of_bytes(orig.subrange(8, 8 + m as int)).take(n_us as int));
            assert(ch@ =~= orig.skip(8).skip(m as int));
            assert(ch@ =~= orig.skip(8 + m as int));
        }
        Ok(BitVec { bits })
    }
}

} // verus!
